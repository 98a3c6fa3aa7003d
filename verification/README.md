# tsgo_strict_core

A strict-only TypeScript checker around the native compiler (`tsgo`/`tsc`
from TypeScript 7): it selects the files that should be checked strictly,
writes a transient tsconfig that turns `strict` on for exactly those files,
runs the compiler once and reports the errors it finds in them.

The library in `src/` holds every decision of that pipeline, verified with
Verus: pragma detection, the plugin's `paths`/`excludePattern` selection,
the `extends` chain and the fields it inherits, the transient config, the
parsing of the compiler's output, the filtering, sorting and formatting of
the report, and the search order for the compiler binary. `src/laws.rs`
states properties that hold across those functions.

`app/` is the command line around it: reading files, walking directories,
spawning the compiler and printing.

Layout of `src/`:

- `pragma`, `selection`, `subset`, `files`, `globs`, `sorting`, `order`:
  which files are checked.
- `json`, `config`, `tsconfig`, `discovery`, `v6_compat`, `temp_config`:
  tsconfig files, the `extends` chain, type roots and the transient config.
- `spawn`, `parse`, `pipeline`, `diff`, `format`, `options`: the compiler's
  output, the decisions of a run and the reports.
- `standalone`: the two-pass checker that diffs a strict run against a
  baseline run.
- `text`, `lines`, `paths`, `posix`, `perf`, `errors`, `diagnostics`:
  shared text, path and record types.
