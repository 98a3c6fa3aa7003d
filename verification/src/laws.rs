//! Properties that hold across the library's functions.
use vstd::prelude::*;
use crate::config::{
    spec_normalize_base_url, spec_rewrite_relative_paths, spec_rewrite_relative_type_roots,
};
use crate::diagnostics::{category_name, Category, Diagnostic};
use crate::diff::{
    in_baseline, lemma_flatten_idempotent, spec_diff, spec_flatten_message, spec_normalize_key, spec_normalize_path,
};
use crate::format::{file_text, lemma_sort_sorted, report_sorted, sort_diagnostics};
use crate::json::{JVal, JsonValue};
use crate::pipeline::{
    errors_only, in_norm_set, keep_in_set, keep_reachable, spec_effective_targets, spec_filter_to_targets,
    spec_orphan_filter, targets_keep,
};
use crate::pragma::{hint_rank, lemma_joined_lines, spec_classify_head, PragmaHint};
use crate::selection::{plugin_paths, spec_is_strict_file, strict_filter};
use crate::order::{text_lt, texts_lt};
use crate::sorting::{
    first_origin, item_key, key_kept, lemma_sorted_dedup_of_sorted, sorted_by_key, sorted_dedup_of,
};
use crate::temp_config::{spec_temp_config, spec_temp_options, str_array, with_strict, with_types};
use crate::text::{decimal, digit_char, spec_lower, spec_lower_seq, spec_slashes};
use crate::tsconfig::StrictPluginConfig;
use crate::v6_compat::{law_v6_shims_leave_other_keys, shim_key, spec_v6_shims};

verus! {

/// A key other than the ones the temp config's rewrites touch keeps what
/// `with_strict` gave it.
proof fn lemma_rewrites_keep(co: Map<Seq<char>, JVal>, k: Seq<char>, b: Seq<char>, anchor: Seq<char>, types: Option<Seq<Seq<char>>>)
    requires
        k != "baseUrl"@,
        k != "paths"@,
        k != "typeRoots"@,
        k != "types"@,
    ensures
        spec_rewrite_relative_type_roots(spec_normalize_base_url(co, b), anchor).dom().contains(k) == co.dom().contains(k),
        co.dom().contains(k) ==> spec_rewrite_relative_type_roots(spec_normalize_base_url(co, b), anchor)[k] == co[k],
        spec_rewrite_relative_type_roots(spec_rewrite_relative_paths(co, anchor), anchor).dom().contains(k) == co.dom().contains(k),
        co.dom().contains(k) ==> spec_rewrite_relative_type_roots(spec_rewrite_relative_paths(co, b), anchor)[k] == co[k],
        with_types(co, types).dom().contains(k) == co.dom().contains(k),
        co.dom().contains(k) ==> with_types(co, types)[k] == co[k],
{
}

/// `strict` and `noEmit` are none of the keys that the rewrites touch.
proof fn lemma_flag_keys_distinct()
    ensures
        "strict"@ != "baseUrl"@ && "strict"@ != "paths"@ && "strict"@ != "typeRoots"@ && "strict"@ != "types"@,
        "noEmit"@ != "baseUrl"@ && "noEmit"@ != "paths"@ && "noEmit"@ != "typeRoots"@ && "noEmit"@ != "types"@,
        !shim_key("strict"@),
        !shim_key("noEmit"@),
        "compilerOptions"@ != "files"@ && "compilerOptions"@ != "extends"@ && "files"@ != "extends"@,
{
    reveal_strlit("compilerOptions");
    reveal_strlit("files");
    reveal_strlit("extends");
    assert("compilerOptions"@.len() == 15 && "files"@.len() == 5 && "extends"@.len() == 7);
    reveal_strlit("ignoreDeprecations");
    reveal_strlit("esModuleInterop");
    reveal_strlit("allowSyntheticDefaultImports");
    reveal_strlit("alwaysStrict");
    reveal_strlit("noUncheckedSideEffectImports");
    reveal_strlit("libReplacement");
    assert("ignoreDeprecations"@.len() == 18 && "esModuleInterop"@.len() == 15);
    assert("allowSyntheticDefaultImports"@.len() == 28 && "alwaysStrict"@.len() == 12);
    assert("noUncheckedSideEffectImports"@.len() == 28 && "libReplacement"@.len() == 14);
    reveal_strlit("strict");
    reveal_strlit("noEmit");
    reveal_strlit("baseUrl");
    reveal_strlit("paths");
    reveal_strlit("typeRoots");
    reveal_strlit("types");
    assert("strict"@.len() == 6 && "types"@.len() == 5 && "paths"@.len() == 5);
    assert("baseUrl"@.len() == 7 && "typeRoots"@.len() == 9 && "noEmit"@.len() == 6);
}

/// The transient tsconfig always checks strictly and emits nothing:
/// whatever the project's options, its `compilerOptions` set `strict` and
/// `noEmit` to `true`; it pins exactly the given files; and it `extends` the
/// project's tsconfig exactly when there is no `baseUrl` to inline.
pub proof fn law_temp_config_is_strict(
    project_path: Seq<char>,
    raw_config: JsonValue,
    files: Seq<Seq<char>>,
    base_url: Option<Seq<char>>,
    effective: Option<Map<Seq<char>, JVal>>,
    type_roots_dir: Option<Seq<char>>,
    types: Option<Seq<Seq<char>>>,
)
    ensures
        ({
            let root = spec_temp_config(
                project_path,
                raw_config,
                files,
                base_url,
                effective,
                type_roots_dir,
                types,
            );
            let co = spec_temp_options(project_path, raw_config, base_url, effective, type_roots_dir, types);
            &&& root.dom().contains("compilerOptions"@)
            &&& root["compilerOptions"@] == JVal::Object(co)
            &&& co.dom().contains("strict"@) && co["strict"@] == JVal::Bool(true)
            &&& co.dom().contains("noEmit"@) && co["noEmit"@] == JVal::Bool(true)
            &&& root.dom().contains("files"@) && root["files"@] == str_array(files)
            &&& root.dom().contains("extends"@) == (base_url is None)
        }),
{
    lemma_flag_keys_distinct();
    let leaf_dir = crate::paths::spec_parent_dir(project_path);
    let anchor = match type_roots_dir {
        Some(d) => d,
        None => leaf_dir,
    };
    let co0 = match base_url {
        Some(_) => match effective {
            Some(m) => m,
            None => Map::empty(),
        },
        None => crate::config::options_of(raw_config),
    };
    let s = with_strict(co0);
    assert(s.dom().contains("strict"@) && s["strict"@] == JVal::Bool(true));
    assert(s.dom().contains("noEmit"@) && s["noEmit"@] == JVal::Bool(true));
    let rewritten = match base_url {
        Some(b) => spec_rewrite_relative_type_roots(spec_normalize_base_url(s, b), anchor),
        None => spec_rewrite_relative_type_roots(spec_rewrite_relative_paths(s, leaf_dir), anchor),
    };
    match base_url {
        Some(b) => {
            lemma_rewrites_keep(s, "strict"@, b, anchor, types);
            lemma_rewrites_keep(s, "noEmit"@, b, anchor, types);
        },
        None => {
            lemma_rewrites_keep(s, "strict"@, leaf_dir, anchor, types);
            lemma_rewrites_keep(s, "noEmit"@, leaf_dir, anchor, types);
        },
    }
    let typed = with_types(rewritten, types);
    lemma_rewrites_keep(rewritten, "strict"@, leaf_dir, anchor, types);
    lemma_rewrites_keep(rewritten, "noEmit"@, leaf_dir, anchor, types);
    let eff = match base_url {
        Some(_) => typed,
        None => match effective {
            Some(m) => m,
            None => typed,
        },
    };
    assert(!shim_key("strict"@));
    assert(!shim_key("noEmit"@));
    law_v6_shims_leave_other_keys(typed, eff, "strict"@);
    law_v6_shims_leave_other_keys(typed, eff, "noEmit"@);
}

/// A file is among the decided ones exactly when some entry names it and
/// the decision for that entry is strict.
proof fn lemma_strict_filter_members(
    files: Seq<(String, PragmaHint)>,
    plugin: Option<StrictPluginConfig>,
    config_dir: Seq<char>,
    exclude: Option<Seq<Seq<char>>>,
    x: Seq<char>,
)
    ensures
        strict_filter(files, plugin, config_dir, exclude).contains(x) <==> exists|i: int|
            0 <= i < files.len() && #[trigger] files[i].0@ == x && spec_is_strict_file(
                files[i].0@,
                files[i].1,
                plugin_paths(plugin),
                config_dir,
                match exclude {
                    Some(ps) => crate::globs::any_glob_matches(ps, spec_slashes(files[i].0@)),
                    None => false,
                },
            ),
    decreases files.len(),
{
    if files.len() > 0 {
        let rest = files.drop_last();
        lemma_strict_filter_members(rest, plugin, config_dir, exclude, x);
        let r = strict_filter(rest, plugin, config_dir, exclude);
        let f = files.last();
        assert forall|i: int| 0 <= i < rest.len() implies #[trigger] rest[i] == files[i] by {}
        if strict_filter(files, plugin, config_dir, exclude).contains(x) {
            let k = choose|k: int| 0 <= k < strict_filter(files, plugin, config_dir, exclude).len()
                && strict_filter(files, plugin, config_dir, exclude)[k] == x;
            if r.contains(x) {
                let i = choose|i: int| 0 <= i < rest.len() && #[trigger] rest[i].0@ == x && spec_is_strict_file(
                    rest[i].0@,
                    rest[i].1,
                    plugin_paths(plugin),
                    config_dir,
                    match exclude {
                        Some(ps) => crate::globs::any_glob_matches(ps, spec_slashes(rest[i].0@)),
                        None => false,
                    },
                );
                assert(files[i] == rest[i]);
            } else {
                assert(k == r.len());
                assert(files[files.len() - 1] == f);
            }
        }
        if exists|i: int|
            0 <= i < files.len() && #[trigger] files[i].0@ == x && spec_is_strict_file(
                files[i].0@,
                files[i].1,
                plugin_paths(plugin),
                config_dir,
                match exclude {
                    Some(ps) => crate::globs::any_glob_matches(ps, spec_slashes(files[i].0@)),
                    None => false,
                },
            ) {
            let i = choose|i: int|
                0 <= i < files.len() && #[trigger] files[i].0@ == x && spec_is_strict_file(
                    files[i].0@,
                    files[i].1,
                    plugin_paths(plugin),
                    config_dir,
                    match exclude {
                        Some(ps) => crate::globs::any_glob_matches(ps, spec_slashes(files[i].0@)),
                        None => false,
                    },
                );
            if i < files.len() - 1 {
                assert(rest[i] == files[i]);
                assert(r.contains(x));
                let k = choose|k: int| 0 <= k < r.len() && r[k] == x;
                assert(strict_filter(files, plugin, config_dir, exclude)[k] == x);
            } else {
                let full = strict_filter(files, plugin, config_dir, exclude);
                assert(full[full.len() - 1] == x);
            }
        }
    }
}

/// Pragmas beat the configuration: a file marked `@ts-strict` is always
/// among the strict candidates (as a path), whatever `paths` and
/// `excludePattern` say.
pub proof fn law_strict_pragma_includes(
    files: Seq<(String, PragmaHint)>,
    plugin: Option<StrictPluginConfig>,
    config_dir: Seq<char>,
    exclude: Option<Seq<Seq<char>>>,
    candidates: Seq<Seq<char>>,
    i: int,
)
    requires
        sorted_dedup_of(candidates, strict_filter(files, plugin, config_dir, exclude), true),
        0 <= i < files.len(),
        files[i].1 == PragmaHint::Strict,
    ensures
        key_kept(candidates, files[i].0@, true),
{
    let x = files[i].0@;
    lemma_strict_filter_members(files, plugin, config_dir, exclude, x);
    let sf = strict_filter(files, plugin, config_dir, exclude);
    assert(sf.contains(x));
    let k = choose|k: int| 0 <= k < sf.len() && sf[k] == x;
    assert(key_kept(candidates, sf[k], true));
}

/// `@ts-strict-ignore` beats everything: a file whose every entry is
/// marked `@ts-strict-ignore` is never a strict candidate, whatever the
/// configuration and other pragmas say.
pub proof fn law_ignore_pragma_excludes(
    files: Seq<(String, PragmaHint)>,
    plugin: Option<StrictPluginConfig>,
    config_dir: Seq<char>,
    exclude: Option<Seq<Seq<char>>>,
    candidates: Seq<Seq<char>>,
    x: Seq<char>,
)
    requires
        sorted_dedup_of(candidates, strict_filter(files, plugin, config_dir, exclude), true),
        forall|j: int| 0 <= j < files.len() && #[trigger] files[j].0@ == x ==> files[j].1 == PragmaHint::Ignore,
    ensures
        !candidates.contains(x),
{
    lemma_strict_filter_members(files, plugin, config_dir, exclude, x);
    let sf = strict_filter(files, plugin, config_dir, exclude);
    if candidates.contains(x) {
        let c = choose|c: int| 0 <= c < candidates.len() && candidates[c] == x;
        assert(first_origin(candidates[c], sf, true));
        let k = choose|k: int| 0 <= k < sf.len() && #[trigger] sf[k] == candidates[c] && crate::sorting::first_with_key(sf, k, true);
        assert(sf.contains(x));
    }
}

/// Without a plugin block every file that is not marked
/// `@ts-strict-ignore` is a strict candidate.
pub proof fn law_no_plugin_includes_unignored(
    files: Seq<(String, PragmaHint)>,
    config_dir: Seq<char>,
    exclude: Option<Seq<Seq<char>>>,
    candidates: Seq<Seq<char>>,
    i: int,
)
    requires
        sorted_dedup_of(candidates, strict_filter(files, None, config_dir, exclude), true),
        0 <= i < files.len(),
        files[i].1 != PragmaHint::Ignore,
    ensures
        key_kept(candidates, files[i].0@, true),
{
    let x = files[i].0@;
    lemma_strict_filter_members(files, None, config_dir, exclude, x);
    let sf = strict_filter(files, None, config_dir, exclude);
    assert(sf.contains(x));
    let k = choose|k: int| 0 <= k < sf.len() && sf[k] == x;
    assert(key_kept(candidates, sf[k], true));
}

/// Every path kept by the subset intersection is a candidate.
proof fn lemma_keep_in_set_sub(paths: Seq<Seq<char>>, set: Seq<Seq<char>>, x: Seq<char>)
    ensures
        keep_in_set(paths, set).contains(x) ==> paths.contains(x),
    decreases paths.len(),
{
    if paths.len() > 0 {
        lemma_keep_in_set_sub(paths.drop_last(), set, x);
        let r = keep_in_set(paths.drop_last(), set);
        if keep_in_set(paths, set).contains(x) {
            let k = choose|k: int| 0 <= k < keep_in_set(paths, set).len() && keep_in_set(paths, set)[k] == x;
            if k < r.len() {
                assert(keep_in_set(paths, set)[k] == r[k]);
                assert(r.contains(x));
                let j = choose|j: int| 0 <= j < paths.drop_last().len() && paths.drop_last()[j] == x;
                assert(paths[j] == x);
            } else {
                assert(paths[paths.len() - 1] == x);
            }
        }
    }
}

/// Every path kept by the reachable filter is a candidate.
proof fn lemma_keep_reachable_sub(paths: Seq<Seq<char>>, set: Seq<Seq<char>>, x: Seq<char>)
    ensures
        keep_reachable(paths, set).contains(x) ==> paths.contains(x),
    decreases paths.len(),
{
    if paths.len() > 0 {
        lemma_keep_reachable_sub(paths.drop_last(), set, x);
        let r = keep_reachable(paths.drop_last(), set);
        if keep_reachable(paths, set).contains(x) {
            let k = choose|k: int| 0 <= k < keep_reachable(paths, set).len() && keep_reachable(paths, set)[k] == x;
            if k < r.len() {
                assert(keep_reachable(paths, set)[k] == r[k]);
                assert(r.contains(x));
                let j = choose|j: int| 0 <= j < paths.drop_last().len() && paths.drop_last()[j] == x;
                assert(paths[j] == x);
            } else {
                assert(paths[paths.len() - 1] == x);
            }
        }
    }
}

/// The reachable set only ever filters: every file selected for checking
/// is a project file that the decision made strict, never a file that only
/// the compiler's reachable set names.
pub proof fn law_targets_come_from_project_files(
    files: Seq<(String, PragmaHint)>,
    plugin: Option<StrictPluginConfig>,
    config_dir: Seq<char>,
    exclude: Option<Seq<Seq<char>>>,
    candidates: Seq<Seq<char>>,
    reachable: Option<Seq<Seq<char>>>,
    subset: Seq<Seq<char>>,
    x: Seq<char>,
)
    requires
        sorted_dedup_of(candidates, strict_filter(files, plugin, config_dir, exclude), true),
        spec_orphan_filter(spec_effective_targets(candidates, subset), reachable, subset).contains(x),
    ensures
        exists|i: int| 0 <= i < files.len() && #[trigger] files[i].0@ == x && files[i].1 != PragmaHint::Ignore,
{
    let t = spec_effective_targets(candidates, subset);
    match reachable {
        Some(rs) => if subset.len() == 0 && t.len() > 0 {
            lemma_keep_reachable_sub(t, rs, x);
        },
        None => {},
    }
    assert(t.contains(x));
    if subset.len() > 0 {
        lemma_keep_in_set_sub(candidates, subset, x);
    }
    assert(candidates.contains(x));
    let c = choose|c: int| 0 <= c < candidates.len() && candidates[c] == x;
    let sf = strict_filter(files, plugin, config_dir, exclude);
    assert(first_origin(candidates[c], sf, true));
    let k = choose|k: int| 0 <= k < sf.len() && #[trigger] sf[k] == candidates[c] && crate::sorting::first_with_key(sf, k, true);
    assert(sf.contains(x));
    lemma_strict_filter_members(files, plugin, config_dir, exclude, x);
}

/// Comparing a run with itself reports nothing new: the diff of a list of
/// diagnostics against itself is empty.
pub proof fn law_diff_with_itself_is_empty(ds: Seq<Diagnostic>)
    ensures
        spec_diff(ds, ds).len() == 0,
{
    let pred = |d: Diagnostic| !in_baseline(d, ds);
    assert forall|i: int| 0 <= i < ds.len() implies !pred(#[trigger] ds[i]) by {
        assert(in_baseline(ds[i], ds));
    }
    assert(ds.all(|x: Diagnostic| !pred(x)));
    ds.lemma_all_neg_filter_empty(pred);
}

/// Normalizing a path twice is normalizing it once.
pub proof fn law_normalize_path_idempotent(p: Seq<char>)
    ensures
        spec_normalize_path(spec_normalize_path(p)) == spec_normalize_path(p),
{
    let n = spec_normalize_path(p);
    let m = spec_normalize_path(n);
    assert(m.len() == n.len());
    assert forall|i: int| 0 <= i < n.len() implies #[trigger] m[i] == n[i] by {
        let c = if p[i] == '\\' {
            '/'
        } else {
            p[i]
        };
        assert(spec_slashes(p)[i] == c);
        assert(n[i] == spec_lower(c));
        assert(spec_slashes(n)[i] == (if n[i] == '\\' {
            '/'
        } else {
            n[i]
        }));
    }
    assert(m =~= n);
}


/// Every path that the subset intersection keeps is named by the subset.
proof fn lemma_keep_in_set_named(paths: Seq<Seq<char>>, set: Seq<Seq<char>>, x: Seq<char>)
    ensures
        keep_in_set(paths, set).contains(x) ==> in_norm_set(x, set),
    decreases paths.len(),
{
    if paths.len() > 0 {
        lemma_keep_in_set_named(paths.drop_last(), set, x);
        let r = keep_in_set(paths.drop_last(), set);
        if keep_in_set(paths, set).contains(x) {
            let k = choose|k: int| 0 <= k < keep_in_set(paths, set).len() && keep_in_set(paths, set)[k] == x;
            if k < r.len() {
                assert(keep_in_set(paths, set)[k] == r[k]);
                assert(r.contains(x));
            }
        }
    }
}

/// A subset given on the command line bounds what is checked: every file
/// selected for checking is one that the subset names (compared as
/// normalized paths), whatever the reachable set holds.
pub proof fn law_subset_bounds_targets(
    candidates: Seq<Seq<char>>,
    reachable: Option<Seq<Seq<char>>>,
    subset: Seq<Seq<char>>,
    x: Seq<char>,
)
    requires
        subset.len() > 0,
        spec_orphan_filter(spec_effective_targets(candidates, subset), reachable, subset).contains(x),
    ensures
        in_norm_set(x, subset),
{
    lemma_keep_in_set_named(candidates, subset, x);
}

/// Every diagnostic of the filtered list is kept by the targets and is one
/// of the input.
proof fn lemma_filter_to_targets_members(ds: Seq<Diagnostic>, targets: Seq<Seq<char>>, d: Diagnostic)
    ensures
        spec_filter_to_targets(ds, targets).contains(d) ==> targets_keep(d, targets) && ds.contains(d),
    decreases ds.len(),
{
    if ds.len() > 0 {
        lemma_filter_to_targets_members(ds.drop_last(), targets, d);
        let r = spec_filter_to_targets(ds.drop_last(), targets);
        let f = spec_filter_to_targets(ds, targets);
        if f.contains(d) {
            let k = choose|k: int| 0 <= k < f.len() && f[k] == d;
            if k < r.len() {
                assert(f[k] == r[k]);
                assert(r.contains(d));
                let j = choose|j: int| 0 <= j < ds.drop_last().len() && ds.drop_last()[j] == d;
                assert(ds[j] == d);
            } else {
                assert(ds[ds.len() - 1] == d);
            }
        }
    }
}

/// Every diagnostic that `errors_only` keeps is an error of the input.
proof fn lemma_errors_only_members(ds: Seq<Diagnostic>, d: Diagnostic)
    ensures
        errors_only(ds).contains(d) ==> d.category == Category::Error && ds.contains(d),
    decreases ds.len(),
{
    if ds.len() > 0 {
        lemma_errors_only_members(ds.drop_last(), d);
        let r = errors_only(ds.drop_last());
        let f = errors_only(ds);
        if f.contains(d) {
            let k = choose|k: int| 0 <= k < f.len() && f[k] == d;
            if k < r.len() {
                assert(f[k] == r[k]);
                assert(r.contains(d));
                let j = choose|j: int| 0 <= j < ds.drop_last().len() && ds.drop_last()[j] == d;
                assert(ds[j] == d);
            } else {
                assert(ds[ds.len() - 1] == d);
            }
        }
    }
}

/// What a run reports is strict errors about the selected files only:
/// every reported diagnostic is an error that the compiler gave, and names
/// no file or one of the targets (compared as normalized paths). The
/// diagnostics about every other file the compiler reached are filtered
/// out.
pub proof fn law_reports_only_target_errors(ds: Seq<Diagnostic>, targets: Seq<Seq<char>>, d: Diagnostic)
    requires
        errors_only(spec_filter_to_targets(ds, targets)).contains(d),
    ensures
        d.category == Category::Error,
        ds.contains(d),
        match d.file {
            None => true,
            Some(f) => in_norm_set(f@, targets),
        },
{
    lemma_errors_only_members(spec_filter_to_targets(ds, targets), d);
    lemma_filter_to_targets_members(ds, targets, d);
}

/// Diagnostics are reported sorted by file, line, column, code and message,
/// each one as often as the run gave it: the report order is a sorted
/// permutation of the diagnostics.
pub proof fn law_report_is_sorted_permutation(ds: Seq<Diagnostic>)
    ensures
        report_sorted(sort_diagnostics(ds)),
        sort_diagnostics(ds).to_multiset() == ds.to_multiset(),
{
    lemma_sort_sorted(ds);
}

/// A sequence sorted by key stays sorted when its last item goes.
proof fn lemma_sorted_drop_last(paths: Seq<Seq<char>>)
    requires
        paths.len() > 0,
        sorted_by_key(paths, true),
    ensures
        sorted_by_key(paths.drop_last(), true),
{
    let d = paths.drop_last();
    assert forall|i: int, j: int| 0 <= i < j < d.len() implies texts_lt(
        #[trigger] item_key(d[i], true),
        #[trigger] item_key(d[j], true),
    ) by {
        assert(d[i] == paths[i] && d[j] == paths[j]);
    }
}

/// Appending an item whose key exceeds those of every item of `from`
/// keeps a sorted subsequence of `from` sorted.
proof fn lemma_sorted_push(rest: Seq<Seq<char>>, paths: Seq<Seq<char>>)
    requires
        paths.len() > 0,
        sorted_by_key(paths, true),
        sorted_by_key(rest, true),
        forall|x: Seq<char>| rest.contains(x) ==> paths.drop_last().contains(x),
    ensures
        sorted_by_key(rest.push(paths.last()), true),
{
    let out = rest.push(paths.last());
    assert forall|i: int, j: int| 0 <= i < j < out.len() implies texts_lt(
        #[trigger] item_key(out[i], true),
        #[trigger] item_key(out[j], true),
    ) by {
        if j < rest.len() {
            assert(out[i] == rest[i] && out[j] == rest[j]);
        } else {
            assert(out[i] == rest[i]);
            assert(rest.contains(rest[i]));
            let k = choose|k: int| 0 <= k < paths.drop_last().len() && paths.drop_last()[k] == rest[i];
            assert(paths[k] == rest[i]);
            assert(out[j] == paths[paths.len() - 1]);
        }
    }
}

/// The subset intersection keeps a sorted sequence sorted.
proof fn lemma_keep_in_set_sorted(paths: Seq<Seq<char>>, set: Seq<Seq<char>>)
    requires
        sorted_by_key(paths, true),
    ensures
        sorted_by_key(keep_in_set(paths, set), true),
    decreases paths.len(),
{
    if paths.len() > 0 {
        lemma_sorted_drop_last(paths);
        lemma_keep_in_set_sorted(paths.drop_last(), set);
        let rest = keep_in_set(paths.drop_last(), set);
        assert forall|x: Seq<char>| rest.contains(x) implies paths.drop_last().contains(x) by {
            lemma_keep_in_set_sub(paths.drop_last(), set, x);
        }
        lemma_sorted_push(rest, paths);
    }
}

/// The reachable filter keeps a sorted sequence sorted.
proof fn lemma_keep_reachable_sorted(paths: Seq<Seq<char>>, set: Seq<Seq<char>>)
    requires
        sorted_by_key(paths, true),
    ensures
        sorted_by_key(keep_reachable(paths, set), true),
    decreases paths.len(),
{
    if paths.len() > 0 {
        lemma_sorted_drop_last(paths);
        lemma_keep_reachable_sorted(paths.drop_last(), set);
        let rest = keep_reachable(paths.drop_last(), set);
        assert forall|x: Seq<char>| rest.contains(x) implies paths.drop_last().contains(x) by {
            lemma_keep_reachable_sub(paths.drop_last(), set, x);
        }
        lemma_sorted_push(rest, paths);
    }
}

/// The files selected for checking come out sorted as paths, each path
/// once: the subset intersection and the reachable filter keep the order
/// of the sorted, deduplicated strict candidates. Listing them sorted
/// therefore lists them in the order they are checked.
pub proof fn law_targets_sorted_by_path(
    files: Seq<(String, PragmaHint)>,
    plugin: Option<StrictPluginConfig>,
    config_dir: Seq<char>,
    exclude: Option<Seq<Seq<char>>>,
    candidates: Seq<Seq<char>>,
    reachable: Option<Seq<Seq<char>>>,
    subset: Seq<Seq<char>>,
)
    requires
        sorted_dedup_of(candidates, strict_filter(files, plugin, config_dir, exclude), true),
    ensures
        sorted_by_key(spec_orphan_filter(spec_effective_targets(candidates, subset), reachable, subset), true),
{
    let t = spec_effective_targets(candidates, subset);
    if subset.len() > 0 {
        lemma_keep_in_set_sorted(candidates, subset);
    }
    match reachable {
        Some(rs) => if subset.len() == 0 && t.len() > 0 {
            lemma_keep_reachable_sorted(t, rs);
        },
        None => {},
    }
}

/// Listing the files (sorted as paths, each path once) shows exactly the
/// files a run checks, in the order it checks them.
pub proof fn law_listed_files_are_the_targets(
    files: Seq<(String, PragmaHint)>,
    plugin: Option<StrictPluginConfig>,
    config_dir: Seq<char>,
    exclude: Option<Seq<Seq<char>>>,
    candidates: Seq<Seq<char>>,
    reachable: Option<Seq<Seq<char>>>,
    subset: Seq<Seq<char>>,
    listed: Seq<Seq<char>>,
)
    requires
        sorted_dedup_of(candidates, strict_filter(files, plugin, config_dir, exclude), true),
        sorted_dedup_of(
            listed,
            spec_orphan_filter(spec_effective_targets(candidates, subset), reachable, subset),
            true,
        ),
    ensures
        listed == spec_orphan_filter(spec_effective_targets(candidates, subset), reachable, subset),
{
    law_targets_sorted_by_path(files, plugin, config_dir, exclude, candidates, reachable, subset);
    lemma_sorted_dedup_of_sorted(
        listed,
        spec_orphan_filter(spec_effective_targets(candidates, subset), reachable, subset),
        true,
    );
}

/// Where a pragma line stands in a file head does not matter: two heads
/// joined by a line break classify as the stronger of their two hints
/// (`@ts-strict-ignore` over `@ts-strict` over none), in either order.
pub proof fn law_pragma_heads_join(a: Seq<u8>, b: Seq<u8>)
    ensures
        hint_rank(spec_classify_head(a + seq![10u8] + b)) == if hint_rank(spec_classify_head(a)) >= hint_rank(
            spec_classify_head(b),
        ) {
            hint_rank(spec_classify_head(a))
        } else {
            hint_rank(spec_classify_head(b))
        },
        spec_classify_head(a + seq![10u8] + b) == spec_classify_head(b + seq![10u8] + a),
{
    lemma_joined_lines(a, b, PragmaHint::Ignore);
    lemma_joined_lines(a, b, PragmaHint::Strict);
    lemma_joined_lines(b, a, PragmaHint::Ignore);
    lemma_joined_lines(b, a, PragmaHint::Strict);
}

/// Flattening a diagnostic message that is already flat changes nothing.
pub proof fn law_flatten_message_idempotent(m: Seq<char>)
    ensures
        spec_flatten_message(spec_flatten_message(m)) == spec_flatten_message(m),
{
    lemma_flatten_idempotent(m);
}

/// A position or line number as the report compares it: absent counts as 0.
pub open spec fn position_or_zero(n: Option<u32>) -> int {
    match n {
        Some(x) => x as int,
        None => 0,
    }
}

/// The report lists diagnostics by file name, then line, then column, then
/// code, then message, each ascending: of two diagnostics in the sorted
/// report, the earlier one never has a later file name, nor (in the same
/// file) a later line, nor (on the same line) a later column, nor (at the
/// same position) a larger code, nor (with the same code) a later message.
pub proof fn law_report_order_ascending(ds: Seq<Diagnostic>, i: int, j: int)
    requires
        0 <= i < j < sort_diagnostics(ds).len(),
    ensures
        ({
            let a = sort_diagnostics(ds)[i];
            let b = sort_diagnostics(ds)[j];
            &&& !text_lt(file_text(b), file_text(a))
            &&& file_text(a) == file_text(b) ==> position_or_zero(a.line) <= position_or_zero(b.line)
            &&& file_text(a) == file_text(b) && position_or_zero(a.line) == position_or_zero(b.line)
                ==> position_or_zero(a.column) <= position_or_zero(b.column)
            &&& file_text(a) == file_text(b) && position_or_zero(a.line) == position_or_zero(b.line)
                && position_or_zero(a.column) == position_or_zero(b.column) ==> a.code <= b.code
            &&& file_text(a) == file_text(b) && position_or_zero(a.line) == position_or_zero(b.line)
                && position_or_zero(a.column) == position_or_zero(b.column) && a.code == b.code
                ==> !text_lt(b.message@, a.message@)
        }),
{
    lemma_sort_sorted(ds);
    let s = sort_diagnostics(ds);
    assert(!crate::format::diag_lt(s[j], s[i]));
    crate::order::lemma_text_lt_irrefl(file_text(s[i]));
}

/// A decimal rendering is non-empty and made of digits only.
proof fn lemma_decimal_digits(n: nat)
    ensures
        decimal(n).len() >= 1,
        forall|k: int| 0 <= k < decimal(n).len() ==> 48 <= (#[trigger] decimal(n)[k]) as int <= 57,
        n >= 10 ==> decimal(n).len() >= 2,
    decreases n,
{
    if n >= 10 {
        lemma_decimal_digits(n / 10);
        let d = decimal(n / 10);
        assert(decimal(n) == d.push(digit_char(n % 10)));
        assert forall|k: int| 0 <= k < decimal(n).len() implies 48 <= (#[trigger] decimal(n)[k]) as int <= 57 by {
            if k < d.len() {
                assert(decimal(n)[k] == d[k]);
            }
        }
    }
}

/// Different numbers have different decimal renderings.
proof fn lemma_decimal_injective(n: nat, m: nat)
    requires
        decimal(n) == decimal(m),
    ensures
        n == m,
    decreases n,
{
    lemma_decimal_digits(n);
    lemma_decimal_digits(m);
    if n < 10 && m < 10 {
        assert(decimal(n)[0] == digit_char(n));
        assert(decimal(m)[0] == digit_char(m));
    } else if n >= 10 && m >= 10 {
        let a = decimal(n);
        let b = decimal(m);
        assert(a.last() == digit_char(n % 10));
        assert(b.last() == digit_char(m % 10));
        assert(a.drop_last() =~= decimal(n / 10));
        assert(b.drop_last() =~= decimal(m / 10));
        lemma_decimal_injective(n / 10, m / 10);
    }
}

/// No `|` in a text.
pub open spec fn bar_free(t: Seq<char>) -> bool {
    forall|k: int| 0 <= k < t.len() ==> t[k] != '|'
}

/// Two texts without `|`, each followed by `|` and more, split the same way.
proof fn lemma_split_at_bar(x1: Seq<char>, r1: Seq<char>, x2: Seq<char>, r2: Seq<char>)
    requires
        bar_free(x1),
        bar_free(x2),
        x1 + seq!['|'] + r1 == x2 + seq!['|'] + r2,
    ensures
        x1 == x2,
        r1 == r2,
{
    let c1 = x1 + seq!['|'] + r1;
    let c2 = x2 + seq!['|'] + r2;
    if x1.len() < x2.len() {
        assert(c1[x1.len() as int] == '|');
        assert(c2[x1.len() as int] == x2[x1.len() as int]);
    } else if x2.len() < x1.len() {
        assert(c2[x2.len() as int] == '|');
        assert(c1[x2.len() as int] == x1[x2.len() as int]);
    }
    assert(x1 =~= c1.subrange(0, x1.len() as int));
    assert(x2 =~= c2.subrange(0, x2.len() as int));
    assert(r1 =~= c1.subrange(x1.len() as int + 1, c1.len() as int));
    assert(r2 =~= c2.subrange(x2.len() as int + 1, c2.len() as int));
}

proof fn lemma_decimal_bar_free(n: nat)
    ensures
        bar_free(decimal(n)),
{
    lemma_decimal_digits(n);
    assert forall|k: int| 0 <= k < decimal(n).len() implies decimal(n)[k] != '|' by {
        assert(48 <= decimal(n)[k] as int <= 57);
    }
}

proof fn lemma_category_name(a: Category, b: Category)
    ensures
        bar_free(category_name(a)),
        category_name(a) == category_name(b) ==> a == b,
{
    if category_name(a) == category_name(b) && a != b {
        assert(category_name(a).len() == category_name(b).len());
        assert(category_name(a)[0] == category_name(b)[0]);
    }
}

/// The normalized path that starts a diagnostic's comparison key.
pub open spec fn key_file(d: Diagnostic) -> Seq<char> {
    match d.file {
        Some(f) => spec_normalize_path(f@),
        None => Seq::empty(),
    }
}

/// Six fields joined by `|`, regrouped from the right.
proof fn lemma_bar_fields(f: Seq<char>, dl: Seq<char>, dc: Seq<char>, dk: Seq<char>, g: Seq<char>, m: Seq<char>)
    ensures
        f + seq!['|'] + dl + seq!['|'] + dc + seq!['|'] + dk + seq!['|'] + g + seq!['|'] + m == f + seq!['|']
            + (dl + seq!['|'] + (dc + seq!['|'] + (dk + seq!['|'] + (g + seq!['|'] + m)))),
{
    let bar = seq!['|'];
    let t5 = g + bar + m;
    let t4 = dk + bar + t5;
    let t3 = dc + bar + t4;
    let t2 = dl + bar + t3;
    let k1 = f + bar + dl;
    let k2 = k1 + bar + dc;
    let k3 = k2 + bar + dk;
    let k4 = k3 + bar + g;
    assert(k4 + bar + m =~= k3 + bar + t5);
    assert(k3 + bar + t5 =~= k2 + bar + t4);
    assert(k2 + bar + t4 =~= k1 + bar + t3);
    assert(k1 + bar + t3 =~= f + bar + t2);
}

/// The comparison key, split at the `|` after the path.
proof fn lemma_key_shape(d: Diagnostic)
    ensures
        spec_normalize_key(d) == key_file(d) + seq!['|'] + (decimal(position_or_zero(d.line) as nat) + seq!['|']
            + (decimal(position_or_zero(d.column) as nat) + seq!['|'] + (decimal(d.code as nat) + seq!['|']
            + (category_name(d.category) + seq!['|'] + spec_flatten_message(d.message@))))),
{
    let l: nat = match d.line {
        Some(x) => x as nat,
        None => 0nat,
    };
    let c: nat = match d.column {
        Some(x) => x as nat,
        None => 0nat,
    };
    assert(l == position_or_zero(d.line) as nat);
    assert(c == position_or_zero(d.column) as nat);
    lemma_bar_fields(
        key_file(d),
        decimal(l),
        decimal(c),
        decimal(d.code as nat),
        category_name(d.category),
        spec_flatten_message(d.message@),
    );
}

/// Within one file, the comparison key tells diagnostics apart by line,
/// column, code, category and flattened message: two diagnostics of the
/// same (normalized) file have the same key exactly when all of these agree.
pub proof fn law_normalize_key_separates(a: Diagnostic, b: Diagnostic)
    requires
        key_file(a) == key_file(b),
    ensures
        spec_normalize_key(a) == spec_normalize_key(b) <==> (position_or_zero(a.line) == position_or_zero(b.line)
            && position_or_zero(a.column) == position_or_zero(b.column) && a.code == b.code && a.category
            == b.category && spec_flatten_message(a.message@) == spec_flatten_message(b.message@)),
{
    lemma_key_shape(a);
    lemma_key_shape(b);
    if spec_normalize_key(a) == spec_normalize_key(b) {
        let bar = seq!['|'];
        let la = decimal(position_or_zero(a.line) as nat);
        let lb = decimal(position_or_zero(b.line) as nat);
        let ca = decimal(position_or_zero(a.column) as nat);
        let cb = decimal(position_or_zero(b.column) as nat);
        let ka = decimal(a.code as nat);
        let kb = decimal(b.code as nat);
        let ga = category_name(a.category);
        let gb = category_name(b.category);
        let ma = spec_flatten_message(a.message@);
        let mb = spec_flatten_message(b.message@);
        let ta = la + bar + (ca + bar + (ka + bar + (ga + bar + ma)));
        let tb = lb + bar + (cb + bar + (kb + bar + (gb + bar + mb)));
        let f = key_file(a);
        assert(ta =~= (f + bar + ta).subrange(f.len() as int + 1, (f + bar + ta).len() as int));
        assert(tb =~= (f + bar + tb).subrange(f.len() as int + 1, (f + bar + tb).len() as int));
        lemma_decimal_bar_free(position_or_zero(a.line) as nat);
        lemma_decimal_bar_free(position_or_zero(b.line) as nat);
        lemma_decimal_bar_free(position_or_zero(a.column) as nat);
        lemma_decimal_bar_free(position_or_zero(b.column) as nat);
        lemma_decimal_bar_free(a.code as nat);
        lemma_decimal_bar_free(b.code as nat);
        lemma_category_name(a.category, b.category);
        lemma_category_name(b.category, a.category);
        lemma_split_at_bar(la, ca + bar + (ka + bar + (ga + bar + ma)), lb, cb + bar + (kb + bar + (gb + bar + mb)));
        lemma_split_at_bar(ca, ka + bar + (ga + bar + ma), cb, kb + bar + (gb + bar + mb));
        lemma_split_at_bar(ka, ga + bar + ma, kb, gb + bar + mb);
        lemma_split_at_bar(ga, ma, gb, mb);
        lemma_decimal_injective(position_or_zero(a.line) as nat, position_or_zero(b.line) as nat);
        lemma_decimal_injective(position_or_zero(a.column) as nat, position_or_zero(b.column) as nat);
        lemma_decimal_injective(a.code as nat, b.code as nat);
    }
}

/// When no path holds a `|`, equal comparison keys mean the same
/// (normalized) file and the same line, column, code, category and
/// flattened message.
pub proof fn law_normalize_key_injective(a: Diagnostic, b: Diagnostic)
    requires
        bar_free(key_file(a)),
        bar_free(key_file(b)),
        spec_normalize_key(a) == spec_normalize_key(b),
    ensures
        key_file(a) == key_file(b),
        position_or_zero(a.line) == position_or_zero(b.line),
        position_or_zero(a.column) == position_or_zero(b.column),
        a.code == b.code,
        a.category == b.category,
        spec_flatten_message(a.message@) == spec_flatten_message(b.message@),
{
    lemma_key_shape(a);
    lemma_key_shape(b);
    let bar = seq!['|'];
    lemma_split_at_bar(
        key_file(a),
        decimal(position_or_zero(a.line) as nat) + bar + (decimal(position_or_zero(a.column) as nat) + bar + (
        decimal(a.code as nat) + bar + (category_name(a.category) + bar + spec_flatten_message(a.message@)))),
        key_file(b),
        decimal(position_or_zero(b.line) as nat) + bar + (decimal(position_or_zero(b.column) as nat) + bar + (
        decimal(b.code as nat) + bar + (category_name(b.category) + bar + spec_flatten_message(b.message@)))),
    );
    law_normalize_key_separates(a, b);
}

/// The diff reports a strict diagnostic whose line no baseline diagnostic
/// of the same file shares: moving an error to another line makes it new.
/// (Paths holding a `|` are left out: the key joins its fields with `|`.)
pub proof fn law_diff_reports_moved_lines(strict: Seq<Diagnostic>, baseline: Seq<Diagnostic>, i: int)
    requires
        0 <= i < strict.len(),
        bar_free(key_file(strict[i])),
        forall|j: int| 0 <= j < baseline.len() ==> bar_free(#[trigger] key_file(baseline[j])),
        forall|j: int|
            0 <= j < baseline.len() && key_file(#[trigger] baseline[j]) == key_file(strict[i])
                ==> position_or_zero(baseline[j].line) != position_or_zero(strict[i].line),
    ensures
        spec_diff(strict, baseline).contains(strict[i]),
{
    let d = strict[i];
    if in_baseline(d, baseline) {
        let j = choose|j: int| 0 <= j < baseline.len() && spec_normalize_key(#[trigger] baseline[j]) == spec_normalize_key(d);
        law_normalize_key_injective(baseline[j], d);
    }
    let pred = |x: Diagnostic| !in_baseline(x, baseline);
    strict.filter_lemma(pred);
    assert(pred(d));
    lemma_filter_keeps(strict, pred, i);
}

/// An element that passes the filter is in the filtered sequence.
proof fn lemma_filter_keeps(s: Seq<Diagnostic>, pred: spec_fn(Diagnostic) -> bool, i: int)
    requires
        0 <= i < s.len(),
        pred(s[i]),
    ensures
        s.filter(pred).contains(s[i]),
    decreases s.len(),
{
    reveal(Seq::filter);
    if i == s.len() - 1 {
        assert(s.filter(pred) == s.drop_last().filter(pred).push(s.last()));
        assert(s.filter(pred).last() == s[i]);
    } else {
        lemma_filter_keeps(s.drop_last(), pred, i);
        assert(s.drop_last()[i] == s[i]);
        let r = s.drop_last().filter(pred);
        let k = choose|k: int| 0 <= k < r.len() && r[k] == s[i];
        if pred(s.last()) {
            assert(s.filter(pred) == r.push(s.last()));
            assert(s.filter(pred)[k] == s[i]);
        } else {
            assert(s.filter(pred) == r);
        }
    }
}

/// `excludePattern` scopes the plugin down whether or not `paths` is given:
/// a file with no pragma that one of the plugin's exclude globs matches is
/// never a strict candidate.
pub proof fn law_exclude_pattern_excludes(
    files: Seq<(String, PragmaHint)>,
    cfg: StrictPluginConfig,
    config_dir: Seq<char>,
    candidates: Seq<Seq<char>>,
    x: Seq<char>,
    k: int,
)
    requires
        sorted_dedup_of(
            candidates,
            strict_filter(files, Some(cfg), config_dir, crate::selection::plugin_exclude(Some(cfg))),
            true,
        ),
        crate::selection::plugin_exclude(Some(cfg)) matches Some(pats) && 0 <= k < pats.len()
            && crate::globs::glob_matches(pats[k], spec_slashes(x)),
        forall|j: int| 0 <= j < files.len() && #[trigger] files[j].0@ == x ==> files[j].1 == PragmaHint::Absent,
    ensures
        !candidates.contains(x),
{
    let ex = crate::selection::plugin_exclude(Some(cfg));
    let pats = ex->0;
    assert(crate::globs::any_glob_matches(pats, spec_slashes(x)));
    lemma_strict_filter_members(files, Some(cfg), config_dir, ex, x);
    let sf = strict_filter(files, Some(cfg), config_dir, ex);
    if candidates.contains(x) {
        let c = choose|c: int| 0 <= c < candidates.len() && candidates[c] == x;
        assert(first_origin(candidates[c], sf, true));
        let q = choose|q: int| 0 <= q < sf.len() && #[trigger] sf[q] == candidates[c] && crate::sorting::first_with_key(sf, q, true);
        assert(sf.contains(x));
    }
}

/// A compiler line of the colon form `file:L:C - category TSn: msg` (that
/// the paren form does not match) gives the diagnostic whose file is the
/// first group resolved against `cwd`, whose line is the number `L` and
/// whose column is the number `C`, then category, code and message.
pub proof fn law_colon_form_fields(line: Seq<char>, cwd: Seq<char>, c: Seq<Seq<char>>)
    requires
        !(crate::parse::regex_captures(crate::parse::PAREN_PATTERN@, line) matches Some(p) && p.len() >= 6),
        crate::parse::regex_captures(crate::parse::COLON_PATTERN@, line) == Some(c),
        c.len() >= 6,
    ensures
        crate::parse::spec_parse_line(line, cwd) matches Some(d) && d.file == Some(
            crate::parse::spec_resolve_relative(cwd, c[0]),
        ) && d.line == crate::parse::spec_parse_u32(c[1]) && d.column == crate::parse::spec_parse_u32(c[2])
            && d.category == crate::parse::spec_parse_category(c[3]) && d.code == crate::parse::or_zero(
            crate::parse::spec_parse_u32(c[4]),
        ) && d.message == c[5] && d.raw_line == Some(line),
{
}

/// A compiler line of the paren form `file(L,C): category TSn: msg` gives
/// the diagnostic whose line is the number `L` and whose column is `C`.
pub proof fn law_paren_form_fields(line: Seq<char>, cwd: Seq<char>, c: Seq<Seq<char>>)
    requires
        crate::parse::regex_captures(crate::parse::PAREN_PATTERN@, line) == Some(c),
        c.len() >= 6,
    ensures
        crate::parse::spec_parse_line(line, cwd) matches Some(d) && d.file == Some(
            crate::parse::spec_resolve_relative(cwd, c[0]),
        ) && d.line == crate::parse::spec_parse_u32(c[1]) && d.column == crate::parse::spec_parse_u32(c[2])
            && d.category == crate::parse::spec_parse_category(c[3]) && d.code == crate::parse::or_zero(
            crate::parse::spec_parse_u32(c[4]),
        ) && d.message == c[5] && d.raw_line == Some(line),
{
}

/// The two located forms read alike: a colon-form line and a paren-form
/// line with the same captured file, line, column, category, code and
/// message give the same diagnostic, but for the raw line each keeps.
pub proof fn law_colon_form_reads_like_paren(paren_line: Seq<char>, colon_line: Seq<char>, cwd: Seq<char>, c: Seq<Seq<char>>)
    requires
        crate::parse::regex_captures(crate::parse::PAREN_PATTERN@, paren_line) == Some(c),
        !(crate::parse::regex_captures(crate::parse::PAREN_PATTERN@, colon_line) matches Some(p) && p.len() >= 6),
        crate::parse::regex_captures(crate::parse::COLON_PATTERN@, colon_line) == Some(c),
        c.len() >= 6,
    ensures
        crate::parse::spec_parse_line(paren_line, cwd) matches Some(a) && crate::parse::spec_parse_line(
            colon_line,
            cwd,
        ) matches Some(b) && a.file == b.file && a.line == b.line && a.column == b.column && a.category
            == b.category && a.code == b.code && a.message == b.message,
{
    law_colon_form_fields(colon_line, cwd, c);
    law_paren_form_fields(paren_line, cwd, c);
}

/// A walk of the project leaves out every pattern of the tsconfig's
/// `exclude` (resolved through the `extends` chain, or the config's own),
/// anchored where that field was defined, and the default ignores.
pub proof fn law_walk_leaves_out_tsconfig_exclude(ctx: crate::tsconfig::ProjectContext, plan: crate::files::ScopePlan)
    requires
        crate::files::plan_is(plan, ctx),
        ctx.resolved_files is None,
        crate::tsconfig::spec_array_field(ctx.raw_config, "files"@) is None,
    ensures
        plan matches crate::files::ScopePlan::Walk { exclude_patterns, exclude_base, .. } && (forall|k: int|
            0 <= k < crate::files::default_ignores().len() ==> crate::text::views(exclude_patterns@).contains(
                #[trigger] crate::files::default_ignores()[k],
            )) && match ctx.resolved_exclude {
            Some(f) => exclude_base@ == f.config_dir@ && forall|k: int|
                0 <= k < f.patterns@.len() ==> crate::text::views(exclude_patterns@).contains(
                    #[trigger] f.patterns@[k]@,
                ),
            None => exclude_base@ == ctx.config_dir@ && forall|k: int|
                0 <= k < crate::files::field_items(ctx.raw_config, "exclude"@).len() ==> crate::text::views(
                    exclude_patterns@,
                ).contains(#[trigger] crate::files::field_items(ctx.raw_config, "exclude"@)[k]),
        },
{
    let ex = plan->exclude_patterns;
    let v = crate::text::views(ex@);
    let own = match ctx.resolved_exclude {
        Some(f) => crate::text::views(f.patterns@),
        None => crate::files::field_items(ctx.raw_config, "exclude"@),
    };
    assert(v == own + crate::files::default_ignores());
    assert forall|k: int| 0 <= k < crate::files::default_ignores().len() implies v.contains(
        #[trigger] crate::files::default_ignores()[k],
    ) by {
        assert(v[own.len() + k] == crate::files::default_ignores()[k]);
    }
    assert forall|k: int| 0 <= k < own.len() implies v.contains(#[trigger] own[k]) by {
        assert(v[k] == own[k]);
    }
    match ctx.resolved_exclude {
        Some(f) => {
            assert forall|k: int| 0 <= k < f.patterns@.len() implies v.contains(#[trigger] f.patterns@[k]@) by {
                assert(own[k] == f.patterns@[k]@);
                assert(v.contains(own[k]));
            }
        },
        None => {},
    }
}

/// A compiler line that only the file-less form `category TSn: msg` matches
/// gives a diagnostic with no file, line or column, and the category, code
/// and message it names.
pub proof fn law_no_file_form_fields(line: Seq<char>, cwd: Seq<char>, c: Seq<Seq<char>>)
    requires
        !(crate::parse::regex_captures(crate::parse::PAREN_PATTERN@, line) matches Some(p) && p.len() >= 6),
        !(crate::parse::regex_captures(crate::parse::COLON_PATTERN@, line) matches Some(p) && p.len() >= 6),
        crate::parse::regex_captures(crate::parse::NO_FILE_PATTERN@, line) == Some(c),
        c.len() >= 3,
    ensures
        crate::parse::spec_parse_line(line, cwd) matches Some(d) && d.file is None && d.line is None
            && d.column is None && d.category == crate::parse::spec_parse_category(c[0]) && d.code
            == crate::parse::or_zero(crate::parse::spec_parse_u32(c[1])) && d.message == c[2] && d.raw_line
            == Some(line),
{
}

/// A walk of the project starts from every pattern of the tsconfig's
/// inclusion list (resolved through the `extends` chain, or the config's
/// own), anchored where that field was defined, and from nothing else.
pub proof fn law_walk_starts_from_tsconfig_include(ctx: crate::tsconfig::ProjectContext, plan: crate::files::ScopePlan)
    requires
        crate::files::plan_is(plan, ctx),
        ctx.resolved_files is None,
        crate::tsconfig::spec_array_field(ctx.raw_config, "files"@) is None,
    ensures
        plan matches crate::files::ScopePlan::Walk { include_patterns, include_base, .. } && match ctx.resolved_include {
            Some(f) => include_base@ == f.config_dir@ && include_patterns@.len() == f.patterns@.len() && forall|k: int|
                0 <= k < f.patterns@.len() ==> (#[trigger] include_patterns@[k])@ == f.patterns@[k]@,
            None => include_base@ == ctx.config_dir@ && include_patterns@.len() == crate::files::field_items(
                ctx.raw_config,
                "include"@,
            ).len() && forall|k: int|
                0 <= k < include_patterns@.len() ==> (#[trigger] include_patterns@[k])@ == crate::files::field_items(
                    ctx.raw_config,
                    "include"@,
                )[k],
        },
{
    let inc = plan->include_patterns;
    match ctx.resolved_include {
        Some(f) => {
            assert(crate::text::views(inc@) == crate::text::views(f.patterns@));
            assert forall|k: int| 0 <= k < f.patterns@.len() implies (#[trigger] inc@[k])@ == f.patterns@[k]@ by {
                assert(crate::text::views(inc@)[k] == inc@[k]@);
                assert(crate::text::views(f.patterns@)[k] == f.patterns@[k]@);
            }
        },
        None => {
            assert forall|k: int| 0 <= k < inc@.len() implies (#[trigger] inc@[k])@ == crate::files::field_items(
                ctx.raw_config,
                "include"@,
            )[k] by {
                assert(crate::text::views(inc@)[k] == inc@[k]@);
            }
        },
    }
}

} // verus!
