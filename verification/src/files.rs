//! Which files make up the project: what the tsconfig names explicitly or
//! what a walk of its `inclusion` directory finds, and how walked and
//! user-given files are filtered and merged.
use vstd::prelude::*;
use crate::config::get;
use crate::errors::Error;
use crate::globs::{
    any_glob_matches, build_glob_set, glob_set_is_match, glob_set_outcome, glob_set_patterns,
};
use crate::json::JsonValue;
use crate::lines::{split};
use crate::paths::{join, spec_join};
use crate::pipeline::{in_norm_set, normalize};
use crate::selection::{plugin_root, spec_plugin_root};
use crate::sorting::{item_key, path_key, path_key_of};
use crate::order::{char_views, compare_text, compare_texts};
use crate::text::{spec_lower, spec_lower_seq, to_chars, views, lower};
use crate::tsconfig::{spec_array_field, spec_str_items, str_items, ProjectContext, ResolvedField};

verus! {

/// Index of the last `c` in `p`, if any.
pub open spec fn last_index(p: Seq<char>, c: char) -> Option<int>
    decreases p.len(),
{
    if p.len() == 0 {
        None
    } else if p.last() == c {
        Some(p.len() - 1)
    } else {
        last_index(p.drop_last(), c)
    }
}

/// What the last index of `c` is: an index of `c`, with no `c` after it.
pub proof fn lemma_last_index(p: Seq<char>, c: char)
    ensures
        match last_index(p, c) {
            Some(i) => 0 <= i < p.len() && p[i] == c && forall|j: int| i < j < p.len() ==> p[j] != c,
            None => forall|j: int| 0 <= j < p.len() ==> p[j] != c,
        },
    decreases p.len(),
{
    if p.len() > 0 && p.last() != c {
        lemma_last_index(p.drop_last(), c);
        assert forall|j: int| 0 <= j < p.len() - 1 implies p[j] == p.drop_last()[j] by {}
    }
}

/// The last `/`-separated segment of a path.
pub open spec fn file_name_of(p: Seq<char>) -> Seq<char> {
    match last_index(p, '/') {
        Some(i) => p.skip(i + 1),
        None => p,
    }
}

/// `Path::extension` of a file name: what follows its last `.`, unless that
/// `.` starts the name.
pub open spec fn extension_of(name: Seq<char>) -> Option<Seq<char>> {
    match last_index(name, '.') {
        Some(d) => if d > 0 {
            Some(name.skip(d + 1))
        } else {
            None
        },
        None => None,
    }
}

/// A TypeScript source: extension `ts`, `tsx`, `cts` or `mts`, in any case.
pub open spec fn spec_is_ts_file(p: Seq<char>) -> bool {
    match extension_of(file_name_of(p)) {
        Some(e) => {
            let l = spec_lower_seq(e);
            l == seq!['t', 's'] || l == seq!['t', 's', 'x'] || l == seq!['c', 't', 's'] || l == seq![
                'm',
                't',
                's',
            ]
        },
        None => false,
    }
}

/// Index of the last `c` in `v[0..n]`.
pub(crate) fn last_index_in(v: &Vec<char>, n: usize, c: char) -> (r: Option<usize>)
    requires
        n <= v@.len(),
    ensures
        match r {
            Some(i) => last_index(v@.take(n as int), c) == Some(i as int) && i < n,
            None => last_index(v@.take(n as int), c) is None,
        },
{
    let mut i = n;
    while i > 0 && v[i - 1] != c
        invariant
            i <= n <= v@.len(),
            last_index(v@.take(n as int), c) == last_index(v@.take(i as int), c),
        decreases i,
    {
        assert(v@.take(i as int).drop_last() =~= v@.take(i - 1));
        i = i - 1;
    }
    if i == 0 {
        assert(last_index(v@.take(0), c) is None);
        None
    } else {
        assert(v@.take(i as int).last() == v@[i - 1]);
        Some(i - 1)
    }
}

/// Is `p` a TypeScript source (see [`spec_is_ts_file`])?
pub fn is_ts_file(p: &str) -> (r: bool)
    ensures
        r == spec_is_ts_file(p@),
{
    let v = to_chars(p);
    assert(v@.take(v@.len() as int) =~= v@);
    let start = match last_index_in(&v, v.len(), '/') {
        Some(i) => i + 1,
        None => 0,
    };
    let ghost name = file_name_of(p@);
    assert(name =~= v@.skip(start as int));
    let mut i = v.len();
    assert(name.take(i - start) =~= name);
    while i > start && v[i - 1] != '.'
        invariant
            start <= i <= v@.len(),
            name == v@.skip(start as int),
            last_index(name, '.') == last_index(name.take(i - start), '.'),
        decreases i,
    {
        assert(name.take(i - start).drop_last() =~= name.take(i - start - 1));
        assert(name.take(i - start).last() == v@[i - 1]);
        i = i - 1;
    }
    if i == start {
        assert(last_index(name.take(0), '.') is None);
        return false;
    }
    assert(name.take(i - start).last() == v@[i - 1]);
    let d = i - 1 - start;
    if d == 0 {
        return false;
    }
    let ghost ext = name.skip(d + 1);
    assert(ext =~= v@.skip(i as int));
    let n = v.len() - i;
    let mut e: Vec<char> = Vec::new();
    let mut j = i;
    while j < v.len()
        invariant
            i <= j <= v@.len(),
            e@ == spec_lower_seq(v@.subrange(i as int, j as int)),
        decreases v@.len() - j,
    {
        e.push(lower(v[j]));
        j = j + 1;
        assert(e@ =~= spec_lower_seq(v@.subrange(i as int, j as int)));
    }
    assert(v@.subrange(i as int, v@.len() as int) =~= ext);
    let ts: Vec<char> = vec!['t', 's'];
    let tsx: Vec<char> = vec!['t', 's', 'x'];
    let cts: Vec<char> = vec!['c', 't', 's'];
    let mts: Vec<char> = vec!['m', 't', 's'];
    assert(ts@ =~= seq!['t', 's']);
    assert(tsx@ =~= seq!['t', 's', 'x']);
    assert(cts@ =~= seq!['c', 't', 's']);
    assert(mts@ =~= seq!['m', 't', 's']);
    proof {
        assert(name.take(i - start).last() == '.');
        assert(last_index(name.take(i - start), '.') == Some(d as int));
        assert(extension_of(name) == Some(ext));
    }
    compare_text(&e, &ts) == 0 || compare_text(&e, &tsx) == 0 || compare_text(&e, &cts) == 0
        || compare_text(&e, &mts) == 0
}

/// The project's file set.
#[derive(Debug)]
pub struct ProjectScope {
    pub files: Vec<String>,
}

/// How the project's files are found: named explicitly, or by walking
/// `include_base` and keeping the TypeScript files that the `inclusion`
/// globs match (every file when there are none) and the `exclude` globs
/// (with `node_modules` and `.git` always added) do not.
#[derive(Debug)]
pub enum ScopePlan {
    Files(Vec<String>),
    Walk {
        include_patterns: Vec<String>,
        include_base: String,
        exclude_patterns: Vec<String>,
        exclude_base: String,
    },
}

/// The globs that every walk leaves out.
pub open spec fn default_ignores() -> Seq<Seq<char>> {
    seq!["**/node_modules/**"@, "**/.git/**"@]
}

/// `patterns` followed by the globs that every walk leaves out.
pub fn with_default_ignores(patterns: &[String]) -> (r: Vec<String>)
    ensures
        views(r@) == views(patterns@) + default_ignores(),
{
    let mut r: Vec<String> = Vec::new();
    let mut i: usize = 0;
    while i < patterns.len()
        invariant
            i <= patterns@.len(),
            views(r@) == views(patterns@).take(i as int),
        decreases patterns@.len() - i,
    {
        let ghost before = views(r@);
        r.push(patterns[i].clone());
        assert(views(r@) =~= before.push(patterns@[i as int]@));
        assert(views(patterns@).take(i + 1) =~= views(patterns@).take(i as int).push(
            patterns@[i as int]@,
        ));
        i = i + 1;
    }
    let ghost before = views(r@);
    r.push("**/node_modules/**".to_owned());
    r.push("**/.git/**".to_owned());
    assert(views(patterns@).take(i as int) =~= views(patterns@));
    assert(views(r@) =~= before + default_ignores());
    r
}

/// Each name joined onto `dir`.
pub open spec fn joined_all(names: Seq<Seq<char>>, dir: Seq<char>) -> Seq<Seq<char>> {
    names.map_values(|n: Seq<char>| spec_join(dir, n))
}

/// Each name joined onto `dir` (see [`joined_all`]).
pub fn join_all(names: &[String], dir: &str) -> (r: Vec<String>)
    ensures
        views(r@) == joined_all(views(names@), dir@),
{
    let mut r: Vec<String> = Vec::new();
    let mut i: usize = 0;
    while i < names.len()
        invariant
            i <= names@.len(),
            r@.len() == i,
            forall|j: int| 0 <= j < i ==> #[trigger] r@[j]@ == spec_join(dir@, names@[j]@),
        decreases names@.len() - i,
    {
        r.push(join(dir, names[i].as_str()));
        i = i + 1;
    }
    assert(views(r@) =~= joined_all(views(names@), dir@));
    r
}

/// The string items of an array field of a config, or none.
pub open spec fn field_items(cfg: JsonValue, field: Seq<char>) -> Seq<Seq<char>> {
    match spec_array_field(cfg, field) {
        Some(a) => spec_str_items(a),
        None => Seq::empty(),
    }
}

/// The string items of the array field `field`, or none.
fn items_of(cfg: &JsonValue, field: &str) -> (r: Vec<String>)
    ensures
        views(r@) == field_items(*cfg, field@),
{
    match get(cfg, field) {
        Some(JsonValue::Array(a)) => str_items(a.as_slice()),
        _ => {
            let r: Vec<String> = Vec::new();
            assert(views(r@) =~= Seq::<Seq<char>>::empty());
            r
        },
    }
}

/// The plan for a context: the resolved `files` joined onto their config's
/// directory; else the project's own `files` joined onto its directory;
/// else a walk of the resolved (or own) `inclusion` from its directory,
/// minus the resolved (or own) `exclude` and the default ignores.
pub open spec fn plan_is(plan: ScopePlan, ctx: ProjectContext) -> bool {
    match ctx.resolved_files {
        Some(f) => plan matches ScopePlan::Files(fs) && views(fs@) == joined_all(views(f.patterns@), f.config_dir@),
        None => match spec_array_field(ctx.raw_config, "files"@) {
            Some(a) => plan matches ScopePlan::Files(fs) && views(fs@) == joined_all(
                spec_str_items(a),
                ctx.config_dir@,
            ),
            None => {
                &&& plan matches ScopePlan::Walk {
                    include_patterns,
                    include_base,
                    exclude_patterns,
                    exclude_base,
                }
                &&& (match ctx.resolved_include {
                    Some(f) => views(plan->include_patterns@) == views(f.patterns@)
                        && plan->include_base@ == f.config_dir@,
                    None => views(plan->include_patterns@) == field_items(ctx.raw_config, "include"@)
                        && plan->include_base@ == ctx.config_dir@,
                })
                &&& (match ctx.resolved_exclude {
                    Some(f) => views(plan->exclude_patterns@) == views(f.patterns@) + default_ignores()
                        && plan->exclude_base@ == f.config_dir@,
                    None => views(plan->exclude_patterns@) == field_items(ctx.raw_config, "exclude"@)
                        + default_ignores() && plan->exclude_base@ == ctx.config_dir@,
                })
            },
        },
    }
}

/// Decide how to find the project's files (see [`plan_is`]).
pub fn plan_project_scope(ctx: &ProjectContext) -> (r: ScopePlan)
    ensures
        plan_is(r, *ctx),
{
    match &ctx.resolved_files {
        Some(f) => return ScopePlan::Files(join_all(f.patterns.as_slice(), f.config_dir.as_str())),
        None => {},
    }
    match get(&ctx.raw_config, "files") {
        Some(JsonValue::Array(a)) => {
            let names = str_items(a.as_slice());
            return ScopePlan::Files(join_all(names.as_slice(), ctx.config_dir.as_str()));
        },
        _ => {},
    }
    let (include_patterns, include_base) = match &ctx.resolved_include {
        Some(f) => (clone_all(f.patterns.as_slice()), f.config_dir.clone()),
        None => (items_of(&ctx.raw_config, "include"), ctx.config_dir.clone()),
    };
    let (exclude_own, exclude_base) = match &ctx.resolved_exclude {
        Some(f) => (clone_all(f.patterns.as_slice()), f.config_dir.clone()),
        None => (items_of(&ctx.raw_config, "exclude"), ctx.config_dir.clone()),
    };
    let exclude_patterns = with_default_ignores(exclude_own.as_slice());
    ScopePlan::Walk { include_patterns, include_base, exclude_patterns, exclude_base }
}

/// A copy of the texts.
pub fn clone_all(v: &[String]) -> (r: Vec<String>)
    ensures
        views(r@) == views(v@),
{
    let mut r: Vec<String> = Vec::new();
    let mut i: usize = 0;
    while i < v.len()
        invariant
            i <= v@.len(),
            r@.len() == i,
            forall|j: int| 0 <= j < i ==> #[trigger] r@[j]@ == v@[j]@,
        decreases v@.len() - i,
    {
        r.push(v[i].clone());
        i = i + 1;
    }
    assert(views(r@) =~= views(v@));
    r
}

/// A walked file is kept when it is a TypeScript source, no exclude glob
/// matches it, and an inclusion glob matches it (when there are inclusion
/// globs).
pub open spec fn spec_keep_walked(
    path: Seq<char>,
    inclusion: Option<Seq<Seq<char>>>,
    exclude: Option<Seq<Seq<char>>>,
) -> bool {
    spec_is_ts_file(path) && !(match exclude {
        Some(ps) => any_glob_matches(ps, path),
        None => false,
    }) && (match inclusion {
        Some(ps) => any_glob_matches(ps, path),
        None => true,
    })
}

/// The globs of an optional set.
pub open spec fn opt_globs(s: Option<&globset::GlobSet>) -> Option<Seq<Seq<char>>> {
    match s {
        Some(x) => Some(glob_set_patterns(*x)),
        None => None,
    }
}

/// Keep a walked file (see [`spec_keep_walked`]).
pub fn keep_walked_file(
    path: &str,
    inclusion: Option<&globset::GlobSet>,
    exclude: Option<&globset::GlobSet>,
) -> (r: bool)
    ensures
        r == spec_keep_walked(path@, opt_globs(inclusion), opt_globs(exclude)),
{
    if !is_ts_file(path) {
        return false;
    }
    match exclude {
        Some(set) => if glob_set_is_match(set, path) {
            return false;
        },
        None => {},
    }
    match inclusion {
        Some(set) => glob_set_is_match(set, path),
        None => true,
    }
}

/// The directories that the plugin's `paths` name (see
/// [`spec_plugin_root`]), in order.
pub fn plugin_roots(paths: &[String], config_dir: &str) -> (r: Vec<String>)
    ensures
        r@.len() == paths@.len(),
        forall|j: int| 0 <= j < paths@.len() ==> #[trigger] r@[j]@ == spec_plugin_root(paths@[j]@, config_dir@),
{
    let mut r: Vec<String> = Vec::new();
    let mut i: usize = 0;
    while i < paths.len()
        invariant
            i <= paths@.len(),
            r@.len() == i,
            forall|j: int| 0 <= j < i ==> #[trigger] r@[j]@ == spec_plugin_root(paths@[j]@, config_dir@),
        decreases paths@.len() - i,
    {
        r.push(plugin_root(paths[i].as_str(), config_dir));
        i = i + 1;
    }
    r
}

/// The walked files whose normalized path none of `files` has, in order.
pub open spec fn new_walked(walked: Seq<Seq<char>>, files: Seq<Seq<char>>) -> Seq<Seq<char>>
    decreases walked.len(),
{
    if walked.len() == 0 {
        Seq::empty()
    } else {
        let rest = new_walked(walked.drop_last(), files);
        if in_norm_set(walked.last(), files) {
            rest
        } else {
            rest.push(walked.last())
        }
    }
}

/// Add the files found under the plugin's `paths` that the enumeration did
/// not already have (compared as normalized paths).
pub fn merge_walked(files: Vec<String>, walked: Vec<String>) -> (r: Vec<String>)
    ensures
        views(r@) == views(files@) + new_walked(views(walked@), views(files@)),
{
    let ghost fs = views(files@);
    let ghost ws = views(walked@);
    let mut keys: Vec<String> = Vec::new();
    let mut j: usize = 0;
    while j < files.len()
        invariant
            j <= files@.len(),
            keys@.len() == j,
            forall|k: int| 0 <= k < j ==> #[trigger] keys@[k]@ == crate::diff::spec_normalize_path(files@[k]@),
        decreases files@.len() - j,
    {
        keys.push(normalize(files[j].as_str()));
        j = j + 1;
    }
    let mut out = files;
    let mut i: usize = 0;
    while i < walked.len()
        invariant
            i <= walked@.len(),
            ws == views(walked@),
            keys@.len() == fs.len(),
            forall|k: int| 0 <= k < fs.len() ==> #[trigger] keys@[k]@ == crate::diff::spec_normalize_path(fs[k]),
            views(out@) == fs + new_walked(ws.take(i as int), fs),
        decreases walked@.len() - i,
    {
        proof {
            assert(ws.take(i + 1).drop_last() =~= ws.take(i as int));
            assert(ws.take(i + 1).last() == walked@[i as int]@);
        }
        let key = normalize(walked[i].as_str());
        let mut found = false;
        let mut k: usize = 0;
        while k < keys.len()
            invariant
                k <= keys@.len() == fs.len(),
                forall|m: int| 0 <= m < fs.len() ==> #[trigger] keys@[m]@ == crate::diff::spec_normalize_path(fs[m]),
                found == exists|m: int| 0 <= m < k && crate::diff::spec_normalize_path(#[trigger] fs[m]) == key@,
            decreases keys@.len() - k,
        {
            if keys[k] == key {
                found = true;
            }
            k = k + 1;
        }
        let ghost before = views(out@);
        if !found {
            out.push(walked[i].clone());
            assert(views(out@) =~= before.push(walked@[i as int]@));
        }
        assert(views(out@) =~= fs + new_walked(ws.take(i + 1), fs));
        i = i + 1;
    }
    assert(ws.take(i as int) =~= ws);
    out
}

/// The user's subset with the tsconfig's `exclude` applied, when it has
/// patterns: the files that no anchored exclude glob matches.
pub open spec fn subset_kept(subset: Seq<Seq<char>>, excl: Seq<Seq<char>>) -> Seq<Seq<char>>
    decreases subset.len(),
{
    if subset.len() == 0 {
        Seq::empty()
    } else {
        let rest = subset_kept(subset.drop_last(), excl);
        if any_glob_matches(excl, subset.last()) {
            rest
        } else {
            rest.push(subset.last())
        }
    }
}

/// Apply the tsconfig's `exclude` to the user's subset: even an explicit
/// subset leaves out what the tsconfig excludes. Without exclude patterns
/// the subset is kept whole.
pub fn filter_subset(subset: &[String], exclude_patterns: &[String], exclude_base: &str) -> (r: Result<
    Vec<String>,
    Error,
>)
    ensures
        exclude_patterns@.len() == 0 ==> (r matches Ok(v) && views(v@) == views(subset@)),
        exclude_patterns@.len() > 0 ==> match r {
            Ok(v) => exists|s: globset::GlobSet|
                glob_set_outcome(Ok(Some(s)), views(exclude_patterns@), exclude_base@) && views(v@)
                    == subset_kept(views(subset@), glob_set_patterns(s)),
            Err(e) => glob_set_outcome(Err(e), views(exclude_patterns@), exclude_base@),
        },
{
    let set = match build_glob_set(exclude_patterns, exclude_base) {
        Ok(Some(s)) => s,
        Ok(None) => return Ok(clone_all(subset)),
        Err(e) => return Err(e),
    };
    let ghost ss = views(subset@);
    let mut out: Vec<String> = Vec::new();
    let mut i: usize = 0;
    while i < subset.len()
        invariant
            i <= subset@.len(),
            ss == views(subset@),
            views(out@) == subset_kept(ss.take(i as int), glob_set_patterns(set)),
        decreases subset@.len() - i,
    {
        proof {
            assert(ss.take(i + 1).drop_last() =~= ss.take(i as int));
            assert(ss.take(i + 1).last() == subset@[i as int]@);
        }
        if !glob_set_is_match(&set, subset[i].as_str()) {
            out.push(subset[i].clone());
        }
        assert(views(out@) =~= subset_kept(ss.take(i + 1), glob_set_patterns(set)));
        i = i + 1;
    }
    assert(ss.take(i as int) =~= ss);
    Ok(out)
}


/// The exclude globs a walk applies, and the directory they are anchored
/// at: the resolved `exclude` of the chain, or none at the config's
/// directory.
pub open spec fn exclude_of(ctx: ProjectContext) -> (Seq<Seq<char>>, Seq<char>) {
    match ctx.resolved_exclude {
        Some(f) => (views(f.patterns@), f.config_dir@),
        None => (Seq::empty(), ctx.config_dir@),
    }
}

/// The resolved `exclude` patterns and their base (see [`exclude_of`]).
pub fn resolved_exclude_of(ctx: &ProjectContext) -> (r: (Vec<String>, String))
    ensures
        (views(r.0@), r.1@) == exclude_of(*ctx),
{
    match &ctx.resolved_exclude {
        Some(f) => (clone_all(f.patterns.as_slice()), f.config_dir.clone()),
        None => {
            let v: Vec<String> = Vec::new();
            assert(views(v@) =~= Seq::<Seq<char>>::empty());
            (v, ctx.config_dir.clone())
        },
    }
}

/// The walk of the directories that the plugin's `paths` name, made when
/// the plugin lists at least one: the directories, and the exclude globs
/// (with the default ignores) with their base.
pub struct PluginWalk {
    pub roots: Vec<String>,
    pub exclude_patterns: Vec<String>,
    pub exclude_base: String,
}

/// The plugin walk of a project (see [`PluginWalk`]).
pub open spec fn plugin_walk_is(r: Option<PluginWalk>, ctx: ProjectContext) -> bool {
    match ctx.strict_plugin_config {
        Some(p) => match p.paths {
            Some(ps) => if ps@.len() > 0 {
                &&& r matches Some(w)
                &&& w.roots@.len() == ps@.len()
                &&& forall|j: int|
                    0 <= j < ps@.len() ==> #[trigger] w.roots@[j]@ == spec_plugin_root(ps@[j]@, ctx.config_dir@)
                &&& views(w.exclude_patterns@) == exclude_of(ctx).0 + default_ignores()
                &&& w.exclude_base@ == exclude_of(ctx).1
            } else {
                r is None
            },
            None => r is None,
        },
        None => r is None,
    }
}

/// Decide whether, and what, to walk for the plugin's `paths` (see
/// [`plugin_walk_is`]).
pub fn plan_plugin_walk(ctx: &ProjectContext) -> (r: Option<PluginWalk>)
    ensures
        plugin_walk_is(r, *ctx),
{
    let paths = match &ctx.strict_plugin_config {
        Some(p) => match &p.paths {
            Some(ps) => ps,
            None => return None,
        },
        None => return None,
    };
    if paths.len() == 0 {
        return None;
    }
    let roots = plugin_roots(paths.as_slice(), ctx.config_dir.as_str());
    let (excl, exclude_base) = resolved_exclude_of(ctx);
    let exclude_patterns = with_default_ignores(excl.as_slice());
    Some(PluginWalk { roots, exclude_patterns, exclude_base })
}

/// Where a run's files come from. A subset the user named is the scope
/// itself, with the tsconfig's `exclude` still applied, and is checked
/// without asking the compiler what it reaches. Otherwise the project's
/// own files are found from the tsconfig (and the plugin's `paths`), and
/// the compiler's reachable set drops the orphans among them.
pub enum FileSource {
    Subset { exclude_patterns: Vec<String>, exclude_base: String },
    Project { scope: ScopePlan, plugin_walk: Option<PluginWalk> },
}

/// Decide where the files come from (see [`FileSource`]).
pub fn plan_file_source(ctx: &ProjectContext, subset: &[String]) -> (r: FileSource)
    ensures
        subset@.len() == 0 ==> (r matches FileSource::Project { scope, plugin_walk } && plan_is(scope, *ctx)
            && plugin_walk_is(plugin_walk, *ctx)),
        subset@.len() > 0 ==> (r matches FileSource::Subset { exclude_patterns, exclude_base } && (
        views(exclude_patterns@), exclude_base@) == exclude_of(*ctx)),
{
    if subset.len() == 0 {
        FileSource::Project { scope: plan_project_scope(ctx), plugin_walk: plan_plugin_walk(ctx) }
    } else {
        let (exclude_patterns, exclude_base) = resolved_exclude_of(ctx);
        FileSource::Subset { exclude_patterns, exclude_base }
    }
}

} // verus!
