//! The decisions of a run: which files are checked, which diagnostics are
//! reported, and when the compiler's own exit status is a failure.
use vstd::prelude::*;
use crate::diagnostics::{diag_views, Category, Diagnostic};
use crate::parse::{parse_diagnostics, spec_parse_diagnostics};
use crate::diff::{normalize_path, spec_normalize_path};
use crate::errors::Error;
use crate::perf::TimerEntry;
use crate::pragma::PragmaHint;
use crate::selection::{
    exclude_ok, exclude_set_outcome, find_strict_candidates, opt_plugin, plugin_exclude,
    strict_filter,
};
use crate::sorting::sorted_dedup_of;
use crate::text::{spec_lower_seq, string_of, to_chars, trim, trim_range, views};
use crate::tsconfig::StrictPluginConfig;

verus! {

/// The name of the plugin whose block configures the strict subset.
pub const STRICT_PLUGIN_NAME: &'static str = "typescript-strict-plugin";

/// What one compiler run gave back.
#[derive(Debug)]
pub struct TsgoRunResult {
    pub diagnostics: Vec<Diagnostic>,
    pub stdout: String,
    pub stderr: String,
    pub exit_code: i32,
    pub duration_ms: u128,
}

/// Text output and exit code of a run.
pub struct RunOutcome {
    pub stdout: String,
    pub exit_code: i32,
}

/// Result for programmatic consumers: the reported diagnostics, the phase
/// timings and the exit code.
pub struct StructuredOutcome {
    pub diagnostics: Vec<Diagnostic>,
    pub timings: Vec<TimerEntry>,
    pub exit_code: i32,
}

/// A path as a comparison key: forward slashes, ASCII lower case.
pub fn normalize(path: &str) -> (r: String)
    ensures
        r@ == spec_normalize_path(path@),
{
    normalize_path(path)
}

/// `p` normalizes to the normalized form of some path of `set`.
pub open spec fn in_norm_set(p: Seq<char>, set: Seq<Seq<char>>) -> bool {
    exists|j: int| 0 <= j < set.len() && spec_normalize_path(#[trigger] set[j]) == spec_normalize_path(p)
}

/// Normalized forms of each path.
fn normalize_all(paths: &[String]) -> (r: Vec<String>)
    ensures
        r@.len() == paths@.len(),
        forall|j: int| 0 <= j < paths@.len() ==> #[trigger] r@[j]@ == spec_normalize_path(paths@[j]@),
{
    let mut r: Vec<String> = Vec::new();
    let mut j: usize = 0;
    while j < paths.len()
        invariant
            j <= paths@.len(),
            r@.len() == j,
            forall|k: int| 0 <= k < j ==> #[trigger] r@[k]@ == spec_normalize_path(paths@[k]@),
        decreases paths@.len() - j,
    {
        r.push(normalize(paths[j].as_str()));
        j = j + 1;
    }
    r
}

/// Is `key` one of the texts of `keys`?
fn contains_text(keys: &Vec<String>, key: &String) -> (r: bool)
    ensures
        r == exists|j: int| 0 <= j < keys@.len() && #[trigger] keys@[j]@ == key@,
{
    let mut j: usize = 0;
    while j < keys.len()
        invariant
            j <= keys@.len(),
            forall|k: int| 0 <= k < j ==> #[trigger] keys@[k]@ != key@,
        decreases keys@.len() - j,
    {
        if keys[j] == *key {
            return true;
        }
        j = j + 1;
    }
    false
}

/// The candidates whose normalized path is that of some path of `set`, in
/// order.
pub open spec fn keep_in_set(paths: Seq<Seq<char>>, set: Seq<Seq<char>>) -> Seq<Seq<char>>
    decreases paths.len(),
{
    if paths.len() == 0 {
        Seq::empty()
    } else {
        let rest = keep_in_set(paths.drop_last(), set);
        if in_norm_set(paths.last(), set) {
            rest.push(paths.last())
        } else {
            rest
        }
    }
}

/// The strict candidates that the user's subset names: all of them when
/// there is no subset, otherwise those whose normalized path the subset
/// has.
pub open spec fn spec_effective_targets(candidates: Seq<Seq<char>>, subset: Seq<Seq<char>>) -> Seq<
    Seq<char>,
> {
    if subset.len() == 0 {
        candidates
    } else {
        keep_in_set(candidates, subset)
    }
}

/// Intersect the strict candidates with the user's subset, comparing paths
/// case-insensitively and with forward slashes.
pub fn effective_targets(strict_candidates: &[String], subset: &[String]) -> (r: Vec<String>)
    ensures
        views(r@) == spec_effective_targets(views(strict_candidates@), views(subset@)),
{
    let mut r: Vec<String> = Vec::new();
    if subset.len() == 0 {
        let mut i: usize = 0;
        while i < strict_candidates.len()
            invariant
                i <= strict_candidates@.len(),
                views(r@) == views(strict_candidates@).take(i as int),
            decreases strict_candidates@.len() - i,
        {
            let c = strict_candidates[i].clone();
            let ghost before = views(r@);
            r.push(c);
            assert(views(r@) =~= before.push(strict_candidates@[i as int]@));
            assert(views(strict_candidates@).take(i + 1) =~= views(strict_candidates@).take(
                i as int,
            ).push(strict_candidates@[i as int]@));
            i = i + 1;
        }
        assert(views(strict_candidates@).take(i as int) =~= views(strict_candidates@));
        return r;
    }
    let keys = normalize_all(subset);
    let ghost c = views(strict_candidates@);
    let ghost s = views(subset@);
    let mut i: usize = 0;
    while i < strict_candidates.len()
        invariant
            i <= strict_candidates@.len(),
            c == views(strict_candidates@),
            s == views(subset@),
            keys@.len() == subset@.len(),
            forall|j: int| 0 <= j < subset@.len() ==> #[trigger] keys@[j]@ == spec_normalize_path(subset@[j]@),
            views(r@) == keep_in_set(c.take(i as int), s),
        decreases strict_candidates@.len() - i,
    {
        proof {
            assert(c.take(i + 1).drop_last() =~= c.take(i as int));
            assert(c.take(i + 1).last() == strict_candidates@[i as int]@);
        }
        let key = normalize(strict_candidates[i].as_str());
        let found = contains_text(&keys, &key);
        proof {
            if found {
                let j = choose|j: int| 0 <= j < keys@.len() && #[trigger] keys@[j]@ == key@;
                assert(spec_normalize_path(s[j]) == spec_normalize_path(c[i as int]));
            } else {
                assert forall|j: int| 0 <= j < s.len() implies spec_normalize_path(#[trigger] s[j])
                    != spec_normalize_path(c[i as int]) by {
                    assert(keys@[j]@ == spec_normalize_path(s[j]));
                }
            }
        }
        if found {
            r.push(strict_candidates[i].clone());
        }
        assert(views(r@) =~= keep_in_set(c.take(i + 1), s));
        i = i + 1;
    }
    assert(c.take(i as int) =~= c);
    r
}

/// A diagnostic is kept when it names no file or a file of the targets.
pub open spec fn targets_keep(d: Diagnostic, targets: Seq<Seq<char>>) -> bool {
    match d.file {
        None => true,
        Some(f) => in_norm_set(f@, targets),
    }
}

/// The diagnostics that the targets keep, in order.
pub open spec fn spec_filter_to_targets(ds: Seq<Diagnostic>, targets: Seq<Seq<char>>) -> Seq<Diagnostic>
    decreases ds.len(),
{
    if ds.len() == 0 {
        Seq::empty()
    } else {
        let rest = spec_filter_to_targets(ds.drop_last(), targets);
        if targets_keep(ds.last(), targets) {
            rest.push(ds.last())
        } else {
            rest
        }
    }
}

/// Drop the diagnostics about files outside the targets: the compiler
/// checks everything the tsconfig reaches, the report covers the targets.
pub fn filter_to_targets(diagnostics: Vec<Diagnostic>, targets: &[String]) -> (r: Vec<Diagnostic>)
    ensures
        r@ == spec_filter_to_targets(diagnostics@, views(targets@)),
{
    let keys = normalize_all(targets);
    let ghost t = views(targets@);
    let mut r: Vec<Diagnostic> = Vec::new();
    let mut i: usize = 0;
    while i < diagnostics.len()
        invariant
            i <= diagnostics@.len(),
            t == views(targets@),
            keys@.len() == targets@.len(),
            forall|j: int| 0 <= j < targets@.len() ==> #[trigger] keys@[j]@ == spec_normalize_path(targets@[j]@),
            r@ == spec_filter_to_targets(diagnostics@.take(i as int), t),
        decreases diagnostics@.len() - i,
    {
        proof {
            assert(diagnostics@.take(i + 1).drop_last() =~= diagnostics@.take(i as int));
            assert(diagnostics@.take(i + 1).last() == diagnostics@[i as int]);
        }
        let d = &diagnostics[i];
        let keep = match &d.file {
            None => true,
            Some(f) => {
                let key = normalize(f.as_str());
                let found = contains_text(&keys, &key);
                proof {
                    if found {
                        let j = choose|j: int| 0 <= j < keys@.len() && #[trigger] keys@[j]@ == key@;
                        assert(spec_normalize_path(t[j]) == spec_normalize_path(f@));
                    } else {
                        assert forall|j: int| 0 <= j < t.len() implies spec_normalize_path(#[trigger] t[j])
                            != spec_normalize_path(f@) by {
                            assert(keys@[j]@ == spec_normalize_path(t[j]));
                        }
                    }
                }
                found
            },
        };
        if keep {
            r.push(d.duplicate());
        }
        i = i + 1;
    }
    assert(diagnostics@.take(i as int) =~= diagnostics@);
    r
}

/// The compiler run counts as successful when it exits 0, or exits 2 with
/// diagnostics to report.
pub open spec fn run_succeeded(exit_code: i32, n_diagnostics: nat) -> bool {
    exit_code == 0 || (exit_code == 2 && n_diagnostics > 0)
}

/// What a failed run reports: trimmed stderr, or trimmed stdout when stderr
/// is blank.
pub open spec fn failure_detail(stdout: Seq<char>, stderr: Seq<char>) -> Seq<char> {
    if trim(stderr).len() == 0 {
        trim(stdout)
    } else {
        trim(stderr)
    }
}

/// `s` with surrounding whitespace removed.
pub fn trimmed(s: &str) -> (r: String)
    ensures
        r@ == trim(s@),
{
    let v = to_chars(s);
    let (a, b) = trim_range(&v, 0, v.len());
    assert(v@.subrange(0, v@.len() as int) =~= v@);
    string_of(&v, a, b)
}

/// Turn the compiler's exit status into an error unless it succeeded (see
/// [`run_succeeded`]).
pub fn check_tsgo_result(result: &TsgoRunResult) -> (r: Result<(), Error>)
    ensures
        r is Ok <==> run_succeeded(result.exit_code, result.diagnostics@.len()),
        r matches Err(e) ==> e matches Error::TsgoFailed { exit_code, stderr } && exit_code
            == result.exit_code && stderr@ == failure_detail(result.stdout@, result.stderr@),
{
    if result.exit_code == 0 || (result.exit_code == 2 && result.diagnostics.len() > 0) {
        return Ok(());
    }
    let err = trimmed(result.stderr.as_str());
    let detail = if err.as_str().unicode_len() == 0 {
        trimmed(result.stdout.as_str())
    } else {
        err
    };
    Err(Error::TsgoFailed { exit_code: result.exit_code, stderr: detail })
}

/// The error diagnostics, in order.
pub open spec fn errors_only(ds: Seq<Diagnostic>) -> Seq<Diagnostic>
    decreases ds.len(),
{
    if ds.len() == 0 {
        Seq::empty()
    } else {
        let rest = errors_only(ds.drop_last());
        if ds.last().category == Category::Error {
            rest.push(ds.last())
        } else {
            rest
        }
    }
}

/// Keep the error diagnostics.
pub fn keep_errors(diagnostics: Vec<Diagnostic>) -> (r: Vec<Diagnostic>)
    ensures
        r@ == errors_only(diagnostics@),
{
    let mut r: Vec<Diagnostic> = Vec::new();
    let mut i: usize = 0;
    while i < diagnostics.len()
        invariant
            i <= diagnostics@.len(),
            r@ == errors_only(diagnostics@.take(i as int)),
        decreases diagnostics@.len() - i,
    {
        proof {
            assert(diagnostics@.take(i + 1).drop_last() =~= diagnostics@.take(i as int));
            assert(diagnostics@.take(i + 1).last() == diagnostics@[i as int]);
        }
        let d = &diagnostics[i];
        if d.category == Category::Error {
            r.push(d.duplicate());
        }
        i = i + 1;
    }
    assert(diagnostics@.take(i as int) =~= diagnostics@);
    r
}

/// The end of a run: the compiler's status is checked, the diagnostics are
/// narrowed to the targets and to errors, and the exit code is 1 exactly
/// when an error is left.
pub fn conclude_run(result: TsgoRunResult, targets: &[String], timings: Vec<TimerEntry>) -> (r: Result<
    StructuredOutcome,
    Error,
>)
    ensures
        r is Ok <==> run_succeeded(result.exit_code, result.diagnostics@.len()),
        r matches Err(e) ==> e matches Error::TsgoFailed { exit_code, stderr } && exit_code
            == result.exit_code && stderr@ == failure_detail(result.stdout@, result.stderr@),
        r matches Ok(o) ==> o.diagnostics@ == errors_only(
            spec_filter_to_targets(result.diagnostics@, views(targets@)),
        ) && o.timings@ == timings@ && o.exit_code == (if o.diagnostics@.len() == 0 {
            0i32
        } else {
            1i32
        }),
{
    match check_tsgo_result(&result) {
        Err(e) => return Err(e),
        Ok(()) => {},
    }
    let kept = filter_to_targets(result.diagnostics, targets);
    let errors = keep_errors(kept);
    let exit_code = if errors.len() == 0 {
        0
    } else {
        1
    };
    Ok(StructuredOutcome { diagnostics: errors, timings, exit_code })
}

/// The outcome of a run whose target set came out empty: nothing to check,
/// exit code 0.
pub fn empty_run(timings: Vec<TimerEntry>) -> (r: StructuredOutcome)
    ensures
        r.diagnostics@.len() == 0,
        r.timings@ == timings@,
        r.exit_code == 0,
{
    StructuredOutcome { diagnostics: Vec::new(), timings, exit_code: 0 }
}

/// `p` is, once normalized, the ASCII-lower-cased form of some reachable
/// path.
pub open spec fn reachable_has(p: Seq<char>, reachable: Seq<Seq<char>>) -> bool {
    exists|j: int|
        0 <= j < reachable.len() && spec_lower_seq(#[trigger] reachable[j]) == spec_normalize_path(p)
}

/// The candidates that the reachable set has, in order.
pub open spec fn keep_reachable(paths: Seq<Seq<char>>, reachable: Seq<Seq<char>>) -> Seq<Seq<char>>
    decreases paths.len(),
{
    if paths.len() == 0 {
        Seq::empty()
    } else {
        let rest = keep_reachable(paths.drop_last(), reachable);
        if reachable_has(paths.last(), reachable) {
            rest.push(paths.last())
        } else {
            rest
        }
    }
}

/// After the subset step: without a subset, and with a reachable set and
/// candidates left, the reachable set drops the orphans; otherwise the
/// candidates stand.
pub open spec fn spec_orphan_filter(
    candidates: Seq<Seq<char>>,
    reachable: Option<Seq<Seq<char>>>,
    subset: Seq<Seq<char>>,
) -> Seq<Seq<char>> {
    match reachable {
        Some(rs) => if subset.len() == 0 && candidates.len() > 0 {
            keep_reachable(candidates, rs)
        } else {
            candidates
        },
        None => candidates,
    }
}

/// ASCII lower case of each text.
fn lower_all(paths: &[String]) -> (r: Vec<String>)
    ensures
        r@.len() == paths@.len(),
        forall|j: int| 0 <= j < paths@.len() ==> #[trigger] r@[j]@ == spec_lower_seq(paths@[j]@),
{
    let mut r: Vec<String> = Vec::new();
    let mut j: usize = 0;
    while j < paths.len()
        invariant
            j <= paths@.len(),
            r@.len() == j,
            forall|k: int| 0 <= k < j ==> #[trigger] r@[k]@ == spec_lower_seq(paths@[k]@),
        decreases paths@.len() - j,
    {
        let v = to_chars(paths[j].as_str());
        let mut s = String::new();
        let mut i: usize = 0;
        while i < v.len()
            invariant
                i <= v@.len(),
                s@ == spec_lower_seq(v@.take(i as int)),
            decreases v@.len() - i,
        {
            crate::text::push_char(&mut s, crate::text::lower(v[i]));
            i = i + 1;
            assert(s@ =~= spec_lower_seq(v@.take(i as int)));
        }
        assert(v@.take(i as int) =~= v@);
        r.push(s);
        j = j + 1;
    }
    r
}

/// Drop the candidates that the reachable set does not have (see
/// [`spec_orphan_filter`]).
pub fn orphan_filter(candidates: Vec<String>, reachable: Option<&[String]>, subset: &[String]) -> (r: Vec<
    String,
>)
    ensures
        views(r@) == spec_orphan_filter(
            views(candidates@),
            match reachable {
                Some(rs) => Some(views(rs@)),
                None => None,
            },
            views(subset@),
        ),
{
    let rs = match reachable {
        Some(rs) => rs,
        None => return candidates,
    };
    if subset.len() != 0 || candidates.len() == 0 {
        return candidates;
    }
    let lowered = lower_all(rs);
    let ghost c = views(candidates@);
    let ghost rv = views(rs@);
    let mut r: Vec<String> = Vec::new();
    let mut i: usize = 0;
    while i < candidates.len()
        invariant
            i <= candidates@.len(),
            c == views(candidates@),
            rv == views(rs@),
            lowered@.len() == rs@.len(),
            forall|j: int| 0 <= j < rs@.len() ==> #[trigger] lowered@[j]@ == spec_lower_seq(rs@[j]@),
            views(r@) == keep_reachable(c.take(i as int), rv),
        decreases candidates@.len() - i,
    {
        proof {
            assert(c.take(i + 1).drop_last() =~= c.take(i as int));
            assert(c.take(i + 1).last() == candidates@[i as int]@);
        }
        let key = normalize(candidates[i].as_str());
        let found = contains_text(&lowered, &key);
        proof {
            if found {
                let j = choose|j: int| 0 <= j < lowered@.len() && #[trigger] lowered@[j]@ == key@;
                assert(spec_lower_seq(rv[j]) == spec_normalize_path(c[i as int]));
            } else {
                assert forall|j: int| 0 <= j < rv.len() implies spec_lower_seq(#[trigger] rv[j])
                    != spec_normalize_path(c[i as int]) by {
                    assert(lowered@[j]@ == spec_lower_seq(rv[j]));
                }
            }
        }
        if found {
            r.push(candidates[i].clone());
        }
        assert(views(r@) =~= keep_reachable(c.take(i + 1), rv));
        i = i + 1;
    }
    assert(c.take(i as int) =~= c);
    r
}

/// Select the files to check: the project files filtered by pragmas and the
/// plugin block, sorted as paths without duplicates, intersected with the
/// user's subset, and, without a subset, with the orphans that the
/// reachable set lacks dropped. The reachable set only ever filters; it is
/// never the source of targets.
pub fn select_effective_targets(
    project_files: Vec<(String, PragmaHint)>,
    reachable: Option<&[String]>,
    strict_plugin_config: Option<&StrictPluginConfig>,
    config_dir: &str,
    subset: &[String],
) -> (r: Result<Vec<String>, Error>)
    ensures
        match r {
            Ok(v) => exclude_ok(plugin_exclude(opt_plugin(strict_plugin_config))) && exists|
                s: Seq<Seq<char>>,
            |
                sorted_dedup_of(
                    s,
                    strict_filter(
                        project_files@,
                        opt_plugin(strict_plugin_config),
                        config_dir@,
                        plugin_exclude(opt_plugin(strict_plugin_config)),
                    ),
                    true,
                ) && views(v@) == spec_orphan_filter(
                    spec_effective_targets(s, views(subset@)),
                    match reachable {
                        Some(rs) => Some(views(rs@)),
                        None => None,
                    },
                    views(subset@),
                ),
            Err(e) => !exclude_ok(plugin_exclude(opt_plugin(strict_plugin_config)))
                && exclude_set_outcome(Err(e), plugin_exclude(opt_plugin(strict_plugin_config))),
        },
{
    let strict = match find_strict_candidates(project_files.as_slice(), strict_plugin_config, config_dir) {
        Ok(s) => s,
        Err(e) => return Err(e),
    };
    let candidates = effective_targets(strict.as_slice(), subset);
    let r = orphan_filter(candidates, reachable, subset);
    assert(sorted_dedup_of(
        views(strict@),
        strict_filter(
            project_files@,
            opt_plugin(strict_plugin_config),
            config_dir@,
            plugin_exclude(opt_plugin(strict_plugin_config)),
        ),
        true,
    ));
    Ok(r)
}


/// The result of a compiler run from what it printed and how it exited:
/// the diagnostics are parsed from stdout and stderr together.
pub fn finish_tsgo_run(exit_code: i32, stdout: String, stderr: String, cwd: &str, duration_ms: u128) -> (r:
    TsgoRunResult)
    ensures
        diag_views(r.diagnostics@) == spec_parse_diagnostics(stdout@, stderr@, cwd@),
        r.stdout == stdout,
        r.stderr == stderr,
        r.exit_code == exit_code,
        r.duration_ms == duration_ms,
{
    let diagnostics = parse_diagnostics(stdout.as_str(), stderr.as_str(), cwd);
    TsgoRunResult { diagnostics, stdout, stderr, exit_code, duration_ms }
}

} // verus!
