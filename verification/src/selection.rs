//! Which project files are strict: pragmas first, then the plugin's `paths`
//! (directory prefixes) and `excludePattern` (globs on the absolute posix
//! path).
use vstd::prelude::*;
use crate::errors::Error;
use crate::globs::{
    any_glob_matches, build_set, check_glob, glob_error, glob_set_error, glob_set_is_match,
    glob_set_patterns, starts_with_text, trim_end_slashes, trim_end_slashes_of,
};
use crate::posix::{
    is_absolute_posix, path_to_posix, posix_resolve, spec_is_absolute_posix, spec_posix_resolve,
};
use crate::pragma::PragmaHint;
use crate::sorting::{sort_dedup, sorted_dedup_of};
use crate::text::{push_char, push_str, seq_starts_with, spec_slashes, views};
use crate::tsconfig::{opt_views, StrictPluginConfig};

verus! {

/// The absolute directory that a plugin `paths` entry names: an absolute
/// entry as it is, a relative one under the tsconfig's directory, with `.`
/// and `..` collapsed.
pub open spec fn spec_plugin_root(entry: Seq<char>, config_dir: Seq<char>) -> Seq<char> {
    let n = spec_slashes(entry);
    spec_posix_resolve(
        if spec_is_absolute_posix(n) {
            n
        } else {
            trim_end_slashes(spec_slashes(config_dir)) + seq!['/'] + n
        },
    )
}

/// The directory a plugin `paths` entry names (see [`spec_plugin_root`]).
pub fn plugin_root(entry: &str, config_dir: &str) -> (r: String)
    ensures
        r@ == spec_plugin_root(entry@, config_dir@),
{
    let n = path_to_posix(entry);
    if is_absolute_posix(n.as_str()) {
        return posix_resolve(n.as_str());
    }
    let base = path_to_posix(config_dir);
    let mut joined = trim_end_slashes_of(base.as_str());
    push_char(&mut joined, '/');
    push_str(&mut joined, n.as_str());
    assert(joined@ =~= trim_end_slashes(spec_slashes(config_dir@)) + seq!['/'] + n@);
    posix_resolve(joined.as_str())
}

/// The file lives under the directory `root`.
pub open spec fn under_root(file: Seq<char>, root: Seq<char>) -> bool {
    seq_starts_with(file, root + seq!['/'])
}

/// The plugin's `paths` admit the file: absent or empty `paths` admit
/// everything, otherwise the file's posix path must start with one entry's
/// directory followed by `/`.
pub open spec fn spec_in_paths(file: Seq<char>, paths: Option<Seq<Seq<char>>>, config_dir: Seq<char>) -> bool {
    match paths {
        None => true,
        Some(ps) => ps.len() == 0 || exists|i: int|
            0 <= i < ps.len() && under_root(
                spec_slashes(file),
                spec_plugin_root(#[trigger] ps[i], config_dir),
            ),
    }
}

/// The decision for one file, given its pragma, the plugin block (its
/// `paths` and `excludePattern`, when the plugin is configured) and whether
/// an exclude glob matches it: `@ts-strict-ignore` excludes, `@ts-strict`
/// includes, no plugin includes, otherwise `paths` and `excludePattern`
/// decide.
pub open spec fn spec_is_strict_file(
    file: Seq<char>,
    hint: PragmaHint,
    plugin: Option<Option<Seq<Seq<char>>>>,
    config_dir: Seq<char>,
    excluded: bool,
) -> bool {
    match hint {
        PragmaHint::Ignore => false,
        PragmaHint::Strict => true,
        PragmaHint::Absent => match plugin {
            None => true,
            Some(paths) => spec_in_paths(file, paths, config_dir) && !excluded,
        },
    }
}

/// The plugin's `paths`, when the plugin is configured.
pub open spec fn plugin_paths(plugin: Option<StrictPluginConfig>) -> Option<Option<Seq<Seq<char>>>> {
    match plugin {
        Some(c) => Some(opt_views(c.paths)),
        None => None,
    }
}

/// Some glob of the exclude set matches the file's posix path.
pub open spec fn spec_excluded(file: Seq<char>, exclude: Option<globset::GlobSet>) -> bool {
    match exclude {
        Some(s) => any_glob_matches(glob_set_patterns(s), spec_slashes(file)),
        None => false,
    }
}

/// Is the file under one of the plugin's `paths` directories?
fn in_paths(file_posix: &str, paths: &Vec<String>, config_dir: &str) -> (r: bool)
    ensures
        r == (exists|i: int|
            0 <= i < paths@.len() && under_root(
                file_posix@,
                spec_plugin_root(#[trigger] views(paths@)[i], config_dir@),
            )),
{
    let mut i: usize = 0;
    while i < paths.len()
        invariant
            i <= paths@.len(),
            forall|j: int|
                0 <= j < i ==> !under_root(
                    file_posix@,
                    spec_plugin_root(#[trigger] views(paths@)[j], config_dir@),
                ),
        decreases paths@.len() - i,
    {
        assert(views(paths@)[i as int] == paths@[i as int]@);
        let mut root = plugin_root(paths[i].as_str(), config_dir);
        let ghost ri = root@;
        push_char(&mut root, '/');
        assert(root@ =~= ri + seq!['/']);
        if starts_with_text(file_posix, root.as_str()) {
            return true;
        }
        i = i + 1;
    }
    false
}

/// Decide whether one file is strict (see [`spec_is_strict_file`]); the
/// exclude set is the plugin's `excludePattern` globs.
pub fn is_strict_file(
    file: &str,
    hint: PragmaHint,
    plugin: Option<&StrictPluginConfig>,
    config_dir: &str,
    exclude: Option<&globset::GlobSet>,
) -> (r: bool)
    ensures
        r == spec_is_strict_file(
            file@,
            hint,
            plugin_paths(match plugin {
                Some(c) => Some(*c),
                None => None,
            }),
            config_dir@,
            spec_excluded(file@, match exclude {
                Some(s) => Some(*s),
                None => None,
            }),
        ),
{
    match hint {
        PragmaHint::Ignore => return false,
        PragmaHint::Strict => return true,
        PragmaHint::Absent => {},
    }
    let cfg = match plugin {
        Some(c) => c,
        None => return true,
    };
    let posix = path_to_posix(file);
    let admitted = match &cfg.paths {
        None => true,
        Some(ps) => ps.len() == 0 || in_paths(posix.as_str(), ps, config_dir),
    };
    let excluded = match exclude {
        Some(set) => glob_set_is_match(set, posix.as_str()),
        None => false,
    };
    admitted && !excluded
}

/// The first `excludePattern` entry that `globset` refuses, with its error.
pub open spec fn first_refused(patterns: Seq<Seq<char>>) -> Option<(Seq<char>, Seq<char>)>
    decreases patterns.len(),
{
    if patterns.len() == 0 {
        None
    } else {
        match first_refused(patterns.drop_last()) {
            Some(f) => Some(f),
            None => match glob_error(patterns.last()) {
                Some(e) => Some((patterns.last(), e)),
                None => None,
            },
        }
    }
}

/// The outcome of compiling the plugin's `excludePattern`: no set without
/// plugin or patterns; the first refused pattern; a refused build; or the
/// set of exactly those globs.
pub open spec fn exclude_set_outcome(
    r: Result<Option<globset::GlobSet>, Error>,
    exclude: Option<Seq<Seq<char>>>,
) -> bool {
    match exclude {
        None => r matches Ok(None),
        Some(ps) => match first_refused(ps) {
            Some((p, e)) => r matches Err(Error::Msg(m)) && m@
                == "invalid plugin 'excludePattern' glob '"@ + p + "': "@ + e,
            None => match glob_set_error(ps) {
                Some(e) => r matches Err(Error::Msg(m)) && m@ == "glob build error: "@ + e,
                None => r matches Ok(Some(s)) && glob_set_patterns(s) == ps,
            },
        },
    }
}

/// The plugin's `excludePattern`, when the plugin is configured and has one.
pub open spec fn plugin_exclude(plugin: Option<StrictPluginConfig>) -> Option<Seq<Seq<char>>> {
    match plugin {
        Some(c) => opt_views(c.exclude_pattern),
        None => None,
    }
}

proof fn lemma_refused_prefix(ps: Seq<Seq<char>>, n: int)
    requires
        0 <= n <= ps.len(),
        first_refused(ps.take(n)) is Some,
    ensures
        first_refused(ps) == first_refused(ps.take(n)),
    decreases ps.len() - n,
{
    if n < ps.len() {
        assert(ps.take(n + 1).drop_last() =~= ps.take(n));
        lemma_refused_prefix(ps, n + 1);
    } else {
        assert(ps.take(n) =~= ps);
    }
}

/// Compile the plugin's `excludePattern` globs into one set.
pub fn build_exclude_set(plugin: Option<&StrictPluginConfig>) -> (r: Result<
    Option<globset::GlobSet>,
    Error,
>)
    ensures
        exclude_set_outcome(r, plugin_exclude(match plugin {
            Some(c) => Some(*c),
            None => None,
        })),
{
    let cfg = match plugin {
        Some(c) => c,
        None => return Ok(None),
    };
    let patterns = match &cfg.exclude_pattern {
        Some(p) => p,
        None => return Ok(None),
    };
    assert(cfg.exclude_pattern == Some(*patterns));
    let ghost ps = views(patterns@);
    assert(plugin_exclude(Some(*cfg)) == Some(ps));
    let mut i: usize = 0;
    while i < patterns.len()
        invariant
            i <= patterns@.len(),
            ps == views(patterns@),
            plugin_exclude(opt_plugin(plugin)) == Some(ps),
            first_refused(ps.take(i as int)) is None,
            forall|k: int| 0 <= k < i ==> glob_error(#[trigger] patterns@[k]@) is None,
        decreases patterns@.len() - i,
    {
        proof {
            assert(ps.take(i + 1).drop_last() =~= ps.take(i as int));
            assert(ps.take(i + 1).last() == patterns@[i as int]@);
        }
        match check_glob(patterns[i].as_str()) {
            Some(e) => {
                proof {
                    assert(first_refused(ps.take(i + 1)) == Some((patterns@[i as int]@, e@)));
                    lemma_refused_prefix(ps, i + 1);
                }
                let mut m = "invalid plugin 'excludePattern' glob '".to_owned();
                push_str(&mut m, patterns[i].as_str());
                push_str(&mut m, "': ");
                push_str(&mut m, e.as_str());
                assert(first_refused(ps) == Some((patterns@[i as int]@, e@)));
                assert(m@ == "invalid plugin 'excludePattern' glob '"@ + patterns@[i as int]@ + "': "@ + e@);
                return Err(Error::Msg(m));
            },
            None => {},
        }
        i = i + 1;
    }
    assert(ps.take(i as int) =~= ps);
    match build_set(patterns.as_slice()) {
        Ok(set) => Ok(Some(set)),
        Err(e) => {
            let mut m = "glob build error: ".to_owned();
            push_str(&mut m, e.as_str());
            Err(Error::Msg(m))
        },
    }
}

/// The plugin block behind an optional reference.
pub open spec fn opt_plugin(p: Option<&StrictPluginConfig>) -> Option<StrictPluginConfig> {
    match p {
        Some(c) => Some(*c),
        None => None,
    }
}

/// `globset` accepts every exclude glob and builds their set.
pub open spec fn exclude_ok(exclude: Option<Seq<Seq<char>>>) -> bool {
    match exclude {
        None => true,
        Some(ps) => first_refused(ps) is None && glob_set_error(ps) is None,
    }
}

/// The files, in order, that the decision keeps.
pub open spec fn strict_filter(
    files: Seq<(String, PragmaHint)>,
    plugin: Option<StrictPluginConfig>,
    config_dir: Seq<char>,
    exclude: Option<Seq<Seq<char>>>,
) -> Seq<Seq<char>>
    decreases files.len(),
{
    if files.len() == 0 {
        Seq::empty()
    } else {
        let rest = strict_filter(files.drop_last(), plugin, config_dir, exclude);
        let f = files.last();
        let excluded = match exclude {
            Some(ps) => any_glob_matches(ps, spec_slashes(f.0@)),
            None => false,
        };
        if spec_is_strict_file(f.0@, f.1, plugin_paths(plugin), config_dir, excluded) {
            rest.push(f.0@)
        } else {
            rest
        }
    }
}

/// Decide which project files are strict, given each file with the pragma
/// found in its head, and return them sorted as paths without duplicates.
pub fn find_strict_candidates(
    project_files: &[(String, PragmaHint)],
    plugin_config: Option<&StrictPluginConfig>,
    config_dir: &str,
) -> (r: Result<Vec<String>, Error>)
    ensures
        match r {
            Ok(v) => exclude_ok(plugin_exclude(opt_plugin(plugin_config))) && sorted_dedup_of(
                views(v@),
                strict_filter(
                    project_files@,
                    opt_plugin(plugin_config),
                    config_dir@,
                    plugin_exclude(opt_plugin(plugin_config)),
                ),
                true,
            ),
            Err(e) => !exclude_ok(plugin_exclude(opt_plugin(plugin_config))) && exclude_set_outcome(
                Err(e),
                plugin_exclude(opt_plugin(plugin_config)),
            ),
        },
{
    let ghost plugin = opt_plugin(plugin_config);
    let exclude = match build_exclude_set(plugin_config) {
        Ok(x) => x,
        Err(e) => return Err(e),
    };
    let ghost ex = plugin_exclude(plugin);

    let mut kept: Vec<String> = Vec::new();
    let mut i: usize = 0;
    while i < project_files.len()
        invariant
            i <= project_files@.len(),
            match exclude {
                Some(s) => ex is Some && glob_set_patterns(s) == ex->0,
                None => ex is None,
            },
            plugin == opt_plugin(plugin_config),
            exclude_ok(ex),
            views(kept@) == strict_filter(project_files@.take(i as int), plugin, config_dir@, ex),
        decreases project_files@.len() - i,
    {
        proof {
            assert(project_files@.take(i + 1).drop_last() =~= project_files@.take(i as int));
            assert(project_files@.take(i + 1).last() == project_files@[i as int]);
        }
        let (file, hint) = &project_files[i];
        let keep = is_strict_file(file.as_str(), *hint, plugin_config, config_dir, exclude.as_ref());
        if keep {
            kept.push(file.clone());
            assert(views(kept@) =~= strict_filter(project_files@.take(i + 1), plugin, config_dir@, ex));
        }
        i = i + 1;
    }
    assert(project_files@.take(i as int) =~= project_files@);
    let r = sort_dedup(kept, true);
    Ok(r)
}

} // verus!
