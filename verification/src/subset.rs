//! The user's positional inputs: files, directories and glob patterns,
//! sorted into what is kept, what is walked and what is matched, and merged
//! into one list of TypeScript files.
use vstd::prelude::*;
use crate::errors::Error;
use crate::files::{is_ts_file, spec_is_ts_file};
use crate::globs::{
    build_set, check_glob, contains_char, glob_error, glob_matches, glob_set_error,
    glob_set_is_match, glob_set_patterns, starts_with_text, trim_end_slashes, trim_end_slashes_of,
};
use crate::order::{char_views, compare_text, compare_texts};
use crate::paths::{join, spec_join};
use crate::sorting::{name_tag, path_key, path_key_of};
use crate::text::{push_char, push_str, seq_starts_with, to_chars, views};

verus! {

/// The characters that make an input a glob pattern.
pub open spec fn is_glob_char(c: char) -> bool {
    c == '*' || c == '?' || c == '[' || c == ']' || c == '{' || c == '}' || c == '(' || c == ')'
        || c == '!'
}

/// An input is a glob pattern when it holds one of [`is_glob_char`].
pub open spec fn spec_is_glob(s: Seq<char>) -> bool {
    exists|i: int| 0 <= i < s.len() && is_glob_char(#[trigger] s[i])
}

/// Is the input a glob pattern (see [`spec_is_glob`])?
pub fn is_glob(input: &str) -> (r: bool)
    ensures
        r == spec_is_glob(input@),
{
    let v = to_chars(input);
    let mut i: usize = 0;
    while i < v.len()
        invariant
            i <= v@.len(),
            v@ == input@,
            forall|j: int| 0 <= j < i ==> !is_glob_char(#[trigger] v@[j]),
        decreases v@.len() - i,
    {
        let c = v[i];
        if c == '*' || c == '?' || c == '[' || c == ']' || c == '{' || c == '}' || c == '('
            || c == ')' || c == '!' {
            assert(is_glob_char(v@[i as int]));
            return true;
        }
        i = i + 1;
    }
    false
}

/// A subset pattern is matched against absolute paths: an absolute one (or
/// one holding a drive's `:`) as it is, any other under the working
/// directory.
pub open spec fn anchor_subset(pattern: Seq<char>, cwd: Seq<char>) -> Seq<char> {
    if seq_starts_with(pattern, seq!['/']) || pattern.contains(':') {
        pattern
    } else {
        trim_end_slashes(cwd) + seq!['/'] + pattern
    }
}

/// The anchored form of a subset pattern (see [`anchor_subset`]).
pub fn anchor_subset_pattern(pattern: &str, cwd: &str) -> (r: String)
    ensures
        r@ == anchor_subset(pattern@, cwd@),
{
    let slash = "/";
    proof {
        reveal_strlit("/");
        assert(slash@ =~= seq!['/']);
    }
    if starts_with_text(pattern, slash) || contains_char(pattern, ':') {
        return pattern.to_owned();
    }
    let mut r = trim_end_slashes_of(cwd);
    push_char(&mut r, '/');
    push_str(&mut r, pattern);
    r
}

/// What the filesystem holds at an input's path.
#[derive(Debug, Clone, Copy, PartialEq, Eq, Structural)]
pub enum InputKind {
    Missing,
    Directory,
    File,
}

/// Where an input goes: matched as a pattern, walked as a directory, kept
/// as a file, or dropped (a file that is not TypeScript).
#[derive(Debug, Clone, PartialEq, Eq)]
pub enum SubsetInput {
    Pattern(String),
    Directory(String),
    File(String),
    Skipped,
}

/// Sort one input: a glob, or a path that does not exist, is a pattern; a
/// directory is walked; a TypeScript file is kept; other files are dropped.
/// Paths are taken under the working directory.
pub open spec fn classified_as(r: SubsetInput, input: Seq<char>, cwd: Seq<char>, kind: InputKind) -> bool {
    let abs = spec_join(cwd, input);
    if spec_is_glob(input) {
        r matches SubsetInput::Pattern(p) && p@ == input
    } else {
        match kind {
            InputKind::Missing => r matches SubsetInput::Pattern(p) && p@ == input,
            InputKind::Directory => r matches SubsetInput::Directory(d) && d@ == abs,
            InputKind::File => if spec_is_ts_file(abs) {
                r matches SubsetInput::File(f) && f@ == abs
            } else {
                r matches SubsetInput::Skipped
            },
        }
    }
}

/// Sort one input, given what the filesystem holds at
/// `join(cwd, input)` (see [`classified_as`]).
pub fn classify_subset_input(input: &str, cwd: &str, kind: InputKind) -> (r: SubsetInput)
    ensures
        classified_as(r, input@, cwd@, kind),
{
    if is_glob(input) {
        return SubsetInput::Pattern(input.to_owned());
    }
    let abs = join(cwd, input);
    match kind {
        InputKind::Missing => SubsetInput::Pattern(input.to_owned()),
        InputKind::Directory => SubsetInput::Directory(abs),
        InputKind::File => if is_ts_file(abs.as_str()) {
            SubsetInput::File(abs)
        } else {
            SubsetInput::Skipped
        },
    }
}

/// `p` names the same path as some entry of `out`: their components agree.
pub open spec fn has_path(out: Seq<Seq<char>>, p: Seq<char>) -> bool {
    exists|j: int| 0 <= j < out.len() && path_key(#[trigger] out[j]) == path_key(p)
}

/// The TypeScript files among `items`, each path once, first occurrence
/// first.
pub open spec fn merged_inputs(items: Seq<Seq<char>>) -> Seq<Seq<char>>
    decreases items.len(),
{
    if items.len() == 0 {
        Seq::empty()
    } else {
        let rest = merged_inputs(items.drop_last());
        let f = items.last();
        if spec_is_ts_file(f) && !has_path(rest, f) {
            rest.push(f)
        } else {
            rest
        }
    }
}

proof fn lemma_views_concat(a: Seq<String>, b: Seq<String>)
    ensures
        views(a + b) == views(a) + views(b),
{
    assert(views(a + b) =~= views(a) + views(b));
}

/// Merge the kept files, the files found in the directories and the files
/// the patterns matched, in that order (see [`merged_inputs`]).
pub fn merge_subset_files(explicit: Vec<String>, walked: Vec<String>, globbed: Vec<String>) -> (r: Vec<
    String,
>)
    ensures
        views(r@) == merged_inputs(views(explicit@) + views(walked@) + views(globbed@)),
{
    let ghost e0 = explicit@;
    let ghost w0 = walked@;
    let ghost g0 = globbed@;
    let mut all = explicit;
    let mut w = walked;
    let mut g = globbed;
    all.append(&mut w);
    all.append(&mut g);
    proof {
        lemma_views_concat(e0, w0);
        lemma_views_concat(e0 + w0, g0);
    }
    let ghost items = views(all@);
    let mut out: Vec<String> = Vec::new();
    let mut keys: Vec<Vec<Vec<char>>> = Vec::new();
    let mut i: usize = 0;
    while i < all.len()
        invariant
            i <= all@.len(),
            items == views(all@),
            views(out@) == merged_inputs(items.take(i as int)),
            keys@.len() == out@.len(),
            forall|k: int| 0 <= k < keys@.len() ==> char_views(#[trigger] keys@[k]@) == path_key(out@[k]@),
        decreases all@.len() - i,
    {
        proof {
            assert(items.take(i + 1).drop_last() =~= items.take(i as int));
            assert(items.take(i + 1).last() == all@[i as int]@);
        }
        let f = all[i].as_str();
        if is_ts_file(f) {
            let key = path_key_of(f);
            let mut found = false;
            let mut k: usize = 0;
            while k < keys.len()
                invariant
                    k <= keys@.len() == out@.len(),
                    forall|m: int| 0 <= m < keys@.len() ==> char_views(#[trigger] keys@[m]@) == path_key(out@[m]@),
                    char_views(key@) == path_key(f@),
                    found == exists|m: int| 0 <= m < k && path_key(#[trigger] out@[m]@) == path_key(f@),
                decreases keys@.len() - k,
            {
                if compare_texts(&keys[k], &key) == 0 {
                    found = true;
                }
                k = k + 1;
            }
            proof {
                let rest = views(out@);
                assert(found == has_path(rest, f@)) by {
                    if found {
                        let m = choose|m: int| 0 <= m < k && path_key(#[trigger] out@[m]@) == path_key(f@);
                        assert(rest[m] == out@[m]@);
                    }
                    if has_path(rest, f@) {
                        let m = choose|m: int| 0 <= m < rest.len() && path_key(#[trigger] rest[m]) == path_key(f@);
                        assert(rest[m] == out@[m]@);
                    }
                }
            }
            if !found {
                let ghost before = views(out@);
                out.push(all[i].clone());
                keys.push(key);
                assert(views(out@) =~= before.push(all@[i as int]@));
            }
        }
        i = i + 1;
    }
    assert(items.take(i as int) =~= items);
    out
}

/// A component that the walks leave out: `node_modules` or `.git`.
pub open spec fn ignored_component(c: Seq<char>) -> bool {
    c == seq![name_tag()] + "node_modules"@ || c == seq![name_tag()] + ".git"@
}

/// Some component of the path is `node_modules` or `.git`.
pub open spec fn in_ignored_dir(p: Seq<char>) -> bool {
    exists|j: int| 0 <= j < path_key(p).len() && ignored_component(#[trigger] path_key(p)[j])
}

/// A file found in a directory the user named is kept when it is
/// TypeScript and lies below no `node_modules` or `.git` directory.
pub fn keep_dir_walked(path: &str) -> (r: bool)
    ensures
        r == (!in_ignored_dir(path@) && spec_is_ts_file(path@)),
{
    let key = path_key_of(path);
    let nm: Vec<char> = vec!['\u{4}', 'n', 'o', 'd', 'e', '_', 'm', 'o', 'd', 'u', 'l', 'e', 's'];
    let git: Vec<char> = vec!['\u{4}', '.', 'g', 'i', 't'];
    proof {
        reveal_strlit("node_modules");
        reveal_strlit(".git");
        assert(nm@ =~= seq![name_tag()] + "node_modules"@);
        assert(git@ =~= seq![name_tag()] + ".git"@);
    }
    let mut k: usize = 0;
    while k < key.len()
        invariant
            k <= key@.len(),
            char_views(key@) == path_key(path@),
            nm@ == seq![name_tag()] + "node_modules"@,
            git@ == seq![name_tag()] + ".git"@,
            forall|m: int| 0 <= m < k ==> !ignored_component(#[trigger] path_key(path@)[m]),
        decreases key@.len() - k,
    {
        assert(path_key(path@)[k as int] == key@[k as int]@);
        if compare_text(&key[k], &nm) == 0 || compare_text(&key[k], &git) == 0 {
            return false;
        }
        k = k + 1;
    }
    is_ts_file(path)
}

/// Index of the first glob that `globset` refuses.
pub open spec fn first_refused(globs: Seq<Seq<char>>) -> Option<int>
    decreases globs.len(),
{
    if globs.len() == 0 {
        None
    } else {
        match first_refused(globs.drop_last()) {
            Some(i) => Some(i),
            None => if glob_error(globs.last()) is Some {
                Some(globs.len() - 1)
            } else {
                None
            },
        }
    }
}

/// The anchored subset patterns.
pub open spec fn anchored_subset(patterns: Seq<Seq<char>>, cwd: Seq<char>) -> Seq<Seq<char>> {
    patterns.map_values(|p: Seq<char>| anchor_subset(p, cwd))
}

/// One glob set from `globs`: the first refused glob fails it with
/// `head`, the name the user knows it by (`shown`) and the error; a refused
/// build fails with `glob build error: ` and the error.
pub open spec fn checked_set_outcome(
    r: Result<globset::GlobSet, Error>,
    globs: Seq<Seq<char>>,
    shown: Seq<Seq<char>>,
    head: Seq<char>,
) -> bool {
    match first_refused(globs) {
        Some(i) => r matches Err(Error::Msg(m)) && glob_error(globs[i]) matches Some(e) && m@
            == head + shown[i] + "': "@ + e,
        None => match glob_set_error(globs) {
            Some(e) => r matches Err(Error::Msg(m)) && m@ == "glob build error: "@ + e,
            None => r matches Ok(s) && glob_set_patterns(s) == globs,
        },
    }
}

proof fn lemma_first_refused_prefix(globs: Seq<Seq<char>>, n: int)
    requires
        0 <= n <= globs.len(),
        first_refused(globs.take(n)) is Some,
    ensures
        first_refused(globs) == first_refused(globs.take(n)),
    decreases globs.len() - n,
{
    if n < globs.len() {
        assert(globs.take(n + 1).drop_last() =~= globs.take(n));
        lemma_first_refused_prefix(globs, n + 1);
    } else {
        assert(globs.take(n) =~= globs);
    }
}

/// Build a glob set from `globs`, each checked first (see
/// [`checked_set_outcome`]).
fn checked_set(globs: &[String], shown: &[String], head: &str) -> (r: Result<globset::GlobSet, Error>)
    requires
        globs@.len() == shown@.len(),
    ensures
        checked_set_outcome(r, views(globs@), views(shown@), head@),
{
    let ghost gs = views(globs@);
    let mut i: usize = 0;
    while i < globs.len()
        invariant
            i <= globs@.len() == shown@.len(),
            gs == views(globs@),
            first_refused(gs.take(i as int)) is None,
            forall|k: int| 0 <= k < i ==> glob_error(#[trigger] gs[k]) is None,
        decreases globs@.len() - i,
    {
        assert(gs.take(i + 1).drop_last() =~= gs.take(i as int));
        assert(gs.take(i + 1).last() == gs[i as int]);
        match check_glob(globs[i].as_str()) {
            Some(e) => {
                proof {
                    assert(first_refused(gs.take(i + 1)) == Some(i as int));
                    lemma_first_refused_prefix(gs, i + 1);
                    assert(views(shown@)[i as int] == shown@[i as int]@);
                }
                let mut m = head.to_owned();
                push_str(&mut m, shown[i].as_str());
                push_str(&mut m, "': ");
                push_str(&mut m, e.as_str());
                return Err(Error::Msg(m));
            },
            None => {},
        }
        i = i + 1;
    }
    assert(gs.take(i as int) =~= gs);
    assert forall|k: int| 0 <= k < globs@.len() implies glob_error(#[trigger] globs@[k]@) is None by {
        assert(gs[k] == globs@[k]@);
    }
    match build_set(globs) {
        Ok(s) => Ok(s),
        Err(e) => {
            let mut m = "glob build error: ".to_owned();
            push_str(&mut m, e.as_str());
            Err(Error::Msg(m))
        },
    }
}

/// The two glob sets of a pattern walk: the anchored patterns, then the
/// default ignores; the first that fails is the error (see
/// [`checked_set_outcome`]).
pub open spec fn walk_sets_outcome(
    r: Result<(globset::GlobSet, globset::GlobSet), Error>,
    patterns: Seq<Seq<char>>,
    cwd: Seq<char>,
) -> bool {
    let inc = anchored_subset(patterns, cwd);
    let ign = crate::files::default_ignores();
    &&& r matches Ok((a, b)) ==> checked_set_outcome(Ok(a), inc, patterns, "invalid glob '"@)
        && checked_set_outcome(Ok(b), ign, ign, "invalid default ignore '"@)
    &&& r matches Err(e) ==> checked_set_outcome(Err(e), inc, patterns, "invalid glob '"@) || (
    exists|a: globset::GlobSet|
        checked_set_outcome(Ok(a), inc, patterns, "invalid glob '"@) && checked_set_outcome(
            Err(e),
            ign,
            ign,
            "invalid default ignore '"@,
        ))
}

/// Build the sets that a walk of the working directory matches subset
/// patterns with: the patterns anchored there, and the default ignores.
pub fn subset_walk_sets(patterns: &[String], cwd: &str) -> (r: Result<
    (globset::GlobSet, globset::GlobSet),
    Error,
>)
    ensures
        walk_sets_outcome(r, views(patterns@), cwd@),
{
    let ghost ps = views(patterns@);
    let mut anchored: Vec<String> = Vec::new();
    let mut i: usize = 0;
    while i < patterns.len()
        invariant
            i <= patterns@.len(),
            ps == views(patterns@),
            views(anchored@) == anchored_subset(ps.take(i as int), cwd@),
        decreases patterns@.len() - i,
    {
        let ghost before = views(anchored@);
        anchored.push(anchor_subset_pattern(patterns[i].as_str(), cwd));
        assert(ps[i as int] == patterns@[i as int]@);
        assert(ps.take(i + 1) =~= ps.take(i as int).push(ps[i as int]));
        assert(views(anchored@) =~= before.push(anchor_subset(ps[i as int], cwd@)));
        i = i + 1;
        assert(views(anchored@) =~= anchored_subset(ps.take(i as int), cwd@));
    }
    assert(ps.take(i as int) =~= ps);
    let inc = match checked_set(anchored.as_slice(), patterns, "invalid glob '") {
        Ok(s) => s,
        Err(e) => return Err(e),
    };
    let ign = crate::files::with_default_ignores(&[]);
    assert(views(ign@) =~= crate::files::default_ignores());
    match checked_set(ign.as_slice(), ign.as_slice(), "invalid default ignore '") {
        Ok(s) => Ok((inc, s)),
        Err(e) => Err(e),
    }
}

/// A file found while walking for subset patterns is kept when no default
/// ignore matches it and some pattern does.
pub fn keep_pattern_walked(path: &str, wanted: &globset::GlobSet, ignore: &globset::GlobSet) -> (r: bool)
    ensures
        r == (!(exists|i: int|
            0 <= i < glob_set_patterns(*ignore).len() && glob_matches(
                #[trigger] glob_set_patterns(*ignore)[i],
                path@,
            )) && (exists|i: int|
            0 <= i < glob_set_patterns(*wanted).len() && glob_matches(
                #[trigger] glob_set_patterns(*wanted)[i],
                path@,
            ))),
{
    !glob_set_is_match(ignore, path) && glob_set_is_match(wanted, path)
}

} // verus!
