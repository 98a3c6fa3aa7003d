//! Glob sets built from tsconfig patterns, anchored at the directory of the
//! config that defined them. Parsing and matching globs is the `globset`
//! crate's work.
use vstd::prelude::*;
use crate::errors::Error;
use crate::posix::{posix_resolve, spec_posix_resolve};
use crate::text::{push_char, push_str, seq_contains, seq_starts_with, string_of, to_chars, views};

verus! {

#[verifier::external_type_specification]
#[verifier::external_body]
pub struct ExGlobSet(globset::GlobSet);

/// What `globset::Glob::new` says of a pattern: `None` when it accepts it,
/// otherwise the text of its error.
pub uninterp spec fn glob_error(pattern: Seq<char>) -> Option<Seq<char>>;

/// Whether a glob, compiled with `globset`'s default options, matches a
/// path.
pub uninterp spec fn glob_matches(pattern: Seq<char>, path: Seq<char>) -> bool;

/// The globs that a `globset::GlobSet` was built from, in order.
pub uninterp spec fn glob_set_patterns(set: globset::GlobSet) -> Seq<Seq<char>>;

/// What `globset::GlobSetBuilder::build` says of a list of accepted globs:
/// `None` when it builds the set, otherwise the text of its error.
pub uninterp spec fn glob_set_error(patterns: Seq<Seq<char>>) -> Option<Seq<char>>;

/// Some glob of `patterns` matches `path`.
pub open spec fn any_glob_matches(patterns: Seq<Seq<char>>, path: Seq<char>) -> bool {
    exists|i: int| 0 <= i < patterns.len() && glob_matches(#[trigger] patterns[i], path)
}

/// Ask `globset::Glob::new` whether it accepts `pattern`; the claim is that
/// the answer is the named verdict [`glob_error`] of the pattern, with the
/// error rendered by its `Display`.
#[verifier::external_body]
pub(crate) fn check_glob(pattern: &str) -> (r: Option<String>)
    ensures
        match r {
            Some(m) => glob_error(pattern@) == Some(m@),
            None => glob_error(pattern@) is None,
        },
{
    match globset::Glob::new(pattern) {
        Ok(_) => None,
        Err(e) => Some(e.to_string()),
    }
}

/// Add each glob to a `globset::GlobSetBuilder` and `build` it. Claimed:
/// on success the set holds exactly these globs in this order; on failure
/// the error text is the named verdict [`glob_set_error`] of the list.
#[verifier::external_body]
pub(crate) fn build_set(globs: &[String]) -> (r: Result<globset::GlobSet, String>)
    requires
        forall|i: int| 0 <= i < globs@.len() ==> glob_error(#[trigger] globs@[i]@) is None,
    ensures
        match r {
            Ok(s) => glob_set_error(views(globs@)) is None && glob_set_patterns(s) == views(globs@),
            Err(m) => glob_set_error(views(globs@)) == Some(m@),
        },
{
    let mut builder = globset::GlobSetBuilder::new();
    for g in globs {
        if let Ok(glob) = globset::Glob::new(g) {
            builder.add(glob);
        }
    }
    builder.build().map_err(|e| e.to_string())
}

/// `globset::GlobSet::is_match` on a path given as text. Claimed, as its
/// documentation says: true exactly when some glob of the set matches.
#[verifier::external_body]
pub fn glob_set_is_match(set: &globset::GlobSet, path: &str) -> (r: bool)
    ensures
        r == (exists|i: int|
            0 <= i < glob_set_patterns(*set).len() && glob_matches(
                #[trigger] glob_set_patterns(*set)[i],
                path@,
            )),
{
    set.is_match(std::path::Path::new(path))
}

/// `s` without its trailing `/`s.
pub open spec fn trim_end_slashes(s: Seq<char>) -> Seq<char>
    decreases s.len(),
{
    if s.len() > 0 && s.last() == '/' {
        trim_end_slashes(s.drop_last())
    } else {
        s
    }
}

/// `s.trim_end_matches('/')`.
pub fn trim_end_slashes_of(s: &str) -> (r: String)
    ensures
        r@ == trim_end_slashes(s@),
{
    let v = to_chars(s);
    let mut n = v.len();
    assert(v@.take(n as int) =~= v@);
    while n > 0 && v[n - 1] == '/'
        invariant
            n <= v@.len(),
            v@ == s@,
            trim_end_slashes(s@) == trim_end_slashes(v@.take(n as int)),
        decreases n,
    {
        assert(v@.take(n as int).drop_last() =~= v@.take(n - 1));
        n = n - 1;
    }
    assert(trim_end_slashes(v@.take(n as int)) == v@.take(n as int));
    let r = string_of(&v, 0, n);
    assert(v@.subrange(0, n as int) =~= v@.take(n as int));
    r
}

/// Does `s` start with `prefix`?
pub fn starts_with_text(s: &str, prefix: &str) -> (r: bool)
    ensures
        r == seq_starts_with(s@, prefix@),
{
    let v = to_chars(s);
    let w = to_chars(prefix);
    if w.len() > v.len() {
        return false;
    }
    let mut i: usize = 0;
    while i < w.len()
        invariant
            w@.len() <= v@.len(),
            v@ == s@,
            w@ == prefix@,
            i <= w@.len(),
            forall|j: int| 0 <= j < i ==> v@[j] == w@[j],
        decreases w@.len() - i,
    {
        if v[i] != w[i] {
            assert(v@.take(w@.len() as int)[i as int] != w@[i as int]);
            return false;
        }
        i = i + 1;
    }
    assert(v@.take(w@.len() as int) =~= w@);
    true
}

/// Does `s` contain the character `c`?
pub fn contains_char(s: &str, c: char) -> (r: bool)
    ensures
        r == s@.contains(c),
{
    let v = to_chars(s);
    let mut i: usize = 0;
    while i < v.len()
        invariant
            i <= v@.len(),
            v@ == s@,
            forall|j: int| 0 <= j < i ==> v@[j] != c,
        decreases v@.len() - i,
    {
        if v[i] == c {
            return true;
        }
        i = i + 1;
    }
    false
}

/// A pattern is left as it is when it is absolute (`/...`), starts with
/// `**/` or holds a `:` (a Windows drive); otherwise it is joined onto the
/// defining config's directory.
pub open spec fn anchor_glob(pattern: Seq<char>, base: Seq<char>) -> Seq<char> {
    if seq_starts_with(pattern, seq!['/']) || seq_starts_with(pattern, seq!['*', '*', '/'])
        || pattern.contains(':') {
        pattern
    } else {
        trim_end_slashes(base) + seq!['/'] + pattern
    }
}

/// The globs one tsconfig pattern stands for: the anchored pattern with its
/// `.` and `..` segments collapsed, and, when it has no `*` or `?`, also
/// everything below it as a directory.
pub open spec fn pattern_globs(pattern: Seq<char>, base: Seq<char>) -> Seq<Seq<char>> {
    let a = spec_posix_resolve(anchor_glob(pattern, base));
    if !a.contains('*') && !a.contains('?') {
        seq![a, trim_end_slashes(a) + seq!['/', '*', '*']]
    } else {
        seq![a]
    }
}

/// The globs of all the patterns, in order.
pub open spec fn spec_anchored_globs(patterns: Seq<Seq<char>>, base: Seq<char>) -> Seq<Seq<char>>
    decreases patterns.len(),
{
    if patterns.len() == 0 {
        Seq::empty()
    } else {
        spec_anchored_globs(patterns.drop_last(), base) + pattern_globs(patterns.last(), base)
    }
}

/// The first glob of one pattern that `globset` refuses, with its error.
pub open spec fn pattern_failure(pattern: Seq<char>, base: Seq<char>) -> Option<Seq<char>> {
    let gs = pattern_globs(pattern, base);
    match glob_error(gs[0]) {
        Some(e) => Some(e),
        None => if gs.len() > 1 {
            glob_error(gs[1])
        } else {
            None
        },
    }
}

/// The first pattern, in order, with a refused glob: the pattern and the
/// error.
pub open spec fn first_pattern_failure(patterns: Seq<Seq<char>>, base: Seq<char>) -> Option<
    (Seq<char>, Seq<char>),
>
    decreases patterns.len(),
{
    if patterns.len() == 0 {
        None
    } else {
        match first_pattern_failure(patterns.drop_last(), base) {
            Some(f) => Some(f),
            None => match pattern_failure(patterns.last(), base) {
                Some(e) => Some((patterns.last(), e)),
                None => None,
            },
        }
    }
}

/// The outcome of building a glob set from tsconfig patterns: nothing for
/// no patterns; the first refused pattern; a refused build; or the set of
/// the anchored globs.
pub open spec fn glob_set_outcome(
    r: Result<Option<globset::GlobSet>, Error>,
    patterns: Seq<Seq<char>>,
    base: Seq<char>,
) -> bool {
    if patterns.len() == 0 {
        r matches Ok(None)
    } else {
        match first_pattern_failure(patterns, base) {
            Some((p, e)) => r matches Err(Error::Msg(m)) && m@ == "invalid glob pattern '"@ + p
                + "': "@ + e,
            None => match glob_set_error(spec_anchored_globs(patterns, base)) {
                Some(e) => r matches Err(Error::Msg(m)) && m@ == "glob build error: "@ + e,
                None => r matches Ok(Some(s)) && glob_set_patterns(s) == spec_anchored_globs(
                    patterns,
                    base,
                ),
            },
        }
    }
}

/// The anchored form of one pattern (see [`anchor_glob`]).
fn anchor_glob_of(pattern: &str, base: &str) -> (r: String)
    ensures
        r@ == anchor_glob(pattern@, base@),
{
    let slash = "/";
    let stars = "**/";
    proof {
        reveal_strlit("/");
        reveal_strlit("**/");
        assert(slash@ =~= seq!['/']);
        assert(stars@ =~= seq!['*', '*', '/']);
    }
    if starts_with_text(pattern, slash) || starts_with_text(pattern, stars) || contains_char(
        pattern,
        ':',
    ) {
        return pattern.to_owned();
    }
    let mut r = trim_end_slashes_of(base);
    push_char(&mut r, '/');
    push_str(&mut r, pattern);
    r
}

/// The globs of one pattern (see [`pattern_globs`]).
fn globs_of_pattern(pattern: &str, base: &str) -> (r: Vec<String>)
    ensures
        views(r@) == pattern_globs(pattern@, base@),
{
    let anchored = anchor_glob_of(pattern, base);
    let a = posix_resolve(anchored.as_str());
    if !contains_char(a.as_str(), '*') && !contains_char(a.as_str(), '?') {
        let mut d = trim_end_slashes_of(a.as_str());
        let tail = "/**";
        proof {
            reveal_strlit("/**");
            assert(tail@ =~= seq!['/', '*', '*']);
        }
        push_str(&mut d, tail);
        let r = vec![a, d];
        assert(views(r@) =~= pattern_globs(pattern@, base@));
        r
    } else {
        let r = vec![a];
        assert(views(r@) =~= pattern_globs(pattern@, base@));
        r
    }
}

/// `"<head>" + a + "<mid>" + b` as an error message.
fn message3(head: &str, a: &str, mid: &str, b: &str) -> (r: Error)
    ensures
        r matches Error::Msg(m) && m@ == head@ + a@ + mid@ + b@,
{
    let mut s = head.to_owned();
    push_str(&mut s, a);
    push_str(&mut s, mid);
    push_str(&mut s, b);
    Error::Msg(s)
}

/// Build one glob set from tsconfig `include`/`exclude` patterns, anchored
/// at `base`, the directory of the config that defined them. No patterns
/// give no set.
pub fn build_glob_set(patterns: &[String], base: &str) -> (r: Result<Option<globset::GlobSet>, Error>)
    ensures
        glob_set_outcome(r, views(patterns@), base@),
{
    if patterns.len() == 0 {
        return Ok(None);
    }
    let ghost ps = views(patterns@);
    let mut globs: Vec<String> = Vec::new();
    let mut i: usize = 0;
    while i < patterns.len()
        invariant
            i <= patterns@.len(),
            ps == views(patterns@),
            views(globs@) == spec_anchored_globs(ps.take(i as int), base@),
            first_pattern_failure(ps.take(i as int), base@) is None,
            forall|k: int| 0 <= k < globs@.len() ==> glob_error(#[trigger] globs@[k]@) is None,
        decreases patterns@.len() - i,
    {
        proof {
            assert(ps.take(i + 1).drop_last() =~= ps.take(i as int));
            assert(ps.take(i + 1).last() == patterns@[i as int]@);
        }
        let pattern = patterns[i].as_str();
        let pg = globs_of_pattern(pattern, base);
        let mut j: usize = 0;
        let ghost before = globs@;
        while j < pg.len()
            invariant
                i < patterns@.len(),
                ps == views(patterns@),
                first_pattern_failure(ps.take(i as int), base@) is None,
                ps.take(i + 1).drop_last() == ps.take(i as int),
                ps.take(i + 1).last() == pattern@,
                views(before) == spec_anchored_globs(ps.take(i as int), base@),
                j <= pg@.len(),
                1 <= pg@.len() <= 2,
                views(pg@) == pattern_globs(pattern@, base@),
                globs@ == before + pg@.take(j as int),
                forall|k: int| 0 <= k < j ==> glob_error(#[trigger] pg@[k]@) is None,
                forall|k: int| 0 <= k < before.len() ==> glob_error(#[trigger] before[k]@) is None,
            decreases pg@.len() - j,
        {
            match check_glob(pg[j].as_str()) {
                Some(e) => {
                    proof {
                        assert(pg@[j as int]@ == pattern_globs(pattern@, base@)[j as int]);
                        if j == 1 {
                            assert(glob_error(pg@[0]@) is None);
                        }
                        assert(pattern_failure(pattern@, base@) == Some(e@));
                        assert(first_pattern_failure(ps.take(i + 1), base@) == Some((pattern@, e@)));
                        lemma_failure_prefix(ps, base@, i + 1);
                    }
                    return Err(message3("invalid glob pattern '", pattern, "': ", e.as_str()));
                },
                None => {},
            }
            globs.push(pg[j].clone());
            j = j + 1;
            assert(globs@ =~= before + pg@.take(j as int));
            assert forall|k: int| 0 <= k < globs@.len() implies glob_error(#[trigger] globs@[k]@) is None by {
                if k >= before.len() {
                    assert(globs@[k] == pg@[k - before.len()]);
                }
            }
        }
        proof {
            assert(pg@.take(j as int) =~= pg@);
            assert(views(globs@) =~= views(before) + views(pg@));
            assert(pattern_failure(pattern@, base@) is None) by {
                assert(glob_error(pg@[0]@) is None);
                if pg@.len() > 1 {
                    assert(glob_error(pg@[1]@) is None);
                }
            }
        }
        i = i + 1;
    }
    assert(ps.take(i as int) =~= ps);
    assert(views(globs@) == spec_anchored_globs(ps, base@));
    match build_set(globs.as_slice()) {
        Ok(set) => Ok(Some(set)),
        Err(e) => {
            let mut m = "glob build error: ".to_owned();
            push_str(&mut m, e.as_str());
            Err(Error::Msg(m))
        },
    }
}

/// A failure among the first `n` patterns is the first failure of all.
proof fn lemma_failure_prefix(ps: Seq<Seq<char>>, base: Seq<char>, n: int)
    requires
        0 <= n <= ps.len(),
        first_pattern_failure(ps.take(n), base) is Some,
    ensures
        first_pattern_failure(ps, base) == first_pattern_failure(ps.take(n), base),
    decreases ps.len() - n,
{
    if n < ps.len() {
        assert(ps.take(n + 1).drop_last() =~= ps.take(n));
        assert(first_pattern_failure(ps.take(n + 1), base) == first_pattern_failure(ps.take(n), base));
        lemma_failure_prefix(ps, base, n + 1);
    } else {
        assert(ps.take(n) =~= ps);
    }
}

} // verus!
