//! The standalone checker: a smaller front end with its own argument
//! syntax, its own reading of compiler output, and an "exact" mode that
//! reports only what strict mode adds over a baseline run.
use vstd::prelude::*;
use crate::diff::{flatten_message, spec_flatten_message};
use crate::files::{last_index, last_index_in, lemma_last_index};
use crate::lines::{find_sep, lemma_split_last, lemma_split_step, split, split_from};
use crate::parse::{
    all_digits, digits_part, digits_value, is_digit, parse_u32, spec_lines, spec_parse_u32,
    text_lines, trimmed_end,
};
use crate::paths::{is_absolute, join, spec_join, spec_is_absolute};
use crate::text::{
    push_char, push_decimal, push_str, seq_contains, seq_ends_with, seq_starts_with, spec_slashes,
    str_equal, string_of, to_chars, trim, trim_end, views,
};

verus! {

/// What `str::to_lowercase` gives for a text (full Unicode lower-casing).
pub uninterp spec fn unicode_lower(s: Seq<char>) -> Seq<char>;

/// `str::to_lowercase`. Claimed: its result is the named
/// [`unicode_lower`] of the text.
#[verifier::external_body]
fn to_lowercase(s: &str) -> (r: String)
    ensures
        r@ == unicode_lower(s@),
{
    s.to_lowercase()
}

/// `needle` occurs in `hay` at `i`.
pub open spec fn occurs_at(hay: Seq<char>, needle: Seq<char>, i: int) -> bool {
    0 <= i && i + needle.len() <= hay.len() && hay.subrange(i, i + needle.len()) == needle
}

/// The first index at or after `k` where `needle` occurs in `hay`.
pub open spec fn first_from(hay: Seq<char>, needle: Seq<char>, k: int) -> Option<int>
    decreases hay.len() + 1 - k,
{
    if k < 0 || k + needle.len() > hay.len() {
        None
    } else if occurs_at(hay, needle, k) {
        Some(k)
    } else {
        first_from(hay, needle, k + 1)
    }
}

/// `str::find`: the first index where `needle` occurs.
pub open spec fn find_text(hay: Seq<char>, needle: Seq<char>) -> Option<int> {
    first_from(hay, needle, 0)
}

/// Find `needle` in `v` (see [`find_text`]).
pub fn find_chars(v: &Vec<char>, needle: &Vec<char>) -> (r: Option<usize>)
    ensures
        match r {
            Some(i) => find_text(v@, needle@) == Some(i as int) && i + needle@.len() <= v@.len(),
            None => find_text(v@, needle@) is None,
        },
{
    let n = needle.len();
    if n > v.len() {
        return None;
    }
    let last = v.len() - n;
    let mut i: usize = 0;
    assert(v@.subrange(0, v@.len() as int) =~= v@);
    while i <= last
        invariant
            n == needle@.len(),
            last == v@.len() - n,
            v@.subrange(0, v@.len() as int) == v@,
            find_text(v@, needle@) == first_from(v@, needle@, i as int),
        decreases last + 1 - i,
    {
        if crate::text::matches_at(v.as_slice(), 0, v.len(), i, needle.as_slice()) {
            assert(occurs_at(v@, needle@, i as int));
            return Some(i);
        }
        assert(!occurs_at(v@, needle@, i as int));
        if i == last {
            assert(first_from(v@, needle@, i + 1) is None);
            return None;
        }
        i = i + 1;
    }
    None
}

/// The standalone checker's own ANSI stripping, byte by byte: `ESC [`
/// starts an escape that runs to the next `m` (or the end); every other
/// byte is kept as the character of the same number.
pub open spec fn strip_ansi_from(b: Seq<u8>, i: int) -> Seq<char>
    decreases b.len() - i, 1int,
{
    if i < 0 || i >= b.len() {
        Seq::empty()
    } else if b[i] == 27 && i + 1 < b.len() && b[i + 1] == 91 {
        skip_escape(b, i + 2)
    } else {
        seq![(b[i] as u32) as char] + strip_ansi_from(b, i + 1)
    }
}

/// The rest after an escape whose body starts at `j`.
pub open spec fn skip_escape(b: Seq<u8>, j: int) -> Seq<char>
    decreases b.len() - j, 0int,
{
    if j < 0 || j >= b.len() {
        Seq::empty()
    } else if b[j] == 109 {
        strip_ansi_from(b, j + 1)
    } else {
        skip_escape(b, j + 1)
    }
}

/// The standalone checker's ANSI stripping of a line's UTF-8 bytes.
pub open spec fn spec_strip_ansi_bytes(input: Seq<char>) -> Seq<char> {
    strip_ansi_from(vstd::utf8::encode_utf8(input), 0)
}

/// Strip `ESC [ ... m` escapes (see [`spec_strip_ansi_bytes`]).
pub fn strip_ansi(input: &str) -> (r: String)
    ensures
        r@ == spec_strip_ansi_bytes(input@),
{
    let bytes = input.as_bytes();
    let ghost b = bytes@;
    let mut out = String::new();
    let mut i: usize = 0;
    while i < bytes.len()
        invariant
            b == bytes@,
            b == vstd::utf8::encode_utf8(input@),
            i <= b.len(),
            out@ + strip_ansi_from(b, i as int) == strip_ansi_from(b, 0),
        decreases b.len() - i,
    {
        if bytes[i] == 27 && i + 1 < bytes.len() && bytes[i + 1] == 91 {
            let mut j = i + 2;
            assert(strip_ansi_from(b, i as int) == skip_escape(b, j as int));
            while j < bytes.len() && bytes[j] != 109
                invariant
                    b == bytes@,
                    i < j <= b.len(),
                    strip_ansi_from(b, i as int) == skip_escape(b, j as int),
                decreases b.len() - j,
            {
                j = j + 1;
            }
            if j < bytes.len() {
                j = j + 1;
            }
            assert(strip_ansi_from(b, i as int) == strip_ansi_from(b, j as int));
            i = j;
        } else {
            let c = bytes[i] as char;
            assert(strip_ansi_from(b, i as int) == seq![c] + strip_ansi_from(b, i + 1));
            push_char(&mut out, c);
            assert(out@ + strip_ansi_from(b, i + 1) =~= strip_ansi_from(b, 0));
            i = i + 1;
        }
    }
    assert(strip_ansi_from(b, i as int) =~= Seq::<char>::empty());
    assert(out@ + Seq::<char>::empty() =~= out@);
    out
}

/// Each `\` doubled and each `"` escaped.
pub open spec fn spec_json_escape(s: Seq<char>) -> Seq<char>
    decreases s.len(),
{
    if s.len() == 0 {
        Seq::empty()
    } else {
        let c = s.last();
        spec_json_escape(s.drop_last()) + (if c == '\\' {
            seq!['\\', '\\']
        } else if c == '"' {
            seq!['\\', '"']
        } else {
            seq![c]
        })
    }
}

/// Escape `\` and `"` for a JSON string.
pub fn json_escape(input: &str) -> (r: String)
    ensures
        r@ == spec_json_escape(input@),
{
    let v = to_chars(input);
    let mut out = String::new();
    let mut i: usize = 0;
    while i < v.len()
        invariant
            i <= v@.len(),
            v@ == input@,
            out@ == spec_json_escape(v@.take(i as int)),
        decreases v@.len() - i,
    {
        let c = v[i];
        if c == '\\' {
            push_char(&mut out, '\\');
            push_char(&mut out, '\\');
        } else if c == '"' {
            push_char(&mut out, '\\');
            push_char(&mut out, '"');
        } else {
            push_char(&mut out, c);
        }
        assert(v@.take(i + 1).drop_last() =~= v@.take(i as int));
        assert(out@ =~= spec_json_escape(v@.take(i + 1)));
        i = i + 1;
    }
    assert(v@.take(i as int) =~= v@);
    out
}

/// `p` as it is when absolute, else joined onto `cwd`.
pub open spec fn spec_abs_path(cwd: Seq<char>, p: Seq<char>) -> Seq<char> {
    if spec_is_absolute(p) {
        p
    } else {
        spec_join(cwd, p)
    }
}

/// Make `p` absolute against `cwd`.
pub fn abs_path(cwd: &str, p: &str) -> (r: String)
    ensures
        r@ == spec_abs_path(cwd@, p@),
{
    if is_absolute(p) {
        p.to_owned()
    } else {
        join(cwd, p)
    }
}

/// The standalone checker's path key: forward slashes, Unicode lower case.
pub open spec fn spec_normalize(p: Seq<char>) -> Seq<char> {
    unicode_lower(spec_slashes(p))
}

/// The path key (see [`spec_normalize`]).
pub fn normalize(path: &str) -> (r: String)
    ensures
        r@ == spec_normalize(path@),
{
    let v = to_chars(path);
    let s = crate::text::forward_slashes(&v, 0, v.len());
    assert(v@.subrange(0, v@.len() as int) =~= v@);
    to_lowercase(s.as_str())
}

/// A TypeScript source by its extension, compared exactly.
pub open spec fn spec_is_ts_file(p: Seq<char>) -> bool {
    match crate::files::extension_of(crate::files::file_name_of(p)) {
        Some(e) => e == seq!['t', 's'] || e == seq!['t', 's', 'x'] || e == seq!['m', 't', 's'] || e
            == seq!['c', 't', 's'],
        None => false,
    }
}

/// Is `p` a TypeScript source (see [`spec_is_ts_file`])?
pub fn is_ts_file(p: &str) -> (r: bool)
    ensures
        r == spec_is_ts_file(p@),
{
    let v = to_chars(p);
    assert(v@.take(v@.len() as int) =~= v@);
    let start = match last_index_in(&v, v.len(), '/') {
        Some(i) => i + 1,
        None => 0,
    };
    let ghost name = crate::files::file_name_of(p@);
    assert(name =~= v@.skip(start as int));
    let mut i = v.len();
    assert(name.take(i - start) =~= name);
    while i > start && v[i - 1] != '.'
        invariant
            start <= i <= v@.len(),
            name == v@.skip(start as int),
            last_index(name, '.') == last_index(name.take(i - start), '.'),
        decreases i,
    {
        assert(name.take(i - start).drop_last() =~= name.take(i - start - 1));
        assert(name.take(i - start).last() == v@[i - 1]);
        i = i - 1;
    }
    if i == start {
        assert(last_index(name.take(0), '.') is None);
        return false;
    }
    assert(name.take(i - start).last() == v@[i - 1]);
    let d = i - 1 - start;
    if d == 0 {
        return false;
    }
    let mut e: Vec<char> = Vec::new();
    let mut j = i;
    while j < v.len()
        invariant
            i <= j <= v@.len(),
            e@ == v@.subrange(i as int, j as int),
        decreases v@.len() - j,
    {
        e.push(v[j]);
        j = j + 1;
        assert(e@ =~= v@.subrange(i as int, j as int));
    }
    proof {
        assert(last_index(name.take(i - start), '.') == Some(d as int));
        assert(e@ =~= name.skip(d + 1));
    }
    let ts: Vec<char> = vec!['t', 's'];
    let tsx: Vec<char> = vec!['t', 's', 'x'];
    let mts: Vec<char> = vec!['m', 't', 's'];
    let cts: Vec<char> = vec!['c', 't', 's'];
    assert(ts@ =~= seq!['t', 's']);
    assert(tsx@ =~= seq!['t', 's', 'x']);
    assert(mts@ =~= seq!['m', 't', 's']);
    assert(cts@ =~= seq!['c', 't', 's']);
    crate::order::compare_text(&e, &ts) == 0 || crate::order::compare_text(&e, &tsx) == 0
        || crate::order::compare_text(&e, &mts) == 0 || crate::order::compare_text(&e, &cts) == 0
}

/// The standalone checker's glob: `*` matches everything; a pattern
/// without `*` matches only itself; one `*` matches what starts with the
/// part before it and ends with the part after it; with more, what
/// contains the part before the first `*`.
pub open spec fn spec_simple_glob_match(pattern: Seq<char>, candidate: Seq<char>) -> bool {
    if pattern == seq!['*'] {
        true
    } else if !pattern.contains('*') {
        pattern == candidate
    } else {
        let parts = split(pattern, '*');
        if parts.len() == 2 {
            seq_starts_with(candidate, parts[0]) && seq_ends_with(candidate, parts[1])
        } else {
            seq_contains(candidate, parts[0])
        }
    }
}

/// The first two `*`-separated parts of a pattern with a `*`, and whether
/// there are exactly two.
fn star_parts(v: &Vec<char>) -> (r: (usize, usize, bool))
    requires
        v@.contains('*'),
    ensures
        r.0 <= r.1 <= v@.len(),
        split(v@, '*')[0] == v@.subrange(0, r.0 as int),
        r.0 < v@.len() && v@[r.0 as int] == '*',
        r.2 == (split(v@, '*').len() == 2),
        r.2 ==> split(v@, '*')[1] == v@.subrange(r.0 + 1, v@.len() as int),
{
    let n = v.len();
    let e0 = find_sep(v, '*', 0);
    proof {
        assert(exists|k: int| 0 <= k < v@.len() && v@[k] == '*');
        let k = choose|k: int| 0 <= k < v@.len() && v@[k] == '*';
        crate::lines::lemma_next_sep(v@, '*', 0);
        if e0 >= v@.len() {
            assert(v@[k] != '*');
        }
        assert(e0 < n);
        lemma_split_step(v@, '*', 0);
    }
    let e1 = find_sep(v, '*', e0 + 1);
    proof {
        if e1 < v@.len() {
            lemma_split_step(v@, '*', e0 + 1);
            assert(split_from(v@, '*', e1 + 1).len() >= 1) by {
                if crate::lines::next_sep(v@, '*', e1 + 1) < v@.len() {
                    lemma_split_step(v@, '*', e1 + 1);
                } else {
                    lemma_split_last(v@, '*', e1 + 1);
                }
            }
        } else {
            lemma_split_last(v@, '*', e0 + 1);
        }
    }
    (e0, e1, e1 >= v.len())
}

/// An input that names no file or directory is matched as a glob when it
/// holds a `*` or a `?`; otherwise it is ignored.
pub fn is_simple_glob(input: &str) -> (r: bool)
    ensures
        r == (input@.contains('*') || input@.contains('?')),
{
    let v = to_chars(input);
    let mut i: usize = 0;
    while i < v.len()
        invariant
            i <= v@.len(),
            v@ == input@,
            forall|j: int| 0 <= j < i ==> v@[j] != '*' && v@[j] != '?',
        decreases v@.len() - i,
    {
        if v[i] == '*' || v[i] == '?' {
            assert(v@[i as int] == '*' ==> input@.contains('*'));
            assert(v@[i as int] == '?' ==> input@.contains('?'));
            return true;
        }
        i = i + 1;
    }
    false
}

/// Match a candidate against the standalone checker's glob (see
/// [`spec_simple_glob_match`]).
pub fn simple_glob_match(pattern: &str, candidate: &str) -> (r: bool)
    ensures
        r == spec_simple_glob_match(pattern@, candidate@),
{
    let v = to_chars(pattern);
    let c = to_chars(candidate);
    if v.len() == 1 && v[0] == '*' {
        assert(v@ =~= seq!['*']);
        return true;
    }
    proof {
        if v@ == seq!['*'] {
            assert(v@[0] == '*');
        }
    }
    let star: Vec<char> = vec!['*'];
    assert(star@ =~= seq!['*']);
    if !crate::text::contains_at_range(v.as_slice(), 0, v.len(), star.as_slice()) {
        proof {
            assert(v@.subrange(0, v@.len() as int) =~= v@);
            if v@.contains('*') {
                let k = choose|k: int| 0 <= k < v@.len() && v@[k] == '*';
                assert(v@.subrange(k, k + 1) =~= seq!['*']);
            }
        }
        return str_equal(pattern, candidate);
    }
    proof {
        assert(v@.subrange(0, v@.len() as int) =~= v@);
        let k = choose|k: int| 0 <= k && k + 1 <= v@.len() && #[trigger] v@.subrange(k, k + 1) == seq!['*'];
        assert(v@[k] == v@.subrange(k, k + 1)[0]);
    }
    let (a, b, two) = star_parts(&v);
    let first = string_of(&v, 0, a);
    if two {
        let second = string_of(&v, a + 1, v.len());
        starts_with_str(candidate, first.as_str()) && ends_with_str(candidate, second.as_str())
    } else {
        let fc = to_chars(first.as_str());
        let r = crate::text::contains_at_range(c.as_slice(), 0, c.len(), fc.as_slice());
        assert(c@.subrange(0, c@.len() as int) =~= c@);
        r
    }
}

/// Does `s` start with `prefix`?
fn starts_with_str(s: &str, prefix: &str) -> (r: bool)
    ensures
        r == seq_starts_with(s@, prefix@),
{
    crate::globs::starts_with_text(s, prefix)
}

/// Does `s` end with `suffix`?
fn ends_with_str(s: &str, suffix: &str) -> (r: bool)
    ensures
        r == seq_ends_with(s@, suffix@),
{
    let v = to_chars(s);
    let w = to_chars(suffix);
    if w.len() > v.len() {
        return false;
    }
    let off = v.len() - w.len();
    let r = crate::text::matches_at(v.as_slice(), 0, v.len(), off, w.as_slice());
    assert(v@.subrange(0, v@.len() as int) =~= v@);
    r
}

/// The paths whose key no earlier path has, in order.
pub open spec fn spec_dedupe_paths(paths: Seq<Seq<char>>) -> Seq<Seq<char>>
    decreases paths.len(),
{
    if paths.len() == 0 {
        Seq::empty()
    } else {
        let rest = spec_dedupe_paths(paths.drop_last());
        if exists|j: int| 0 <= j < paths.len() - 1 && spec_normalize(#[trigger] paths[j]) == spec_normalize(paths.last()) {
            rest
        } else {
            rest.push(paths.last())
        }
    }
}

/// Drop the paths whose key (see [`spec_normalize`]) an earlier path has.
pub fn dedupe_paths(paths: Vec<String>) -> (r: Vec<String>)
    ensures
        views(r@) == spec_dedupe_paths(views(paths@)),
{
    let ghost ps = views(paths@);
    let mut seen: Vec<String> = Vec::new();
    let mut out: Vec<String> = Vec::new();
    let mut i: usize = 0;
    while i < paths.len()
        invariant
            i <= paths@.len(),
            ps == views(paths@),
            seen@.len() == i,
            forall|k: int| 0 <= k < i ==> #[trigger] seen@[k]@ == spec_normalize(ps[k]),
            views(out@) == spec_dedupe_paths(ps.take(i as int)),
        decreases paths@.len() - i,
    {
        let key = normalize(paths[i].as_str());
        let mut found = false;
        let mut k: usize = 0;
        while k < seen.len()
            invariant
                k <= seen@.len() == i,
                i < paths@.len(),
                ps == views(paths@),
                forall|m: int| 0 <= m < i ==> #[trigger] seen@[m]@ == spec_normalize(ps[m]),
                key@ == spec_normalize(ps[i as int]),
                found == exists|m: int| 0 <= m < k && spec_normalize(#[trigger] ps[m]) == key@,
            decreases seen@.len() - k,
        {
            if seen[k] == key {
                found = true;
            }
            k = k + 1;
        }
        proof {
            let t = ps.take(i + 1);
            assert(t.drop_last() =~= ps.take(i as int));
            assert(t.last() == ps[i as int]);
            assert forall|m: int| 0 <= m < t.len() - 1 implies t[m] == ps[m] by {}
            if found {
                let m = choose|m: int| 0 <= m < i && spec_normalize(#[trigger] ps[m]) == key@;
                assert(t[m] == ps[m]);
            } else {
                assert(!exists|m: int| 0 <= m < t.len() - 1 && spec_normalize(#[trigger] t[m]) == spec_normalize(t.last())) by {
                    assert forall|m: int| 0 <= m < t.len() - 1 implies spec_normalize(#[trigger] t[m]) != spec_normalize(t.last()) by {
                        assert(t[m] == ps[m]);
                    }
                }
            }
        }
        if !found {
            let ghost before = views(out@);
            out.push(paths[i].clone());
            assert(views(out@) =~= before.push(ps[i as int]));
        }
        seen.push(key);
        i = i + 1;
    }
    assert(ps.take(i as int) =~= ps);
    out
}

/// `s.parse::<usize>()`: an optional `+` then ASCII digits, at most
/// `usize::MAX`.
pub open spec fn spec_parse_usize(s: Seq<char>) -> Option<usize> {
    if all_digits(digits_part(s)) && digits_value(digits_part(s)) <= usize::MAX {
        Some(digits_value(digits_part(s)) as usize)
    } else {
        None
    }
}

proof fn lemma_digits_grow(d: Seq<char>, n: int)
    requires
        0 <= n <= d.len(),
        forall|i: int| 0 <= i < d.len() ==> is_digit(#[trigger] d[i]),
    ensures
        digits_value(d.take(n)) <= digits_value(d),
    decreases d.len() - n,
{
    if n < d.len() {
        lemma_digits_grow(d.drop_last(), n);
        assert(d.drop_last().take(n) =~= d.take(n));
    } else {
        assert(d.take(n) =~= d);
    }
}

/// Parse a `usize` as `str::parse` does (see [`spec_parse_usize`]).
pub fn parse_usize(s: &str) -> (r: Option<usize>)
    ensures
        r == spec_parse_usize(s@),
{
    let v = to_chars(s);
    let start: usize = if v.len() > 0 && v[0] == '+' {
        1
    } else {
        0
    };
    let ghost d = digits_part(s@);
    assert(d =~= v@.skip(start as int));
    if start >= v.len() {
        assert(d.len() == 0);
        return None;
    }
    let mut acc: u128 = 0;
    let mut i = start;
    while i < v.len()
        invariant
            start <= i <= v@.len(),
            d == v@.skip(start as int),
            v@ == s@,
            d == digits_part(s@),
            acc == digits_value(d.take(i - start)),
            acc <= usize::MAX,
            forall|j: int| 0 <= j < i - start ==> is_digit(#[trigger] d[j]),
        decreases v@.len() - i,
    {
        let c = v[i];
        if !('0' <= c && c <= '9') {
            assert(d[i - start] == c);
            assert(!is_digit(d[i - start]));
            assert(!all_digits(d));
            return None;
        }
        let digit = (c as u32 - 48) as u128;
        assert(d.take(i - start + 1).drop_last() =~= d.take(i - start));
        assert(d.take(i - start + 1).last() == c);
        acc = acc * 10 + digit;
        i = i + 1;
        if acc > usize::MAX as u128 {
            proof {
                if all_digits(d) {
                    lemma_digits_grow(d, i - start);
                }
            }
            return None;
        }
    }
    assert(d.take(i - start) =~= d);
    Some(acc as usize)
}

/// `rsplitn(3, ':')` of a location: the file before the second-last `:`,
/// then the line and the column, each trimmed and parsed.
pub open spec fn spec_parse_colon_loc(s: Seq<char>) -> Option<(Seq<char>, usize, usize)> {
    match last_index(s, ':') {
        Some(i) => match last_index(s.take(i), ':') {
            Some(j) => match (spec_parse_usize(trim(s.subrange(j + 1, i))), spec_parse_usize(trim(s.skip(i + 1)))) {
                (Some(l), Some(c)) => Some((s.take(j), l, c)),
                _ => None,
            },
            None => None,
        },
        None => None,
    }
}

/// The trimmed text of `v[a..b]`.
fn trimmed_range(v: &Vec<char>, a: usize, b: usize) -> (r: String)
    requires
        a <= b <= v@.len(),
    ensures
        r@ == trim(v@.subrange(a as int, b as int)),
{
    let (x, y) = crate::text::trim_range(v.as_slice(), a, b);
    string_of(v.as_slice(), x, y)
}

/// Split a `file:line:col` location (see [`spec_parse_colon_loc`]).
pub fn parse_colon_loc(s: &str) -> (r: Option<(String, usize, usize)>)
    ensures
        match r {
            Some((f, l, c)) => spec_parse_colon_loc(s@) == Some((f@, l, c)),
            None => spec_parse_colon_loc(s@) is None,
        },
{
    let v = to_chars(s);
    assert(v@.take(v@.len() as int) =~= v@);
    let i = match last_index_in(&v, v.len(), ':') {
        Some(i) => i,
        None => return None,
    };
    let j = match last_index_in(&v, i, ':') {
        Some(j) => j,
        None => {
            assert(v@.take(i as int) =~= s@.take(i as int));
            return None;
        },
    };
    assert(v@.take(i as int) =~= s@.take(i as int));
    let c = parse_usize(trimmed_range(&v, i + 1, v.len()).as_str());
    let l = parse_usize(trimmed_range(&v, j + 1, i).as_str());
    assert(v@.subrange(i + 1, v@.len() as int) =~= s@.skip(i + 1));
    assert(v@.subrange(j + 1, i as int) =~= s@.subrange(j + 1, i as int));
    match (l, c) {
        (Some(l), Some(c)) => {
            let f = string_of(&v, 0, j);
            assert(f@ =~= s@.take(j as int));
            Some((f, l, c))
        },
        _ => None,
    }
}

/// A diagnostic as the standalone checker carries it.
#[derive(Debug, Clone)]
pub struct SiblingDiagnostic {
    pub file: Option<String>,
    pub line: Option<usize>,
    pub column: Option<usize>,
    pub code: u32,
    pub category: String,
    pub message: String,
}

/// A standalone diagnostic as text.
pub struct SiblingView {
    pub file: Option<Seq<char>>,
    pub line: Option<usize>,
    pub column: Option<usize>,
    pub code: u32,
    pub category: Seq<char>,
    pub message: Seq<char>,
}

impl SiblingDiagnostic {
    /// The diagnostic as text.
    pub open spec fn view(&self) -> SiblingView {
        SiblingView {
            file: crate::diagnostics::opt_text(self.file),
            line: self.line,
            column: self.column,
            code: self.code,
            category: self.category@,
            message: self.message@,
        }
    }

    /// A field-for-field copy.
    pub fn duplicate(&self) -> (r: SiblingDiagnostic)
        ensures
            r@ == self@,
    {
        SiblingDiagnostic {
            file: crate::diagnostics::clone_opt_string(&self.file),
            line: self.line,
            column: self.column,
            code: self.code,
            category: self.category.clone(),
            message: self.message.clone(),
        }
    }
}

/// The views of standalone diagnostics.
pub open spec fn sibling_views(ds: Seq<SiblingDiagnostic>) -> Seq<SiblingView> {
    ds.map_values(|d: SiblingDiagnostic| d@)
}

/// The diagnostic of a location `loc` in front of `: category`: a
/// `file(line,col)` location (a malformed one gives nothing), or else a
/// `file:line:col` one; the file made absolute against `cwd`.
pub open spec fn spec_parse_loc(
    loc: Seq<char>,
    category: Seq<char>,
    code: u32,
    message: Seq<char>,
    cwd: Seq<char>,
) -> Option<SiblingView> {
    let paren = last_index(loc, '(');
    if paren is Some && seq_ends_with(loc, seq![')']) {
        let open = paren->0;
        let parts = split(loc.subrange(open + 1, loc.len() - 1), ',');
        match spec_parse_usize(trim(parts[0])) {
            None => None,
            Some(line) => if parts.len() < 2 {
                None
            } else {
                match spec_parse_usize(trim(parts[1])) {
                    None => None,
                    Some(column) => Some(
                        SiblingView {
                            file: Some(spec_abs_path(cwd, loc.take(open))),
                            line: Some(line),
                            column: Some(column),
                            code,
                            category,
                            message,
                        },
                    ),
                }
            },
        }
    } else {
        match spec_parse_colon_loc(loc) {
            Some((f, l, c)) => Some(
                SiblingView {
                    file: Some(spec_abs_path(cwd, f)),
                    line: Some(l),
                    column: Some(c),
                    code,
                    category,
                    message,
                },
            ),
            None => None,
        }
    }
}

/// Parse a location (see [`spec_parse_loc`]).
pub fn parse_loc_diagnostic(loc: &str, category: &str, code: u32, message: String, cwd: &str) -> (r: Option<
    SiblingDiagnostic,
>)
    ensures
        match r {
            Some(d) => spec_parse_loc(loc@, category@, code, message@, cwd@) == Some(d@),
            None => spec_parse_loc(loc@, category@, code, message@, cwd@) is None,
        },
{
    let v = to_chars(loc);
    let n = v.len();
    assert(v@.take(n as int) =~= v@);
    let paren = last_index_in(&v, n, '(');
    let ends = n > 0 && v[n - 1] == ')';
    proof {
        if n > 0 {
            if ends {
                assert(v@.subrange(n - 1, n as int) =~= seq![')']);
            } else {
                assert(v@.subrange(n - 1, n as int)[0] == v@[n - 1]);
            }
        }
    }
    match paren {
        Some(open) => if ends {
            let ghost inner = v@.subrange(open + 1, n - 1);
            let a = open + 1;
            let b = n - 1;
            assert(open < n - 1) by {
                crate::files::lemma_last_index(v@, '(');
                if open == n - 1 {
                    assert(v@[open as int] == '(');
                }
            }
            let mut w: Vec<char> = Vec::new();
            let mut k = a;
            while k < b
                invariant
                    a <= k <= b <= v@.len(),
                    w@ == v@.subrange(a as int, k as int),
                decreases b - k,
            {
                w.push(v[k]);
                k = k + 1;
                assert(w@ =~= v@.subrange(a as int, k as int));
            }
            assert(w@ == inner);
            let e0 = find_sep(&w, ',', 0);
            proof {
                if e0 < w@.len() {
                    lemma_split_step(w@, ',', 0);
                } else {
                    lemma_split_last(w@, ',', 0);
                }
            }
            let line = match parse_usize(trimmed_range(&w, 0, e0).as_str()) {
                Some(x) => x,
                None => return None,
            };
            if e0 >= w.len() {
                return None;
            }
            let e1 = find_sep(&w, ',', e0 + 1);
            proof {
                if e1 < w@.len() {
                    lemma_split_step(w@, ',', e0 + 1);
                } else {
                    lemma_split_last(w@, ',', e0 + 1);
                }
                assert(split(w@, ',')[1] == w@.subrange(e0 + 1, e1 as int));
            }
            let column = match parse_usize(trimmed_range(&w, e0 + 1, e1).as_str()) {
                Some(x) => x,
                None => return None,
            };
            let f = string_of(&v, 0, open);
            assert(f@ =~= loc@.take(open as int));
            return Some(
                SiblingDiagnostic {
                    file: Some(abs_path(cwd, f.as_str())),
                    line: Some(line),
                    column: Some(column),
                    code,
                    category: category.to_owned(),
                    message,
                },
            );
        },
        None => {},
    }
    match parse_colon_loc(loc) {
        Some((f, l, c)) => Some(
            SiblingDiagnostic {
                file: Some(abs_path(cwd, f.as_str())),
                line: Some(l),
                column: Some(c),
                code,
                category: category.to_owned(),
                message,
            },
        ),
        None => None,
    }
}

/// A diagnostic without a location.
pub open spec fn no_loc_view(category: Seq<char>, code: u32, message: Seq<char>) -> SiblingView {
    SiblingView { file: None, line: None, column: None, code, category, message }
}

/// The diagnostic that a line starts, read the standalone way: the text
/// before the first ` TS` is the head, after it the code up to the first
/// `:` and the trimmed message; a head with `: error` or `: warning` ends
/// in a location, a head starting with `error` or `warning` has none.
pub open spec fn spec_parse_primary(line: Seq<char>, cwd: Seq<char>) -> Option<SiblingView> {
    match find_text(line, " TS"@) {
        None => None,
        Some(idx) => {
            let head = line.take(idx);
            let tail = line.skip(idx + 3);
            let k = crate::lines::next_sep(tail, ':', 0);
            let message = if k < tail.len() {
                trim(tail.skip(k + 1))
            } else {
                Seq::empty()
            };
            match spec_parse_u32(trim(tail.take(k))) {
                None => None,
                Some(code) => match find_text(head, ": error"@) {
                    Some(pos) => spec_parse_loc(head.take(pos), "error"@, code, message, cwd),
                    None => match find_text(head, ": warning"@) {
                        Some(pos) => spec_parse_loc(head.take(pos), "warning"@, code, message, cwd),
                        None => if seq_starts_with(head, "error"@) {
                            Some(no_loc_view("error"@, code, message))
                        } else if seq_starts_with(head, "warning"@) {
                            Some(no_loc_view("warning"@, code, message))
                        } else {
                            None
                        },
                    },
                },
            }
        },
    }
}

/// Parse one line the standalone way (see [`spec_parse_primary`]).
pub fn parse_primary_diagnostic(line: &str, cwd: &str) -> (r: Option<SiblingDiagnostic>)
    ensures
        match r {
            Some(d) => spec_parse_primary(line@, cwd@) == Some(d@),
            None => spec_parse_primary(line@, cwd@) is None,
        },
{
    let v = to_chars(line);
    let ts = to_chars(" TS");
    let idx = match find_chars(&v, &ts) {
        Some(i) => i,
        None => return None,
    };
    proof {
        reveal_strlit(" TS");
        assert(ts@.len() == 3);
    }
    let vl = v.len();
    assert(idx + 3 <= vl);
    let head = string_of(&v, 0, idx);
    let tail_s = string_of(&v, idx + 3, v.len());
    assert(head@ =~= line@.take(idx as int));
    assert(tail_s@ =~= line@.skip(idx + 3));
    let tail = to_chars(tail_s.as_str());
    let k = find_sep(&tail, ':', 0);
    let code = match parse_u32(trimmed_range(&tail, 0, k).as_str()) {
        Some(c) => c,
        None => {
            assert(tail@.subrange(0, k as int) =~= tail@.take(k as int));
            return None;
        },
    };
    assert(tail@.subrange(0, k as int) =~= tail@.take(k as int));
    let message = if k < tail.len() {
        let m = trimmed_range(&tail, k + 1, tail.len());
        assert(tail@.subrange(k + 1, tail@.len() as int) =~= tail@.skip(k + 1));
        m
    } else {
        String::new()
    };
    let hv = to_chars(head.as_str());
    let err = to_chars(": error");
    match find_chars(&hv, &err) {
        Some(pos) => {
            let loc = string_of(&hv, 0, pos);
            assert(loc@ =~= head@.take(pos as int));
            return parse_loc_diagnostic(loc.as_str(), "error", code, message, cwd);
        },
        None => {},
    }
    let warn = to_chars(": warning");
    match find_chars(&hv, &warn) {
        Some(pos) => {
            let loc = string_of(&hv, 0, pos);
            assert(loc@ =~= head@.take(pos as int));
            return parse_loc_diagnostic(loc.as_str(), "warning", code, message, cwd);
        },
        None => {},
    }
    if crate::globs::starts_with_text(head.as_str(), "error") {
        return Some(
            SiblingDiagnostic {
                file: None,
                line: None,
                column: None,
                code,
                category: "error".to_owned(),
                message,
            },
        );
    }
    if crate::globs::starts_with_text(head.as_str(), "warning") {
        return Some(
            SiblingDiagnostic {
                file: None,
                line: None,
                column: None,
                code,
                category: "warning".to_owned(),
                message,
            },
        );
    }
    None
}

/// One line of output read the standalone way: ANSI escapes stripped,
/// trailing whitespace dropped, blank lines skipped; a diagnostic line
/// starts a diagnostic, another line continues the current message.
pub open spec fn sibling_step(
    done: Seq<SiblingView>,
    cur: Option<SiblingView>,
    raw: Seq<char>,
    cwd: Seq<char>,
) -> (Seq<SiblingView>, Option<SiblingView>) {
    let line = trim_end(spec_strip_ansi_bytes(raw));
    if line.len() == 0 {
        (done, cur)
    } else {
        match spec_parse_primary(line, cwd) {
            Some(d) => (
                match cur {
                    Some(p) => done.push(p),
                    None => done,
                },
                Some(d),
            ),
            None => match cur {
                Some(c) => (
                    done,
                    Some(SiblingView { message: c.message + seq!['\n'] + trim(line), ..c }),
                ),
                None => (done, cur),
            },
        }
    }
}

/// The diagnostics of the remaining lines, from a state.
pub open spec fn sibling_fold(
    done: Seq<SiblingView>,
    cur: Option<SiblingView>,
    lines: Seq<Seq<char>>,
    cwd: Seq<char>,
) -> Seq<SiblingView>
    decreases lines.len(),
{
    if lines.len() == 0 {
        match cur {
            Some(c) => done.push(c),
            None => done,
        }
    } else {
        let (d2, c2) = sibling_step(done, cur, lines[0], cwd);
        sibling_fold(d2, c2, lines.drop_first(), cwd)
    }
}

/// The diagnostics of stdout and stderr read the standalone way.
pub open spec fn spec_sibling_parse(stdout: Seq<char>, stderr: Seq<char>, cwd: Seq<char>) -> Seq<SiblingView> {
    sibling_fold(Seq::empty(), None, spec_lines(stdout + seq!['\n'] + stderr), cwd)
}

/// The view of an optional standalone diagnostic.
pub open spec fn opt_sibling(d: Option<SiblingDiagnostic>) -> Option<SiblingView> {
    match d {
        Some(x) => Some(x@),
        None => None,
    }
}

/// Read the compiler's output the standalone way (see
/// [`spec_sibling_parse`]).
pub fn parse_diagnostics(stdout: &str, stderr: &str, cwd: &str) -> (r: Vec<SiblingDiagnostic>)
    ensures
        sibling_views(r@) == spec_sibling_parse(stdout@, stderr@, cwd@),
{
    let mut combined = stdout.to_owned();
    push_char(&mut combined, '\n');
    push_str(&mut combined, stderr);
    let lines = text_lines(combined.as_str());
    let ghost all = views(lines@);
    let mut done: Vec<SiblingDiagnostic> = Vec::new();
    let mut current: Option<SiblingDiagnostic> = None;
    let mut i: usize = 0;
    assert(all.skip(0) =~= all);
    assert(sibling_views(done@) =~= Seq::<SiblingView>::empty());
    while i < lines.len()
        invariant
            i <= lines@.len(),
            all == views(lines@),
            sibling_fold(Seq::empty(), None, all, cwd@) == sibling_fold(
                sibling_views(done@),
                opt_sibling(current),
                all.skip(i as int),
                cwd@,
            ),
        decreases lines@.len() - i,
    {
        let ghost before_done = sibling_views(done@);
        let ghost before_cur = opt_sibling(current);
        proof {
            assert(all.skip(i as int)[0] == lines@[i as int]@);
            assert(all.skip(i as int).drop_first() =~= all.skip(i + 1));
        }
        let stripped = strip_ansi(lines[i].as_str());
        let line = trimmed_end(stripped.as_str());
        if line.as_str().unicode_len() != 0 {
            match parse_primary_diagnostic(line.as_str(), cwd) {
                Some(d) => {
                    match current {
                        Some(p) => {
                            done.push(p);
                            assert(sibling_views(done@) =~= before_done.push(before_cur->0));
                        },
                        None => {},
                    }
                    current = Some(d);
                },
                None => {
                    current = match current {
                        Some(c) => {
                            let mut c = c;
                            push_char(&mut c.message, '\n');
                            let lv = to_chars(line.as_str());
                            let t = trimmed_range(&lv, 0, lv.len());
                            assert(lv@.subrange(0, lv@.len() as int) =~= lv@);
                            push_str(&mut c.message, t.as_str());
                            assert(c.message@ =~= before_cur->0.message + seq!['\n'] + trim(line@));
                            Some(c)
                        },
                        None => None,
                    };
                },
            }
        }
        i = i + 1;
    }
    match current {
        Some(c) => {
            let ghost before_done = sibling_views(done@);
            done.push(c);
            assert(sibling_views(done@) =~= before_done.push(c@));
        },
        None => {},
    }
    proof {
        assert(all.skip(i as int).len() == 0);
        assert(combined@ == stdout@ + seq!['\n'] + stderr@);
    }
    done
}

/// The standalone comparison key:
/// `file|line|col|code|category|message`, the file lower-cased, absent
/// numbers as 0, the message's whitespace runs collapsed.
pub open spec fn spec_diag_key(d: SiblingView) -> Seq<char> {
    let file = match d.file {
        Some(f) => f,
        None => Seq::empty(),
    };
    let line = match d.line {
        Some(l) => l as nat,
        None => 0nat,
    };
    let column = match d.column {
        Some(c) => c as nat,
        None => 0nat,
    };
    unicode_lower(file) + seq!['|'] + crate::text::decimal(line) + seq!['|'] + crate::text::decimal(
        column,
    ) + seq!['|'] + crate::text::decimal(d.code as nat) + seq!['|'] + d.category + seq!['|']
        + spec_flatten_message(d.message)
}

/// The comparison key of a diagnostic (see [`spec_diag_key`]).
pub fn diag_key(d: &SiblingDiagnostic) -> (r: String)
    ensures
        r@ == spec_diag_key(d@),
{
    let mut s = match &d.file {
        Some(f) => to_lowercase(f.as_str()),
        None => to_lowercase(""),
    };
    proof {
        reveal_strlit("");
        assert(""@ =~= Seq::<char>::empty());
    }
    push_char(&mut s, '|');
    push_decimal(&mut s, match d.line {
        Some(l) => l as u64,
        None => 0,
    });
    push_char(&mut s, '|');
    push_decimal(&mut s, match d.column {
        Some(c) => c as u64,
        None => 0,
    });
    push_char(&mut s, '|');
    push_decimal(&mut s, d.code as u64);
    push_char(&mut s, '|');
    push_str(&mut s, d.category.as_str());
    push_char(&mut s, '|');
    let m = flatten_message(d.message.as_str());
    push_str(&mut s, m.as_str());
    assert(s@ =~= spec_diag_key(d@));
    s
}

/// `d` has the key of some diagnostic of `base`.
pub open spec fn key_in(d: SiblingView, base: Seq<SiblingView>) -> bool {
    exists|j: int| 0 <= j < base.len() && spec_diag_key(#[trigger] base[j]) == spec_diag_key(d)
}

/// The strict diagnostics whose key the baseline does not have, in order.
pub open spec fn spec_sibling_diff(strict: Seq<SiblingView>, base: Seq<SiblingView>) -> Seq<SiblingView>
    decreases strict.len(),
{
    if strict.len() == 0 {
        Seq::empty()
    } else {
        let rest = spec_sibling_diff(strict.drop_last(), base);
        if key_in(strict.last(), base) {
            rest
        } else {
            rest.push(strict.last())
        }
    }
}

/// What strict mode adds over the baseline: the strict diagnostics whose
/// key no baseline diagnostic has.
pub fn diff_diagnostics(strict: &[SiblingDiagnostic], baseline: &[SiblingDiagnostic]) -> (r: Vec<
    SiblingDiagnostic,
>)
    ensures
        sibling_views(r@) == spec_sibling_diff(sibling_views(strict@), sibling_views(baseline@)),
{
    let ghost sv = sibling_views(strict@);
    let ghost bv = sibling_views(baseline@);
    let mut keys: Vec<String> = Vec::new();
    let mut j: usize = 0;
    while j < baseline.len()
        invariant
            j <= baseline@.len(),
            bv == sibling_views(baseline@),
            keys@.len() == j,
            forall|k: int| 0 <= k < j ==> #[trigger] keys@[k]@ == spec_diag_key(bv[k]),
        decreases baseline@.len() - j,
    {
        keys.push(diag_key(&baseline[j]));
        j = j + 1;
    }
    let mut out: Vec<SiblingDiagnostic> = Vec::new();
    let mut i: usize = 0;
    while i < strict.len()
        invariant
            i <= strict@.len(),
            sv == sibling_views(strict@),
            bv == sibling_views(baseline@),
            keys@.len() == bv.len(),
            forall|k: int| 0 <= k < bv.len() ==> #[trigger] keys@[k]@ == spec_diag_key(bv[k]),
            sibling_views(out@) == spec_sibling_diff(sv.take(i as int), bv),
        decreases strict@.len() - i,
    {
        let key = diag_key(&strict[i]);
        let mut found = false;
        let mut k: usize = 0;
        while k < keys.len()
            invariant
                k <= keys@.len() == bv.len(),
                forall|m: int| 0 <= m < bv.len() ==> #[trigger] keys@[m]@ == spec_diag_key(bv[m]),
                found == exists|m: int| 0 <= m < k && spec_diag_key(#[trigger] bv[m]) == key@,
            decreases keys@.len() - k,
        {
            if keys[k] == key {
                found = true;
            }
            k = k + 1;
        }
        proof {
            assert(sv.take(i + 1).drop_last() =~= sv.take(i as int));
            assert(sv.take(i + 1).last() == strict@[i as int]@);
        }
        if !found {
            let ghost before = sibling_views(out@);
            out.push(strict[i].duplicate());
            assert(sibling_views(out@) =~= before.push(strict@[i as int]@));
        }
        i = i + 1;
    }
    assert(sv.take(i as int) =~= sv);
    out
}

/// A diagnostic stays when the targets are empty, when it names no file,
/// or when its file's key is the key of a target.
pub open spec fn sibling_keep(d: SiblingView, targets: Seq<Seq<char>>) -> bool {
    targets.len() == 0 || match d.file {
        None => true,
        Some(f) => exists|j: int| 0 <= j < targets.len() && spec_normalize(#[trigger] targets[j]) == spec_normalize(f),
    }
}

/// The diagnostics that the targets keep, in order.
pub open spec fn spec_sibling_filter(ds: Seq<SiblingView>, targets: Seq<Seq<char>>) -> Seq<SiblingView>
    decreases ds.len(),
{
    if ds.len() == 0 {
        Seq::empty()
    } else {
        let rest = spec_sibling_filter(ds.drop_last(), targets);
        if sibling_keep(ds.last(), targets) {
            rest.push(ds.last())
        } else {
            rest
        }
    }
}

/// Keep the diagnostics about the targets (all of them when there are no
/// targets).
pub fn filter_to_targets(diags: Vec<SiblingDiagnostic>, targets: &[String]) -> (r: Vec<SiblingDiagnostic>)
    ensures
        sibling_views(r@) == spec_sibling_filter(sibling_views(diags@), views(targets@)),
{
    let ghost dv = sibling_views(diags@);
    let ghost tv = views(targets@);
    let mut keys: Vec<String> = Vec::new();
    let mut j: usize = 0;
    while j < targets.len()
        invariant
            j <= targets@.len(),
            keys@.len() == j,
            forall|k: int| 0 <= k < j ==> #[trigger] keys@[k]@ == spec_normalize(targets@[k]@),
        decreases targets@.len() - j,
    {
        keys.push(normalize(targets[j].as_str()));
        j = j + 1;
    }
    let mut out: Vec<SiblingDiagnostic> = Vec::new();
    let mut i: usize = 0;
    while i < diags.len()
        invariant
            i <= diags@.len(),
            dv == sibling_views(diags@),
            tv == views(targets@),
            keys@.len() == tv.len(),
            forall|k: int| 0 <= k < tv.len() ==> #[trigger] keys@[k]@ == spec_normalize(tv[k]),
            sibling_views(out@) == spec_sibling_filter(dv.take(i as int), tv),
        decreases diags@.len() - i,
    {
        let d = &diags[i];
        let keep = if targets.len() == 0 {
            true
        } else {
            match &d.file {
                None => true,
                Some(f) => {
                    let key = normalize(f.as_str());
                    let mut found = false;
                    let mut k: usize = 0;
                    while k < keys.len()
                        invariant
                            k <= keys@.len() == tv.len(),
                            forall|m: int| 0 <= m < tv.len() ==> #[trigger] keys@[m]@ == spec_normalize(tv[m]),
                            found == exists|m: int| 0 <= m < k && spec_normalize(#[trigger] tv[m]) == key@,
                        decreases keys@.len() - k,
                    {
                        if keys[k] == key {
                            found = true;
                        }
                        k = k + 1;
                    }
                    found
                },
            }
        };
        proof {
            assert(dv.take(i + 1).drop_last() =~= dv.take(i as int));
            assert(dv.take(i + 1).last() == diags@[i as int]@);
        }
        if keep {
            let ghost before = sibling_views(out@);
            out.push(d.duplicate());
            assert(sibling_views(out@) =~= before.push(diags@[i as int]@));
        }
        i = i + 1;
    }
    assert(dv.take(i as int) =~= dv);
    out
}

/// `x` placed after every diagnostic whose key it does not sort before: a
/// step of a stable sort by key.
pub open spec fn insert_by_key(s: Seq<SiblingView>, x: SiblingView) -> Seq<SiblingView>
    decreases s.len(),
{
    if s.len() == 0 {
        seq![x]
    } else if crate::order::text_lt(spec_diag_key(x), spec_diag_key(s.last())) {
        insert_by_key(s.drop_last(), x).push(s.last())
    } else {
        s.push(x)
    }
}

/// The error diagnostics, stably sorted by key.
pub open spec fn sorted_errors(ds: Seq<SiblingView>) -> Seq<SiblingView>
    decreases ds.len(),
{
    if ds.len() == 0 {
        Seq::empty()
    } else {
        let rest = sorted_errors(ds.drop_last());
        if ds.last().category == "error"@ {
            insert_by_key(rest, ds.last())
        } else {
            rest
        }
    }
}

proof fn lemma_insert_by_key_tail(s: Seq<SiblingView>, x: SiblingView, p: int)
    requires
        0 <= p <= s.len(),
        forall|j: int| p <= j < s.len() ==> crate::order::text_lt(spec_diag_key(x), spec_diag_key(#[trigger] s[j])),
    ensures
        insert_by_key(s, x) == insert_by_key(s.take(p), x) + s.skip(p),
    decreases s.len() - p,
{
    if p < s.len() {
        lemma_insert_by_key_tail(s.drop_last(), x, p);
        assert(s.drop_last().take(p) =~= s.take(p));
        assert(s.drop_last().skip(p).push(s.last()) =~= s.skip(p));
    } else {
        assert(s.take(p) =~= s);
        assert(s.skip(p) =~= Seq::<SiblingView>::empty());
    }
}

/// One report line: `file(line,col) : category TScode: message` when the
/// diagnostic has all three, else `category TScode: message`.
pub open spec fn spec_report_line(d: SiblingView) -> Seq<char> {
    let tail = d.category + " TS"@ + crate::text::decimal(d.code as nat) + ": "@ + d.message;
    match (d.file, d.line, d.column) {
        (Some(f), Some(l), Some(c)) => f + seq!['('] + crate::text::decimal(l as nat) + seq![',']
            + crate::text::decimal(c as nat) + ") : "@ + tail,
        _ => tail,
    }
}

/// Each line followed by a line break.
pub open spec fn each_line(lines: Seq<Seq<char>>) -> Seq<char>
    decreases lines.len(),
{
    if lines.len() == 0 {
        Seq::empty()
    } else {
        each_line(lines.drop_last()) + lines.last() + seq!['\n']
    }
}

/// The standalone report: the error diagnostics sorted by key, one line
/// each, then `Found N strict errors.`; and the exit code, 1 when an error
/// was reported.
pub open spec fn spec_sibling_report(ds: Seq<SiblingView>) -> (Seq<char>, i32) {
    let errors = sorted_errors(ds);
    (
        each_line(errors.map_values(|d: SiblingView| spec_report_line(d))) + "Found "@
            + crate::text::decimal(errors.len()) + " strict errors.\n"@,
        if errors.len() == 0 {
            0
        } else {
            1
        },
    )
}

/// A report line (see [`spec_report_line`]).
fn report_line(d: &SiblingDiagnostic) -> (r: String)
    ensures
        r@ == spec_report_line(d@),
{
    let mut s = String::new();
    match (&d.file, d.line, d.column) {
        (Some(f), Some(l), Some(c)) => {
            push_str(&mut s, f.as_str());
            push_char(&mut s, '(');
            push_decimal(&mut s, l as u64);
            push_char(&mut s, ',');
            push_decimal(&mut s, c as u64);
            push_str(&mut s, ") : ");
        },
        _ => {},
    }
    push_str(&mut s, d.category.as_str());
    push_str(&mut s, " TS");
    push_decimal(&mut s, d.code as u64);
    push_str(&mut s, ": ");
    push_str(&mut s, d.message.as_str());
    assert(s@ =~= spec_report_line(d@));
    s
}

/// Keep the errors and report them (see [`spec_sibling_report`]).
pub fn sibling_report(diagnostics: &[SiblingDiagnostic]) -> (r: (String, i32))
    ensures
        r.0@ == spec_sibling_report(sibling_views(diagnostics@)).0,
        r.1 == spec_sibling_report(sibling_views(diagnostics@)).1,
{
    let ghost dv = sibling_views(diagnostics@);
    let mut out: Vec<SiblingDiagnostic> = Vec::new();
    let mut keys: Vec<String> = Vec::new();
    let mut i: usize = 0;
    let error = "error";
    while i < diagnostics.len()
        invariant
            i <= diagnostics@.len(),
            dv == sibling_views(diagnostics@),
            error@ == "error"@,
            keys@.len() == out@.len(),
            forall|k: int| 0 <= k < out@.len() ==> #[trigger] keys@[k]@ == spec_diag_key(out@[k]@),
            sibling_views(out@) == sorted_errors(dv.take(i as int)),
        decreases diagnostics@.len() - i,
    {
        proof {
            assert(dv.take(i + 1).drop_last() =~= dv.take(i as int));
            assert(dv.take(i + 1).last() == diagnostics@[i as int]@);
        }
        let d = &diagnostics[i];
        if str_equal(d.category.as_str(), error) {
            let key = diag_key(d);
            let kv = to_chars(key.as_str());
            let ghost o = sibling_views(out@);
            let mut p = out.len();
            while p > 0 && crate::order::compare_text(&kv, &to_chars(keys[p - 1].as_str())) < 0
                invariant
                    p <= out@.len() == keys@.len(),
                    o == sibling_views(out@),
                    kv@ == spec_diag_key(d@),
                    forall|k: int| 0 <= k < out@.len() ==> #[trigger] keys@[k]@ == spec_diag_key(out@[k]@),
                    forall|j: int| p <= j < o.len() ==> crate::order::text_lt(spec_diag_key(d@), spec_diag_key(#[trigger] o[j])),
                decreases p,
            {
                assert(o[p - 1] == out@[p - 1]@);
                p = p - 1;
            }
            proof {
                lemma_insert_by_key_tail(o, d@, p as int);
                if p > 0 {
                    assert(o.take(p as int).last() == o[p - 1]);
                    assert(keys@[p - 1]@ == spec_diag_key(o[p - 1]));
                    assert(o.take(p as int).drop_last().push(o.take(p as int).last()) =~= o.take(p as int));
                } else {
                    assert(o.take(0) =~= Seq::<SiblingView>::empty());
                }
            }
            let ghost old_out = out@;
            out.insert(p, d.duplicate());
            keys.insert(p, key);
            proof {
                assert(sibling_views(out@) =~= o.take(p as int).push(d@) + o.skip(p as int));
                assert forall|k: int| 0 <= k < out@.len() implies #[trigger] keys@[k]@ == spec_diag_key(out@[k]@) by {
                    if k > p {
                        assert(out@[k] == old_out[k - 1]);
                    }
                }
            }
        }
        i = i + 1;
    }
    assert(dv.take(i as int) =~= dv);
    let ghost errs = sibling_views(out@);
    let ghost lines = errs.map_values(|d: SiblingView| spec_report_line(d));
    let mut text = String::new();
    let mut j: usize = 0;
    while j < out.len()
        invariant
            j <= out@.len(),
            errs == sibling_views(out@),
            lines == errs.map_values(|d: SiblingView| spec_report_line(d)),
            text@ == each_line(lines.take(j as int)),
        decreases out@.len() - j,
    {
        let line = report_line(&out[j]);
        push_str(&mut text, line.as_str());
        push_char(&mut text, '\n');
        proof {
            assert(lines.take(j + 1).drop_last() =~= lines.take(j as int));
            assert(lines[j as int] == line@);
        }
        assert(text@ =~= each_line(lines.take(j + 1)));
        j = j + 1;
    }
    assert(lines.take(j as int) =~= lines);
    push_str(&mut text, "Found ");
    push_decimal(&mut text, out.len() as u64);
    push_str(&mut text, " strict errors.\n");
    let code = if out.len() == 0 {
        0
    } else {
        1
    };
    (text, code)
}

/// The strictness flags the standalone checker sets, all to the same value.
pub open spec fn sibling_flags() -> Seq<Seq<char>> {
    seq![
        "strict"@,
        "strictBindCallApply"@,
        "strictBuiltinIteratorReturn"@,
        "strictFunctionTypes"@,
        "strictNullChecks"@,
        "strictPropertyInitialization"@,
        "useUnknownInCatchVariables"@,
        "noImplicitAny"@,
        "noImplicitThis"@,
        "noImplicitOverride"@,
        "noPropertyAccessFromIndexSignature"@,
        "noUncheckedIndexedAccess"@,
        "noUncheckedSideEffectImports"@,
        "exactOptionalPropertyTypes"@,
    ]
}

/// `    "flag": value` lines, all but the last with a comma.
pub open spec fn flag_lines(flags: Seq<Seq<char>>, value: Seq<char>, total: nat) -> Seq<char>
    decreases flags.len(),
{
    if flags.len() == 0 {
        Seq::empty()
    } else {
        let i = flags.len() - 1;
        flag_lines(flags.drop_last(), value, total) + "    \""@ + flags.last() + "\": "@ + value
            + (if i + 1 == total {
            Seq::empty()
        } else {
            seq![',']
        }) + seq!['\n']
    }
}

/// `    "file"` lines, escaped, all but the last with a comma.
pub open spec fn file_lines(files: Seq<Seq<char>>, total: nat) -> Seq<char>
    decreases files.len(),
{
    if files.len() == 0 {
        Seq::empty()
    } else {
        let i = files.len() - 1;
        file_lines(files.drop_last(), total) + "    \""@ + spec_json_escape(files.last()) + seq!['"']
            + (if i + 1 == total {
            Seq::empty()
        } else {
            seq![',']
        }) + seq!['\n']
    }
}

/// The standalone checker's transient tsconfig text: `extends` the
/// project, `noEmit` and every strictness flag set (to `true` for the
/// strict run, `false` for the baseline), and the files when there are
/// any.
pub open spec fn spec_temp_config_text(project: Seq<char>, files: Seq<Seq<char>>, strict_enabled: bool) -> Seq<
    char,
> {
    let value = if strict_enabled {
        "true"@
    } else {
        "false"@
    };
    "{\n"@ + "  \"extends\": \""@ + spec_json_escape(project) + "\",\n"@ + "  \"compilerOptions\": {\n"@
        + "    \"noEmit\": true,\n"@ + flag_lines(sibling_flags(), value, 14) + "  }"@ + (if files.len() > 0 {
        ",\n  \"files\": [\n"@ + file_lines(files, files.len()) + "  ]\n"@
    } else {
        seq!['\n']
    }) + "}\n"@
}

/// Write the transient tsconfig text (see [`spec_temp_config_text`]).
pub fn temp_config_text(project_path: &str, files: &[String], strict_enabled: bool) -> (r: String)
    ensures
        r@ == spec_temp_config_text(project_path@, views(files@), strict_enabled),
{
    let flags: Vec<&str> = vec![
        "strict",
        "strictBindCallApply",
        "strictBuiltinIteratorReturn",
        "strictFunctionTypes",
        "strictNullChecks",
        "strictPropertyInitialization",
        "useUnknownInCatchVariables",
        "noImplicitAny",
        "noImplicitThis",
        "noImplicitOverride",
        "noPropertyAccessFromIndexSignature",
        "noUncheckedIndexedAccess",
        "noUncheckedSideEffectImports",
        "exactOptionalPropertyTypes",
    ];
    let ghost fl = flags@.map_values(|f: &str| f@);
    assert(fl =~= sibling_flags());
    let value = if strict_enabled {
        "true"
    } else {
        "false"
    };
    let mut json = String::new();
    push_str(&mut json, "{\n");
    push_str(&mut json, "  \"extends\": \"");
    let esc = json_escape(project_path);
    push_str(&mut json, esc.as_str());
    push_str(&mut json, "\",\n");
    push_str(&mut json, "  \"compilerOptions\": {\n");
    push_str(&mut json, "    \"noEmit\": true,\n");
    let ghost head = json@;
    let mut i: usize = 0;
    while i < flags.len()
        invariant
            i <= flags@.len() == 14,
            fl == flags@.map_values(|f: &str| f@),
            json@ == head + flag_lines(fl.take(i as int), value@, 14),
        decreases flags@.len() - i,
    {
        push_str(&mut json, "    \"");
        push_str(&mut json, flags[i]);
        push_str(&mut json, "\": ");
        push_str(&mut json, value);
        if i + 1 != flags.len() {
            push_char(&mut json, ',');
        }
        push_char(&mut json, '\n');
        proof {
            assert(fl.take(i + 1).drop_last() =~= fl.take(i as int));
            assert(fl.take(i + 1).last() == flags@[i as int]@);
        }
        assert(json@ =~= head + flag_lines(fl.take(i + 1), value@, 14));
        i = i + 1;
    }
    assert(fl.take(i as int) =~= fl);
    push_str(&mut json, "  }");
    let ghost mid = json@;
    if files.len() > 0 {
        push_str(&mut json, ",\n  \"files\": [\n");
        let ghost fhead = json@;
        let ghost fv = views(files@);
        let mut k: usize = 0;
        while k < files.len()
            invariant
                k <= files@.len(),
                fv == views(files@),
                json@ == fhead + file_lines(fv.take(k as int), fv.len()),
            decreases files@.len() - k,
        {
            push_str(&mut json, "    \"");
            let e = json_escape(files[k].as_str());
            push_str(&mut json, e.as_str());
            push_char(&mut json, '"');
            if k + 1 != files.len() {
                push_char(&mut json, ',');
            }
            push_char(&mut json, '\n');
            proof {
                assert(fv.take(k + 1).drop_last() =~= fv.take(k as int));
                assert(fv.take(k + 1).last() == files@[k as int]@);
            }
            assert(json@ =~= fhead + file_lines(fv.take(k + 1), fv.len()));
            k = k + 1;
        }
        assert(fv.take(k as int) =~= fv);
        push_str(&mut json, "  ]\n");
    } else {
        push_char(&mut json, '\n');
    }
    push_str(&mut json, "}\n");
    assert(json@ =~= spec_temp_config_text(project_path@, views(files@), strict_enabled));
    json
}

/// How the standalone checker runs: one strict run, or a strict run and a
/// baseline run whose diagnostics are subtracted.
#[derive(Debug, Clone, Copy, PartialEq, Eq, Structural)]
pub enum Mode {
    Fast,
    Exact,
}

/// The standalone checker's options.
#[derive(Debug)]
pub struct Args {
    pub project: String,
    pub mode: Mode,
    pub pretty: bool,
    pub trace_performance: bool,
    pub cwd: String,
    pub subset_inputs: Vec<String>,
}

/// What the arguments ask for: a run, the help text, or the version.
#[derive(Debug)]
pub enum ArgsOutcome {
    Run(Args),
    Help,
    Version,
}

/// The options as text.
pub struct ArgsState {
    pub project: Seq<char>,
    pub mode: Mode,
    pub pretty: bool,
    pub trace_performance: bool,
    pub cwd: Seq<char>,
    pub subset_inputs: Seq<Seq<char>>,
}

impl Args {
    /// The options as text.
    pub open spec fn view(&self) -> ArgsState {
        ArgsState {
            project: self.project@,
            mode: self.mode,
            pretty: self.pretty,
            trace_performance: self.trace_performance,
            cwd: self.cwd@,
            subset_inputs: views(self.subset_inputs@),
        }
    }
}

/// The remaining arguments from `i` read onto `st`: `Ok((state, 0))` for a
/// run, `Ok((state, 1))` for help, `Ok((state, 2))` for the version, or
/// the error text. `-p`/`--project`, `--mode` and `--cwd` take a value
/// (`--cwd` is made absolute against the current one); `--pretty`,
/// `--no-pretty` and `--trace-performance` are flags; anything else is a
/// subset input.
pub open spec fn args_from(args: Seq<Seq<char>>, i: int, st: ArgsState) -> Result<(ArgsState, int), Seq<char>>
    decreases args.len() - i,
{
    if i < 0 || i >= args.len() {
        Ok((st, 0))
    } else {
        let a = args[i];
        if a == "-p"@ || a == "--project"@ {
            if i + 1 < args.len() {
                args_from(args, i + 2, ArgsState { project: args[i + 1], ..st })
            } else {
                Err("--project requires a value"@)
            }
        } else if a == "--mode"@ {
            if i + 1 < args.len() {
                if args[i + 1] == "fast"@ {
                    args_from(args, i + 2, ArgsState { mode: Mode::Fast, ..st })
                } else if args[i + 1] == "exact"@ {
                    args_from(args, i + 2, ArgsState { mode: Mode::Exact, ..st })
                } else {
                    Err("--mode must be fast|exact"@)
                }
            } else {
                Err("--mode requires a value"@)
            }
        } else if a == "--pretty"@ {
            args_from(args, i + 1, ArgsState { pretty: true, ..st })
        } else if a == "--no-pretty"@ {
            args_from(args, i + 1, ArgsState { pretty: false, ..st })
        } else if a == "--trace-performance"@ {
            args_from(args, i + 1, ArgsState { trace_performance: true, ..st })
        } else if a == "--cwd"@ {
            if i + 1 < args.len() {
                args_from(args, i + 2, ArgsState { cwd: spec_abs_path(st.cwd, args[i + 1]), ..st })
            } else {
                Err("--cwd requires a value"@)
            }
        } else if a == "--help"@ || a == "-h"@ {
            Ok((st, 1))
        } else if a == "--version"@ {
            Ok((st, 2))
        } else {
            args_from(args, i + 1, ArgsState { subset_inputs: st.subset_inputs.push(a), ..st })
        }
    }
}

/// The defaults: `tsconfig.json`, exact mode, pretty output, no timings,
/// the given working directory, no subset.
pub open spec fn default_args(cwd: Seq<char>) -> ArgsState {
    ArgsState {
        project: "tsconfig.json"@,
        mode: Mode::Exact,
        pretty: true,
        trace_performance: false,
        cwd,
        subset_inputs: Seq::empty(),
    }
}

/// Read the command line (without the program name) in the working
/// directory `cwd` (see [`args_from`]).
pub fn parse_args(args: &[String], cwd: &str) -> (r: Result<ArgsOutcome, String>)
    ensures
        match r {
            Ok(ArgsOutcome::Run(a)) => args_from(views(args@), 0, default_args(cwd@)) == Ok::<(ArgsState, int), Seq<char>>((a@, 0)),
            Ok(ArgsOutcome::Help) => args_from(views(args@), 0, default_args(cwd@)) matches Ok((_, k)) && k == 1,
            Ok(ArgsOutcome::Version) => args_from(views(args@), 0, default_args(cwd@)) matches Ok((_, k)) && k == 2,
            Err(e) => args_from(views(args@), 0, default_args(cwd@)) == Err::<(ArgsState, int), Seq<char>>(e@),
        },
{
    let ghost av = views(args@);
    let mut a = Args {
        project: "tsconfig.json".to_owned(),
        mode: Mode::Exact,
        pretty: true,
        trace_performance: false,
        cwd: cwd.to_owned(),
        subset_inputs: Vec::new(),
    };
    assert(a@.subset_inputs =~= Seq::<Seq<char>>::empty());
    assert(a@ == default_args(cwd@));
    let mut i: usize = 0;
    while i < args.len()
        invariant
            i <= args@.len(),
            av == views(args@),
            args_from(av, 0, default_args(cwd@)) == args_from(av, i as int, a@),
        decreases args@.len() - i,
    {
        let arg = args[i].as_str();
        assert(av[i as int] == arg@);
        if str_equal(arg, "-p") || str_equal(arg, "--project") {
            if i + 1 < args.len() {
                a.project = args[i + 1].clone();
                assert(av[i + 1] == args@[i + 1]@);
                i = i + 2;
            } else {
                return Err("--project requires a value".to_owned());
            }
        } else if str_equal(arg, "--mode") {
            if i + 1 < args.len() {
                let v = args[i + 1].as_str();
                assert(av[i + 1] == v@);
                if str_equal(v, "fast") {
                    a.mode = Mode::Fast;
                } else if str_equal(v, "exact") {
                    a.mode = Mode::Exact;
                } else {
                    return Err("--mode must be fast|exact".to_owned());
                }
                i = i + 2;
            } else {
                return Err("--mode requires a value".to_owned());
            }
        } else if str_equal(arg, "--pretty") {
            a.pretty = true;
            i = i + 1;
        } else if str_equal(arg, "--no-pretty") {
            a.pretty = false;
            i = i + 1;
        } else if str_equal(arg, "--trace-performance") {
            a.trace_performance = true;
            i = i + 1;
        } else if str_equal(arg, "--cwd") {
            if i + 1 < args.len() {
                assert(av[i + 1] == args@[i + 1]@);
                a.cwd = abs_path(a.cwd.as_str(), args[i + 1].as_str());
                i = i + 2;
            } else {
                return Err("--cwd requires a value".to_owned());
            }
        } else if str_equal(arg, "--help") || str_equal(arg, "-h") {
            return Ok(ArgsOutcome::Help);
        } else if str_equal(arg, "--version") {
            return Ok(ArgsOutcome::Version);
        } else {
            let ghost before = a@.subset_inputs;
            a.subset_inputs.push(args[i].clone());
            assert(a@.subset_inputs =~= before.push(av[i as int]));
            i = i + 1;
        }
    }
    Ok(ArgsOutcome::Run(a))
}

/// The diagnostics the standalone checker reports before sorting: in fast
/// mode the strict run's, narrowed to the targets; in exact mode those of
/// them whose key the narrowed baseline lacks.
pub open spec fn spec_sibling_selected(
    mode: Mode,
    strict: Seq<SiblingView>,
    base: Seq<SiblingView>,
    targets: Seq<Seq<char>>,
) -> Seq<SiblingView> {
    match mode {
        Mode::Fast => spec_sibling_filter(strict, targets),
        Mode::Exact => spec_sibling_diff(
            spec_sibling_filter(strict, targets),
            spec_sibling_filter(base, targets),
        ),
    }
}

/// Select what to report from the strict (and, in exact mode, baseline)
/// runs (see [`spec_sibling_selected`]).
pub fn select_diagnostics(
    mode: Mode,
    strict: Vec<SiblingDiagnostic>,
    base: Vec<SiblingDiagnostic>,
    targets: &[String],
) -> (r: Vec<SiblingDiagnostic>)
    ensures
        sibling_views(r@) == spec_sibling_selected(mode, sibling_views(strict@), sibling_views(base@), views(targets@)),
{
    match mode {
        Mode::Fast => filter_to_targets(strict, targets),
        Mode::Exact => {
            let s = filter_to_targets(strict, targets);
            let b = filter_to_targets(base, targets);
            diff_diagnostics(s.as_slice(), b.as_slice())
        },
    }
}

/// Exact mode runs the two compilers in parallel unless
/// `TSGO_STRICT_PARALLEL` is `0`.
pub fn parallel_enabled(setting: Option<&str>) -> (r: bool)
    ensures
        r == match setting {
            Some(v) => v@ != "0"@,
            None => true,
        },
{
    match setting {
        Some(v) => !str_equal(v, "0"),
        None => true,
    }
}

/// The compiler the standalone checker runs: `TSGO_BINARY` as it is when
/// not blank, else the project's `node_modules/.bin/tsgo` when it exists,
/// else `tsgo` from the search path.
pub fn sibling_binary(setting: Option<&str>, local: &str, local_exists: bool) -> (r: String)
    ensures
        r@ == match setting {
            Some(v) => if trim(v@).len() > 0 {
                v@
            } else if local_exists {
                local@
            } else {
                "tsgo"@
            },
            None => if local_exists {
                local@
            } else {
                "tsgo"@
            },
        },
{
    match setting {
        Some(v) => {
            let t = crate::pipeline::trimmed(v);
            if t.as_str().unicode_len() != 0 {
                return v.to_owned();
            }
        },
        None => {},
    }
    if local_exists {
        local.to_owned()
    } else {
        "tsgo".to_owned()
    }
}

/// Phase timings of the standalone checker, in order.
pub struct Timings {
    entries: Vec<(String, u128)>,
}

/// Timing lines: `  label: ms` each.
pub open spec fn timing_lines(es: Seq<(String, u128)>) -> Seq<char>
    decreases es.len(),
{
    if es.len() == 0 {
        Seq::empty()
    } else {
        timing_lines(es.drop_last()) + "  "@ + es.last().0@ + ": "@ + crate::text::decimal(
            es.last().1 as nat,
        ) + seq!['\n']
    }
}

impl Timings {
    /// The recorded `(label, milliseconds)` pairs, in order.
    pub closed spec fn recorded(&self) -> Seq<(String, u128)> {
        self.entries@
    }

    /// No timings yet.
    pub fn new() -> (t: Timings)
        ensures
            t.recorded().len() == 0,
    {
        Timings { entries: Vec::new() }
    }

    /// Record a phase.
    pub fn record(&mut self, label: &str, dur_ms: u128)
        ensures
            final(self).recorded().len() == old(self).recorded().len() + 1,
            final(self).recorded().drop_last() == old(self).recorded(),
            final(self).recorded().last().0@ == label@,
            final(self).recorded().last().1 == dur_ms,
    {
        let ghost before = self.entries@;
        self.entries.push((label.to_owned(), dur_ms));
        assert(self.entries@.drop_last() =~= before);
    }

    /// The report printed to stderr: a heading, then one line per phase.
    pub fn report(&self) -> (r: String)
        ensures
            r@ == "Performance timings (ms):\n"@ + timing_lines(self.recorded()),
    {
        let mut s = "Performance timings (ms):\n".to_owned();
        let ghost head = s@;
        let mut i: usize = 0;
        while i < self.entries.len()
            invariant
                i <= self.entries@.len(),
                s@ == head + timing_lines(self.entries@.take(i as int)),
            decreases self.entries@.len() - i,
        {
            let (label, ms) = &self.entries[i];
            push_str(&mut s, "  ");
            push_str(&mut s, label.as_str());
            push_str(&mut s, ": ");
            crate::text::push_decimal_wide(&mut s, *ms);
            push_char(&mut s, '\n');
            proof {
                assert(self.entries@.take(i + 1).drop_last() =~= self.entries@.take(i as int));
                assert(self.entries@.take(i + 1).last() == self.entries@[i as int]);
            }
            assert(s@ =~= head + timing_lines(self.entries@.take(i + 1)));
            i = i + 1;
        }
        assert(self.entries@.take(i as int) =~= self.entries@);
        s
    }
}

} // verus!
