//! Comparing strict-mode diagnostics against a baseline run.
use vstd::prelude::*;
use crate::diagnostics::{category_name, Diagnostic};
use crate::text::{
    decimal, is_ws, push_char, push_decimal, push_str, spec_is_ws, spec_lower, spec_lower_seq,
    spec_slashes, string_of, to_chars, trim, trim_range, trim_start, lemma_ws_prefix_exact,
    lemma_ws_suffix_exact,
};

verus! {

/// Whitespace runs collapsed to one space; `after_space` says whether the
/// text before `s` ended in a collapsed space.
pub open spec fn collapse_ws(s: Seq<char>, after_space: bool) -> Seq<char>
    decreases s.len(),
{
    if s.len() == 0 {
        seq![]
    } else if spec_is_ws(s[0]) {
        if after_space {
            collapse_ws(s.drop_first(), true)
        } else {
            seq![' '] + collapse_ws(s.drop_first(), true)
        }
    } else {
        seq![s[0]] + collapse_ws(s.drop_first(), false)
    }
}

/// A message with every whitespace run turned into one space, trimmed.
pub open spec fn spec_flatten_message(m: Seq<char>) -> Seq<char> {
    trim(collapse_ws(m, false))
}

proof fn lemma_collapse_step(s: Seq<char>, i: int, after: bool)
    requires
        0 <= i < s.len(),
    ensures
        collapse_ws(s.skip(i), after) == (if spec_is_ws(s[i]) {
            if after {
                collapse_ws(s.skip(i + 1), true)
            } else {
                seq![' '] + collapse_ws(s.skip(i + 1), true)
            }
        } else {
            seq![s[i]] + collapse_ws(s.skip(i + 1), false)
        }),
{
    assert(s.skip(i).drop_first() =~= s.skip(i + 1));
    assert(s.skip(i)[0] == s[i]);
}

/// Every whitespace character of `s` is a space and none follows another.
pub open spec fn collapsed(s: Seq<char>) -> bool {
    forall|i: int|
        0 <= i < s.len() && spec_is_ws(#[trigger] s[i]) ==> s[i] == ' ' && (i + 1 < s.len() ==> !spec_is_ws(
            s[i + 1],
        ))
}

/// Collapsing gives a collapsed text, which does not start with whitespace
/// after a collapsed space.
proof fn lemma_collapse_collapsed(s: Seq<char>, after: bool)
    ensures
        collapsed(collapse_ws(s, after)),
        after && collapse_ws(s, after).len() > 0 ==> !spec_is_ws(collapse_ws(s, after)[0]),
    decreases s.len(),
{
    if s.len() > 0 {
        let r = s.drop_first();
        if spec_is_ws(s[0]) {
            lemma_collapse_collapsed(r, true);
            if !after {
                let t = collapse_ws(r, true);
                let out = seq![' '] + t;
                assert(spec_is_ws(' '));
                assert forall|i: int| 0 <= i < out.len() && spec_is_ws(#[trigger] out[i]) implies out[i] == ' '
                    && (i + 1 < out.len() ==> !spec_is_ws(out[i + 1])) by {
                    if i > 0 {
                        assert(out[i] == t[i - 1]);
                        if i + 1 < out.len() {
                            assert(out[i + 1] == t[i]);
                        }
                    } else if i + 1 < out.len() {
                        assert(out[1] == t[0]);
                    }
                }
            }
        } else {
            lemma_collapse_collapsed(r, false);
            let t = collapse_ws(r, false);
            let out = seq![s[0]] + t;
            assert forall|i: int| 0 <= i < out.len() && spec_is_ws(#[trigger] out[i]) implies out[i] == ' '
                && (i + 1 < out.len() ==> !spec_is_ws(out[i + 1])) by {
                if i > 0 {
                    assert(out[i] == t[i - 1]);
                    if i + 1 < out.len() {
                        assert(out[i + 1] == t[i]);
                    }
                }
            }
        }
    }
}

/// A collapsed text that does not start with whitespace after a collapsed
/// space collapses to itself.
proof fn lemma_collapse_fixed(s: Seq<char>, after: bool)
    requires
        collapsed(s),
        after && s.len() > 0 ==> !spec_is_ws(s[0]),
    ensures
        collapse_ws(s, after) == s,
    decreases s.len(),
{
    if s.len() > 0 {
        let r = s.drop_first();
        assert forall|i: int| 0 <= i < r.len() && spec_is_ws(#[trigger] r[i]) implies r[i] == ' ' && (i + 1
            < r.len() ==> !spec_is_ws(r[i + 1])) by {
            assert(r[i] == s[i + 1]);
            if i + 1 < r.len() {
                assert(r[i + 1] == s[i + 2]);
            }
        }
        if spec_is_ws(s[0]) {
            if r.len() > 0 {
                assert(r[0] == s[1]);
            }
            lemma_collapse_fixed(r, true);
        } else {
            lemma_collapse_fixed(r, false);
        }
        assert(collapse_ws(s, after) =~= s);
    }
}

/// Flattening a message twice is flattening it once.
pub proof fn lemma_flatten_idempotent(m: Seq<char>)
    ensures
        spec_flatten_message(spec_flatten_message(m)) == spec_flatten_message(m),
{
    let x = collapse_ws(m, false);
    lemma_collapse_collapsed(m, false);
    let k1: int = if x.len() > 0 && spec_is_ws(x[0]) {
        1
    } else {
        0
    };
    if k1 == 1 && x.len() > 1 {
        assert(!spec_is_ws(x[1]));
    }
    lemma_ws_prefix_exact(x, k1);
    let t = x.skip(k1);
    assert(t == trim_start(x));
    let k2: int = if t.len() > 0 && spec_is_ws(t[t.len() - 1]) {
        1
    } else {
        0
    };
    if k2 == 1 {
        if t.len() == 1 {
            assert(t[0] == x[k1]);
            assert(k1 == 0 ==> !spec_is_ws(x[0]) || x.len() == 0 || false);
        }
        if t.len() > 1 {
            assert(t[t.len() - 2] == x[k1 + t.len() - 2]);
            assert(t[t.len() - 1] == x[k1 + t.len() - 1]);
            assert(!spec_is_ws(t[t.len() - 2]));
        }
    }
    lemma_ws_suffix_exact(t, k2);
    let y = t.take(t.len() - k2);
    assert(y == spec_flatten_message(m));
    assert(collapsed(y)) by {
        assert forall|i: int| 0 <= i < y.len() && spec_is_ws(#[trigger] y[i]) implies y[i] == ' ' && (i + 1
            < y.len() ==> !spec_is_ws(y[i + 1])) by {
            assert(y[i] == x[k1 + i]);
            if i + 1 < y.len() {
                assert(y[i + 1] == x[k1 + i + 1]);
            }
        }
    }
    if y.len() > 0 {
        assert(y[0] == x[k1]);
        assert(y[y.len() - 1] == t[t.len() - k2 - 1]);
    }
    lemma_collapse_fixed(y, false);
    lemma_ws_prefix_exact(y, 0);
    assert(trim_start(y) =~= y);
    lemma_ws_suffix_exact(y, 0);
    assert(trim(y) =~= y);
}

/// Collapse every whitespace run of `message` into a single space and trim.
pub fn flatten_message(message: &str) -> (r: String)
    ensures
        r@ == spec_flatten_message(message@),
{
    let v = to_chars(message);
    let mut out: Vec<char> = Vec::new();
    let mut last_was_space = false;
    let mut i: usize = 0;
    assert(v@.skip(0) =~= v@);
    while i < v.len()
        invariant
            i <= v@.len(),
            v@ == message@,
            out@ + collapse_ws(v@.skip(i as int), last_was_space) == collapse_ws(v@, false),
        decreases v@.len() - i,
    {
        let c = v[i];
        proof {
            lemma_collapse_step(v@, i as int, last_was_space);
        }
        if is_ws(c) {
            if !last_was_space {
                out.push(' ');
                last_was_space = true;
            }
        } else {
            out.push(c);
            last_was_space = false;
        }
        i = i + 1;
        assert(out@ + collapse_ws(v@.skip(i as int), last_was_space) =~= collapse_ws(v@, false));
    }
    assert(v@.skip(i as int) =~= Seq::<char>::empty());
    assert(out@ =~= collapse_ws(v@, false));
    let (a, b) = trim_range(&out, 0, out.len());
    assert(out@.subrange(0, out@.len() as int) =~= out@);
    string_of(&out, a, b)
}

/// A path compared case-insensitively with forward slashes.
pub open spec fn spec_normalize_path(p: Seq<char>) -> Seq<char> {
    spec_lower_seq(spec_slashes(p))
}

/// `p.replace('\\', "/").to_ascii_lowercase()`.
pub fn normalize_path(p: &str) -> (r: String)
    ensures
        r@ == spec_normalize_path(p@),
{
    let v = to_chars(p);
    let mut r = String::new();
    let mut i: usize = 0;
    while i < v.len()
        invariant
            i <= v@.len(),
            v@ == p@,
            r@ == spec_normalize_path(v@.take(i as int)),
        decreases v@.len() - i,
    {
        let c = v[i];
        let d = if c == '\\' {
            '/'
        } else {
            c
        };
        push_char(&mut r, crate::text::lower(d));
        i = i + 1;
        assert(r@ =~= spec_normalize_path(v@.take(i as int)));
    }
    assert(v@.take(i as int) =~= v@);
    r
}

/// The comparison key of a diagnostic:
/// `path|line|col|code|category|message`, with the path normalized, absent
/// numbers as 0 and the message flattened.
pub open spec fn spec_normalize_key(d: Diagnostic) -> Seq<char> {
    let file = match d.file {
        Some(f) => spec_normalize_path(f@),
        None => Seq::<char>::empty(),
    };
    let line = match d.line {
        Some(l) => l as nat,
        None => 0nat,
    };
    let column = match d.column {
        Some(c) => c as nat,
        None => 0nat,
    };
    file + seq!['|'] + decimal(line) + seq!['|'] + decimal(column) + seq!['|'] + decimal(
        d.code as nat,
    ) + seq!['|'] + category_name(d.category) + seq!['|'] + spec_flatten_message(d.message@)
}

/// The comparison key of a diagnostic (see [`spec_normalize_key`]).
pub fn normalize_key(d: &Diagnostic) -> (r: String)
    ensures
        r@ == spec_normalize_key(*d),
{
    let mut s = match &d.file {
        Some(f) => normalize_path(f.as_str()),
        None => String::new(),
    };
    push_char(&mut s, '|');
    push_decimal(
        &mut s,
        match d.line {
            Some(l) => l as u64,
            None => 0,
        },
    );
    push_char(&mut s, '|');
    push_decimal(
        &mut s,
        match d.column {
            Some(c) => c as u64,
            None => 0,
        },
    );
    push_char(&mut s, '|');
    push_decimal(&mut s, d.code as u64);
    push_char(&mut s, '|');
    push_str(&mut s, d.category.as_str());
    push_char(&mut s, '|');
    let m = flatten_message(d.message.as_str());
    push_str(&mut s, m.as_str());
    assert(s@ =~= spec_normalize_key(*d));
    s
}

/// `d` has the same key as some diagnostic of `baseline`.
pub open spec fn in_baseline(d: Diagnostic, baseline: Seq<Diagnostic>) -> bool {
    exists|j: int| 0 <= j < baseline.len() && spec_normalize_key(#[trigger] baseline[j]) == spec_normalize_key(d)
}

/// The strict diagnostics whose key no baseline diagnostic has, in order.
pub open spec fn spec_diff(strict: Seq<Diagnostic>, baseline: Seq<Diagnostic>) -> Seq<Diagnostic> {
    strict.filter(|d: Diagnostic| !in_baseline(d, baseline))
}

/// Keep the strict-mode diagnostics that do not appear, by key, in the
/// baseline.
pub fn diff_diagnostics(strict: Vec<Diagnostic>, baseline: &[Diagnostic]) -> (r: Vec<Diagnostic>)
    ensures
        r@ == spec_diff(strict@, baseline@),
{
    let mut keys: Vec<String> = Vec::new();
    let mut j: usize = 0;
    while j < baseline.len()
        invariant
            j <= baseline@.len(),
            keys@.len() == j,
            forall|k: int| 0 <= k < j ==> #[trigger] keys@[k]@ == spec_normalize_key(baseline@[k]),
        decreases baseline@.len() - j,
    {
        keys.push(normalize_key(&baseline[j]));
        j = j + 1;
    }
    let ghost pred = |d: Diagnostic| !in_baseline(d, baseline@);
    let mut out: Vec<Diagnostic> = Vec::new();
    let mut i: usize = 0;
    while i < strict.len()
        invariant
            i <= strict@.len(),
            keys@.len() == baseline@.len(),
            forall|k: int| 0 <= k < keys@.len() ==> #[trigger] keys@[k]@ == spec_normalize_key(baseline@[k]),
            pred == (|d: Diagnostic| !in_baseline(d, baseline@)),
            out@ == strict@.take(i as int).filter(pred),
        decreases strict@.len() - i,
    {
        let key = normalize_key(&strict[i]);
        let mut found = false;
        let mut k: usize = 0;
        while k < keys.len()
            invariant
                k <= keys@.len() == baseline@.len(),
                forall|m: int| 0 <= m < keys@.len() ==> #[trigger] keys@[m]@ == spec_normalize_key(baseline@[m]),
                key@ == spec_normalize_key(strict@[i as int]),
                i < strict@.len(),
                found == exists|m: int| 0 <= m < k && spec_normalize_key(#[trigger] baseline@[m]) == key@,
            decreases keys@.len() - k,
        {
            if keys[k] == key {
                found = true;
            }
            k = k + 1;
        }
        proof {
            reveal_with_fuel(Seq::filter, 1);
            assert(strict@.take(i + 1).drop_last() =~= strict@.take(i as int));
        }
        if !found {
            out.push(strict[i].duplicate());
        }
        i = i + 1;
    }
    assert(strict@.take(i as int) =~= strict@);
    out
}

} // verus!
