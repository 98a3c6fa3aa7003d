//! Splitting text into lines, as `str::split(sep)` does.
use vstd::prelude::*;

verus! {

/// Index of the first `sep` at or after `p`, or the length of `s`.
pub open spec fn next_sep(s: Seq<char>, sep: char, p: int) -> int
    decreases s.len() - p,
{
    if p < 0 || p >= s.len() {
        s.len() as int
    } else if s[p] == sep {
        p
    } else {
        next_sep(s, sep, p + 1)
    }
}

/// The pieces of `s[p..]` between separators (`str::split` semantics: an
/// empty text yields one empty piece, a trailing separator yields a final
/// empty piece).
pub open spec fn split_from(s: Seq<char>, sep: char, p: int) -> Seq<Seq<char>>
    decreases s.len() - p,
{
    if p < 0 || p > s.len() {
        seq![]
    } else {
        let e = next_sep(s, sep, p);
        proof {
            lemma_next_sep(s, sep, p);
        }
        if e >= s.len() {
            seq![s.subrange(p, s.len() as int)]
        } else {
            seq![s.subrange(p, e)] + split_from(s, sep, e + 1)
        }
    }
}

/// `s.split(sep)` as a sequence of pieces.
pub open spec fn split(s: Seq<char>, sep: char) -> Seq<Seq<char>> {
    split_from(s, sep, 0)
}

pub proof fn lemma_next_sep(s: Seq<char>, sep: char, p: int)
    requires
        0 <= p <= s.len(),
    ensures
        p <= next_sep(s, sep, p) <= s.len(),
        next_sep(s, sep, p) < s.len() ==> s[next_sep(s, sep, p)] == sep,
        forall|j: int| p <= j < next_sep(s, sep, p) ==> s[j] != sep,
    decreases s.len() - p,
{
    if p < s.len() && s[p] != sep {
        lemma_next_sep(s, sep, p + 1);
    }
}

pub proof fn lemma_next_sep_exact(s: Seq<char>, sep: char, p: int, e: int)
    requires
        0 <= p <= e <= s.len(),
        e == s.len() || s[e] == sep,
        forall|j: int| p <= j < e ==> s[j] != sep,
    ensures
        next_sep(s, sep, p) == e,
    decreases e - p,
{
    if p < e {
        lemma_next_sep_exact(s, sep, p + 1, e);
    }
}

/// End of the piece of `v` that begins at `start`: the next `sep` or the end.
pub fn find_sep(v: &[char], sep: char, start: usize) -> (e: usize)
    requires
        start <= v@.len(),
    ensures
        e == next_sep(v@, sep, start as int),
        start <= e <= v@.len(),
{
    let mut e = start;
    while e < v.len() && v[e] != sep
        invariant
            start <= e <= v@.len(),
            forall|j: int| start <= j < e ==> v@[j] != sep,
        decreases v@.len() - e,
    {
        e = e + 1;
    }
    proof {
        lemma_next_sep_exact(v@, sep, start as int, e as int);
    }
    e
}

/// One step of `split_from`: the piece at `p` followed by the pieces after
/// the separator that ends it.
pub proof fn lemma_split_step(s: Seq<char>, sep: char, p: int)
    requires
        0 <= p <= s.len(),
        next_sep(s, sep, p) < s.len(),
    ensures
        split_from(s, sep, p) == seq![s.subrange(p, next_sep(s, sep, p))] + split_from(
            s,
            sep,
            next_sep(s, sep, p) + 1,
        ),
{
}

/// The last piece of `split_from`.
pub proof fn lemma_split_last(s: Seq<char>, sep: char, p: int)
    requires
        0 <= p <= s.len(),
        next_sep(s, sep, p) >= s.len(),
    ensures
        split_from(s, sep, p) == seq![s.subrange(p, s.len() as int)],
{
}

} // verus!
