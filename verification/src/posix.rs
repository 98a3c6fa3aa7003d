//! Posix path text: separators, absoluteness, and collapsing `.` and `..`
//! segments without touching the filesystem.
use vstd::prelude::*;
use crate::lines::{find_sep, lemma_split_last, lemma_split_step, next_sep, split, split_from};
use crate::text::{push_char, spec_slashes, to_chars};

verus! {

/// A posix path is absolute when it starts with `/` or with a drive such as
/// `C:/`.
pub open spec fn spec_is_absolute_posix(p: Seq<char>) -> bool {
    (p.len() > 0 && p[0] == '/') || (p.len() >= 3 && (('a' <= p[0] && p[0] <= 'z') || ('A' <= p[0]
        && p[0] <= 'Z')) && p[1] == ':' && p[2] == '/')
}

/// Is the posix path `p` absolute?
pub fn is_absolute_posix(p: &str) -> (r: bool)
    ensures
        r == spec_is_absolute_posix(p@),
{
    let v = to_chars(p);
    let n = v.len();
    if n > 0 && v[0] == '/' {
        return true;
    }
    n >= 3 && (('a' <= v[0] && v[0] <= 'z') || ('A' <= v[0] && v[0] <= 'Z')) && v[1] == ':' && v[2]
        == '/'
}

/// `p` with `\` separators turned into `/`.
pub fn path_to_posix(p: &str) -> (r: String)
    ensures
        r@ == spec_slashes(p@),
{
    let v = to_chars(p);
    crate::text::forward_slashes(&v, 0, v.len())
}

/// `..` as a segment.
pub open spec fn dotdot() -> Seq<char> {
    seq!['.', '.']
}

/// One segment applied to the stack of kept segments: empty and `.`
/// segments vanish, `..` removes the last kept segment (at the root of an
/// absolute path it vanishes, at the start of a relative one it is kept).
pub open spec fn resolve_step(stack: Seq<Seq<char>>, seg: Seq<char>, absolute: bool) -> Seq<
    Seq<char>,
> {
    if seg.len() == 0 || seg == seq!['.'] {
        stack
    } else if seg == dotdot() {
        if stack.len() > 0 && stack.last() != dotdot() {
            stack.drop_last()
        } else if absolute {
            stack
        } else {
            stack.push(seg)
        }
    } else {
        stack.push(seg)
    }
}

/// The segments `segs` applied, left to right, to `stack`.
pub open spec fn resolve_fold(stack: Seq<Seq<char>>, segs: Seq<Seq<char>>, absolute: bool) -> Seq<
    Seq<char>,
>
    decreases segs.len(),
{
    if segs.len() == 0 {
        stack
    } else {
        resolve_fold(resolve_step(stack, segs[0], absolute), segs.drop_first(), absolute)
    }
}

/// Segments joined with `/`.
pub open spec fn join_segments(segs: Seq<Seq<char>>) -> Seq<char>
    decreases segs.len(),
{
    if segs.len() == 0 {
        Seq::empty()
    } else if segs.len() == 1 {
        segs[0]
    } else {
        join_segments(segs.drop_last()) + seq!['/'] + segs.last()
    }
}

/// `p` with its `.` and `..` segments collapsed and empty segments removed:
/// `/` plus the kept segments for an absolute path, the kept segments (or
/// `.` when none are left) for a relative one.
pub open spec fn spec_posix_resolve(p: Seq<char>) -> Seq<char> {
    let absolute = p.len() > 0 && p[0] == '/';
    let kept = resolve_fold(Seq::empty(), split(p, '/'), absolute);
    if absolute {
        seq!['/'] + join_segments(kept)
    } else if kept.len() == 0 {
        seq!['.']
    } else {
        join_segments(kept)
    }
}

/// The text of each `(start, end)` range of `v`.
pub open spec fn ranges_text(v: Seq<char>, rs: Seq<(usize, usize)>) -> Seq<Seq<char>> {
    rs.map_values(|r: (usize, usize)| v.subrange(r.0 as int, r.1 as int))
}

proof fn lemma_fold_step(stack: Seq<Seq<char>>, seg: Seq<char>, rest: Seq<Seq<char>>, absolute: bool)
    ensures
        resolve_fold(stack, seq![seg] + rest, absolute) == resolve_fold(
            resolve_step(stack, seg, absolute),
            rest,
            absolute,
        ),
{
    assert((seq![seg] + rest).drop_first() =~= rest);
}

/// Is the range `v[a..b]` the segment `..`?
fn is_dotdot(v: &Vec<char>, a: usize, b: usize) -> (r: bool)
    requires
        a <= b <= v@.len(),
    ensures
        r == (v@.subrange(a as int, b as int) == dotdot()),
{
    if b - a != 2 {
        assert(v@.subrange(a as int, b as int).len() != dotdot().len());
        return false;
    }
    let ghost s = v@.subrange(a as int, b as int);
    assert(s[0] == v@[a as int] && s[1] == v@[a + 1]);
    assert(dotdot()[0] == '.' && dotdot()[1] == '.');
    if v[a] == '.' && v[a + 1] == '.' {
        assert(s =~= dotdot());
        true
    } else {
        false
    }
}

/// Collapse `.` and `..` segments of a posix path without touching the
/// filesystem.
#[verifier::spinoff_prover]
#[verifier::rlimit(40)]
pub fn posix_resolve(p: &str) -> (r: String)
    ensures
        r@ == spec_posix_resolve(p@),
{
    let v = to_chars(p);
    let absolute = v.len() > 0 && v[0] == '/';
    let mut stack: Vec<(usize, usize)> = Vec::new();
    let mut start: usize = 0;
    assert(ranges_text(v@, stack@) =~= Seq::<Seq<char>>::empty());
    loop
        invariant_except_break
            resolve_fold(Seq::empty(), split(v@, '/'), absolute) == resolve_fold(
                ranges_text(v@, stack@),
                split_from(v@, '/', start as int),
                absolute,
            ),
        invariant
            start <= v@.len(),
            v@ == p@,
            absolute == (p@.len() > 0 && p@[0] == '/'),
            forall|k: int| 0 <= k < stack@.len() ==> (#[trigger] stack@[k]).0 <= stack@[k].1 && stack@[k].1 <= v@.len(),
        ensures
            resolve_fold(Seq::empty(), split(v@, '/'), absolute) == ranges_text(v@, stack@),
        decreases v@.len() - start,
    {
        let e = find_sep(&v, '/', start);
        let ghost seg = v@.subrange(start as int, e as int);
        let ghost before = ranges_text(v@, stack@);
        let len = e - start;
        if len == 0 || (len == 1 && v[start] == '.') {
            proof {
                if len == 1 {
                    assert(seg =~= seq!['.']);
                }
                assert(resolve_step(before, seg, absolute) == before);
            }
        } else if is_dotdot(&v, start, e) {
            let n = stack.len();
            if n > 0 && !is_dotdot(&v, stack[n - 1].0, stack[n - 1].1) {
                stack.pop();
                proof {
                    assert(ranges_text(v@, stack@) =~= before.drop_last());
                }
            } else if absolute {
            } else {
                stack.push((start, e));
                assert(ranges_text(v@, stack@) =~= before.push(seg));
            }
        } else {
            proof {
                if len == 1 {
                    assert(seg.len() == 1 && seg[0] != '.');
                    assert(seg != seq!['.']);
                }
            }
            stack.push((start, e));
            assert(ranges_text(v@, stack@) =~= before.push(seg));
        }
        assert(ranges_text(v@, stack@) == resolve_step(before, seg, absolute));
        if e >= v.len() {
            proof {
                lemma_split_last(v@, '/', start as int);
                lemma_fold_step(before, seg, Seq::empty(), absolute);
                assert(seq![seg] + Seq::<Seq<char>>::empty() =~= seq![seg]);
            }
            break;
        }
        proof {
            lemma_split_step(v@, '/', start as int);
            lemma_fold_step(before, seg, split_from(v@, '/', e + 1), absolute);
        }
        start = e + 1;
    }
    let ghost kept = ranges_text(v@, stack@);
    assert(resolve_fold(Seq::empty(), split(v@, '/'), absolute) == kept);
    let mut out = String::new();
    if absolute {
        push_char(&mut out, '/');
    }
    let ghost lead = out@;
    let mut i: usize = 0;
    while i < stack.len()
        invariant
            i <= stack@.len(),
            kept == ranges_text(v@, stack@),
            forall|k: int| 0 <= k < stack@.len() ==> (#[trigger] stack@[k]).0 <= stack@[k].1 && stack@[k].1 <= v@.len(),
            out@ == lead + join_segments(kept.take(i as int)),
        decreases stack@.len() - i,
    {
        let ghost before_sep = out@;
        if i > 0 {
            push_char(&mut out, '/');
        }
        assert(out@ =~= before_sep + (if i > 0 {
            seq!['/']
        } else {
            Seq::<char>::empty()
        }));
        let (a, b) = stack[i];
        let mut j = a;
        let ghost mid = out@;
        assert(kept[i as int] == v@.subrange(a as int, b as int));
        while j < b
            invariant
                a <= j <= b <= v@.len(),
                i < stack@.len(),
                kept[i as int] == v@.subrange(a as int, b as int),
                mid == lead + join_segments(kept.take(i as int)) + (if i > 0 {
                    seq!['/']
                } else {
                    Seq::<char>::empty()
                }),
                out@ == mid + v@.subrange(a as int, j as int),
            decreases b - j,
        {
            push_char(&mut out, v[j]);
            j = j + 1;
            assert(out@ =~= mid + v@.subrange(a as int, j as int));
        }
        proof {
            let t = kept.take(i + 1);
            assert(t.drop_last() =~= kept.take(i as int));
            assert(t.last() == v@.subrange(a as int, b as int));
            if i == 0 {
                assert(t.len() == 1);
                assert(out@ =~= lead + join_segments(t));
            } else {
                assert(out@ =~= lead + join_segments(t));
            }
        }
        i = i + 1;
    }
    assert(kept.take(i as int) =~= kept);
    if !absolute && stack.len() == 0 {
        let mut d = String::new();
        push_char(&mut d, '.');
        assert(d@ =~= seq!['.']);
        return d;
    }
    proof {
        if !absolute {
            assert(lead =~= Seq::<char>::empty());
            assert(out@ =~= join_segments(kept));
        } else {
            assert(lead =~= seq!['/']);
        }
    }
    out
}

} // verus!
