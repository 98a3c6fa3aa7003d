//! Sorting texts or paths and dropping duplicates, as `Vec::sort` followed
//! by `Vec::dedup` does for `String`s and for `PathBuf`s.
use vstd::prelude::*;
use crate::lines::{find_sep, lemma_split_last, lemma_split_step, split, split_from};
use crate::order::{
    char_views, compare_texts, lemma_texts_lt_irrefl, lemma_texts_lt_total, lemma_texts_lt_trans,
    texts_lt,
};
use crate::text::{to_chars, views};

verus! {

/// The tag characters that order path components as `std::path::Component`
/// orders its variants: the root, `.`, `..`, then names.
pub open spec fn root_tag() -> char {
    '\u{1}'
}

pub open spec fn cur_tag() -> char {
    '\u{2}'
}

pub open spec fn parent_tag() -> char {
    '\u{3}'
}

pub open spec fn name_tag() -> char {
    '\u{4}'
}

/// The component that one `/`-separated segment stands for, if any: empty
/// and `.` segments stand for none.
pub open spec fn segment_key(seg: Seq<char>) -> Seq<Seq<char>> {
    if seg.len() == 0 || seg == seq!['.'] {
        Seq::empty()
    } else if seg == seq!['.', '.'] {
        seq![seq![parent_tag()]]
    } else {
        seq![seq![name_tag()] + seg]
    }
}

/// The components of a list of segments.
pub open spec fn segments_key(segs: Seq<Seq<char>>) -> Seq<Seq<char>>
    decreases segs.len(),
{
    if segs.len() == 0 {
        Seq::empty()
    } else {
        segment_key(segs[0]) + segments_key(segs.drop_first())
    }
}

/// The components of a posix path, as `Path::components` yields them: the
/// root for an absolute path, `.` only at the start of a relative one,
/// `..` anywhere, and the names; each as a tagged text.
#[verifier::opaque]
pub open spec fn path_key(p: Seq<char>) -> Seq<Seq<char>> {
    path_lead(p) + segments_key(split(p, '/'))
}

/// The leading component of a path: the root, or `.` when a relative path
/// starts with it.
pub open spec fn path_lead(p: Seq<char>) -> Seq<Seq<char>> {
    let segs = split(p, '/');
    if p.len() > 0 && p[0] == '/' {
        seq![seq![root_tag()]]
    } else if segs.len() > 0 && segs[0] == seq!['.'] {
        seq![seq![cur_tag()]]
    } else {
        Seq::empty()
    }
}

/// What a text is ordered and compared by: its components as a path, or
/// itself.
pub open spec fn item_key(s: Seq<char>, by_path: bool) -> Seq<Seq<char>> {
    if by_path {
        path_key(s)
    } else {
        seq![s]
    }
}

proof fn lemma_segments_key_step(seg: Seq<char>, rest: Seq<Seq<char>>)
    ensures
        segments_key(seq![seg] + rest) == segment_key(seg) + segments_key(rest),
{
    assert((seq![seg] + rest).drop_first() =~= rest);
}

/// The tagged component of `v[a..b]`, pushed onto `out`.
fn push_segment_key(v: &Vec<char>, a: usize, b: usize, out: &mut Vec<Vec<char>>)
    requires
        a <= b <= v@.len(),
    ensures
        char_views(final(out)@) == char_views(old(out)@) + segment_key(v@.subrange(a as int, b as int)),
{
    let ghost seg = v@.subrange(a as int, b as int);
    let ghost before = char_views(out@);
    if b == a {
        assert(char_views(out@) =~= before + segment_key(seg));
        return;
    }
    if b - a == 1 && v[a] == '.' {
        assert(seg =~= seq!['.']);
        assert(char_views(out@) =~= before + segment_key(seg));
        return;
    }
    if b - a == 2 && v[a] == '.' && v[a + 1] == '.' {
        assert(seg =~= seq!['.', '.']);
        let t: Vec<char> = vec!['\u{3}'];
        assert(t@ =~= seq![parent_tag()]);
        out.push(t);
        assert(char_views(out@) =~= before + segment_key(seg));
        return;
    }
    proof {
        if seg.len() == 1 {
            assert(seg[0] == v@[a as int]);
            assert(seg != seq!['.']);
        }
        if seg.len() == 2 {
            assert(seg[0] == v@[a as int] && seg[1] == v@[a + 1]);
            assert(seg != seq!['.', '.']);
        }
        assert(seg.len() != 0);
    }
    let mut t: Vec<char> = vec!['\u{4}'];
    assert(t@ =~= seq![name_tag()] + v@.subrange(a as int, a as int));
    let mut i = a;
    while i < b
        invariant
            a <= i <= b <= v@.len(),
            t@ == seq![name_tag()] + v@.subrange(a as int, i as int),
        decreases b - i,
    {
        t.push(v[i]);
        i = i + 1;
        assert(t@ =~= seq![name_tag()] + v@.subrange(a as int, i as int));
    }
    out.push(t);
    assert(char_views(out@) =~= before + segment_key(seg));
}

/// The components of a path (see [`path_key`]).
pub fn path_key_of(p: &str) -> (r: Vec<Vec<char>>)
    ensures
        char_views(r@) == path_key(p@),
{
    let v = to_chars(p);
    let mut out: Vec<Vec<char>> = Vec::new();
    let first = find_sep(&v, '/', 0);
    proof {
        if first < v@.len() {
            lemma_split_step(v@, '/', 0);
        } else {
            lemma_split_last(v@, '/', 0);
        }
        assert(split(v@, '/')[0] == v@.subrange(0, first as int));
    }
    if v.len() > 0 && v[0] == '/' {
        let t: Vec<char> = vec!['\u{1}'];
        assert(t@ =~= seq![root_tag()]);
        out.push(t);
    } else if first == 1 && v[0] == '.' {
        assert(v@.subrange(0, 1) =~= seq!['.']);
        let t: Vec<char> = vec!['\u{2}'];
        assert(t@ =~= seq![cur_tag()]);
        out.push(t);
    } else {
        proof {
            if first == 1 {
                assert(v@.subrange(0, 1)[0] == v@[0]);
                assert(v@.subrange(0, 1) != seq!['.']);
            } else {
                assert(v@.subrange(0, first as int).len() != 1);
            }
        }
    }
    let ghost lead = char_views(out@);
    proof {
        if v@.len() > 0 && v@[0] == '/' {
            assert(lead =~= seq![seq![root_tag()]]);
        } else if first == 1 && v@[0] == '.' {
            assert(lead =~= seq![seq![cur_tag()]]);
            assert(split(v@, '/')[0] == seq!['.']);
        } else {
            assert(lead =~= Seq::<Seq<char>>::empty());
            if split(v@, '/').len() > 0 && split(v@, '/')[0] == seq!['.'] {
                assert(v@.subrange(0, first as int) == seq!['.']);
                assert(v@.subrange(0, first as int)[0] == v@[0]);
            }
        }
        assert(lead == path_lead(v@));
    }
    let mut start: usize = 0;
    loop
        invariant_except_break
            lead + segments_key(split(v@, '/')) == char_views(out@) + segments_key(
                split_from(v@, '/', start as int),
            ),
        invariant
            start <= v@.len(),
            v@ == p@,
            lead == path_lead(v@),
        ensures
            lead + segments_key(split(v@, '/')) == char_views(out@),
        decreases v@.len() - start,
    {
        let e = find_sep(&v, '/', start);
        let ghost before = char_views(out@);
        push_segment_key(&v, start, e, &mut out);
        if e >= v.len() {
            proof {
                lemma_split_last(v@, '/', start as int);
                lemma_segments_key_step(v@.subrange(start as int, e as int), Seq::empty());
                assert(seq![v@.subrange(start as int, e as int)] + Seq::<Seq<char>>::empty()
                    =~= seq![v@.subrange(start as int, e as int)]);
                assert(segments_key(Seq::<Seq<char>>::empty()) =~= Seq::<Seq<char>>::empty());
                assert(char_views(out@) + Seq::<Seq<char>>::empty() =~= char_views(out@));
            }
            break;
        }
        proof {
            lemma_split_step(v@, '/', start as int);
            lemma_segments_key_step(
                v@.subrange(start as int, e as int),
                split_from(v@, '/', e + 1),
            );
            assert(before + (segment_key(v@.subrange(start as int, e as int)) + segments_key(
                split_from(v@, '/', e + 1),
            )) =~= char_views(out@) + segments_key(split_from(v@, '/', e + 1)));
        }
        start = e + 1;
    }
    proof {
        reveal(path_key);
    }
    out
}

/// The key of a text (see [`item_key`]).
fn key_of(s: &str, by_path: bool) -> (r: Vec<Vec<char>>)
    ensures
        char_views(r@) == item_key(s@, by_path),
{
    if by_path {
        path_key_of(s)
    } else {
        let r = vec![to_chars(s)];
        assert(char_views(r@) =~= seq![s@]);
        r
    }
}

/// `input[k]` is the first item with its key.
pub open spec fn first_with_key(input: Seq<Seq<char>>, k: int, by_path: bool) -> bool {
    forall|m: int| 0 <= m < k ==> #[trigger] item_key(input[m], by_path) != item_key(input[k], by_path)
}

/// `r` is `input` sorted by key with duplicate keys dropped, keeping the
/// first item of each key.
pub open spec fn sorted_dedup_of(r: Seq<Seq<char>>, input: Seq<Seq<char>>, by_path: bool) -> bool {
    &&& sorted_by_key(r, by_path)
    &&& keys_covered(r, input, by_path)
    &&& firsts_of(r, input, by_path)
}

/// The keys of `r` strictly increase.
pub open spec fn sorted_by_key(r: Seq<Seq<char>>, by_path: bool) -> bool {
    forall|i: int, j: int|
        0 <= i < j < r.len() ==> texts_lt(
            #[trigger] item_key(r[i], by_path),
            #[trigger] item_key(r[j], by_path),
        )
}

/// Some item of `r` has the key of `s`.
pub open spec fn key_kept(r: Seq<Seq<char>>, s: Seq<char>, by_path: bool) -> bool {
    exists|i: int| 0 <= i < r.len() && #[trigger] item_key(r[i], by_path) == item_key(s, by_path)
}

/// Every item of `input` has its key in `r`.
pub open spec fn keys_covered(r: Seq<Seq<char>>, input: Seq<Seq<char>>, by_path: bool) -> bool {
    forall|k: int| 0 <= k < input.len() ==> #[trigger] key_kept(r, input[k], by_path)
}

/// `s` is an item of `input` that no earlier item shares a key with.
pub open spec fn first_origin(s: Seq<char>, input: Seq<Seq<char>>, by_path: bool) -> bool {
    exists|k: int| 0 <= k < input.len() && #[trigger] input[k] == s && first_with_key(input, k, by_path)
}

/// Every item of `r` is an item of `input` that no earlier item shares a
/// key with.
pub open spec fn firsts_of(r: Seq<Seq<char>>, input: Seq<Seq<char>>, by_path: bool) -> bool {
    forall|i: int| 0 <= i < r.len() ==> #[trigger] first_origin(r[i], input, by_path)
}

/// Keeping the kept items as they are covers one more item whose key is
/// already kept.
proof fn lemma_skip_covered(o: Seq<Seq<char>>, inp: Seq<Seq<char>>, x: Seq<char>, p: int, by_path: bool)
    requires
        keys_covered(o, inp, by_path),
        0 <= p < o.len(),
        item_key(o[p], by_path) == item_key(x, by_path),
    ensures
        keys_covered(o, inp.push(x), by_path),
{
    let t = inp.push(x);
    assert forall|kk: int| 0 <= kk < t.len() implies #[trigger] key_kept(o, t[kk], by_path) by {
        if kk < inp.len() {
            assert(t[kk] == inp[kk]);
            assert(key_kept(o, inp[kk], by_path));
        } else {
            assert(item_key(o[p], by_path) == item_key(t[kk], by_path));
        }
    }
}

/// An item pushed onto the input keeps every kept item the first of its
/// key.
proof fn lemma_push_firsts(o: Seq<Seq<char>>, inp: Seq<Seq<char>>, x: Seq<char>, by_path: bool)
    requires
        firsts_of(o, inp, by_path),
    ensures
        firsts_of(o, inp.push(x), by_path),
{
    let t = inp.push(x);
    assert forall|i: int| 0 <= i < o.len() implies #[trigger] first_origin(o[i], t, by_path) by {
        assert(first_origin(o[i], inp, by_path));
        let kk = choose|kk: int|
            0 <= kk < inp.len() && #[trigger] inp[kk] == o[i] && first_with_key(inp, kk, by_path);
        assert(t[kk] == inp[kk]);
        assert forall|m: int| 0 <= m < kk implies #[trigger] item_key(t[m], by_path) != item_key(t[kk], by_path) by {
            assert(t[m] == inp[m]);
        }
        assert(0 <= kk < t.len() && t[kk] == o[i] && first_with_key(t, kk, by_path));
    }
}

/// The items of `o.insert(p, x)` around the new one.
proof fn lemma_insert_index(o: Seq<Seq<char>>, x: Seq<char>, p: int)
    requires
        0 <= p <= o.len(),
    ensures
        o.insert(p, x).len() == o.len() + 1,
        o.insert(p, x)[p] == x,
        forall|i: int| 0 <= i < p ==> #[trigger] o.insert(p, x)[i] == o[i],
        forall|i: int| p < i <= o.len() ==> #[trigger] o.insert(p, x)[i] == o[i - 1],
{
    o.insert_ensures(p, x);
    assert forall|i: int| p < i <= o.len() implies #[trigger] o.insert(p, x)[i] == o[i - 1] by {
        assert(o.insert(p, x)[(i - 1) + 1] == o[i - 1]);
    }
}

/// Inserting `x` where it sorts keeps the keys increasing, and its key is
/// new.
proof fn lemma_insert_sorted(o: Seq<Seq<char>>, x: Seq<char>, p: int, by_path: bool)
    requires
        sorted_by_key(o, by_path),
        0 <= p <= o.len(),
        forall|i: int| 0 <= i < p ==> texts_lt(#[trigger] item_key(o[i], by_path), item_key(x, by_path)),
        p < o.len() ==> texts_lt(item_key(x, by_path), item_key(o[p], by_path)),
    ensures
        sorted_by_key(o.insert(p, x), by_path),
        forall|i: int| 0 <= i < o.len() ==> #[trigger] item_key(o[i], by_path) != item_key(x, by_path),
{
    let kx = item_key(x, by_path);
    let n = o.insert(p, x);
    lemma_insert_index(o, x, p);
    lemma_texts_lt_irrefl(kx);
    assert forall|i: int| 0 <= i < o.len() implies #[trigger] item_key(o[i], by_path) != kx by {
        if i > p {
            lemma_texts_lt_trans(kx, item_key(o[p], by_path), item_key(o[i], by_path));
        }
    }
    assert forall|i: int, j: int| 0 <= i < j < n.len() implies texts_lt(
        #[trigger] item_key(n[i], by_path),
        #[trigger] item_key(n[j], by_path),
    ) by {
        if j > p {
            if j - 1 > p {
                lemma_texts_lt_trans(kx, item_key(o[p], by_path), item_key(o[j - 1], by_path));
            }
            if i < p {
                lemma_texts_lt_trans(item_key(o[i], by_path), kx, item_key(o[j - 1], by_path));
            }
        }
    }
}

/// Inserting `x`, whose key is new, covers it and keeps the kept items the
/// first of their keys.
proof fn lemma_insert_dedup(o: Seq<Seq<char>>, inp: Seq<Seq<char>>, x: Seq<char>, p: int, by_path: bool)
    requires
        keys_covered(o, inp, by_path),
        firsts_of(o, inp, by_path),
        0 <= p <= o.len(),
        forall|i: int| 0 <= i < o.len() ==> #[trigger] item_key(o[i], by_path) != item_key(x, by_path),
    ensures
        keys_covered(o.insert(p, x), inp.push(x), by_path),
        firsts_of(o.insert(p, x), inp.push(x), by_path),
{
    let n = o.insert(p, x);
    let t = inp.push(x);
    lemma_insert_index(o, x, p);
    assert forall|kk: int| 0 <= kk < t.len() implies #[trigger] key_kept(n, t[kk], by_path) by {
        if kk < inp.len() {
            assert(t[kk] == inp[kk]);
            assert(key_kept(o, inp[kk], by_path));
            let i = choose|i: int|
                0 <= i < o.len() && #[trigger] item_key(o[i], by_path) == item_key(inp[kk], by_path);
            if i < p {
                assert(n[i] == o[i]);
                assert(item_key(n[i], by_path) == item_key(t[kk], by_path));
            } else {
                assert(n[i + 1] == o[i]);
                assert(item_key(n[i + 1], by_path) == item_key(t[kk], by_path));
            }
        } else {
            assert(n[p] == t[kk]);
            assert(item_key(n[p], by_path) == item_key(t[kk], by_path));
        }
    }
    lemma_push_firsts(o, inp, x, by_path);
    assert forall|i: int| 0 <= i < n.len() implies #[trigger] first_origin(n[i], t, by_path) by {
        if i == p {
            let last = inp.len() as int;
            assert(t[last] == n[i]);
            assert forall|m: int| 0 <= m < last implies #[trigger] item_key(t[m], by_path) != item_key(t[last], by_path) by {
                assert(t[m] == inp[m]);
                assert(key_kept(o, inp[m], by_path));
            }
            assert(0 <= last < t.len() && t[last] == n[i] && first_with_key(t, last, by_path));
        } else {
            let oi = if i < p { i } else { i - 1 };
            assert(n[i] == o[oi]);
            assert(first_origin(o[oi], t, by_path));
        }
    }
}

/// Sort `items` by key and drop the items whose key an earlier item has:
/// what `sort` then `dedup` do on `String`s (`by_path` false) or on
/// `PathBuf`s (`by_path` true).
pub fn sort_dedup(items: Vec<String>, by_path: bool) -> (r: Vec<String>)
    ensures
        sorted_dedup_of(views(r@), views(items@), by_path),
{
    let ghost input = views(items@);
    let mut out: Vec<String> = Vec::new();
    let mut keys: Vec<Vec<Vec<char>>> = Vec::new();
    let mut k: usize = 0;
    assert(views(out@) =~= Seq::<Seq<char>>::empty());
    while k < items.len()
        invariant
            k <= items@.len(),
            input == views(items@),
            keys@.len() == out@.len(),
            forall|i: int| 0 <= i < out@.len() ==> char_views(#[trigger] keys@[i]@) == item_key(out@[i]@, by_path),
            sorted_dedup_of(views(out@), input.take(k as int), by_path),
        decreases items@.len() - k,
    {
        let x = &items[k];
        let kx = key_of(x.as_str(), by_path);
        let ghost kxv = item_key(x@, by_path);
        let ghost o = views(out@);
        let mut p: usize = 0;
        while p < keys.len() && compare_texts(&keys[p], &kx) < 0
            invariant
                p <= keys@.len() == out@.len(),
                o == views(out@),
                char_views(kx@) == kxv,
                forall|i: int| 0 <= i < out@.len() ==> char_views(#[trigger] keys@[i]@) == item_key(out@[i]@, by_path),
                forall|i: int| 0 <= i < p ==> texts_lt(#[trigger] item_key(o[i], by_path), kxv),
            decreases keys@.len() - p,
        {
            assert(char_views(keys@[p as int]@) == item_key(o[p as int], by_path));
            p = p + 1;
        }
        let dup = p < keys.len() && compare_texts(&keys[p], &kx) == 0;
        proof {
            assert(input.take(k + 1) =~= input.take(k as int).push(x@));
            if p < keys@.len() {
                assert(char_views(keys@[p as int]@) == item_key(o[p as int], by_path));
                lemma_texts_lt_total(item_key(o[p as int], by_path), kxv);
            }
        }
        if dup {
            proof {
                lemma_skip_covered(o, input.take(k as int), x@, p as int, by_path);
                lemma_push_firsts(o, input.take(k as int), x@, by_path);
            }
        } else {
            let ghost old_out = out@;
            let xc = x.clone();
            out.insert(p, xc);
            keys.insert(p, kx);
            proof {
                lemma_insert_sorted(o, x@, p as int, by_path);
                lemma_insert_dedup(o, input.take(k as int), x@, p as int, by_path);
                old_out.insert_ensures(p as int, xc);
                assert(views(out@) =~= o.insert(p as int, x@));
                assert forall|i: int| 0 <= i < out@.len() implies char_views(#[trigger] keys@[i]@) == item_key(out@[i]@, by_path) by {
                    if i > p {
                        assert(out@[i] == old_out[i - 1]);
                    }
                }
            }
        }
        k = k + 1;
    }
    assert(input.take(k as int) =~= input);
    out
}

/// Every key of `a` is the key of an item of `b`.
pub open spec fn keys_within(a: Seq<Seq<char>>, b: Seq<Seq<char>>, by_path: bool) -> bool {
    forall|i: int| 0 <= i < a.len() ==> #[trigger] key_kept(b, a[i], by_path)
}

/// Two sequences sorted by strictly increasing keys, with the same keys,
/// have the same keys in the same places.
proof fn lemma_same_sorted_keys(a: Seq<Seq<char>>, b: Seq<Seq<char>>, by_path: bool)
    requires
        sorted_by_key(a, by_path),
        sorted_by_key(b, by_path),
        keys_within(a, b, by_path),
        keys_within(b, a, by_path),
    ensures
        a.len() == b.len(),
        forall|i: int| 0 <= i < a.len() ==> item_key(#[trigger] a[i], by_path) == item_key(b[i], by_path),
    decreases a.len() + b.len(),
{
    if a.len() == 0 || b.len() == 0 {
        if a.len() > 0 {
            assert(key_kept(b, a[0], by_path));
        }
        if b.len() > 0 {
            assert(key_kept(a, b[0], by_path));
        }
        return;
    }
    let ka = item_key(a[0], by_path);
    let kb = item_key(b[0], by_path);
    assert(key_kept(b, a[0], by_path));
    assert(key_kept(a, b[0], by_path));
    let j = choose|j: int| 0 <= j < b.len() && #[trigger] item_key(b[j], by_path) == ka;
    let i = choose|i: int| 0 <= i < a.len() && #[trigger] item_key(a[i], by_path) == kb;
    if ka != kb {
        assert(j != 0 && i != 0);
        assert(texts_lt(kb, item_key(b[j], by_path)));
        assert(texts_lt(ka, item_key(a[i], by_path)));
        lemma_texts_lt_trans(ka, kb, ka);
        lemma_texts_lt_irrefl(ka);
    }
    let a1 = a.drop_first();
    let b1 = b.drop_first();
    assert(sorted_by_key(a1, by_path)) by {
        assert forall|x: int, y: int| 0 <= x < y < a1.len() implies texts_lt(
            #[trigger] item_key(a1[x], by_path),
            #[trigger] item_key(a1[y], by_path),
        ) by {
            assert(a1[x] == a[x + 1] && a1[y] == a[y + 1]);
        }
    }
    assert(sorted_by_key(b1, by_path)) by {
        assert forall|x: int, y: int| 0 <= x < y < b1.len() implies texts_lt(
            #[trigger] item_key(b1[x], by_path),
            #[trigger] item_key(b1[y], by_path),
        ) by {
            assert(b1[x] == b[x + 1] && b1[y] == b[y + 1]);
        }
    }
    assert(keys_within(a1, b1, by_path)) by {
        assert forall|x: int| 0 <= x < a1.len() implies #[trigger] key_kept(b1, a1[x], by_path) by {
            assert(a1[x] == a[x + 1]);
            assert(key_kept(b, a[x + 1], by_path));
            let m = choose|m: int| 0 <= m < b.len() && #[trigger] item_key(b[m], by_path) == item_key(a[x + 1], by_path);
            assert(texts_lt(ka, item_key(a[x + 1], by_path)));
            if m == 0 {
                lemma_texts_lt_irrefl(ka);
            }
            assert(b1[m - 1] == b[m]);
        }
    }
    assert(keys_within(b1, a1, by_path)) by {
        assert forall|x: int| 0 <= x < b1.len() implies #[trigger] key_kept(a1, b1[x], by_path) by {
            assert(b1[x] == b[x + 1]);
            assert(key_kept(a, b[x + 1], by_path));
            let m = choose|m: int| 0 <= m < a.len() && #[trigger] item_key(a[m], by_path) == item_key(b[x + 1], by_path);
            assert(texts_lt(kb, item_key(b[x + 1], by_path)));
            if m == 0 {
                lemma_texts_lt_irrefl(kb);
            }
            assert(a1[m - 1] == a[m]);
        }
    }
    lemma_same_sorted_keys(a1, b1, by_path);
    assert forall|x: int| 0 <= x < a.len() implies item_key(#[trigger] a[x], by_path) == item_key(b[x], by_path) by {
        if x > 0 {
            assert(a[x] == a1[x - 1] && b[x] == b1[x - 1]);
        }
    }
}

/// Sorting and deduplicating what is already sorted with distinct keys
/// gives it back unchanged.
pub proof fn lemma_sorted_dedup_of_sorted(r: Seq<Seq<char>>, input: Seq<Seq<char>>, by_path: bool)
    requires
        sorted_by_key(input, by_path),
        sorted_dedup_of(r, input, by_path),
    ensures
        r == input,
{
    assert(keys_within(r, input, by_path)) by {
        assert forall|i: int| 0 <= i < r.len() implies #[trigger] key_kept(input, r[i], by_path) by {
            assert(first_origin(r[i], input, by_path));
            let k = choose|k: int| 0 <= k < input.len() && #[trigger] input[k] == r[i] && first_with_key(input, k, by_path);
            assert(item_key(input[k], by_path) == item_key(r[i], by_path));
        }
    }
    assert(keys_within(input, r, by_path)) by {
        assert forall|i: int| 0 <= i < input.len() implies #[trigger] key_kept(r, input[i], by_path) by {
            assert(key_kept(r, input[i], by_path));
        }
    }
    lemma_same_sorted_keys(r, input, by_path);
    assert forall|i: int| 0 <= i < r.len() implies r[i] == input[i] by {
        assert(first_origin(r[i], input, by_path));
        let k = choose|k: int| 0 <= k < input.len() && #[trigger] input[k] == r[i] && first_with_key(input, k, by_path);
        assert(item_key(input[k], by_path) == item_key(input[i], by_path));
        if k < i {
            assert(texts_lt(item_key(input[k], by_path), item_key(input[i], by_path)));
            lemma_texts_lt_irrefl(item_key(input[k], by_path));
        } else if k > i {
            assert(texts_lt(item_key(input[i], by_path), item_key(input[k], by_path)));
            lemma_texts_lt_irrefl(item_key(input[k], by_path));
        }
    }
    assert(r =~= input);
}

} // verus!
