use vstd::prelude::*;

verus! {

/// Number of leading bytes of a source file that are scanned for pragmas.
pub const HEAD_BYTES: usize = 4096;

/// Classification of a file head with respect to the strict pragmas.
#[derive(Debug, Clone, Copy, PartialEq, Eq, Structural)]
pub enum PragmaHint {
    /// No strict pragma found.
    Absent,
    /// `@ts-strict` present: force include, overrides paths/excludePattern.
    Strict,
    /// `@ts-strict-ignore` present: force exclude, short-circuits everything.
    Ignore,
}

/// A byte of an identifier (`[A-Za-z0-9_]`); a `\b` boundary follows a needle
/// exactly when the next byte is not one of these.
pub open spec fn spec_is_word_byte(b: u8) -> bool {
    (48 <= b && b <= 57) || (65 <= b && b <= 90) || (97 <= b && b <= 122) || b == 95
}

/// The blank bytes skipped before `//` and before the pragma: space, tab, CR.
pub open spec fn spec_is_blank(b: u8) -> bool {
    b == 32 || b == 9 || b == 13
}

/// Number of leading blank bytes of `s`.
pub open spec fn blank_prefix_len(s: Seq<u8>) -> nat
    decreases s.len(),
{
    if s.len() > 0 && spec_is_blank(s[0]) {
        1 + blank_prefix_len(s.drop_first())
    } else {
        0
    }
}

/// `s` without its leading blanks.
pub open spec fn trim_blank_start(s: Seq<u8>) -> Seq<u8> {
    s.skip(blank_prefix_len(s) as int)
}

/// `@ts-strict` as bytes.
pub open spec fn strict_needle() -> Seq<u8> {
    seq![64u8, 116, 115, 45, 115, 116, 114, 105, 99, 116]
}

/// `@ts-strict-ignore` as bytes.
pub open spec fn ignore_needle() -> Seq<u8> {
    strict_needle() + seq![45u8, 105, 103, 110, 111, 114, 101]
}

/// `hay` starts with `needle`, and the needle is followed by a word boundary.
pub open spec fn spec_starts_with_word(hay: Seq<u8>, needle: Seq<u8>) -> bool {
    &&& needle.len() <= hay.len()
    &&& hay.take(needle.len() as int) == needle
    &&& (hay.len() == needle.len() || !spec_is_word_byte(hay[needle.len() as int]))
}

/// What one line says: optional blanks, exactly `//`, optional blanks, then
/// `@ts-strict-ignore` or `@ts-strict` followed by a word boundary.
pub open spec fn spec_classify_line(line: Seq<u8>) -> PragmaHint {
    let rest = trim_blank_start(line);
    if rest.len() >= 2 && rest[0] == 47u8 && rest[1] == 47u8 {
        let after = trim_blank_start(rest.skip(2));
        if spec_starts_with_word(after, ignore_needle()) {
            PragmaHint::Ignore
        } else if spec_starts_with_word(after, strict_needle()) {
            PragmaHint::Strict
        } else {
            PragmaHint::Absent
        }
    } else {
        PragmaHint::Absent
    }
}

/// Position `p` begins a line of `head` (as `split(b'\n')` yields them).
pub open spec fn is_line_start(head: Seq<u8>, p: int) -> bool {
    0 <= p <= head.len() && (p == 0 || head[p - 1] == 10u8)
}

/// End (exclusive) of the line that begins at `p`: the next `\n` or the end.
pub open spec fn line_end(head: Seq<u8>, p: int) -> int
    decreases head.len() - p,
{
    if p < 0 || p >= head.len() {
        head.len() as int
    } else if head[p] == 10u8 {
        p
    } else {
        line_end(head, p + 1)
    }
}

/// The line of `head` that begins at `p`.
pub open spec fn line_at(head: Seq<u8>, p: int) -> Seq<u8> {
    head.subrange(p, line_end(head, p))
}

/// Some line of `head` carries the pragma classified as `hint`.
pub open spec fn has_line_with(head: Seq<u8>, hint: PragmaHint) -> bool {
    exists|p: int| is_line_start(head, p) && spec_classify_line(#[trigger] line_at(head, p)) == hint
}

/// The classification of a whole head: an ignore line anywhere wins, then a
/// strict line, otherwise nothing.
pub open spec fn spec_classify_head(head: Seq<u8>) -> PragmaHint {
    if has_line_with(head, PragmaHint::Ignore) {
        PragmaHint::Ignore
    } else if has_line_with(head, PragmaHint::Strict) {
        PragmaHint::Strict
    } else {
        PragmaHint::Absent
    }
}

/// How strongly a hint decides: none, then `@ts-strict`, then
/// `@ts-strict-ignore`.
pub open spec fn hint_rank(h: PragmaHint) -> int {
    match h {
        PragmaHint::Absent => 0,
        PragmaHint::Strict => 1,
        PragmaHint::Ignore => 2,
    }
}

/// A line ends at or after its start and within the head.
proof fn lemma_line_end_bounds(head: Seq<u8>, p: int)
    requires
        0 <= p <= head.len(),
    ensures
        p <= line_end(head, p) <= head.len(),
    decreases head.len() - p,
{
    if p < head.len() && head[p] != 10u8 {
        lemma_line_end_bounds(head, p + 1);
    }
}

/// A line of `a` ends where it ends in `a`, a `\n` and more.
proof fn lemma_line_end_prefix(a: Seq<u8>, c: Seq<u8>, p: int)
    requires
        c.len() > a.len(),
        forall|i: int| 0 <= i < a.len() ==> c[i] == a[i],
        c[a.len() as int] == 10u8,
        0 <= p <= a.len(),
    ensures
        line_end(c, p) == line_end(a, p),
    decreases a.len() - p,
{
    if p < a.len() && a[p] != 10u8 {
        lemma_line_end_prefix(a, c, p + 1);
    }
}

/// A line of `b` ends where it ends in some text followed by `b`.
proof fn lemma_line_end_suffix(b: Seq<u8>, c: Seq<u8>, off: int, p: int)
    requires
        off >= 0,
        c.len() == off + b.len(),
        forall|i: int| 0 <= i < b.len() ==> c[off + i] == b[i],
        0 <= p <= b.len(),
    ensures
        line_end(c, off + p) == off + line_end(b, p),
    decreases b.len() - p,
{
    if p < b.len() && b[p] != 10u8 {
        assert(c[off + p] == b[p]);
        lemma_line_end_suffix(b, c, off, p + 1);
    } else if p < b.len() {
        assert(c[off + p] == b[p]);
    }
}

/// The lines of two heads joined by a line break are the lines of each.
pub proof fn lemma_joined_lines(a: Seq<u8>, b: Seq<u8>, h: PragmaHint)
    ensures
        has_line_with(a + seq![10u8] + b, h) == (has_line_with(a, h) || has_line_with(b, h)),
{
    let c = a + seq![10u8] + b;
    let off: int = a.len() as int + 1;
    assert forall|i: int| 0 <= i < a.len() implies c[i] == a[i] by {}
    assert(c[a.len() as int] == 10u8);
    assert forall|i: int| 0 <= i < b.len() implies c[off + i] == b[i] by {}
    if has_line_with(a, h) {
        let p = choose|p: int| is_line_start(a, p) && spec_classify_line(#[trigger] line_at(a, p)) == h;
        lemma_line_end_prefix(a, c, p);
        lemma_line_end_bounds(a, p);
        assert(line_at(c, p) =~= line_at(a, p));
        assert(is_line_start(c, p));
        assert(spec_classify_line(line_at(c, p)) == h);
    }
    if has_line_with(b, h) {
        let q = choose|q: int| is_line_start(b, q) && spec_classify_line(#[trigger] line_at(b, q)) == h;
        lemma_line_end_suffix(b, c, off, q);
        lemma_line_end_bounds(b, q);
        assert(line_at(c, off + q) =~= line_at(b, q));
        if q > 0 {
            assert(c[off + q - 1] == b[q - 1]);
        }
        assert(is_line_start(c, off + q));
        assert(spec_classify_line(line_at(c, off + q)) == h);
    }
    if has_line_with(c, h) {
        let p = choose|p: int| is_line_start(c, p) && spec_classify_line(#[trigger] line_at(c, p)) == h;
        if p <= a.len() {
            lemma_line_end_prefix(a, c, p);
            lemma_line_end_bounds(a, p);
            assert(line_at(c, p) =~= line_at(a, p));
            if p > 0 {
                assert(c[p - 1] == a[p - 1]);
            }
            assert(is_line_start(a, p));
            assert(spec_classify_line(line_at(a, p)) == h);
        } else {
            let q = p - off;
            lemma_line_end_suffix(b, c, off, q);
            lemma_line_end_bounds(b, q);
            assert(line_at(c, p) =~= line_at(b, q));
            if q > 0 {
                assert(c[off + q - 1] == b[q - 1]);
            }
            assert(is_line_start(b, q));
            assert(spec_classify_line(line_at(b, q)) == h);
        }
    }
}

fn is_word_byte(b: u8) -> (r: bool)
    ensures
        r == spec_is_word_byte(b),
{
    (b >= 48 && b <= 57) || (b >= 65 && b <= 90) || (b >= 97 && b <= 122) || b == 95
}

/// Blank prefixes are determined by the bytes they consist of and the first
/// byte after them.
proof fn lemma_blank_prefix_exact(s: Seq<u8>, k: int)
    requires
        0 <= k <= s.len(),
        forall|i: int| 0 <= i < k ==> spec_is_blank(#[trigger] s[i]),
        k == s.len() || !spec_is_blank(s[k]),
    ensures
        blank_prefix_len(s) == k,
    decreases k,
{
    if k > 0 {
        assert(spec_is_blank(s[0]));
        let t = s.drop_first();
        assert forall|i: int| 0 <= i < k - 1 implies spec_is_blank(#[trigger] t[i]) by {
            assert(t[i] == s[i + 1]);
        }
        if k - 1 < t.len() {
            assert(t[k - 1] == s[k]);
        }
        lemma_blank_prefix_exact(t, k - 1);
    } else {
        if s.len() > 0 {
            assert(!spec_is_blank(s[0]));
        }
    }
}

/// Index of the first non-blank byte of `s[from..to]`, as an absolute index.
fn skip_blanks(s: &[u8], from: usize, to: usize) -> (r: usize)
    requires
        from <= to <= s@.len(),
    ensures
        from <= r <= to,
        r - from == blank_prefix_len(s@.subrange(from as int, to as int)),
{
    let mut i = from;
    while i < to && (s[i] == 32 || s[i] == 9 || s[i] == 13)
        invariant
            from <= i <= to <= s@.len(),
            forall|j: int| from <= j < i ==> spec_is_blank(#[trigger] s@[j]),
        decreases to - i,
    {
        i = i + 1;
    }
    proof {
        let sub = s@.subrange(from as int, to as int);
        assert forall|j: int| 0 <= j < i - from implies spec_is_blank(#[trigger] sub[j]) by {
            assert(sub[j] == s@[from + j]);
        }
        if i < to {
            assert(sub[i - from] == s@[i as int]);
        }
        lemma_blank_prefix_exact(sub, i - from);
    }
    i
}

/// Does `s[from..to]` start with `needle` followed by a word boundary?
fn starts_with_word(s: &[u8], from: usize, to: usize, needle: &Vec<u8>) -> (r: bool)
    requires
        from <= to <= s@.len(),
    ensures
        r == spec_starts_with_word(s@.subrange(from as int, to as int), needle@),
{
    let n = needle.len();
    let ghost hay = s@.subrange(from as int, to as int);
    if to - from < n {
        return false;
    }
    let mut k: usize = 0;
    while k < n
        invariant
            k <= n == needle@.len(),
            n <= to - from,
            from <= to <= s@.len(),
            hay == s@.subrange(from as int, to as int),
            forall|j: int| 0 <= j < k ==> hay[j] == needle@[j],
        decreases n - k,
    {
        if s[from + k] != needle[k] {
            assert(hay[k as int] == s@[from + k]);
            assert(hay.take(n as int)[k as int] != needle@[k as int]);
            return false;
        }
        assert(hay[k as int] == s@[from + k]);
        k = k + 1;
    }
    assert(hay.take(n as int) =~= needle@);
    if to - from == n {
        true
    } else {
        assert(hay[n as int] == s@[from + n]);
        !is_word_byte(s[from + n])
    }
}

fn strict_needle_bytes() -> (v: Vec<u8>)
    ensures
        v@ == strict_needle(),
{
    let v: Vec<u8> = vec![64u8, 116, 115, 45, 115, 116, 114, 105, 99, 116];
    assert(v@ =~= strict_needle());
    v
}

fn ignore_needle_bytes() -> (v: Vec<u8>)
    ensures
        v@ == ignore_needle(),
{
    let v: Vec<u8> = vec![64u8, 116, 115, 45, 115, 116, 114, 105, 99, 116, 45, 105, 103, 110, 111, 114, 101];
    assert(v@ =~= ignore_needle());
    v
}

proof fn lemma_trim_subrange(s: Seq<u8>, from: int, to: int, r: int)
    requires
        0 <= from <= r <= to <= s.len(),
        r - from == blank_prefix_len(s.subrange(from, to)),
    ensures
        trim_blank_start(s.subrange(from, to)) =~= s.subrange(r, to),
{
}

/// Classify the line `head[start..end]`.
fn classify_line(head: &[u8], start: usize, end: usize) -> (r: PragmaHint)
    requires
        start <= end <= head@.len(),
    ensures
        r == spec_classify_line(head@.subrange(start as int, end as int)),
{
    let ghost line = head@.subrange(start as int, end as int);
    let rest = skip_blanks(head, start, end);
    proof {
        lemma_trim_subrange(head@, start as int, end as int, rest as int);
    }
    let ghost rest_seq = head@.subrange(rest as int, end as int);
    if !(end - rest >= 2 && head[rest] == 47 && head[rest + 1] == 47) {
        proof {
            if rest_seq.len() >= 2 {
                assert(rest_seq[0] == head@[rest as int]);
                assert(rest_seq[1] == head@[rest + 1]);
            }
        }
        return PragmaHint::Absent;
    }
    assert(rest_seq[0] == head@[rest as int]);
    assert(rest_seq[1] == head@[rest + 1]);
    let after = skip_blanks(head, rest + 2, end);
    proof {
        assert(rest_seq.skip(2) =~= head@.subrange(rest + 2, end as int));
        lemma_trim_subrange(head@, rest + 2, end as int, after as int);
    }
    let ignore = ignore_needle_bytes();
    if starts_with_word(head, after, end, &ignore) {
        return PragmaHint::Ignore;
    }
    let strict = strict_needle_bytes();
    if starts_with_word(head, after, end, &strict) {
        return PragmaHint::Strict;
    }
    PragmaHint::Absent
}

proof fn lemma_line_end_exact(head: Seq<u8>, p: int, e: int)
    requires
        0 <= p <= e <= head.len(),
        e == head.len() || head[e] == 10u8,
        forall|j: int| p <= j < e ==> head[j] != 10u8,
    ensures
        line_end(head, p) == e,
    decreases e - p,
{
    if p < e {
        lemma_line_end_exact(head, p + 1, e);
    }
}

/// Classify the first `HEAD_BYTES` (or fewer) bytes of a file. A line that
/// carries `@ts-strict-ignore` wins over one that carries `@ts-strict`.
pub fn classify_head(head: &[u8]) -> (r: PragmaHint)
    ensures
        r == spec_classify_head(head@),
{
    let len = head.len();
    let mut start: usize = 0;
    let mut saw_strict = false;
    loop
        invariant_except_break
            start <= len == head@.len(),
            is_line_start(head@, start as int),
            forall|p: int|
                is_line_start(head@, p) && p < start ==> spec_classify_line(#[trigger] line_at(head@, p))
                    != PragmaHint::Ignore,
            saw_strict <==> exists|p: int|
                is_line_start(head@, p) && p < start && spec_classify_line(#[trigger] line_at(head@, p))
                    == PragmaHint::Strict,
        ensures
            saw_strict <==> has_line_with(head@, PragmaHint::Strict),
            !has_line_with(head@, PragmaHint::Ignore),
        decreases len - start,
    {
        let mut end = start;
        while end < len && head[end] != 10
            invariant
                start <= end <= len == head@.len(),
                forall|j: int| start <= j < end ==> head@[j] != 10u8,
            decreases len - end,
        {
            end = end + 1;
        }
        proof {
            lemma_line_end_exact(head@, start as int, end as int);
        }
        let hint = classify_line(head, start, end);
        match hint {
            PragmaHint::Ignore => {
                assert(has_line_with(head@, PragmaHint::Ignore)) by {
                    assert(spec_classify_line(line_at(head@, start as int)) == PragmaHint::Ignore);
                }
                return PragmaHint::Ignore;
            },
            PragmaHint::Strict => {
                saw_strict = true;
            },
            PragmaHint::Absent => {},
        }
        let ghost old_start = start;
        if end == len {
            proof {
                // every line start lies at or before `old_start`
                assert forall|p: int| is_line_start(head@, p) implies p <= old_start by {
                    if p > old_start {
                        assert(head@[p - 1] == 10u8);
                    }
                }
                if has_line_with(head@, PragmaHint::Ignore) {
                    let p = choose|p: int|
                        is_line_start(head@, p) && spec_classify_line(#[trigger] line_at(head@, p))
                            == PragmaHint::Ignore;
                    assert(p <= old_start);
                }
                if has_line_with(head@, PragmaHint::Strict) {
                    let p = choose|p: int|
                        is_line_start(head@, p) && spec_classify_line(#[trigger] line_at(head@, p))
                            == PragmaHint::Strict;
                    assert(p <= old_start);
                    if p < old_start {
                        assert(saw_strict);
                    }
                }
            }
            break;
        }
        start = end + 1;
        proof {
            // no line starts strictly between `old_start` and `start`
            assert forall|p: int| is_line_start(head@, p) && old_start < p < start implies false by {
                assert(head@[p - 1] != 10u8);
            }
        }
    }
    if saw_strict {
        PragmaHint::Strict
    } else {
        PragmaHint::Absent
    }
}

} // verus!
