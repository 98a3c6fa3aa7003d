//! Parsing the compiler's output into diagnostics. The compiler writes one
//! diagnostic per line in one of three shapes; other non-blank lines
//! continue the message of the diagnostic before them.
use vstd::prelude::*;
use crate::diagnostics::{Category, Diagnostic, DiagnosticView, diag_views};
use crate::lines::{find_sep, lemma_split_last, lemma_split_step, split, split_from};
use crate::paths::{is_absolute, join, spec_is_absolute, spec_join};
use crate::text::{
    is_ws, lemma_ws_suffix_exact, push_char, push_str, spec_is_ws, str_equal, string_of, to_chars,
    trim, trim_end, trim_range, views,
};

verus! {

/// `file(line,col): category TScode: message`
pub const PAREN_PATTERN: &'static str = r"^(.*)\((\d+),(\d+)\):\s(error|warning)\sTS(\d+):\s(.*)$";

/// `file:line:col - category TScode: message`
pub const COLON_PATTERN: &'static str = r"^(.*):(\d+):(\d+)\s-\s(error|warning)\sTS(\d+):\s(.*)$";

/// `category TScode: message`
pub const NO_FILE_PATTERN: &'static str = r"^(error|warning)\sTS(\d+):\s(.*)$";

/// What the `regex` crate finds for `pattern` in `text`: `None` when the
/// pattern does not match (or is not a valid pattern), otherwise the text of
/// each capture group in order (empty for a group that did not take part).
pub uninterp spec fn regex_captures(pattern: Seq<char>, text: Seq<char>) -> Option<Seq<Seq<char>>>;

/// `regex::Regex::new(pattern)` and `captures(text)`, the groups after the
/// whole match turned into strings. Claimed: the result is the named
/// [`regex_captures`] of the pattern and the text.
#[verifier::external_body]
fn captures(pattern: &str, text: &str) -> (r: Option<Vec<String>>)
    ensures
        match r {
            Some(v) => regex_captures(pattern@, text@) == Some(views(v@)),
            None => regex_captures(pattern@, text@) is None,
        },
{
    let re = match regex::Regex::new(pattern) {
        Ok(re) => re,
        Err(_) => return None,
    };
    re.captures(text).map(
        |caps| caps.iter().skip(1).map(|m| m.map_or(String::new(), |m| m.as_str().to_owned())).collect(),
    )
}

/// What `strip_ansi_escapes::strip` leaves of a line, read back as text.
pub uninterp spec fn ansi_stripped(line: Seq<char>) -> Seq<char>;

/// `strip_ansi_escapes::strip` on the line's bytes, read back lossily as
/// UTF-8. Claimed: the result is the named [`ansi_stripped`] of the line.
#[verifier::external_body]
fn strip_ansi(line: &str) -> (r: String)
    ensures
        r@ == ansi_stripped(line@),
{
    String::from_utf8_lossy(&strip_ansi_escapes::strip(line.as_bytes())).into_owned()
}

/// An ASCII digit.
pub open spec fn is_digit(c: char) -> bool {
    '0' <= c && c <= '9'
}

/// The number that a run of ASCII digits spells.
pub open spec fn digits_value(d: Seq<char>) -> nat
    decreases d.len(),
{
    if d.len() == 0 {
        0
    } else {
        digits_value(d.drop_last()) * 10 + ((d.last() as u32) - 48) as nat
    }
}

/// `s.parse::<u32>()`: an optional `+` then ASCII digits, at most
/// `u32::MAX`.
pub open spec fn spec_parse_u32(s: Seq<char>) -> Option<u32> {
    if all_digits(digits_part(s)) && digits_value(digits_part(s)) <= u32::MAX {
        Some(digits_value(digits_part(s)) as u32)
    } else {
        None
    }
}

/// The text after an optional leading `+`.
pub open spec fn digits_part(s: Seq<char>) -> Seq<char> {
    if s.len() > 0 && s[0] == '+' {
        s.drop_first()
    } else {
        s
    }
}

/// A non-empty run of ASCII digits.
pub open spec fn all_digits(d: Seq<char>) -> bool {
    d.len() > 0 && forall|i: int| 0 <= i < d.len() ==> is_digit(#[trigger] d[i])
}

proof fn lemma_digits_grow(d: Seq<char>, n: int)
    requires
        0 <= n <= d.len(),
        forall|i: int| 0 <= i < d.len() ==> is_digit(#[trigger] d[i]),
    ensures
        digits_value(d.take(n)) <= digits_value(d),
    decreases d.len() - n,
{
    if n < d.len() {
        lemma_digits_grow(d.drop_last(), n);
        assert(d.drop_last().take(n) =~= d.take(n));
    } else {
        assert(d.take(n) =~= d);
    }
}

/// Parse a `u32` as `str::parse` does (see [`spec_parse_u32`]).
pub fn parse_u32(s: &str) -> (r: Option<u32>)
    ensures
        r == spec_parse_u32(s@),
{
    let v = to_chars(s);
    let start: usize = if v.len() > 0 && v[0] == '+' {
        1
    } else {
        0
    };
    let ghost d = digits_part(s@);
    assert(d =~= v@.skip(start as int));
    if start >= v.len() {
        assert(d.len() == 0);
        return None;
    }
    let mut acc: u64 = 0;
    let mut i = start;
    while i < v.len()
        invariant
            start <= i <= v@.len(),
            d == v@.skip(start as int),
            v@ == s@,
            d == digits_part(s@),
            acc == digits_value(d.take(i - start)),
            acc <= u32::MAX,
            forall|j: int| 0 <= j < i - start ==> is_digit(#[trigger] d[j]),
        decreases v@.len() - i,
    {
        let c = v[i];
        if !('0' <= c && c <= '9') {
            assert(d[i - start] == c);
            assert(!is_digit(d[i - start]));
            assert(!all_digits(d));
            return None;
        }
        let digit = (c as u32 - 48) as u64;
        assert(d.take(i - start + 1).drop_last() =~= d.take(i - start));
        assert(d.take(i - start + 1).last() == c);
        acc = acc * 10 + digit;
        i = i + 1;
        if acc > 4294967295 {
            proof {
                if all_digits(d) {
                    lemma_digits_grow(d, i - start);
                }
            }
            return None;
        }
    }
    assert(d.take(i - start) =~= d);
    Some(acc as u32)
}

/// `error` and `warning` name their categories; anything else is a message.
pub open spec fn spec_parse_category(raw: Seq<char>) -> Category {
    if raw == seq!['e', 'r', 'r', 'o', 'r'] {
        Category::Error
    } else if raw == seq!['w', 'a', 'r', 'n', 'i', 'n', 'g'] {
        Category::Warning
    } else {
        Category::Message
    }
}

/// The category a captured name stands for.
pub fn parse_category(raw: &str) -> (r: Category)
    ensures
        r == spec_parse_category(raw@),
{
    let error = "error";
    let warning = "warning";
    proof {
        reveal_strlit("error");
        reveal_strlit("warning");
        assert(error@ =~= seq!['e', 'r', 'r', 'o', 'r']);
        assert(warning@ =~= seq!['w', 'a', 'r', 'n', 'i', 'n', 'g']);
    }
    if str_equal(raw, error) {
        Category::Error
    } else if str_equal(raw, warning) {
        Category::Warning
    } else {
        Category::Message
    }
}

/// One step of collapsing a path the way the report does it: `.` and empty
/// segments vanish, `..` removes the last segment kept (or is kept when
/// there is none), other segments are kept.
pub open spec fn clean_step(stack: Seq<Seq<char>>, seg: Seq<char>) -> Seq<Seq<char>> {
    if seg.len() == 0 || seg == seq!['.'] {
        stack
    } else if seg == seq!['.', '.'] {
        if stack.len() > 0 {
            stack.drop_last()
        } else {
            stack.push(seg)
        }
    } else {
        stack.push(seg)
    }
}

/// The segments applied, left to right, to `stack`.
pub open spec fn clean_fold(stack: Seq<Seq<char>>, segs: Seq<Seq<char>>) -> Seq<Seq<char>>
    decreases segs.len(),
{
    if segs.len() == 0 {
        stack
    } else {
        clean_fold(clean_step(stack, segs[0]), segs.drop_first())
    }
}

/// `p` with its `.` and `..` components collapsed without touching the
/// filesystem, as `PathBuf::pop`/`push` do it: a `..` that finds nothing to
/// remove is kept.
pub open spec fn spec_clean_path(p: Seq<char>) -> Seq<char> {
    let kept = clean_fold(Seq::empty(), split(p, '/'));
    if spec_is_absolute(p) {
        seq!['/'] + crate::posix::join_segments(kept)
    } else {
        crate::posix::join_segments(kept)
    }
}

/// A diagnostic path made absolute against `cwd` and collapsed.
pub open spec fn spec_resolve_relative(cwd: Seq<char>, file: Seq<char>) -> Seq<char> {
    spec_clean_path(spec_join(cwd, file))
}

proof fn lemma_clean_fold_step(stack: Seq<Seq<char>>, seg: Seq<char>, rest: Seq<Seq<char>>)
    ensures
        clean_fold(stack, seq![seg] + rest) == clean_fold(clean_step(stack, seg), rest),
{
    assert((seq![seg] + rest).drop_first() =~= rest);
}

/// Collapse `.` and `..` components of a path (see [`spec_clean_path`]).
#[verifier::spinoff_prover]
pub fn clean_path(p: &str) -> (r: String)
    ensures
        r@ == spec_clean_path(p@),
{
    let v = to_chars(p);
    let absolute = v.len() > 0 && v[0] == '/';
    let mut stack: Vec<(usize, usize)> = Vec::new();
    let mut start: usize = 0;
    assert(crate::posix::ranges_text(v@, stack@) =~= Seq::<Seq<char>>::empty());
    loop
        invariant_except_break
            clean_fold(Seq::empty(), split(v@, '/')) == clean_fold(
                crate::posix::ranges_text(v@, stack@),
                split_from(v@, '/', start as int),
            ),
        invariant
            start <= v@.len(),
            v@ == p@,
            absolute == spec_is_absolute(p@),
            forall|k: int| 0 <= k < stack@.len() ==> (#[trigger] stack@[k]).0 <= stack@[k].1 && stack@[k].1 <= v@.len(),
        ensures
            clean_fold(Seq::empty(), split(v@, '/')) == crate::posix::ranges_text(v@, stack@),
        decreases v@.len() - start,
    {
        let e = find_sep(&v, '/', start);
        let ghost seg = v@.subrange(start as int, e as int);
        let ghost before = crate::posix::ranges_text(v@, stack@);
        let len = e - start;
        assert(before.len() == stack@.len());
        if len == 0 || (len == 1 && v[start] == '.') {
            proof {
                if len == 1 {
                    assert(seg =~= seq!['.']);
                }
                assert(clean_step(before, seg) == before);
            }
        } else if len == 2 && v[start] == '.' && v[start + 1] == '.' {
            assert(seg =~= seq!['.', '.']);
            if stack.len() > 0 {
                stack.pop();
                assert(crate::posix::ranges_text(v@, stack@) =~= before.drop_last());
                assert(clean_step(before, seg) == before.drop_last());
            } else {
                stack.push((start, e));
                assert(crate::posix::ranges_text(v@, stack@) =~= before.push(seg));
                assert(clean_step(before, seg) == before.push(seg));
            }
        } else {
            proof {
                assert(seg.len() == len);
                if len == 1 {
                    assert(seg.len() == 1 && seg[0] != '.');
                    assert(seg != seq!['.']);
                    assert(seg != seq!['.', '.']);
                } else if len == 2 {
                    assert(seg[0] == v@[start as int] && seg[1] == v@[start + 1]);
                    assert(seg != seq!['.', '.']);
                    assert(seg != seq!['.']);
                } else {
                    assert(seg.len() != seq!['.'].len());
                    assert(seg.len() != seq!['.', '.'].len());
                }
                assert(clean_step(before, seg) == before.push(seg));
            }
            stack.push((start, e));
            assert(crate::posix::ranges_text(v@, stack@) =~= before.push(seg));
        }
        assert(crate::posix::ranges_text(v@, stack@) == clean_step(before, seg));
        if e >= v.len() {
            proof {
                lemma_split_last(v@, '/', start as int);
                lemma_clean_fold_step(before, seg, Seq::empty());
                assert(seq![seg] + Seq::<Seq<char>>::empty() =~= seq![seg]);
            }
            break;
        }
        proof {
            lemma_split_step(v@, '/', start as int);
            lemma_clean_fold_step(before, seg, split_from(v@, '/', e + 1));
        }
        start = e + 1;
    }
    let ghost kept = crate::posix::ranges_text(v@, stack@);
    let mut out = String::new();
    if absolute {
        push_char(&mut out, '/');
    }
    let ghost lead = out@;
    let mut i: usize = 0;
    while i < stack.len()
        invariant
            i <= stack@.len(),
            kept == crate::posix::ranges_text(v@, stack@),
            forall|k: int| 0 <= k < stack@.len() ==> (#[trigger] stack@[k]).0 <= stack@[k].1 && stack@[k].1 <= v@.len(),
            out@ == lead + crate::posix::join_segments(kept.take(i as int)),
        decreases stack@.len() - i,
    {
        let ghost before_sep = out@;
        if i > 0 {
            push_char(&mut out, '/');
        }
        let (a, b) = stack[i];
        assert(kept[i as int] == v@.subrange(a as int, b as int));
        let piece = string_of(&v, a, b);
        push_str(&mut out, piece.as_str());
        proof {
            let t = kept.take(i + 1);
            assert(t.drop_last() =~= kept.take(i as int));
            assert(t.last() == v@.subrange(a as int, b as int));
            assert(out@ =~= lead + crate::posix::join_segments(t));
        }
        i = i + 1;
    }
    assert(kept.take(i as int) =~= kept);
    proof {
        if !absolute {
            assert(lead =~= Seq::<char>::empty());
            assert(out@ =~= crate::posix::join_segments(kept));
        } else {
            assert(lead =~= seq!['/']);
        }
    }
    out
}

/// Make a diagnostic path absolute against `cwd` and collapse its `.` and
/// `..` components: the compiler reports paths relative to its working
/// directory, which may climb out of it.
pub fn resolve_relative(cwd: &str, file: &str) -> (r: String)
    ensures
        r@ == spec_resolve_relative(cwd@, file@),
{
    let joined = join(cwd, file);
    clean_path(joined.as_str())
}

/// The `Option` of a parsed number with a default of 0.
pub open spec fn or_zero(o: Option<u32>) -> u32 {
    match o {
        Some(x) => x,
        None => 0,
    }
}

/// The diagnostic of a line matched by a pattern with a location: groups
/// file, line, column, category, code and message.
pub open spec fn loc_view(c: Seq<Seq<char>>, line: Seq<char>, cwd: Seq<char>) -> DiagnosticView {
    DiagnosticView {
        file: Some(spec_resolve_relative(cwd, c[0])),
        line: spec_parse_u32(c[1]),
        column: spec_parse_u32(c[2]),
        code: or_zero(spec_parse_u32(c[4])),
        category: spec_parse_category(c[3]),
        message: c[5],
        raw_line: Some(line),
    }
}

/// The diagnostic of a line matched by the pattern without a file: groups
/// category, code and message.
pub open spec fn no_file_view(c: Seq<Seq<char>>, line: Seq<char>) -> DiagnosticView {
    DiagnosticView {
        file: None,
        line: None,
        column: None,
        code: or_zero(spec_parse_u32(c[1])),
        category: spec_parse_category(c[0]),
        message: c[2],
        raw_line: Some(line),
    }
}

/// The diagnostic that a line starts, if any: the three shapes are tried in
/// order.
pub open spec fn spec_parse_line(line: Seq<char>, cwd: Seq<char>) -> Option<DiagnosticView> {
    let paren = regex_captures(PAREN_PATTERN@, line);
    let colon = regex_captures(COLON_PATTERN@, line);
    let no_file = regex_captures(NO_FILE_PATTERN@, line);
    if paren is Some && paren->0.len() >= 6 {
        Some(loc_view(paren->0, line, cwd))
    } else if colon is Some && colon->0.len() >= 6 {
        Some(loc_view(colon->0, line, cwd))
    } else if no_file is Some && no_file->0.len() >= 3 {
        Some(no_file_view(no_file->0, line))
    } else {
        None
    }
}

/// The diagnostic of a line that a pattern with a location matched: the
/// groups `c` hold the file, line, column, category, code and message (see
/// [`loc_view`]).
pub fn loc_diagnostic(c: &Vec<String>, line: &str, cwd: &str) -> (r: Diagnostic)
    requires
        c@.len() >= 6,
    ensures
        r@ == loc_view(views(c@), line@, cwd@),
{
    let code = match parse_u32(c[4].as_str()) {
        Some(x) => x,
        None => 0,
    };
    Diagnostic {
        file: Some(resolve_relative(cwd, c[0].as_str())),
        line: parse_u32(c[1].as_str()),
        column: parse_u32(c[2].as_str()),
        code,
        category: parse_category(c[3].as_str()),
        message: c[5].clone(),
        raw_line: Some(line.to_owned()),
    }
}

/// Parse one trimmed line (see [`spec_parse_line`]).
pub fn parse_line(line: &str, cwd: &str) -> (r: Option<Diagnostic>)
    ensures
        match r {
            Some(d) => spec_parse_line(line@, cwd@) == Some(d@),
            None => spec_parse_line(line@, cwd@) is None,
        },
{
    match captures(PAREN_PATTERN, line) {
        Some(c) => if c.len() >= 6 {
            return Some(loc_diagnostic(&c, line, cwd));
        },
        None => {},
    }
    match captures(COLON_PATTERN, line) {
        Some(c) => if c.len() >= 6 {
            return Some(loc_diagnostic(&c, line, cwd));
        },
        None => {},
    }
    match captures(NO_FILE_PATTERN, line) {
        Some(c) => if c.len() >= 3 {
            let code = match parse_u32(c[1].as_str()) {
                Some(x) => x,
                None => 0,
            };
            return Some(
                Diagnostic {
                    file: None,
                    line: None,
                    column: None,
                    code,
                    category: parse_category(c[0].as_str()),
                    message: c[2].clone(),
                    raw_line: Some(line.to_owned()),
                },
            );
        },
        None => {},
    }
    None
}

/// A line without the `\r` of a `\r\n` ending.
pub open spec fn strip_cr(p: Seq<char>) -> Seq<char> {
    if p.len() > 0 && p.last() == '\r' {
        p.drop_last()
    } else {
        p
    }
}

/// The lines of `\n`-separated pieces, as `str::lines` yields them: a
/// piece that a `\n` ends loses a final `\r`, and a last piece is a line
/// only when it is not empty.
pub open spec fn lines_of(pieces: Seq<Seq<char>>) -> Seq<Seq<char>>
    decreases pieces.len(),
{
    if pieces.len() == 0 {
        Seq::empty()
    } else if pieces.len() == 1 {
        if pieces[0].len() == 0 {
            Seq::empty()
        } else {
            seq![pieces[0]]
        }
    } else {
        seq![strip_cr(pieces[0])] + lines_of(pieces.drop_first())
    }
}

/// `s.lines()`.
pub open spec fn spec_lines(s: Seq<char>) -> Seq<Seq<char>> {
    lines_of(split(s, '\n'))
}

/// The lines of a text (see [`spec_lines`]).
pub fn text_lines(s: &str) -> (r: Vec<String>)
    ensures
        views(r@) == spec_lines(s@),
{
    let v = to_chars(s);
    let mut out: Vec<String> = Vec::new();
    let mut start: usize = 0;
    loop
        invariant
            start <= v@.len(),
            v@ == s@,
            spec_lines(s@) == views(out@) + lines_of(split_from(v@, '\n', start as int)),
        decreases v@.len() - start,
    {
        let e = find_sep(&v, '\n', start);
        let ghost piece = v@.subrange(start as int, e as int);
        let ghost before = views(out@);
        if e >= v.len() {
            proof {
                lemma_split_last(v@, '\n', start as int);
            }
            if e > start {
                out.push(string_of(&v, start, e));
                assert(views(out@) =~= before + lines_of(seq![piece]));
            } else {
                assert(lines_of(seq![piece]) =~= Seq::<Seq<char>>::empty());
                assert(views(out@) =~= before + lines_of(seq![piece]));
            }
            return out;
        }
        proof {
            lemma_split_step(v@, '\n', start as int);
            let rest = split_from(v@, '\n', e + 1);
            assert(rest.len() > 0);
            assert((seq![piece] + rest).drop_first() =~= rest);
            assert((seq![piece] + rest)[0] == piece);
        }
        let end = if e > start && v[e - 1] == '\r' {
            e - 1
        } else {
            e
        };
        let line = string_of(&v, start, end);
        proof {
            if e > start && v@[e - 1] == '\r' {
                assert(piece.last() == '\r');
                assert(line@ =~= strip_cr(piece));
            } else {
                assert(line@ =~= strip_cr(piece));
            }
        }
        out.push(line);
        assert(views(out@) + lines_of(split_from(v@, '\n', e + 1)) =~= before + lines_of(
            split_from(v@, '\n', start as int),
        ));
        start = e + 1;
    }
}

/// `s` without trailing whitespace.
pub fn trimmed_end(s: &str) -> (r: String)
    ensures
        r@ == trim_end(s@),
{
    let v = to_chars(s);
    let mut b = v.len();
    while b > 0 && is_ws(v[b - 1])
        invariant
            b <= v@.len(),
            forall|j: int| b <= j < v@.len() ==> spec_is_ws(#[trigger] v@[j]),
        decreases b,
    {
        b = b - 1;
    }
    proof {
        lemma_ws_suffix_exact(v@, v@.len() - b);
    }
    let r = string_of(&v, 0, b);
    assert(r@ =~= trim_end(s@));
    r
}

/// `s` without surrounding whitespace.
fn trimmed(s: &str) -> (r: String)
    ensures
        r@ == trim(s@),
{
    let v = to_chars(s);
    let (a, b) = trim_range(&v, 0, v.len());
    assert(v@.subrange(0, v@.len() as int) =~= v@);
    string_of(&v, a, b)
}

/// The state of the parse: the finished diagnostics and the one whose
/// message may still grow.
pub open spec fn parse_step(
    done: Seq<DiagnosticView>,
    cur: Option<DiagnosticView>,
    raw: Seq<char>,
    cwd: Seq<char>,
) -> (Seq<DiagnosticView>, Option<DiagnosticView>) {
    let line = trim_end(ansi_stripped(raw));
    if line.len() == 0 {
        (done, cur)
    } else {
        match spec_parse_line(line, cwd) {
            Some(d) => (
                match cur {
                    Some(p) => done.push(p),
                    None => done,
                },
                Some(d),
            ),
            None => match cur {
                Some(c) => (
                    done,
                    Some(DiagnosticView { message: c.message + seq!['\n'] + trim(line), ..c }),
                ),
                None => (done, cur),
            },
        }
    }
}

/// The diagnostics of the remaining lines, from a state.
pub open spec fn parse_fold(
    done: Seq<DiagnosticView>,
    cur: Option<DiagnosticView>,
    lines: Seq<Seq<char>>,
    cwd: Seq<char>,
) -> Seq<DiagnosticView>
    decreases lines.len(),
{
    if lines.len() == 0 {
        match cur {
            Some(c) => done.push(c),
            None => done,
        }
    } else {
        let (d2, c2) = parse_step(done, cur, lines[0], cwd);
        parse_fold(d2, c2, lines.drop_first(), cwd)
    }
}

/// The diagnostics of the compiler's stdout and stderr: each line is
/// stripped of ANSI escapes and trailing whitespace; blank lines are
/// skipped; a line of one of the three shapes starts a diagnostic; any
/// other line continues the current message on a new line, trimmed.
pub open spec fn spec_parse_diagnostics(stdout: Seq<char>, stderr: Seq<char>, cwd: Seq<char>) -> Seq<
    DiagnosticView,
> {
    parse_fold(Seq::empty(), None, spec_lines(stdout + seq!['\n'] + stderr), cwd)
}

/// The view of an optional diagnostic.
pub open spec fn opt_view(d: Option<Diagnostic>) -> Option<DiagnosticView> {
    match d {
        Some(x) => Some(x@),
        None => None,
    }
}

/// Parse the combined compiler output into diagnostics (see
/// [`spec_parse_diagnostics`]).
pub fn parse_diagnostics(stdout: &str, stderr: &str, cwd: &str) -> (r: Vec<Diagnostic>)
    ensures
        diag_views(r@) == spec_parse_diagnostics(stdout@, stderr@, cwd@),
{
    let mut combined = stdout.to_owned();
    push_char(&mut combined, '\n');
    push_str(&mut combined, stderr);
    let lines = text_lines(combined.as_str());
    let ghost all = views(lines@);
    let mut done: Vec<Diagnostic> = Vec::new();
    let mut current: Option<Diagnostic> = None;
    let mut i: usize = 0;
    assert(all.skip(0) =~= all);
    assert(diag_views(done@) =~= Seq::<DiagnosticView>::empty());
    while i < lines.len()
        invariant
            i <= lines@.len(),
            all == views(lines@),
            parse_fold(Seq::empty(), None, all, cwd@) == parse_fold(
                diag_views(done@),
                opt_view(current),
                all.skip(i as int),
                cwd@,
            ),
        decreases lines@.len() - i,
    {
        let ghost before_done = diag_views(done@);
        let ghost before_cur = opt_view(current);
        proof {
            assert(all.skip(i as int)[0] == lines@[i as int]@);
            assert(all.skip(i as int).drop_first() =~= all.skip(i + 1));
        }
        let stripped = strip_ansi(lines[i].as_str());
        let line = trimmed_end(stripped.as_str());
        if line.as_str().unicode_len() != 0 {
            match parse_line(line.as_str(), cwd) {
                Some(d) => {
                    match current {
                        Some(p) => {
                            done.push(p);
                            assert(diag_views(done@) =~= before_done.push(before_cur->0));
                        },
                        None => {},
                    }
                    current = Some(d);
                },
                None => {
                    current = match current {
                        Some(c) => {
                            let mut c = c;
                            push_char(&mut c.message, '\n');
                            let t = trimmed(line.as_str());
                            push_str(&mut c.message, t.as_str());
                            assert(c.message@ =~= before_cur->0.message + seq!['\n'] + trim(line@));
                            assert(c@ == DiagnosticView {
                                message: before_cur->0.message + seq!['\n'] + trim(line@),
                                ..before_cur->0
                            });
                            Some(c)
                        },
                        None => None,
                    };
                },
            }
        }
        i = i + 1;
    }
    match current {
        Some(c) => {
            let ghost before_done = diag_views(done@);
            done.push(c);
            assert(diag_views(done@) =~= before_done.push(c@));
        },
        None => {},
    }
    proof {
        assert(all.skip(i as int).len() == 0);
        assert(combined@ == stdout@ + seq!['\n'] + stderr@);
    }
    done
}

} // verus!
