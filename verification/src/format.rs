//! The text and JSON reports of a run.
use vstd::prelude::*;
use crate::diagnostics::{category_name, Diagnostic};
use crate::json::{deep_items, deep_value, keys_of, lemma_deep_items, JVal, JsonMap, JsonValue};
use crate::order::{
    compare_text, lemma_text_lt_irrefl, lemma_text_lt_total, lemma_text_lt_trans, text_lt,
};
use crate::text::{
    decimal, push_char, push_decimal, push_str, seq_starts_with, spec_slashes, str_equal, to_chars,
    views,
};

verus! {

/// What `pathdiff::diff_paths(path, base)` gives, as text (`None` when it
/// finds no relative path).
pub uninterp spec fn diff_paths_text(path: Seq<char>, base: Seq<char>) -> Option<Seq<char>>;

/// `pathdiff::diff_paths` on two paths given as text, its result rendered
/// lossily as text. Claimed: the result is the named
/// [`diff_paths_text`] of the two arguments.
#[verifier::external_body]
fn diff_paths(path: &str, base: &str) -> (r: Option<String>)
    ensures
        match r {
            Some(s) => diff_paths_text(path@, base@) == Some(s@),
            None => diff_paths_text(path@, base@) is None,
        },
{
    pathdiff::diff_paths(std::path::Path::new(path), std::path::Path::new(base)).map(
        |p| p.to_string_lossy().into_owned(),
    )
}

/// How a file is shown: relative to the working directory when the
/// relative path is non-empty and does not climb out of it (`..`), with
/// forward slashes; as it is otherwise.
pub open spec fn spec_relative_display(file: Seq<char>, rel: Option<Seq<char>>) -> Seq<char> {
    match rel {
        Some(r) => {
            let s = spec_slashes(r);
            if s.len() == 0 || seq_starts_with(s, seq!['.', '.']) {
                file
            } else {
                s
            }
        },
        None => file,
    }
}

/// The display form of `file` given its path relative to the working
/// directory (see [`spec_relative_display`]).
pub fn relative_display(file: &str, rel: Option<String>) -> (r: String)
    ensures
        r@ == spec_relative_display(
            file@,
            match rel {
                Some(s) => Some(s@),
                None => None,
            },
        ),
{
    match rel {
        Some(r) => {
            let v = to_chars(r.as_str());
            let s = crate::text::forward_slashes(&v, 0, v.len());
            assert(v@.subrange(0, v@.len() as int) =~= v@);
            let w = to_chars(s.as_str());
            let climbs = w.len() >= 2 && w[0] == '.' && w[1] == '.';
            proof {
                if w@.len() >= 2 {
                    if climbs {
                        assert(w@.take(2) =~= seq!['.', '.']);
                    } else {
                        assert(w@.take(2)[0] == w@[0] && w@.take(2)[1] == w@[1]);
                    }
                }
            }
            if w.len() == 0 || climbs {
                file.to_owned()
            } else {
                s
            }
        },
        None => file.to_owned(),
    }
}

/// `file` as the report shows it, relative to `cwd` where that stays
/// inside it.
pub fn make_relative(file: &str, cwd: &str) -> (r: String)
    ensures
        r@ == spec_relative_display(file@, diff_paths_text(file@, cwd@)),
{
    relative_display(file, diff_paths(file, cwd))
}

/// `TS` and the code.
pub open spec fn ts_code(code: u32) -> Seq<char> {
    seq!['T', 'S'] + decimal(code as nat)
}

/// One report line: `file(line,col): category TScode: message` when the
/// diagnostic has a file, a line and a column, else
/// `category TScode: message`.
pub open spec fn spec_format_line(d: Diagnostic, cwd: Seq<char>) -> Seq<char> {
    let tail = category_name(d.category) + seq![' '] + ts_code(d.code) + seq![':', ' '] + d.message@;
    match (d.file, d.line, d.column) {
        (Some(f), Some(l), Some(c)) => spec_relative_display(f@, diff_paths_text(f@, cwd)) + seq!['(']
            + decimal(l as nat) + seq![','] + decimal(c as nat) + seq![')', ':', ' '] + tail,
        _ => tail,
    }
}

/// Format one diagnostic line (see [`spec_format_line`]).
pub fn format_line(d: &Diagnostic, cwd: &str) -> (r: String)
    ensures
        r@ == spec_format_line(*d, cwd@),
{
    let mut s = String::new();
    match (&d.file, d.line, d.column) {
        (Some(f), Some(l), Some(c)) => {
            s = make_relative(f.as_str(), cwd);
            push_char(&mut s, '(');
            push_decimal(&mut s, l as u64);
            push_char(&mut s, ',');
            push_decimal(&mut s, c as u64);
            push_char(&mut s, ')');
            push_char(&mut s, ':');
            push_char(&mut s, ' ');
        },
        _ => {},
    }
    let ghost head = s@;
    push_str(&mut s, d.category.as_str());
    push_char(&mut s, ' ');
    push_char(&mut s, 'T');
    push_char(&mut s, 'S');
    push_decimal(&mut s, d.code as u64);
    push_char(&mut s, ':');
    push_char(&mut s, ' ');
    push_str(&mut s, d.message.as_str());
    assert(s@ =~= spec_format_line(*d, cwd@));
    s
}

/// The file of a diagnostic as the ordering sees it (none sorts as empty).
pub open spec fn file_text(d: Diagnostic) -> Seq<char> {
    match d.file {
        Some(f) => f@,
        None => Seq::empty(),
    }
}

/// A line or column as the ordering sees it (none sorts as 0).
pub open spec fn num_or_zero(n: Option<u32>) -> int {
    match n {
        Some(x) => x as int,
        None => 0,
    }
}

/// The report order: by file, line, column, code, then message.
pub open spec fn diag_lt(a: Diagnostic, b: Diagnostic) -> bool {
    if file_text(a) != file_text(b) {
        text_lt(file_text(a), file_text(b))
    } else if num_or_zero(a.line) != num_or_zero(b.line) {
        num_or_zero(a.line) < num_or_zero(b.line)
    } else if num_or_zero(a.column) != num_or_zero(b.column) {
        num_or_zero(a.column) < num_or_zero(b.column)
    } else if a.code != b.code {
        a.code < b.code
    } else {
        text_lt(a.message@, b.message@)
    }
}

/// Does `a` come before `b` in the report order?
fn diag_before(a: &Diagnostic, b: &Diagnostic) -> (r: bool)
    ensures
        r == diag_lt(*a, *b),
{
    let af = match &a.file {
        Some(f) => to_chars(f.as_str()),
        None => Vec::new(),
    };
    let bf = match &b.file {
        Some(f) => to_chars(f.as_str()),
        None => Vec::new(),
    };
    assert(af@ == file_text(*a) && bf@ == file_text(*b));
    let c = compare_text(&af, &bf);
    if c != 0 {
        return c < 0;
    }
    let al: u32 = match a.line {
        Some(x) => x,
        None => 0,
    };
    let bl: u32 = match b.line {
        Some(x) => x,
        None => 0,
    };
    if al != bl {
        return al < bl;
    }
    let ac: u32 = match a.column {
        Some(x) => x,
        None => 0,
    };
    let bc: u32 = match b.column {
        Some(x) => x,
        None => 0,
    };
    if ac != bc {
        return ac < bc;
    }
    if a.code != b.code {
        return a.code < b.code;
    }
    let am = to_chars(a.message.as_str());
    let bm = to_chars(b.message.as_str());
    compare_text(&am, &bm) < 0
}

/// `x` inserted into `s` after every element it does not come before: one
/// step of a stable insertion sort.
pub open spec fn insert_sorted(s: Seq<Diagnostic>, x: Diagnostic) -> Seq<Diagnostic>
    decreases s.len(),
{
    if s.len() == 0 {
        seq![x]
    } else if diag_lt(x, s.last()) {
        insert_sorted(s.drop_last(), x).push(s.last())
    } else {
        s.push(x)
    }
}

/// The diagnostics in report order; diagnostics that compare equal keep
/// their order (a stable sort).
pub open spec fn sort_diagnostics(ds: Seq<Diagnostic>) -> Seq<Diagnostic>
    decreases ds.len(),
{
    if ds.len() == 0 {
        Seq::empty()
    } else {
        insert_sorted(sort_diagnostics(ds.drop_last()), ds.last())
    }
}

proof fn lemma_insert_len(s: Seq<Diagnostic>, x: Diagnostic)
    ensures
        insert_sorted(s, x).len() == s.len() + 1,
    decreases s.len(),
{
    if s.len() > 0 {
        lemma_insert_len(s.drop_last(), x);
    }
}

/// Sorting keeps the number of diagnostics.
pub proof fn lemma_sort_len(ds: Seq<Diagnostic>)
    ensures
        sort_diagnostics(ds).len() == ds.len(),
    decreases ds.len(),
{
    if ds.len() > 0 {
        lemma_sort_len(ds.drop_last());
        lemma_insert_len(sort_diagnostics(ds.drop_last()), ds.last());
    }
}

proof fn lemma_insert_tail(s: Seq<Diagnostic>, x: Diagnostic, p: int)
    requires
        0 <= p <= s.len(),
        forall|j: int| p <= j < s.len() ==> diag_lt(x, #[trigger] s[j]),
    ensures
        insert_sorted(s, x) == insert_sorted(s.take(p), x) + s.skip(p),
    decreases s.len() - p,
{
    if p < s.len() {
        lemma_insert_tail(s.drop_last(), x, p);
        assert(s.drop_last().take(p) =~= s.take(p));
        assert(s.drop_last().skip(p).push(s.last()) =~= s.skip(p));
    } else {
        assert(s.take(p) =~= s);
        assert(s.skip(p) =~= Seq::<Diagnostic>::empty());
    }
}

/// Sort diagnostics into report order (see [`sort_diagnostics`]).
pub fn sorted_diagnostics(diagnostics: &[Diagnostic]) -> (r: Vec<Diagnostic>)
    ensures
        r@ == sort_diagnostics(diagnostics@),
{
    let mut out: Vec<Diagnostic> = Vec::new();
    let mut i: usize = 0;
    while i < diagnostics.len()
        invariant
            i <= diagnostics@.len(),
            out@ == sort_diagnostics(diagnostics@.take(i as int)),
        decreases diagnostics@.len() - i,
    {
        let x = &diagnostics[i];
        let mut p = out.len();
        while p > 0 && diag_before(x, &out[p - 1])
            invariant
                p <= out@.len(),
                forall|j: int| p <= j < out@.len() ==> diag_lt(*x, #[trigger] out@[j]),
            decreases p,
        {
            p = p - 1;
        }
        proof {
            lemma_insert_tail(out@, *x, p as int);
            if p > 0 {
                assert(out@.take(p as int).last() == out@[p - 1]);
                assert(out@.take(p as int).drop_last().push(out@.take(p as int).last()) =~= out@.take(p as int));
            } else {
                assert(out@.take(0) =~= Seq::<Diagnostic>::empty());
            }
            assert(diagnostics@.take(i + 1).drop_last() =~= diagnostics@.take(i as int));
            assert(diagnostics@.take(i + 1).last() == diagnostics@[i as int]);
        }
        let ghost before = out@;
        out.insert(p, x.duplicate());
        proof {
            assert(out@ =~= before.take(p as int).push(*x) + before.skip(p as int));
        }
        i = i + 1;
    }
    assert(diagnostics@.take(i as int) =~= diagnostics@);
    out
}

/// The report order never puts a diagnostic before itself.
pub proof fn lemma_diag_lt_irrefl(a: Diagnostic)
    ensures
        !diag_lt(a, a),
{
    lemma_text_lt_irrefl(a.message@);
}

/// The report order is transitive.
pub proof fn lemma_diag_lt_trans(a: Diagnostic, b: Diagnostic, c: Diagnostic)
    requires
        diag_lt(a, b),
        diag_lt(b, c),
    ensures
        diag_lt(a, c),
{
    let (fa, fb, fc) = (file_text(a), file_text(b), file_text(c));
    if fa != fb && fb != fc {
        lemma_text_lt_trans(fa, fb, fc);
        lemma_text_lt_irrefl(fa);
    } else if fa == fb && fb == fc {
        if num_or_zero(a.line) == num_or_zero(b.line) && num_or_zero(b.line) == num_or_zero(c.line)
            && num_or_zero(a.column) == num_or_zero(b.column) && num_or_zero(b.column) == num_or_zero(
            c.column,
        ) && a.code == b.code && b.code == c.code {
            lemma_text_lt_trans(a.message@, b.message@, c.message@);
        }
    } else if fa != fb {
        lemma_text_lt_irrefl(fa);
    } else {
        lemma_text_lt_irrefl(fb);
    }
}

/// Any two diagnostics are ordered one way or the other, or compare equal
/// on everything the order looks at.
pub proof fn lemma_diag_lt_total(a: Diagnostic, b: Diagnostic)
    ensures
        diag_lt(a, b) || diag_lt(b, a) || (file_text(a) == file_text(b) && num_or_zero(a.line)
            == num_or_zero(b.line) && num_or_zero(a.column) == num_or_zero(b.column) && a.code == b.code
            && a.message@ == b.message@),
{
    lemma_text_lt_total(file_text(a), file_text(b));
    lemma_text_lt_total(a.message@, b.message@);
}

/// "Not after" is transitive: if `c` comes before `a`, then `c` comes
/// before `b` or `b` before `a`.
pub proof fn lemma_diag_lt_split(a: Diagnostic, b: Diagnostic, c: Diagnostic)
    requires
        diag_lt(c, a),
    ensures
        diag_lt(c, b) || diag_lt(b, a),
{
    lemma_diag_lt_total(a, b);
    if diag_lt(a, b) {
        lemma_diag_lt_trans(c, a, b);
    }
}

/// No diagnostic of `s` comes after a later one in report order.
pub open spec fn report_sorted(s: Seq<Diagnostic>) -> bool {
    forall|i: int, j: int| 0 <= i < j < s.len() ==> !diag_lt(#[trigger] s[j], #[trigger] s[i])
}

/// Inserting keeps the diagnostics, with one more of `x`.
pub proof fn lemma_insert_multiset(s: Seq<Diagnostic>, x: Diagnostic)
    ensures
        insert_sorted(s, x).to_multiset() == s.to_multiset().insert(x),
    decreases s.len(),
{
    broadcast use vstd::seq_lib::group_to_multiset_ensures;
    broadcast use vstd::multiset::group_multiset_axioms;

    if s.len() > 0 && diag_lt(x, s.last()) {
        lemma_insert_multiset(s.drop_last(), x);
        assert(s.drop_last().push(s.last()) =~= s);
        assert(insert_sorted(s, x).to_multiset() =~= s.to_multiset().insert(x));
    }
}

/// Inserting into a sorted sequence keeps it sorted.
pub proof fn lemma_insert_sorted_sorted(s: Seq<Diagnostic>, x: Diagnostic)
    requires
        report_sorted(s),
    ensures
        report_sorted(insert_sorted(s, x)),
    decreases s.len(),
{
    broadcast use vstd::seq_lib::group_to_multiset_ensures;
    broadcast use vstd::multiset::group_multiset_axioms;

    if s.len() == 0 {
    } else if diag_lt(x, s.last()) {
        let d = s.drop_last();
        let last = s.last();
        assert(report_sorted(d)) by {
            assert forall|i: int, j: int| 0 <= i < j < d.len() implies !diag_lt(#[trigger] d[j], #[trigger] d[i]) by {
                assert(d[i] == s[i] && d[j] == s[j]);
            }
        }
        lemma_insert_sorted_sorted(d, x);
        lemma_insert_multiset(d, x);
        let r = insert_sorted(d, x);
        assert forall|i: int| 0 <= i < r.len() implies !diag_lt(last, #[trigger] r[i]) by {
            let e = r[i];
            assert(r.contains(e));
            assert(r.to_multiset().count(e) > 0);
            if e == x {
                if diag_lt(last, x) {
                    lemma_diag_lt_trans(x, last, x);
                    lemma_diag_lt_irrefl(x);
                }
            } else {
                assert(d.to_multiset().count(e) > 0);
                assert(d.contains(e));
                let k = choose|k: int| 0 <= k < d.len() && d[k] == e;
                assert(s[k] == e && s[s.len() - 1] == last);
            }
        }
        let out = r.push(last);
        assert forall|i: int, j: int| 0 <= i < j < out.len() implies !diag_lt(#[trigger] out[j], #[trigger] out[i]) by {
            if j < r.len() {
                assert(out[i] == r[i] && out[j] == r[j]);
            } else {
                assert(out[j] == last && out[i] == r[i]);
            }
        }
    } else {
        let out = s.push(x);
        let last = s.last();
        assert forall|i: int, j: int| 0 <= i < j < out.len() implies !diag_lt(#[trigger] out[j], #[trigger] out[i]) by {
            if j < s.len() {
                assert(out[i] == s[i] && out[j] == s[j]);
            } else {
                assert(out[j] == x && out[i] == s[i]);
                if i < s.len() - 1 {
                    assert(!diag_lt(s[s.len() - 1], s[i]));
                    if diag_lt(x, s[i]) {
                        lemma_diag_lt_split(s[i], last, x);
                    }
                }
            }
        }
    }
}

/// The report order: the diagnostics sorted, each one kept.
pub proof fn lemma_sort_sorted(ds: Seq<Diagnostic>)
    ensures
        report_sorted(sort_diagnostics(ds)),
        sort_diagnostics(ds).to_multiset() == ds.to_multiset(),
    decreases ds.len(),
{
    broadcast use vstd::seq_lib::group_to_multiset_ensures;

    if ds.len() > 0 {
        lemma_sort_sorted(ds.drop_last());
        lemma_insert_sorted_sorted(sort_diagnostics(ds.drop_last()), ds.last());
        lemma_insert_multiset(sort_diagnostics(ds.drop_last()), ds.last());
        assert(ds.drop_last().push(ds.last()) =~= ds);
    }
}

/// The text report and how many diagnostics it lists.
pub struct TextOutput {
    pub text: String,
    pub total_count: usize,
}

/// Lines joined with `\n`.
pub open spec fn join_lines(lines: Seq<Seq<char>>) -> Seq<char>
    decreases lines.len(),
{
    if lines.len() == 0 {
        Seq::empty()
    } else if lines.len() == 1 {
        lines[0]
    } else {
        join_lines(lines.drop_last()) + seq!['\n'] + lines.last()
    }
}

/// The files that the diagnostics name, each once, in the order they first
/// appear.
pub open spec fn distinct_files(ds: Seq<Diagnostic>) -> Seq<Seq<char>>
    decreases ds.len(),
{
    if ds.len() == 0 {
        Seq::empty()
    } else {
        let rest = distinct_files(ds.drop_last());
        match ds.last().file {
            Some(f) => if rest.contains(f@) {
                rest
            } else {
                rest.push(f@)
            },
            None => rest,
        }
    }
}

proof fn lemma_distinct_files_len(ds: Seq<Diagnostic>)
    ensures
        distinct_files(ds).len() <= ds.len(),
    decreases ds.len(),
{
    if ds.len() > 0 {
        lemma_distinct_files_len(ds.drop_last());
    }
}

/// `Found N error(s) in M file(s).`
pub open spec fn summary_line(n: nat, files: nat) -> Seq<char> {
    "Found "@ + decimal(n) + (if n == 1 {
        " error"@
    } else {
        " errors"@
    }) + " in "@ + decimal(files) + (if files == 1 {
        " file."@
    } else {
        " files."@
    })
}

/// The report: one line per diagnostic in report order, a blank line, then
/// the summary with the number of diagnostics and of distinct files they
/// name; with no diagnostic, the summary alone.
pub open spec fn spec_text_report(ds: Seq<Diagnostic>, cwd: Seq<char>) -> Seq<char> {
    let lines = sort_diagnostics(ds).map_values(|d: Diagnostic| spec_format_line(d, cwd));
    let summary = summary_line(ds.len(), distinct_files(ds).len());
    if ds.len() == 0 {
        summary
    } else {
        join_lines(lines) + seq!['\n', '\n'] + summary
    }
}

/// How many distinct files the diagnostics name (see [`distinct_files`]).
fn count_files(diagnostics: &[Diagnostic]) -> (n: usize)
    ensures
        n == distinct_files(diagnostics@).len(),
{
    let ghost ds = diagnostics@;
    let mut seen: Vec<String> = Vec::new();
    let mut i: usize = 0;
    while i < diagnostics.len()
        invariant
            i <= ds.len(),
            ds == diagnostics@,
            views(seen@) == distinct_files(ds.take(i as int)),
            seen@.len() <= i,
        decreases ds.len() - i,
    {
        proof {
            assert(ds.take(i + 1).drop_last() =~= ds.take(i as int));
            assert(ds.take(i + 1).last() == ds[i as int]);
        }
        match &diagnostics[i].file {
            Some(f) => {
                let mut found = false;
                let mut k: usize = 0;
                while k < seen.len()
                    invariant
                        k <= seen@.len(),
                        found == exists|m: int| 0 <= m < k && #[trigger] seen@[m]@ == f@,
                    decreases seen@.len() - k,
                {
                    if str_equal(seen[k].as_str(), f.as_str()) {
                        found = true;
                    }
                    k = k + 1;
                }
                proof {
                    let sv = views(seen@);
                    if found {
                        let m = choose|m: int| 0 <= m < k && #[trigger] seen@[m]@ == f@;
                        assert(sv[m] == f@);
                    }
                    if sv.contains(f@) {
                        let m = choose|m: int| 0 <= m < sv.len() && sv[m] == f@;
                        assert(seen@[m]@ == f@);
                    }
                }
                if !found {
                    let ghost before = views(seen@);
                    seen.push(f.clone());
                    assert(views(seen@) =~= before.push(f@));
                }
            },
            None => {},
        }
        i = i + 1;
    }
    assert(ds.take(i as int) =~= ds);
    seen.len()
}

/// Render the text report of the diagnostics.
pub fn format_text_output(diagnostics: &[Diagnostic], cwd: &str) -> (r: TextOutput)
    ensures
        r.text@ == spec_text_report(diagnostics@, cwd@),
        r.total_count == diagnostics@.len(),
{
    let sorted = sorted_diagnostics(diagnostics);
    proof {
        lemma_sort_len(diagnostics@);
    }
    let ghost lines = sorted@.map_values(|d: Diagnostic| spec_format_line(d, cwd@));
    let total_count = sorted.len();
    let mut text = String::new();
    let mut i: usize = 0;
    while i < sorted.len()
        invariant
            i <= sorted@.len(),
            lines == sorted@.map_values(|d: Diagnostic| spec_format_line(d, cwd@)),
            text@ == join_lines(lines.take(i as int)),
        decreases sorted@.len() - i,
    {
        if i > 0 {
            push_char(&mut text, '\n');
        }
        let line = format_line(&sorted[i], cwd);
        push_str(&mut text, line.as_str());
        proof {
            let t = lines.take(i + 1);
            assert(t.drop_last() =~= lines.take(i as int));
            assert(t.last() == line@);
            if i == 0 {
                assert(text@ =~= join_lines(t));
            } else {
                assert(text@ =~= join_lines(t));
            }
        }
        i = i + 1;
    }
    assert(lines.take(i as int) =~= lines);
    let files = count_files(diagnostics);
    proof {
        lemma_distinct_files_len(diagnostics@);
    }
    if i > 0 {
        push_char(&mut text, '\n');
        push_char(&mut text, '\n');
    }
    let ghost body = text@;
    push_str(&mut text, "Found ");
    push_decimal(&mut text, total_count as u64);
    if total_count == 1 {
        push_str(&mut text, " error");
    } else {
        push_str(&mut text, " errors");
    }
    push_str(&mut text, " in ");
    push_decimal(&mut text, files as u64);
    if files == 1 {
        push_str(&mut text, " file.");
    } else {
        push_str(&mut text, " files.");
    }
    proof {
        assert(sorted@.len() == diagnostics@.len());
        assert(text@ =~= body + summary_line(diagnostics@.len(), distinct_files(diagnostics@).len()));
        if i == 0 {
            assert(body =~= Seq::<char>::empty());
        } else {
            assert(body =~= join_lines(lines) + seq!['\n', '\n']);
        }
    }
    TextOutput { text, total_count }
}


/// A diagnostic in the JSON report: `file`, `line`, `column` and `rawLine`
/// only when present, then `category`, `code` and `message`.
pub open spec fn diag_out(d: Diagnostic) -> JVal {
    let m0 = Map::<Seq<char>, JVal>::empty();
    let m1 = match d.file {
        Some(f) => m0.insert("file"@, JVal::Str(f@)),
        None => m0,
    };
    let m2 = match d.line {
        Some(l) => m1.insert("line"@, JVal::Number(decimal(l as nat))),
        None => m1,
    };
    let m3 = match d.column {
        Some(c) => m2.insert("column"@, JVal::Number(decimal(c as nat))),
        None => m2,
    };
    let m4 = m3.insert("category"@, JVal::Str(category_name(d.category))).insert(
        "code"@,
        JVal::Number(decimal(d.code as nat)),
    ).insert("message"@, JVal::Str(d.message@));
    JVal::Object(
        match d.raw_line {
            Some(r) => m4.insert("rawLine"@, JVal::Str(r@)),
            None => m4,
        },
    )
}

/// The keys of a diagnostic's JSON object, in order (see [`diag_out`]).
pub open spec fn diag_keys(d: Diagnostic) -> Seq<Seq<char>> {
    let k1 = if d.file is Some {
        seq!["file"@]
    } else {
        Seq::empty()
    };
    let k2 = if d.line is Some {
        seq!["line"@]
    } else {
        Seq::empty()
    };
    let k3 = if d.column is Some {
        seq!["column"@]
    } else {
        Seq::empty()
    };
    let k4 = if d.raw_line is Some {
        seq!["rawLine"@]
    } else {
        Seq::empty()
    };
    k1 + k2 + k3 + seq!["category"@, "code"@, "message"@] + k4
}

/// `v` is an object whose entries have the keys `keys`, in that order.
pub open spec fn object_with_keys(v: JsonValue, keys: Seq<Seq<char>>) -> bool {
    v matches JsonValue::Object(m) && keys_of(m.entries_seq()) == keys
}

/// The `diagnostics` entry of a JSON report lists the shown diagnostics as
/// objects, each with its keys in order (see [`diag_keys`]).
pub open spec fn items_keyed(doc: JsonValue, shown: Seq<Diagnostic>) -> bool {
    match doc {
        JsonValue::Object(m) => m@.dom().contains("diagnostics"@) && match m@["diagnostics"@] {
            JsonValue::Array(items) => items@.len() == shown.len() && forall|j: int|
                0 <= j < items@.len() ==> object_with_keys(#[trigger] items@[j], diag_keys(shown[j])),
            _ => false,
        },
        _ => false,
    }
}

/// The report is cut to `max` diagnostics when a positive `max` is smaller
/// than the total.
pub open spec fn json_truncated(total: nat, max: Option<usize>) -> bool {
    match max {
        Some(n) => n > 0 && total > n,
        None => false,
    }
}

/// The diagnostics the JSON report shows.
pub open spec fn json_displayed(ds: Seq<Diagnostic>, max: Option<usize>) -> Seq<Diagnostic> {
    match max {
        Some(n) => if json_truncated(ds.len(), max) {
            ds.take(n as int)
        } else {
            ds
        },
        None => ds,
    }
}

/// The JSON report: the mode, the total count, the shown diagnostics and
/// whether they were cut.
pub open spec fn spec_json_document(ds: Seq<Diagnostic>, mode: Seq<char>, max: Option<usize>) -> JVal {
    JVal::Object(
        Map::<Seq<char>, JVal>::empty().insert("mode"@, JVal::Str(mode)).insert(
            "errorCount"@,
            JVal::Number(decimal(ds.len())),
        ).insert("diagnostics"@, JVal::Array(json_displayed(ds, max).map_values(|d: Diagnostic| diag_out(d)))).insert(
            "truncated"@,
            JVal::Bool(json_truncated(ds.len(), max)),
        ),
    )
}

/// The JSON report as a document, with its counts. Rendering the document
/// as pretty-printed text is left to the caller.
pub struct JsonFormatted {
    pub document: JsonValue,
    pub displayed_count: usize,
    pub total_count: usize,
    pub truncated: bool,
}

/// Set `key` to `value` in `m`, seen through deep views.
fn put(m: &mut JsonMap, key: &str, value: JsonValue)
    ensures
        final(m).deep() == old(m).deep().insert(key@, deep_value(value)),
        final(m)@ == old(m)@.insert(key@, value),
        !old(m)@.dom().contains(key@) ==> keys_of(final(m).entries_seq()) == keys_of(old(m).entries_seq()).push(
            key@,
        ),
{
    let ghost before = *m;
    m.insert(key.to_owned(), value);
    proof {
        before.lemma_deep_insert(m, key@, value);
        if !before@.dom().contains(key@) {
            assert(keys_of(m.entries_seq()) =~= keys_of(before.entries_seq()).push(key@));
        }
    }
}

/// A number as JSON.
fn number(n: u64) -> (r: JsonValue)
    ensures
        deep_value(r) == JVal::Number(decimal(n as nat)),
{
    let mut s = String::new();
    push_decimal(&mut s, n);
    JsonValue::Number(s)
}

/// One diagnostic as a JSON object (see [`diag_out`]).
fn diag_object(d: &Diagnostic) -> (r: JsonValue)
    ensures
        deep_value(r) == diag_out(*d),
        object_with_keys(r, diag_keys(*d)),
{
    proof {
        reveal_strlit("file");
        reveal_strlit("line");
        reveal_strlit("column");
        reveal_strlit("category");
        reveal_strlit("code");
        reveal_strlit("message");
        reveal_strlit("rawLine");
        assert("file"@.len() == 4 && "file"@[0] == 'f');
        assert("line"@.len() == 4 && "line"@[0] == 'l');
        assert("column"@.len() == 6 && "column"@[0] == 'c');
        assert("category"@.len() == 8 && "category"@[0] == 'c');
        assert("code"@.len() == 4 && "code"@[0] == 'c');
        assert("message"@.len() == 7 && "message"@[0] == 'm');
        assert("rawLine"@.len() == 7 && "rawLine"@[0] == 'r');
    }
    let mut m = JsonMap::new();
    assert(m.deep() =~= Map::<Seq<char>, JVal>::empty());
    assert(keys_of(m.entries_seq()) =~= Seq::<Seq<char>>::empty());
    let ghost k1: Seq<Seq<char>> = if d.file is Some {
        seq!["file"@]
    } else {
        Seq::empty()
    };
    let ghost k2: Seq<Seq<char>> = if d.line is Some {
        seq!["line"@]
    } else {
        Seq::empty()
    };
    let ghost k3: Seq<Seq<char>> = if d.column is Some {
        seq!["column"@]
    } else {
        Seq::empty()
    };
    match &d.file {
        Some(f) => put(&mut m, "file", JsonValue::Str(f.clone())),
        None => {},
    }
    assert(keys_of(m.entries_seq()) =~= k1);
    assert(forall|k: Seq<char>| m@.dom().contains(k) ==> k == "file"@);
    match d.line {
        Some(l) => put(&mut m, "line", number(l as u64)),
        None => {},
    }
    assert(keys_of(m.entries_seq()) =~= k1 + k2);
    assert(forall|k: Seq<char>| m@.dom().contains(k) ==> k == "file"@ || k == "line"@);
    match d.column {
        Some(c) => put(&mut m, "column", number(c as u64)),
        None => {},
    }
    assert(keys_of(m.entries_seq()) =~= k1 + k2 + k3);
    assert(forall|k: Seq<char>| m@.dom().contains(k) ==> k == "file"@ || k == "line"@ || k == "column"@);
    put(&mut m, "category", JsonValue::Str(d.category.as_str().to_owned()));
    put(&mut m, "code", number(d.code as u64));
    put(&mut m, "message", JsonValue::Str(d.message.clone()));
    assert(keys_of(m.entries_seq()) =~= k1 + k2 + k3 + seq!["category"@, "code"@, "message"@]);
    assert(forall|k: Seq<char>|
        m@.dom().contains(k) ==> k == "file"@ || k == "line"@ || k == "column"@ || k == "category"@ || k
            == "code"@ || k == "message"@);
    match &d.raw_line {
        Some(r) => put(&mut m, "rawLine", JsonValue::Str(r.clone())),
        None => {},
    }
    assert(keys_of(m.entries_seq()) =~= diag_keys(*d));
    assert(m.deep() =~= (match diag_out(*d) {
        JVal::Object(o) => o,
        _ => Map::empty(),
    }));
    JsonValue::Object(m)
}

/// Build the JSON report of the diagnostics (see [`spec_json_document`]).
pub fn format_json_output(diagnostics: &[Diagnostic], mode: &str, max_diagnostics: Option<usize>) -> (r:
    JsonFormatted)
    ensures
        deep_value(r.document) == spec_json_document(diagnostics@, mode@, max_diagnostics),
        r.total_count == diagnostics@.len(),
        r.truncated == json_truncated(diagnostics@.len() as nat, max_diagnostics),
        r.displayed_count == json_displayed(diagnostics@, max_diagnostics).len(),
        object_with_keys(r.document, seq!["mode"@, "errorCount"@, "diagnostics"@, "truncated"@]),
        items_keyed(r.document, json_displayed(diagnostics@, max_diagnostics)),
{
    let total_count = diagnostics.len();
    let truncated = match max_diagnostics {
        Some(n) => n > 0 && total_count > n,
        None => false,
    };
    let shown = match max_diagnostics {
        Some(n) => if truncated {
            n
        } else {
            total_count
        },
        None => total_count,
    };
    let ghost displayed = json_displayed(diagnostics@, max_diagnostics);
    assert(displayed =~= diagnostics@.take(shown as int));
    let mut items: Vec<JsonValue> = Vec::new();
    let mut i: usize = 0;
    while i < shown
        invariant
            i <= shown <= diagnostics@.len(),
            displayed == diagnostics@.take(shown as int),
            items@.len() == i,
            forall|j: int| 0 <= j < i ==> deep_value(#[trigger] items@[j]) == diag_out(diagnostics@[j]),
            forall|j: int| 0 <= j < i ==> object_with_keys(#[trigger] items@[j], diag_keys(diagnostics@[j])),
        decreases shown - i,
    {
        items.push(diag_object(&diagnostics[i]));
        i = i + 1;
    }
    proof {
        lemma_deep_items(items@);
        assert(deep_items(items@) =~= displayed.map_values(|d: Diagnostic| diag_out(d)));
    }
    let ghost item_doc = JsonValue::Array(items);
    proof {
        reveal_strlit("mode");
        reveal_strlit("errorCount");
        reveal_strlit("diagnostics");
        reveal_strlit("truncated");
        assert("mode"@.len() == 4 && "errorCount"@.len() == 10);
        assert("diagnostics"@.len() == 11 && "truncated"@.len() == 9);
    }
    let mut m = JsonMap::new();
    assert(m.deep() =~= Map::<Seq<char>, JVal>::empty());
    assert(keys_of(m.entries_seq()) =~= Seq::<Seq<char>>::empty());
    put(&mut m, "mode", JsonValue::Str(mode.to_owned()));
    put(&mut m, "errorCount", number(total_count as u64));
    put(&mut m, "diagnostics", JsonValue::Array(items));
    put(&mut m, "truncated", JsonValue::Bool(truncated));
    assert(keys_of(m.entries_seq()) =~= seq!["mode"@, "errorCount"@, "diagnostics"@, "truncated"@]);
    assert(m.deep() =~= (match spec_json_document(diagnostics@, mode@, max_diagnostics) {
        JVal::Object(o) => o,
        _ => Map::empty(),
    }));
    JsonFormatted { document: JsonValue::Object(m), displayed_count: shown, total_count, truncated }
}

} // verus!
