//! The options of a run, and the structured result that programmatic
//! consumers receive.
use vstd::prelude::*;
use crate::diagnostics::{category_name, Category, Diagnostic};
use crate::errors::{error_text, Error};
use crate::format::spec_text_report;
use crate::perf::TimerEntry;
use crate::pipeline::{RunOutcome, StructuredOutcome};
use crate::text::{push_char, push_decimal_wide, push_str, views};

verus! {

/// What the command line asks for.
#[derive(Debug)]
pub struct CliOptions {
    pub project: String,
    pub cwd: String,
    pub subset_inputs: Vec<String>,
    pub list_files: bool,
    pub timing: bool,
}

/// Options of a programmatic run; absent fields take their defaults.
#[derive(Debug)]
pub struct RunOptions {
    /// Path to the project tsconfig, absolute or relative to `cwd`.
    pub project: Option<String>,
    /// Working directory for binary and tsconfig resolution.
    pub cwd: Option<String>,
    /// File or directory inputs to restrict the check to.
    pub subset: Option<Vec<String>>,
}

/// Turn programmatic options into run options: `tsconfig.json` by
/// default, the process's working directory when none is given, no subset
/// by default.
pub fn build_cli_options(opts: RunOptions, process_cwd: String) -> (r: CliOptions)
    ensures
        r.project@ == match opts.project {
            Some(p) => p@,
            None => "tsconfig.json"@,
        },
        r.cwd@ == match opts.cwd {
            Some(c) => c@,
            None => process_cwd@,
        },
        r.subset_inputs@ == match opts.subset {
            Some(s) => s@,
            None => Seq::<String>::empty(),
        },
        !r.list_files,
        !r.timing,
{
    let cwd = match opts.cwd {
        Some(p) => p,
        None => process_cwd,
    };
    let project = match opts.project {
        Some(p) => p,
        None => "tsconfig.json".to_owned(),
    };
    let subset_inputs = match opts.subset {
        Some(s) => s,
        None => Vec::new(),
    };
    CliOptions { project, cwd, subset_inputs, list_files: false, timing: false }
}

/// One reported diagnostic of a programmatic run.
#[derive(Debug)]
pub struct RunDiagnostic {
    pub file: Option<String>,
    pub line: Option<u32>,
    pub column: Option<u32>,
    pub code: u32,
    pub category: String,
    pub message: String,
}

/// One phase timing of a programmatic run.
#[derive(Debug)]
pub struct RunTiming {
    pub label: String,
    pub duration_ms: u32,
}

/// The result of a programmatic run.
#[derive(Debug)]
pub struct RunResult {
    pub error_count: u32,
    pub exit_code: i32,
    pub diagnostics: Vec<RunDiagnostic>,
    pub timings: Vec<RunTiming>,
}

/// A count clamped to `u32`.
pub open spec fn clamp_u32(n: int) -> u32 {
    if n > u32::MAX {
        u32::MAX
    } else {
        n as u32
    }
}

/// `d` is reported as `rd`.
pub open spec fn reported_as(d: Diagnostic, rd: RunDiagnostic) -> bool {
    &&& rd.file == d.file
    &&& rd.line == d.line
    &&& rd.column == d.column
    &&& rd.code == d.code
    &&& rd.category@ == category_name(d.category)
    &&& rd.message@ == d.message@
}

/// The structured outcome as a programmatic result: every diagnostic with
/// its category named, the timings with milliseconds clamped to `u32`, the
/// error count clamped to `u32`, the exit code as it is.
pub fn run_result(outcome: StructuredOutcome) -> (r: RunResult)
    ensures
        r.error_count == clamp_u32(outcome.diagnostics@.len() as int),
        r.exit_code == outcome.exit_code,
        r.diagnostics@.len() == outcome.diagnostics@.len(),
        forall|i: int| 0 <= i < r.diagnostics@.len() ==> reported_as(#[trigger] outcome.diagnostics@[i], r.diagnostics@[i]),
        r.timings@.len() == outcome.timings@.len(),
        forall|i: int|
            #![trigger r.timings@[i]]
            0 <= i < r.timings@.len() ==> r.timings@[i].label@ == outcome.timings@[i].label@
                && r.timings@[i].duration_ms == clamp_u32(outcome.timings@[i].duration_ms as int),
{
    let total = outcome.diagnostics.len();
    let mut diagnostics: Vec<RunDiagnostic> = Vec::new();
    let mut i: usize = 0;
    while i < outcome.diagnostics.len()
        invariant
            i <= outcome.diagnostics@.len(),
            diagnostics@.len() == i,
            forall|k: int| 0 <= k < i ==> reported_as(#[trigger] outcome.diagnostics@[k], diagnostics@[k]),
        decreases outcome.diagnostics@.len() - i,
    {
        let d = &outcome.diagnostics[i];
        let category = d.category.as_str().to_owned();
        let rd = RunDiagnostic {
            file: crate::diagnostics::clone_opt_string(&d.file),
            line: d.line,
            column: d.column,
            code: d.code,
            category,
            message: d.message.clone(),
        };
        assert(reported_as(*d, rd));
        let ghost before = diagnostics@;
        diagnostics.push(rd);
        assert forall|k: int| 0 <= k < i + 1 implies reported_as(#[trigger] outcome.diagnostics@[k], diagnostics@[k]) by {
            if k < i {
                assert(diagnostics@[k] == before[k]);
            }
        }
        i = i + 1;
    }
    let mut timings: Vec<RunTiming> = Vec::new();
    let mut j: usize = 0;
    while j < outcome.timings.len()
        invariant
            j <= outcome.timings@.len(),
            timings@.len() == j,
            forall|k: int|
                #![trigger timings@[k]]
                0 <= k < j ==> timings@[k].label@ == outcome.timings@[k].label@
                    && timings@[k].duration_ms == clamp_u32(outcome.timings@[k].duration_ms as int),
        decreases outcome.timings@.len() - j,
    {
        let t = &outcome.timings[j];
        let ms: u32 = if t.duration_ms > 4294967295 {
            4294967295
        } else {
            t.duration_ms as u32
        };
        let rt = RunTiming { label: t.label.clone(), duration_ms: ms };
        assert(rt.label@ == t.label@ && rt.duration_ms == clamp_u32(t.duration_ms as int));
        let ghost before = timings@;
        timings.push(rt);
        assert forall|k: int|
            #![trigger timings@[k]]
            0 <= k < j + 1 implies timings@[k].label@ == outcome.timings@[k].label@
            && timings@[k].duration_ms == clamp_u32(outcome.timings@[k].duration_ms as int) by {
            if k < j {
                assert(timings@[k] == before[k]);
            }
        }
        j = j + 1;
    }
    let error_count: u32 = if total > 4294967295 {
        4294967295
    } else {
        total as u32
    };
    RunResult { error_count, exit_code: outcome.exit_code, diagnostics, timings }
}

/// A programmatic run that failed, as a result rather than an error: exit
/// code 2, one fileless error diagnostic (code 0) carrying the error's
/// text, and no timings.
pub fn failed_run_result(e: &Error) -> (r: RunResult)
    ensures
        r.exit_code == 2,
        r.error_count == 1,
        r.timings@.len() == 0,
        r.diagnostics@.len() == 1,
        r.diagnostics@[0].file is None,
        r.diagnostics@[0].line is None,
        r.diagnostics@[0].column is None,
        r.diagnostics@[0].code == 0,
        r.diagnostics@[0].category@ == category_name(Category::Error),
        r.diagnostics@[0].message@ == error_text(*e),
{
    let d = RunDiagnostic {
        file: None,
        line: None,
        column: None,
        code: 0,
        category: Category::Error.as_str().to_owned(),
        message: e.message(),
    };
    RunResult { error_count: 1, exit_code: 2, diagnostics: vec![d], timings: Vec::new() }
}

/// The text output of a run: the report followed by a line break, and the
/// run's exit code.
pub fn run_outcome(outcome: &StructuredOutcome, cwd: &str) -> (r: RunOutcome)
    ensures
        r.stdout@ == spec_text_report(outcome.diagnostics@, cwd@) + seq!['\n'],
        r.exit_code == outcome.exit_code,
{
    let body = crate::format::format_text_output(outcome.diagnostics.as_slice(), cwd);
    let mut stdout = body.text;
    push_char(&mut stdout, '\n');
    RunOutcome { stdout, exit_code: outcome.exit_code }
}

/// `s` padded with spaces on the right to at least `width` characters.
pub open spec fn pad_right(s: Seq<char>, width: nat) -> Seq<char> {
    if s.len() >= width {
        s
    } else {
        s + Seq::new((width - s.len()) as nat, |i: int| ' ')
    }
}

/// The total of the timings.
pub open spec fn total_ms(ts: Seq<TimerEntry>) -> nat
    decreases ts.len(),
{
    if ts.len() == 0 {
        0
    } else {
        total_ms(ts.drop_last()) + ts.last().duration_ms as nat
    }
}

/// Lines `  <label:>ms`, the label and colon padded to 17 columns.
pub open spec fn timing_rows(ts: Seq<TimerEntry>) -> Seq<char>
    decreases ts.len(),
{
    if ts.len() == 0 {
        Seq::empty()
    } else {
        timing_rows(ts.drop_last()) + "  "@ + pad_right(ts.last().label@ + seq![':'], 17)
            + crate::text::decimal(ts.last().duration_ms as nat) + "ms\n"@
    }
}

/// The timing breakdown printed to stderr: a blank line, a heading, one
/// padded row per phase, and the total.
pub open spec fn spec_timing_report(ts: Seq<TimerEntry>) -> Seq<char> {
    "\nTimings:\n"@ + timing_rows(ts) + "  "@ + pad_right("total:"@, 17) + crate::text::decimal(
        total_ms(ts),
    ) + "ms\n"@
}

/// Append `s` padded to `width` characters.
fn push_padded(out: &mut String, s: &str, width: usize)
    ensures
        final(out)@ == old(out)@ + pad_right(s@, width as nat),
{
    push_str(out, s);
    let n = s.unicode_len();
    let ghost base = old(out)@ + s@;
    let mut k = n;
    while k < width
        invariant
            n == s@.len(),
            n <= k <= width || (n > width && k == n),
            out@ == base + Seq::new((k - n) as nat, |i: int| ' '),
        decreases width - k,
    {
        push_char(out, ' ');
        k = k + 1;
        assert(out@ =~= base + Seq::new((k - n) as nat, |i: int| ' '));
    }
    proof {
        if n >= width {
            assert(Seq::new(0nat, |i: int| ' ') =~= Seq::<char>::empty());
            assert(out@ =~= old(out)@ + s@);
        } else {
            assert(out@ =~= old(out)@ + pad_right(s@, width as nat));
        }
    }
}

/// Render the timing breakdown (see [`spec_timing_report`]).
pub fn timing_report(timings: &[TimerEntry]) -> (r: String)
    requires
        total_ms(timings@) <= u128::MAX,
    ensures
        r@ == spec_timing_report(timings@),
{
    let mut s = "\nTimings:\n".to_owned();
    let ghost head = s@;
    let mut total: u128 = 0;
    let mut i: usize = 0;
    while i < timings.len()
        invariant
            i <= timings@.len(),
            total_ms(timings@) <= u128::MAX,
            total == total_ms(timings@.take(i as int)),
            s@ == head + timing_rows(timings@.take(i as int)),
        decreases timings@.len() - i,
    {
        proof {
            assert(timings@.take(i + 1).drop_last() =~= timings@.take(i as int));
            assert(timings@.take(i + 1).last() == timings@[i as int]);
            lemma_total_prefix(timings@, i + 1);
        }
        let t = &timings[i];
        let mut label = t.label.clone();
        push_char(&mut label, ':');
        push_str(&mut s, "  ");
        push_padded(&mut s, label.as_str(), 17);
        push_decimal_wide(&mut s, t.duration_ms);
        push_str(&mut s, "ms\n");
        total = total + t.duration_ms;
        assert(s@ =~= head + timing_rows(timings@.take(i + 1)));
        i = i + 1;
    }
    assert(timings@.take(i as int) =~= timings@);
    push_str(&mut s, "  ");
    push_padded(&mut s, "total:", 17);
    push_decimal_wide(&mut s, total);
    push_str(&mut s, "ms\n");
    s
}

/// A prefix of the timings does not take longer than all of them.
proof fn lemma_total_prefix(ts: Seq<TimerEntry>, n: int)
    requires
        0 <= n <= ts.len(),
    ensures
        total_ms(ts.take(n)) <= total_ms(ts),
    decreases ts.len() - n,
{
    if n < ts.len() {
        lemma_total_prefix(ts.drop_last(), n);
        assert(ts.drop_last().take(n) =~= ts.take(n));
    } else {
        assert(ts.take(n) =~= ts);
    }
}

} // verus!
