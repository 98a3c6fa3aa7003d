use tsgo_strict_core::diagnostics::{Category, Diagnostic};
use tsgo_strict_core::errors::Error;
use tsgo_strict_core::options::{
    build_cli_options, failed_run_result, run_outcome, run_result, timing_report, RunOptions,
};
use tsgo_strict_core::perf::TimerEntry;
use tsgo_strict_core::pipeline::StructuredOutcome;

fn base_options() -> RunOptions {
    RunOptions { project: None, cwd: Some("/tmp/proj".to_string()), subset: None }
}

#[test]
fn defaults_applied_when_options_are_empty() {
    let cli = build_cli_options(base_options(), "/cwd".to_string());
    assert_eq!(cli.project, "tsconfig.json");
    assert_eq!(cli.cwd.as_str(), "/tmp/proj");
    assert!(cli.subset_inputs.is_empty());
}

#[test]
fn subset_inputs_are_forwarded_verbatim() {
    let mut opts = base_options();
    opts.subset = Some(vec!["src/a".into(), "src/b.ts".into()]);
    let cli = build_cli_options(opts, "/cwd".to_string());
    assert_eq!(cli.subset_inputs, vec!["src/a", "src/b.ts"]);
}

#[test]
fn custom_project_is_forwarded() {
    let mut opts = base_options();
    opts.project = Some("packages/app/tsconfig.json".into());
    let cli = build_cli_options(opts, "/cwd".to_string());
    assert_eq!(cli.project, "packages/app/tsconfig.json");
}

// ---- further cases ----

#[test]
fn missing_cwd_falls_back_to_the_process_directory() {
    let opts = RunOptions { project: None, cwd: None, subset: None };
    let cli = build_cli_options(opts, "/work".to_string());
    assert_eq!(cli.cwd, "/work");
}

fn diag(file: &str, line: u32, code: u32) -> Diagnostic {
    Diagnostic {
        file: Some(file.to_string()),
        line: Some(line),
        column: Some(3),
        code,
        category: Category::Error,
        message: "bad".to_string(),
        raw_line: None,
    }
}

#[test]
fn run_result_reports_each_diagnostic() {
    let outcome = StructuredOutcome {
        diagnostics: vec![diag("/p/a.ts", 2, 7006)],
        timings: vec![TimerEntry { label: "tsgo".to_string(), duration_ms: 12 }],
        exit_code: 1,
    };
    let r = run_result(outcome);
    assert_eq!(r.error_count, 1);
    assert_eq!(r.exit_code, 1);
    assert_eq!(r.diagnostics[0].file.as_deref(), Some("/p/a.ts"));
    assert_eq!(r.diagnostics[0].category, "error");
    assert_eq!(r.diagnostics[0].code, 7006);
    assert_eq!(r.timings[0].label, "tsgo");
    assert_eq!(r.timings[0].duration_ms, 12);
}

#[test]
fn run_outcome_prints_the_text_report() {
    let outcome = StructuredOutcome { diagnostics: Vec::new(), timings: Vec::new(), exit_code: 0 };
    let r = run_outcome(&outcome, "/p");
    assert_eq!(r.exit_code, 0);
    assert!(r.stdout.ends_with('\n'));
}

#[test]
fn timing_report_lists_entries_and_total() {
    let t = vec![
        TimerEntry { label: "walk".to_string(), duration_ms: 5 },
        TimerEntry { label: "tsgo".to_string(), duration_ms: 7 },
    ];
    let text = timing_report(&t);
    assert!(text.contains("walk"));
    assert!(text.contains("tsgo"));
    assert!(text.contains("12"));
}

#[test]
fn failed_run_reports_exit_code_two_and_the_error() {
    let e = Error::TsconfigRead { path: "/p/tsconfig.json".to_string(), reason: "not found".to_string() };
    let r = failed_run_result(&e);
    assert_eq!(r.exit_code, 2);
    assert_eq!(r.error_count, 1);
    assert!(r.timings.is_empty());
    assert_eq!(r.diagnostics.len(), 1);
    let d = &r.diagnostics[0];
    assert_eq!(d.file, None);
    assert_eq!(d.line, None);
    assert_eq!(d.column, None);
    assert_eq!(d.code, 0);
    assert_eq!(d.category, "error");
    assert_eq!(d.message, "unable to read tsconfig at /p/tsconfig.json: not found");
}
