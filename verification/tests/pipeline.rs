use tsgo_strict_core::diagnostics::{Category, Diagnostic};
use tsgo_strict_core::errors::Error;
use tsgo_strict_core::pipeline::{
    check_tsgo_result, conclude_run, effective_targets, empty_run, filter_to_targets,
    keep_errors, normalize, orphan_filter, select_effective_targets, TsgoRunResult,
};
use tsgo_strict_core::pragma::PragmaHint;
use tsgo_strict_core::sorting::sort_dedup;
use tsgo_strict_core::tsconfig::StrictPluginConfig;

fn mk(file: Option<&str>, code: u32) -> Diagnostic {
    Diagnostic {
        file: file.map(|f| f.to_string()),
        line: Some(1),
        column: Some(1),
        code,
        category: Category::Error,
        message: format!("e{code}"),
        raw_line: None,
    }
}

fn paths(items: &[&str]) -> Vec<String> {
    items.iter().map(|p| p.to_string()).collect()
}

fn absent(items: &[&str]) -> Vec<(String, PragmaHint)> {
    items.iter().map(|p| (p.to_string(), PragmaHint::Absent)).collect()
}

fn cfg_dir() -> String {
    "/proj/libs/core".to_string()
}

#[test]
fn filter_to_targets_drops_paths_outside_the_subset() {
    let targets = paths(&["/p/src/b/bad.ts"]);
    let diagnostics = vec![
        mk(Some("/p/src/a/bad.ts"), 7006),
        mk(Some("/p/src/b/bad.ts"), 7006),
        mk(Some("/p/src/a/other.ts"), 2322),
    ];
    let kept = filter_to_targets(diagnostics, &targets);
    assert_eq!(kept.len(), 1);
    assert_eq!(kept[0].file.as_deref(), Some("/p/src/b/bad.ts"));
}

#[test]
fn filter_to_targets_keeps_fileless_diagnostics() {
    let targets = paths(&["/p/src/b/bad.ts"]);
    let diagnostics = vec![mk(None, 5083)];
    let kept = filter_to_targets(diagnostics, &targets);
    assert_eq!(kept.len(), 1);
}

#[test]
fn filter_to_targets_matches_case_insensitively_and_via_forward_slash() {
    let targets = paths(&["/P/Src/B/Bad.ts"]);
    let diagnostics = vec![mk(Some(r"\p\src\b\bad.ts"), 7006)];
    let kept = filter_to_targets(diagnostics, &targets);
    assert_eq!(kept.len(), 1);
}

#[test]
fn effective_targets_empty_subset_returns_all_strict_candidates() {
    let candidates = paths(&["/p/a.ts", "/p/b.ts"]);
    let subset: Vec<String> = Vec::new();
    let got = effective_targets(&candidates, &subset);
    assert_eq!(got, candidates);
}

#[test]
fn effective_targets_intersects_subset_with_candidates() {
    let candidates = paths(&["/p/a.ts", "/p/b.ts"]);
    let subset = paths(&["/p/b.ts", "/p/c.ts"]);
    let got = effective_targets(&candidates, &subset);
    assert_eq!(got, paths(&["/p/b.ts"]));
}

#[test]
fn select_effective_targets_no_plugin_no_subset_does_not_leak_reachable_only_files() {
    let project_files = absent(&["/proj/libs/core/src/a.ts", "/proj/libs/core/src/b.ts"]);
    let reachable = paths(&[
        "/proj/libs/core/src/a.ts",
        "/proj/libs/core/src/b.ts",
        "/proj/libs/utils/src/other.ts",
    ]);
    let result =
        select_effective_targets(project_files, Some(&reachable), None, &cfg_dir(), &[]).unwrap();
    let mut result_paths = result.clone();
    result_paths.sort();
    assert_eq!(
        result_paths,
        paths(&["/proj/libs/core/src/a.ts", "/proj/libs/core/src/b.ts"]),
        "must scope to project_files, never use reachable as the source set"
    );
}

#[test]
fn select_effective_targets_drops_orphans_not_in_reachable() {
    let project_files = absent(&["/proj/libs/core/src/used.ts", "/proj/libs/core/src/orphan.ts"]);
    let reachable = paths(&["/proj/libs/core/src/used.ts"]);
    let result =
        select_effective_targets(project_files, Some(&reachable), None, &cfg_dir(), &[]).unwrap();
    assert_eq!(result.len(), 1);
    assert_eq!(result[0], "/proj/libs/core/src/used.ts");
}

#[test]
fn select_effective_targets_intersects_case_insensitively() {
    let project_files = absent(&["/Proj/Libs/Core/Src/A.ts"]);
    let reachable = paths(&["/proj/libs/core/src/a.ts"]);
    let result =
        select_effective_targets(project_files, Some(&reachable), None, &cfg_dir(), &[]).unwrap();
    assert_eq!(result.len(), 1, "case-mismatched paths must still match");
    assert_eq!(result[0], "/Proj/Libs/Core/Src/A.ts");
}

#[test]
fn select_effective_targets_with_subset_skips_reachable_filter() {
    let project_files = absent(&["/proj/libs/core/src/a.ts"]);
    let subset = paths(&["/proj/libs/core/src/a.ts"]);
    let empty_reachable: Vec<String> = Vec::new();
    let result = select_effective_targets(
        project_files,
        Some(&empty_reachable),
        None,
        &cfg_dir(),
        &subset,
    )
    .unwrap();
    assert_eq!(result.len(), 1);
}

#[test]
fn select_effective_targets_no_reachable_returns_candidates_verbatim() {
    let project_files = absent(&["/proj/libs/core/src/a.ts"]);
    let result = select_effective_targets(project_files, None, None, &cfg_dir(), &[]).unwrap();
    assert_eq!(result.len(), 1);
}

fn make_run_result(exit_code: i32, diagnostics: Vec<Diagnostic>, stderr: &str) -> TsgoRunResult {
    TsgoRunResult {
        exit_code,
        diagnostics,
        stdout: String::new(),
        stderr: stderr.to_string(),
        duration_ms: 0,
    }
}

#[test]
fn check_tsgo_result_exit_0_is_ok() {
    let r = make_run_result(0, vec![], "");
    assert!(check_tsgo_result(&r).is_ok());
}

#[test]
fn check_tsgo_result_exit_2_with_diagnostics_is_ok() {
    let r = make_run_result(2, vec![mk(Some("/p/a.ts"), 7006)], "");
    assert!(check_tsgo_result(&r).is_ok());
}

#[test]
fn check_tsgo_result_exit_1_is_err() {
    let r = make_run_result(1, vec![], "error TS5090: invalid option\n");
    let err = check_tsgo_result(&r).unwrap_err();
    let msg = err.message();
    assert!(msg.contains("exit code 1"), "got: {msg}");
    assert!(msg.contains("TS5090"), "got: {msg}");
}

#[test]
fn check_tsgo_result_exit_99_is_err() {
    let r = make_run_result(99, vec![], "segfault");
    let err = check_tsgo_result(&r).unwrap_err();
    let msg = err.message();
    assert!(msg.contains("exit code 99"), "got: {msg}");
    assert!(msg.contains("segfault"), "got: {msg}");
}

#[test]
fn check_tsgo_result_exit_2_no_diagnostics_is_err() {
    let r = make_run_result(2, vec![], "config error\n");
    let err = check_tsgo_result(&r).unwrap_err();
    let msg = err.message();
    assert!(msg.contains("exit code 2"), "got: {msg}");
}

#[test]
fn normalize_deduplicates_case_and_separators() {
    let a = "/proj/src/Foo.ts";
    let b = "/proj/src/foo.ts";
    let c = r"\proj\src\foo.ts";
    assert_eq!(normalize(a), normalize(b));
    assert_eq!(normalize(b), normalize(c));
}

// ---- further cases ----

#[test]
fn normalize_gives_exact_text() {
    assert_eq!(normalize(r"C:\Proj\A.TS"), "c:/proj/a.ts");
}

#[test]
fn check_tsgo_result_falls_back_to_stdout_when_stderr_is_blank() {
    let mut r = make_run_result(3, vec![], "   \n");
    r.stdout = "  out text \n".to_string();
    let err = check_tsgo_result(&r).unwrap_err();
    assert_eq!(err, Error::TsgoFailed { exit_code: 3, stderr: "out text".to_string() });
    assert_eq!(err.message(), "tsgo exited with exit code 3: out text");
}

#[test]
fn effective_targets_keeps_candidate_order_and_spelling() {
    let candidates = paths(&["/p/B.ts", "/p/a.ts"]);
    let subset = paths(&["/p/a.ts", r"\P\b.TS"]);
    assert_eq!(effective_targets(&candidates, &subset), paths(&["/p/B.ts", "/p/a.ts"]));
}

#[test]
fn orphan_filter_without_reachable_keeps_everything() {
    let c = paths(&["/p/a.ts", "/p/b.ts"]);
    assert_eq!(orphan_filter(c.clone(), None, &[]), c);
}

#[test]
fn select_effective_targets_honours_pragmas_and_sorts() {
    let files = vec![
        ("/proj/libs/core/src/z.ts".to_string(), PragmaHint::Absent),
        ("/proj/libs/core/src/ignored.ts".to_string(), PragmaHint::Ignore),
        ("/proj/libs/core/src/a.ts".to_string(), PragmaHint::Strict),
        ("/proj/libs/core/src/a.ts".to_string(), PragmaHint::Strict),
    ];
    let r = select_effective_targets(files, None, None, &cfg_dir(), &[]).unwrap();
    assert_eq!(r, paths(&["/proj/libs/core/src/a.ts", "/proj/libs/core/src/z.ts"]));
}

#[test]
fn select_effective_targets_with_plugin_paths_keeps_only_those_dirs() {
    let plugin = StrictPluginConfig {
        name: "typescript-strict-plugin".to_string(),
        paths: Some(paths(&["./src/strict"])),
        exclude_pattern: None,
    };
    let files = absent(&["/proj/libs/core/src/strict/a.ts", "/proj/libs/core/src/loose/b.ts"]);
    let r = select_effective_targets(files, None, Some(&plugin), &cfg_dir(), &[]).unwrap();
    assert_eq!(r, paths(&["/proj/libs/core/src/strict/a.ts"]));
}

#[test]
fn select_effective_targets_invalid_exclude_pattern_is_an_error() {
    let plugin = StrictPluginConfig {
        name: "typescript-strict-plugin".to_string(),
        paths: None,
        exclude_pattern: Some(paths(&["src/[bad"])),
    };
    let files = absent(&["/proj/libs/core/src/a.ts"]);
    assert!(select_effective_targets(files, None, Some(&plugin), &cfg_dir(), &[]).is_err());
}

#[test]
fn keep_errors_drops_warnings_and_messages() {
    let mut w = mk(Some("/p/a.ts"), 1);
    w.category = Category::Warning;
    let mut m = mk(Some("/p/a.ts"), 2);
    m.category = Category::Message;
    let kept = keep_errors(vec![w, mk(Some("/p/a.ts"), 3), m]);
    assert_eq!(kept.len(), 1);
    assert_eq!(kept[0].code, 3);
}

#[test]
fn conclude_run_filters_to_targets_and_sets_exit_code() {
    let r = make_run_result(2, vec![mk(Some("/p/a.ts"), 1), mk(Some("/p/b.ts"), 2)], "");
    let out = conclude_run(r, &paths(&["/p/a.ts"]), Vec::new()).unwrap();
    assert_eq!(out.diagnostics.len(), 1);
    assert_eq!(out.exit_code, 1);
    let clean = conclude_run(make_run_result(0, vec![], ""), &paths(&["/p/a.ts"]), Vec::new())
        .unwrap();
    assert_eq!(clean.exit_code, 0);
    assert!(conclude_run(make_run_result(1, vec![], "boom"), &[], Vec::new()).is_err());
}

#[test]
fn empty_run_has_no_diagnostics_and_exit_zero() {
    let out = empty_run(Vec::new());
    assert!(out.diagnostics.is_empty());
    assert_eq!(out.exit_code, 0);
}

#[test]
fn listing_the_targets_keeps_their_order() {
    let files = absent(&[
        "/proj/libs/core/src/z.ts",
        "/proj/libs/core/src/a/b.ts",
        "/proj/libs/core/src/a-b.ts",
        "/proj/libs/core/src/a.ts",
    ]);
    let targets = select_effective_targets(files, None, None, &cfg_dir(), &[]).unwrap();
    assert_eq!(
        targets,
        paths(&[
            "/proj/libs/core/src/a/b.ts",
            "/proj/libs/core/src/a-b.ts",
            "/proj/libs/core/src/a.ts",
            "/proj/libs/core/src/z.ts",
        ])
    );
    assert_eq!(sort_dedup(targets.clone(), true), targets);
}

#[test]
fn pragmas_beat_the_plugin_paths() {
    let plugin = StrictPluginConfig {
        name: "typescript-strict-plugin".to_string(),
        paths: Some(paths(&["./src/strict"])),
        exclude_pattern: Some(paths(&["**/*.test.ts"])),
    };
    let files = vec![
        ("/proj/libs/core/src/loose/forced.ts".to_string(), PragmaHint::Strict),
        ("/proj/libs/core/src/strict/parked.ts".to_string(), PragmaHint::Ignore),
        ("/proj/libs/core/src/strict/a.test.ts".to_string(), PragmaHint::Absent),
        ("/proj/libs/core/src/strict/kept.ts".to_string(), PragmaHint::Absent),
    ];
    let r = select_effective_targets(files, None, Some(&plugin), &cfg_dir(), &[]).unwrap();
    assert_eq!(
        r,
        paths(&["/proj/libs/core/src/loose/forced.ts", "/proj/libs/core/src/strict/kept.ts"])
    );
}
