use tsgo_strict_core::standalone::{
    abs_path, dedupe_paths, is_simple_glob, diag_key, diff_diagnostics, filter_to_targets, is_ts_file, json_escape,
    normalize, parallel_enabled, parse_args, parse_colon_loc, parse_diagnostics,
    parse_primary_diagnostic, parse_usize, select_diagnostics, sibling_binary, sibling_report,
    simple_glob_match, strip_ansi, temp_config_text, ArgsOutcome, Mode, SiblingDiagnostic,
};

fn args(items: &[&str]) -> Vec<String> {
    items.iter().map(|s| s.to_string()).collect()
}

fn sd(file: Option<&str>, line: usize, code: u32, category: &str, msg: &str) -> SiblingDiagnostic {
    SiblingDiagnostic {
        file: file.map(|f| f.to_string()),
        line: file.map(|_| line),
        column: file.map(|_| 1),
        code,
        category: category.to_string(),
        message: msg.to_string(),
    }
}

#[test]
fn parse_args_defaults_and_flags() {
    match parse_args(&[], "/w").unwrap() {
        ArgsOutcome::Run(a) => {
            assert_eq!(a.project, "tsconfig.json");
            assert_eq!(a.mode, Mode::Exact);
            assert!(a.pretty);
            assert!(!a.trace_performance);
            assert_eq!(a.cwd, "/w");
            assert!(a.subset_inputs.is_empty());
        }
        _ => panic!("expected a run"),
    }
    let a = args(&["-p", "x.json", "--mode", "fast", "--no-pretty", "--cwd", "sub", "a.ts", "--trace-performance"]);
    match parse_args(&a, "/w").unwrap() {
        ArgsOutcome::Run(a) => {
            assert_eq!(a.project, "x.json");
            assert_eq!(a.mode, Mode::Fast);
            assert!(!a.pretty);
            assert!(a.trace_performance);
            assert_eq!(a.cwd, "/w/sub");
            assert_eq!(a.subset_inputs, vec!["a.ts".to_string()]);
        }
        _ => panic!("expected a run"),
    }
}

#[test]
fn parse_args_errors_help_and_version() {
    assert_eq!(parse_args(&args(&["--project"]), "/w").unwrap_err(), "--project requires a value");
    assert_eq!(parse_args(&args(&["--mode"]), "/w").unwrap_err(), "--mode requires a value");
    assert_eq!(parse_args(&args(&["--mode", "slow"]), "/w").unwrap_err(), "--mode must be fast|exact");
    assert_eq!(parse_args(&args(&["--cwd"]), "/w").unwrap_err(), "--cwd requires a value");
    assert!(matches!(parse_args(&args(&["-h"]), "/w").unwrap(), ArgsOutcome::Help));
    assert!(matches!(parse_args(&args(&["--version", "--mode"]), "/w").unwrap(), ArgsOutcome::Version));
}

#[test]
fn text_helpers_match_exactly() {
    assert_eq!(strip_ansi("\u{1b}[31mred\u{1b}[0m plain"), "red plain");
    assert_eq!(json_escape(r#"a\b"c"#), r#"a\\b\"c"#);
    assert_eq!(abs_path("/w", "x/y"), "/w/x/y");
    assert_eq!(abs_path("/w", "/abs"), "/abs");
    assert_eq!(normalize(r"C:\A\B.ts"), "c:/a/b.ts");
    assert!(is_ts_file("/a/b.mts"));
    assert!(!is_ts_file("/a/b.TS"));
    assert_eq!(parse_usize("42"), Some(42));
    assert_eq!(parse_usize(" 42 "), None);
    assert_eq!(parse_usize("x"), None);
    assert_eq!(parse_colon_loc("src/a.ts:3:4"), Some(("src/a.ts".to_string(), 3, 4)));
}

#[test]
fn simple_glob_rules() {
    assert!(simple_glob_match("*", "anything"));
    assert!(simple_glob_match("src/a.ts", "src/a.ts"));
    assert!(!simple_glob_match("src/a.ts", "src/b.ts"));
    assert!(simple_glob_match("src/*.ts", "src/deep/b.ts"));
    assert!(!simple_glob_match("src/*.ts", "lib/b.ts"));
    assert!(simple_glob_match("src/*/x/*", "a/src/b"));
}

#[test]
fn dedupe_keeps_first_spelling() {
    let got = dedupe_paths(args(&["/A/b.ts", "/a/B.ts", r"\a\b.ts", "/c.ts"]));
    assert_eq!(got, args(&["/A/b.ts", "/c.ts"]));
}

#[test]
fn primary_lines_parse_in_both_shapes() {
    let d = parse_primary_diagnostic("src/a.ts(2,5): error TS7006: bad x", "/w").unwrap();
    assert_eq!(d.file.as_deref(), Some("/w/src/a.ts"));
    assert_eq!(d.line, Some(2));
    assert_eq!(d.column, Some(5));
    assert_eq!(d.code, 7006);
    assert_eq!(d.category, "error");
    assert_eq!(d.message, "bad x");
    let c = parse_primary_diagnostic("b.ts:1:2: warning TS1: w", "/w").unwrap();
    assert_eq!(c.category, "warning");
    assert_eq!(c.line, Some(1));
    let f = parse_primary_diagnostic("error TS5083: gone", "/w").unwrap();
    assert_eq!(f.file, None);
    assert!(parse_primary_diagnostic("nothing here", "/w").is_none());
}

#[test]
fn sibling_parse_diff_filter_and_report() {
    let strict = parse_diagnostics("a.ts(1,1): error TS1: one\n  more\nb.ts(2,1): error TS2: two", "", "/w");
    assert_eq!(strict.len(), 2);
    assert_eq!(strict[0].message, "one\nmore");
    let base = vec![sd(Some("/W/A.ts"), 1, 1, "error", "one more")];
    assert_eq!(diag_key(&base[0]), "/w/a.ts|1|1|1|error|one more");
    let only_new = diff_diagnostics(&strict, &base);
    assert_eq!(only_new.len(), 1);
    assert_eq!(only_new[0].code, 2);
    let kept = filter_to_targets(strict.clone(), &args(&["/w/a.ts"]));
    assert_eq!(kept.len(), 1);
    let all = filter_to_targets(strict.clone(), &[]);
    assert_eq!(all.len(), 2);
    let (text, code) = sibling_report(&strict);
    assert_eq!(text, "/w/a.ts(1,1) : error TS1: one\nmore\n/w/b.ts(2,1) : error TS2: two\nFound 2 strict errors.\n");
    assert_eq!(code, 1);
    let (empty, zero) = sibling_report(&[]);
    assert_eq!(empty, "Found 0 strict errors.\n");
    assert_eq!(zero, 0);
    let fast = select_diagnostics(Mode::Fast, strict.clone(), base.clone(), &[]);
    assert_eq!(fast.len(), 2);
    let exact = select_diagnostics(Mode::Exact, strict, base, &[]);
    assert_eq!(exact.len(), 1);
}

#[test]
fn temp_config_text_lists_flags_and_files() {
    let t = temp_config_text("/w/tsconfig.json", &args(&["/w/a.ts"]), true);
    assert!(t.starts_with("{\n  \"extends\": \"/w/tsconfig.json\",\n  \"compilerOptions\": {\n    \"noEmit\": true,\n    \"strict\": true,\n"));
    assert!(t.ends_with("    \"exactOptionalPropertyTypes\": true\n  },\n  \"files\": [\n    \"/w/a.ts\"\n  ]\n}\n"));
    let b = temp_config_text("/w/t.json", &[], false);
    assert!(b.ends_with("    \"exactOptionalPropertyTypes\": false\n  }\n}\n"));
}

#[test]
fn settings_from_the_environment() {
    assert!(parallel_enabled(None));
    assert!(!parallel_enabled(Some("0")));
    assert!(parallel_enabled(Some("1")));
    assert_eq!(sibling_binary(Some(" /x/tsgo "), "/w/node_modules/.bin/tsgo", true), " /x/tsgo ");
    assert_eq!(sibling_binary(Some("  "), "/w/local", true), "/w/local");
    assert_eq!(sibling_binary(None, "/w/local", false), "tsgo");
}

#[test]
fn simple_globs_need_a_star_or_a_question_mark() {
    assert!(is_simple_glob("src/*.ts"));
    assert!(is_simple_glob("a?.ts"));
    assert!(!is_simple_glob("src/[ab].ts"));
}
