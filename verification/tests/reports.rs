use tsgo_strict_core::diagnostics::{Category, Diagnostic};
use tsgo_strict_core::diff::{diff_diagnostics, flatten_message, normalize_key, normalize_path};
use tsgo_strict_core::errors::Error;
use tsgo_strict_core::format::{format_json_output, format_line, format_text_output, make_relative, sorted_diagnostics};
use tsgo_strict_core::json::JsonValue;
use tsgo_strict_core::parse::{
    clean_path, loc_diagnostic, parse_category, parse_diagnostics, parse_line, parse_u32, resolve_relative,
};
use tsgo_strict_core::posix::{is_absolute_posix, path_to_posix, posix_resolve};
use tsgo_strict_core::sorting::sort_dedup;

fn diag(file: Option<&str>, line: u32, col: u32, code: u32, msg: &str) -> Diagnostic {
    Diagnostic {
        file: file.map(|f| f.to_string()),
        line: file.map(|_| line),
        column: file.map(|_| col),
        code,
        category: Category::Error,
        message: msg.to_string(),
        raw_line: None,
    }
}

#[test]
fn parse_line_reads_the_paren_form() {
    let d = parse_line("src/a.ts(3,7): error TS7006: Parameter 'x' implicitly has an 'any' type.", "/p").unwrap();
    assert_eq!(d.file.as_deref(), Some("/p/src/a.ts"));
    assert_eq!(d.line, Some(3));
    assert_eq!(d.column, Some(7));
    assert_eq!(d.code, 7006);
    assert_eq!(d.category, Category::Error);
    assert_eq!(d.message, "Parameter 'x' implicitly has an 'any' type.");
}

#[test]
fn parse_line_reads_the_colon_form_and_the_fileless_form() {
    let d = parse_line("../lib/b.ts:10:2 - warning TS6133: unused", "/p/app").unwrap();
    assert_eq!(d.file.as_deref(), Some("/p/lib/b.ts"));
    assert_eq!(d.category, Category::Warning);
    assert_eq!(d.code, 6133);
    let f = parse_line("error TS5083: Cannot read file.", "/p").unwrap();
    assert_eq!(f.file, None);
    assert_eq!(f.code, 5083);
    assert!(parse_line("just some text", "/p").is_none());
}

#[test]
fn parse_diagnostics_joins_continuation_lines() {
    let out = "src/a.ts(1,1): error TS2322: Type 'A'\n  is not assignable to 'B'.\n\n";
    let ds = parse_diagnostics(out, "error TS5083: gone\n", "/p");
    assert_eq!(ds.len(), 2);
    assert_eq!(ds[0].message, "Type 'A'\nis not assignable to 'B'.");
    assert_eq!(ds[1].code, 5083);
}

#[test]
fn parse_diagnostics_strips_ansi_colors() {
    let out = "\u{1b}[96msrc/a.ts\u{1b}[0m(2,4): error TS7006: bad";
    let ds = parse_diagnostics(out, "", "/p");
    assert_eq!(ds.len(), 1);
    assert_eq!(ds[0].file.as_deref(), Some("/p/src/a.ts"));
}

#[test]
fn numbers_and_categories_parse_exactly() {
    assert_eq!(parse_u32("4294967295"), Some(u32::MAX));
    assert_eq!(parse_u32("4294967296"), None);
    assert_eq!(parse_u32(""), None);
    assert_eq!(parse_u32("12a"), None);
    assert_eq!(parse_category("warning"), Category::Warning);
    assert_eq!(parse_category("error"), Category::Error);
    assert_eq!(parse_category("other"), Category::Message);
}

#[test]
fn paths_resolve_against_the_working_directory() {
    assert_eq!(resolve_relative("/p/app", "../x/./y.ts"), "/p/x/y.ts");
    assert_eq!(resolve_relative("/p", "/abs/z.ts"), "/abs/z.ts");
    assert_eq!(clean_path("a/./b/../c"), "a/c");
    assert_eq!(posix_resolve("/a/b/../../.."), "/");
    assert_eq!(posix_resolve("a/../.."), "..");
    assert_eq!(posix_resolve("./"), ".");
    assert!(is_absolute_posix("C:/x"));
    assert!(!is_absolute_posix("x/y"));
    assert_eq!(path_to_posix(r"a\b\c"), "a/b/c");
}

#[test]
fn format_line_is_relative_to_cwd() {
    let d = diag(Some("/p/src/a.ts"), 3, 7, 7006, "bad");
    assert_eq!(format_line(&d, "/p"), "src/a.ts(3,7): error TS7006: bad");
    let outside = diag(Some("/q/b.ts"), 1, 1, 1, "m");
    assert_eq!(format_line(&outside, "/p"), "/q/b.ts(1,1): error TS1: m");
    let fileless = diag(None, 0, 0, 5083, "cfg");
    assert_eq!(format_line(&fileless, "/p"), "error TS5083: cfg");
    assert_eq!(make_relative("/p/x/y.ts", "/p"), "x/y.ts");
}

#[test]
fn text_report_is_sorted_with_a_summary() {
    let ds = vec![
        diag(Some("/p/b.ts"), 1, 1, 1, "b"),
        diag(Some("/p/a.ts"), 9, 1, 1, "a9"),
        diag(Some("/p/a.ts"), 2, 1, 1, "a2"),
    ];
    let out = format_text_output(&ds, "/p");
    assert_eq!(out.total_count, 3);
    assert_eq!(
        out.text,
        "a.ts(2,1): error TS1: a2\na.ts(9,1): error TS1: a9\nb.ts(1,1): error TS1: b\n\nFound 3 errors in 2 files."
    );
    let one = format_text_output(&ds[..1], "/p");
    assert!(one.text.ends_with("\n\nFound 1 error in 1 file."));
    let none = format_text_output(&[], "/p");
    assert_eq!(none.text, "Found 0 errors in 0 files.");
}

#[test]
fn sorting_is_stable_and_total() {
    let ds = vec![diag(None, 0, 0, 2, "x"), diag(Some("/a"), 1, 1, 1, "y")];
    let s = sorted_diagnostics(&ds);
    assert_eq!(s[0].code, 2);
    assert_eq!(s[1].code, 1);
}

#[test]
fn sort_dedup_orders_and_removes_duplicates() {
    let v = vec!["b".to_string(), "a".to_string(), "b".to_string()];
    assert_eq!(sort_dedup(v, false), vec!["a".to_string(), "b".to_string()]);
    let p = vec!["/a/b".to_string(), "/a-b".to_string(), "/a/b".to_string()];
    assert_eq!(sort_dedup(p, true), vec!["/a/b".to_string(), "/a-b".to_string()]);
}

#[test]
fn diff_keeps_only_new_diagnostics() {
    let strict = vec![
        diag(Some("/p/a.ts"), 1, 1, 7006, "Parameter\n  'x'"),
        diag(Some("/p/b.ts"), 1, 1, 2322, "new"),
    ];
    let baseline = vec![diag(Some(r"\P\A.ts"), 1, 1, 7006, "Parameter 'x'")];
    let d = diff_diagnostics(strict, &baseline);
    assert_eq!(d.len(), 1);
    assert_eq!(d[0].code, 2322);
    assert_eq!(flatten_message("a\n   b\tc"), "a b c");
    assert_eq!(normalize_path(r"C:\X\Y.ts"), "c:/x/y.ts");
    assert!(normalize_key(&strict_one()).contains("7006"));
}

fn strict_one() -> Diagnostic {
    diag(Some("/p/a.ts"), 1, 1, 7006, "m")
}

#[test]
fn each_error_variant_has_its_text() {
    assert_eq!(
        Error::TsconfigRead { path: "/t.json".into(), reason: "nope".into() }.message(),
        "unable to read tsconfig at /t.json: nope"
    );
    assert_eq!(
        Error::TsconfigParse { path: "/t.json".into(), message: "bad".into() }.message(),
        "unable to parse tsconfig at /t.json: bad"
    );
    assert_eq!(
        Error::ExtendsNotFound { target: "base".into(), from: "/t.json".into() }.message(),
        "cannot find extends target 'base' referenced from /t.json"
    );
    assert!(Error::TsgoNotFound.message().starts_with("unable to locate the TypeScript compiler"));
    assert_eq!(
        Error::TsgoFailed { exit_code: -1, stderr: "x".into() }.message(),
        "tsgo exited with exit code -1: x"
    );
    assert_eq!(Error::TsgoSpawn("denied".into()).message(), "tsgo invocation failed: denied");
    assert_eq!(Error::msg("plain").message(), "plain");
}

#[test]
fn a_run_diffed_with_itself_reports_nothing() {
    let ds = vec![diag(Some("/p/a.ts"), 1, 1, 1, "x"), diag(None, 0, 0, 2, "y")];
    assert!(diff_diagnostics(ds.clone(), &ds).is_empty());
}

#[test]
fn normalizing_twice_is_normalizing_once() {
    for p in [r"C:\A\b.TS", "/x/Y", ""] {
        let once = normalize_path(p);
        assert_eq!(normalize_path(&once), once);
    }
}

#[test]
fn text_report_matches_the_cli_reference() {
    let ds = vec![
        diag(Some("/p/src/b.ts"), 3, 10, 2322, "m2"),
        diag(Some("/p/src/a.ts"), 12, 5, 2345, "m1"),
    ];
    let out = format_text_output(&ds, "/p");
    assert_eq!(
        out.text,
        "src/a.ts(12,5): error TS2345: m1\nsrc/b.ts(3,10): error TS2322: m2\n\nFound 2 errors in 2 files."
    );
    let fileless = vec![diag(None, 0, 0, 5083, "cfg")];
    assert_eq!(format_text_output(&fileless, "/p").text, "error TS5083: cfg\n\nFound 1 error in 0 files.");
}

#[test]
fn loc_diagnostic_builds_from_captured_groups() {
    let groups: Vec<String> =
        vec!["src/a.ts", "3", "7", "warning", "2322", "Type mismatch"].into_iter().map(String::from).collect();
    let line = "src/a.ts(3,7): warning TS2322: Type mismatch";
    let d = loc_diagnostic(&groups, line, "/p");
    assert_eq!(d.file.as_deref(), Some("/p/src/a.ts"));
    assert_eq!(d.line, Some(3));
    assert_eq!(d.column, Some(7));
    assert_eq!(d.code, 2322);
    assert_eq!(d.category, Category::Warning);
    assert_eq!(d.message, "Type mismatch");
    assert_eq!(d.raw_line.as_deref(), Some(line));
}

#[test]
fn loc_diagnostic_unreadable_numbers() {
    let groups: Vec<String> = vec!["b.ts", "x", "", "error", "99999999999", "m"].into_iter().map(String::from).collect();
    let d = loc_diagnostic(&groups, "raw", "/p/app");
    assert_eq!(d.file.as_deref(), Some("/p/app/b.ts"));
    assert_eq!(d.line, None);
    assert_eq!(d.column, None);
    assert_eq!(d.code, 0);
}

fn keys(v: &JsonValue) -> Vec<String> {
    match v {
        JsonValue::Object(m) => (0..m.len()).map(|i| m.entry(i).0.clone()).collect(),
        _ => panic!("not an object"),
    }
}

#[test]
fn json_report_keeps_its_key_order() {
    let mut with_raw = diag(Some("/p/src/a.ts"), 12, 5, 2345, "m1");
    with_raw.raw_line = Some("raw".to_string());
    let ds = vec![with_raw, diag(None, 0, 0, 5083, "cfg"), diag(Some("/p/src/b.ts"), 3, 10, 2322, "m2")];
    let r = format_json_output(&ds, "strict", Some(2));
    assert_eq!(r.total_count, 3);
    assert_eq!(r.displayed_count, 2);
    assert!(r.truncated);
    assert_eq!(keys(&r.document), vec!["mode", "errorCount", "diagnostics", "truncated"]);
    let items = match &r.document {
        JsonValue::Object(m) => match m.get("diagnostics") {
            Some(JsonValue::Array(a)) => a,
            _ => panic!("no diagnostics array"),
        },
        _ => panic!("not an object"),
    };
    assert_eq!(items.len(), 2);
    assert_eq!(keys(&items[0]), vec!["file", "line", "column", "category", "code", "message", "rawLine"]);
    assert_eq!(keys(&items[1]), vec!["category", "code", "message"]);
}

#[test]
fn json_report_without_limit_is_not_truncated() {
    let ds = vec![diag(Some("/p/a.ts"), 1, 1, 1, "x")];
    let r = format_json_output(&ds, "all", None);
    assert_eq!(r.displayed_count, 1);
    assert!(!r.truncated);
    match &r.document {
        JsonValue::Object(m) => {
            assert_eq!(m.get("mode"), Some(&JsonValue::Str("all".to_string())));
            assert_eq!(m.get("errorCount"), Some(&JsonValue::Number("1".to_string())));
            assert_eq!(m.get("truncated"), Some(&JsonValue::Bool(false)));
        }
        _ => panic!("not an object"),
    }
}

#[test]
fn flatten_message_is_idempotent() {
    for m in ["  a\n   b\tc  ", "", "x", " \n\t ", "one  two\r\nthree"] {
        let once = flatten_message(m);
        assert_eq!(flatten_message(&once), once);
    }
}
