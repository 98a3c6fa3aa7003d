use tsgo_strict_core::diagnostics::{Category, Diagnostic};
use tsgo_strict_core::discovery::{bin_packages, native_distributions, path_commands};
use tsgo_strict_core::errors::Error;
use tsgo_strict_core::files::{plan_file_source, plan_plugin_walk, resolved_exclude_of, FileSource, ScopePlan};
use tsgo_strict_core::format::format_json_output;
use tsgo_strict_core::json::{JsonMap, JsonValue};
use tsgo_strict_core::pipeline::finish_tsgo_run;
use tsgo_strict_core::spawn::{check_args, list_files_args, reachable_files};
use tsgo_strict_core::subset::{
    anchor_subset_pattern, classify_subset_input, is_glob, keep_dir_walked, keep_pattern_walked,
    merge_subset_files, subset_walk_sets, InputKind, SubsetInput,
};
use tsgo_strict_core::tsconfig::{build_project_context, StrictPluginConfig};

fn strs(items: &[&str]) -> Vec<String> {
    items.iter().map(|s| s.to_string()).collect()
}

#[test]
fn globs_are_recognised_by_their_characters() {
    for g in ["*.ts", "a?b", "[ab]", "{a,b}", "(x)", "!neg"] {
        assert!(is_glob(g), "{g}");
    }
    assert!(!is_glob("src/a.ts"));
}

#[test]
fn inputs_are_sorted_by_what_they_name() {
    assert_eq!(
        classify_subset_input("src/*.ts", "/w", InputKind::File),
        SubsetInput::Pattern("src/*.ts".to_string())
    );
    assert_eq!(
        classify_subset_input("gone.ts", "/w", InputKind::Missing),
        SubsetInput::Pattern("gone.ts".to_string())
    );
    assert_eq!(
        classify_subset_input("src", "/w", InputKind::Directory),
        SubsetInput::Directory("/w/src".to_string())
    );
    assert_eq!(
        classify_subset_input("src/a.tsx", "/w", InputKind::File),
        SubsetInput::File("/w/src/a.tsx".to_string())
    );
    assert_eq!(classify_subset_input("README.md", "/w", InputKind::File), SubsetInput::Skipped);
    assert_eq!(
        classify_subset_input("/abs/b.ts", "/w", InputKind::File),
        SubsetInput::File("/abs/b.ts".to_string())
    );
}

#[test]
fn subset_patterns_anchor_at_the_working_directory() {
    assert_eq!(anchor_subset_pattern("src/**/*.ts", "/w/"), "/w/src/**/*.ts");
    assert_eq!(anchor_subset_pattern("/x/*.ts", "/w"), "/x/*.ts");
    assert_eq!(anchor_subset_pattern("C:/x/*.ts", "/w"), "C:/x/*.ts");
    assert_eq!(anchor_subset_pattern("**/*.ts", "/w"), "/w/**/*.ts");
}

#[test]
fn merged_inputs_keep_ts_files_once_in_order() {
    let got = merge_subset_files(
        strs(&["/w/a.ts", "/w/notes.md"]),
        strs(&["/w/b.ts", "/w//a.ts"]),
        strs(&["/w/./b.ts", "/w/c.mts"]),
    );
    assert_eq!(got, strs(&["/w/a.ts", "/w/b.ts", "/w/c.mts"]));
}

#[test]
fn directory_walks_skip_dependency_and_git_dirs() {
    assert!(keep_dir_walked("/w/src/a.ts"));
    assert!(!keep_dir_walked("/w/node_modules/x/a.ts"));
    assert!(!keep_dir_walked("/w/.git/a.ts"));
    assert!(!keep_dir_walked("/w/src/a.js"));
    assert!(keep_dir_walked("/w/my_node_modules/a.ts"));
}

#[test]
fn pattern_walk_sets_match_and_ignore() {
    let (wanted, ignored) = subset_walk_sets(&strs(&["src/**/*.ts"]), "/w").unwrap();
    assert!(keep_pattern_walked("/w/src/a/b.ts", &wanted, &ignored));
    assert!(!keep_pattern_walked("/w/src/node_modules/b.ts", &wanted, &ignored));
    assert!(!keep_pattern_walked("/w/lib/b.ts", &wanted, &ignored));
    match subset_walk_sets(&strs(&["src/[x"]), "/w") {
        Err(Error::Msg(m)) => assert!(m.starts_with("invalid glob 'src/[x': "), "{m}"),
        _ => panic!("expected an error"),
    }
}

#[test]
fn reachable_query_fails_only_without_output() {
    match reachable_files(3, "  \n", " boom \n") {
        Err(Error::TsgoFailed { exit_code, stderr }) => {
            assert_eq!(exit_code, 3);
            assert_eq!(stderr, "boom");
        }
        _ => panic!("expected a failure"),
    }
    assert_eq!(reachable_files(3, "/p/a.ts\n", "").unwrap(), strs(&["/p/a.ts"]));
    assert_eq!(reachable_files(0, "", "x").unwrap(), Vec::<String>::new());
}

#[test]
fn compiler_arguments_are_exact() {
    assert_eq!(list_files_args("/p/tsconfig.json"), strs(&["--listFilesOnly", "--pretty", "false", "-p", "/p/tsconfig.json"]));
    assert_eq!(check_args("/t/strict.json"), strs(&["--noEmit", "--pretty", "false", "-p", "/t/strict.json"]));
}

#[test]
fn a_finished_run_parses_its_output() {
    let r = finish_tsgo_run(2, "a.ts(1,2): error TS7006: x".to_string(), String::new(), "/p", 5);
    assert_eq!(r.exit_code, 2);
    assert_eq!(r.duration_ms, 5);
    assert_eq!(r.diagnostics.len(), 1);
    assert_eq!(r.diagnostics[0].file.as_deref(), Some("/p/a.ts"));
}

#[test]
fn distributions_and_packages_are_in_preference_order() {
    let d = native_distributions();
    assert_eq!(d[0], ("@typescript/typescript".to_string(), "tsc".to_string()));
    assert_eq!(d[1], ("@typescript/native-preview".to_string(), "tsgo".to_string()));
    assert_eq!(bin_packages(), strs(&["typescript", "@typescript/native-preview", "tsgo"]));
    assert_eq!(path_commands(), strs(&["tsgo", "tsc"]));
}

fn ctx_with_plugin(paths: Option<Vec<String>>) -> tsgo_strict_core::tsconfig::ProjectContext {
    let chain = vec![("/w".to_string(), JsonValue::Object(JsonMap::new()))];
    let mut ctx = build_project_context(
        "/w",
        "tsconfig.json",
        JsonValue::Object(JsonMap::new()),
        &chain,
        "typescript-strict-plugin",
        None,
    );
    ctx.strict_plugin_config = Some(StrictPluginConfig {
        name: "typescript-strict-plugin".to_string(),
        paths,
        exclude_pattern: None,
    });
    ctx
}

#[test]
fn plugin_walk_is_planned_only_for_listed_paths() {
    let ctx = ctx_with_plugin(Some(strs(&["./src/strict", "../shared"])));
    let w = plan_plugin_walk(&ctx).unwrap();
    assert_eq!(w.roots, strs(&["/w/src/strict", "/shared"]));
    assert_eq!(w.exclude_patterns, strs(&["**/node_modules/**", "**/.git/**"]));
    assert_eq!(w.exclude_base, "/w");
    assert!(plan_plugin_walk(&ctx_with_plugin(Some(Vec::new()))).is_none());
    assert!(plan_plugin_walk(&ctx_with_plugin(None)).is_none());
    let (ex, base) = resolved_exclude_of(&ctx);
    assert!(ex.is_empty());
    assert_eq!(base, "/w");
}

fn diag(code: u32) -> Diagnostic {
    Diagnostic {
        file: Some("/p/a.ts".to_string()),
        line: Some(1),
        column: Some(2),
        code,
        category: Category::Error,
        message: "m".to_string(),
        raw_line: None,
    }
}

fn field<'a>(v: &'a JsonValue, k: &str) -> &'a JsonValue {
    match v {
        JsonValue::Object(m) => m.get(k).expect("key"),
        _ => panic!("not an object"),
    }
}

#[test]
fn json_report_counts_and_truncates() {
    let ds = vec![diag(1), diag(2), diag(3)];
    let r = format_json_output(&ds, "exact", Some(2));
    assert_eq!(r.total_count, 3);
    assert_eq!(r.displayed_count, 2);
    assert!(r.truncated);
    assert_eq!(field(&r.document, "mode"), &JsonValue::Str("exact".to_string()));
    assert_eq!(field(&r.document, "errorCount"), &JsonValue::Number("3".to_string()));
    assert_eq!(field(&r.document, "truncated"), &JsonValue::Bool(true));
    match field(&r.document, "diagnostics") {
        JsonValue::Array(items) => {
            assert_eq!(items.len(), 2);
            assert_eq!(field(&items[1], "code"), &JsonValue::Number("2".to_string()));
            assert_eq!(field(&items[0], "category"), &JsonValue::Str("error".to_string()));
            assert_eq!(field(&items[0], "line"), &JsonValue::Number("1".to_string()));
        }
        _ => panic!("not an array"),
    }
    let all = format_json_output(&ds, "fast", Some(0));
    assert!(!all.truncated);
    assert_eq!(all.displayed_count, 3);
    let none = format_json_output(&ds, "fast", None);
    assert_eq!(none.displayed_count, 3);
}

#[test]
fn file_source_is_the_subset_when_one_is_given() {
    let ctx = ctx_with_plugin(Some(strs(&["./src"])));
    match plan_file_source(&ctx, &strs(&["/w/src/a.ts"])) {
        FileSource::Subset { exclude_patterns, exclude_base } => {
            assert!(exclude_patterns.is_empty());
            assert_eq!(exclude_base, "/w");
        }
        _ => panic!("expected the subset"),
    }
    match plan_file_source(&ctx, &[]) {
        FileSource::Project { scope: ScopePlan::Walk { include_base, .. }, plugin_walk: Some(w) } => {
            assert_eq!(include_base, "/w");
            assert_eq!(w.roots, strs(&["/w/src"]));
        }
        _ => panic!("expected a project walk with the plugin's paths"),
    }
}
