use std::path::Path;
use tsgo_strict_core::files::{keep_walked_file, plan_project_scope, with_default_ignores, ScopePlan};
use tsgo_strict_core::globs::{build_glob_set, glob_set_is_match};
use tsgo_strict_core::json::{JsonMap, JsonValue};
use tsgo_strict_core::tsconfig::build_project_context;

#[test]
fn build_glob_set_matches_file_specific_exclude() {
    let base = "/project".to_string();
    let patterns = vec!["src/test-setup.ts".to_string()];
    let set = build_glob_set(&patterns, &base).unwrap().unwrap();
    assert!(set.is_match(Path::new("/project/src/test-setup.ts")), "should match exact file path");
    assert!(!set.is_match(Path::new("/project/src/app.ts")), "should not match other files");
}

#[test]
fn build_glob_set_matches_directory_exclude() {
    let base = "/project".to_string();
    let patterns = vec!["src/legacy".to_string()];
    let set = build_glob_set(&patterns, &base).unwrap().unwrap();
    assert!(
        set.is_match(Path::new("/project/src/legacy/foo.ts")),
        "should match files inside directory"
    );
    assert!(
        set.is_match(Path::new("/project/src/legacy/deep/bar.ts")),
        "should match deeply nested files"
    );
    assert!(
        !set.is_match(Path::new("/project/src/other/foo.ts")),
        "should not match files outside directory"
    );
}

#[test]
fn build_glob_set_normalizes_dot_segments() {
    let base = "/project".to_string();
    let patterns = vec!["./src/index.ts".to_string()];
    let set = build_glob_set(&patterns, &base).unwrap().unwrap();
    assert!(
        set.is_match(Path::new("/project/src/index.ts")),
        "should match real path after collapsing ./ in pattern"
    );
}

#[test]
fn build_glob_set_normalizes_dot_segments_in_wildcards() {
    let base = "/project".to_string();
    let patterns = vec!["./src/**/*.ts".to_string()];
    let set = build_glob_set(&patterns, &base).unwrap().unwrap();
    assert!(set.is_match(Path::new("/project/src/foo.ts")));
    assert!(set.is_match(Path::new("/project/src/deep/bar.ts")));
}

#[test]
fn build_glob_set_wildcard_patterns_work() {
    let base = "/project".to_string();
    let patterns = vec!["src/**/*.spec.ts".to_string()];
    let set = build_glob_set(&patterns, &base).unwrap().unwrap();
    assert!(set.is_match(Path::new("/project/src/app.spec.ts")));
    assert!(set.is_match(Path::new("/project/src/deep/foo.spec.ts")));
    assert!(!set.is_match(Path::new("/project/src/app.ts")));
}

#[test]
fn build_glob_set_mixed_patterns() {
    let base = "/project".to_string();
    let patterns = vec!["src/**/*.spec.ts".to_string(), "src/test-setup.ts".to_string()];
    let set = build_glob_set(&patterns, &base).unwrap().unwrap();
    assert!(set.is_match(Path::new("/project/src/app.spec.ts")), "should match glob pattern");
    assert!(set.is_match(Path::new("/project/src/test-setup.ts")), "should match literal file");
    assert!(!set.is_match(Path::new("/project/src/app.ts")), "should not match unrelated files");
}

#[test]
fn build_glob_set_empty_returns_none() {
    let base = "/project".to_string();
    let patterns: Vec<String> = vec![];
    assert!(build_glob_set(&patterns, &base).unwrap().is_none());
}

// ---- further cases ----

#[test]
fn build_glob_set_anchors_absolute_patterns_as_given() {
    let patterns = vec!["/elsewhere/**/*.ts".to_string()];
    let set = build_glob_set(&patterns, "/project").unwrap().unwrap();
    assert!(glob_set_is_match(&set, "/elsewhere/a/b.ts"));
    assert!(!glob_set_is_match(&set, "/project/elsewhere/a/b.ts"));
}

#[test]
fn build_glob_set_collapses_parent_segments() {
    let patterns = vec!["../shared/src/**/*.ts".to_string()];
    let set = build_glob_set(&patterns, "/repo/app").unwrap().unwrap();
    assert!(glob_set_is_match(&set, "/repo/shared/src/x.ts"));
    assert!(!glob_set_is_match(&set, "/repo/app/src/x.ts"));
}

#[test]
fn build_glob_set_rejects_invalid_pattern() {
    let patterns = vec!["src/[oops".to_string()];
    assert!(build_glob_set(&patterns, "/project").is_err());
}

#[test]
fn walked_files_are_ts_included_and_not_excluded() {
    let inclusion = build_glob_set(&["src/**/*".to_string()], "/p").unwrap();
    let exclude = build_glob_set(&["src/gen".to_string()], "/p").unwrap();
    assert!(keep_walked_file("/p/src/a.ts", inclusion.as_ref(), exclude.as_ref()));
    assert!(keep_walked_file("/p/src/b.MTS", inclusion.as_ref(), exclude.as_ref()));
    assert!(!keep_walked_file("/p/src/a.js", inclusion.as_ref(), exclude.as_ref()));
    assert!(!keep_walked_file("/p/src/gen/x.ts", inclusion.as_ref(), exclude.as_ref()));
    assert!(!keep_walked_file("/p/other/x.ts", inclusion.as_ref(), exclude.as_ref()));
}

#[test]
fn default_ignores_are_appended() {
    let got = with_default_ignores(&["dist".to_string()]);
    assert_eq!(
        got,
        vec!["dist".to_string(), "**/node_modules/**".to_string(), "**/.git/**".to_string()]
    );
}

#[test]
fn scope_plan_without_files_or_include_walks_the_config_dir() {
    let raw = JsonValue::Object(JsonMap::new());
    let chain = vec![("/p".to_string(), JsonValue::Object(JsonMap::new()))];
    let ctx = build_project_context("/p", "tsconfig.json", raw, &chain, "typescript-strict-plugin", None);
    match plan_project_scope(&ctx) {
        ScopePlan::Walk { include_patterns, include_base, exclude_patterns, exclude_base } => {
            assert!(include_patterns.is_empty());
            assert_eq!(include_base, "/p");
            assert_eq!(exclude_patterns.len(), 2);
            assert_eq!(exclude_base, "/p");
        }
        _ => panic!("expected a walk"),
    }
}
