use tsgo_strict_core::json::{JsonMap, JsonValue};
use tsgo_strict_core::temp_config::build_temp_config;

fn s(x: &str) -> JsonValue {
    JsonValue::Str(x.to_string())
}

fn arr(items: &[&str]) -> JsonValue {
    JsonValue::Array(items.iter().map(|x| s(x)).collect())
}

fn map(pairs: Vec<(&str, JsonValue)>) -> JsonMap {
    let mut m = JsonMap::new();
    for (k, v) in pairs {
        m.insert(k.to_string(), v);
    }
    m
}

fn obj(pairs: Vec<(&str, JsonValue)>) -> JsonValue {
    JsonValue::Object(map(pairs))
}

fn at<'a>(v: &'a JsonMap, k: &str) -> &'a JsonValue {
    v.get(k).unwrap_or_else(|| panic!("missing key {k}"))
}

fn co(root: &JsonMap) -> &JsonMap {
    match at(root, "compilerOptions") {
        JsonValue::Object(m) => m,
        _ => panic!("compilerOptions is not an object"),
    }
}

fn text(v: &JsonValue) -> &str {
    match v {
        JsonValue::Str(t) => t,
        _ => panic!("not a string: {v:?}"),
    }
}

fn items(v: &JsonValue) -> &Vec<JsonValue> {
    match v {
        JsonValue::Array(a) => a,
        _ => panic!("not an array: {v:?}"),
    }
}

fn files() -> Vec<String> {
    vec!["/proj/src/a.ts".to_string(), "/proj/src/b.ts".to_string()]
}

#[test]
fn temp_config_extends_the_project_and_forces_strict() {
    let raw = obj(vec![("compilerOptions", obj(vec![("target", s("ES2020"))]))]);
    let root = build_temp_config("/proj/tsconfig.json", &raw, &files(), None, None, None, None);
    assert_eq!(at(&root, "extends"), &s("/proj/tsconfig.json"));
    let c = co(&root);
    assert_eq!(at(c, "strict"), &JsonValue::Bool(true));
    assert_eq!(at(c, "noEmit"), &JsonValue::Bool(true));
    assert_eq!(at(c, "target"), &s("ES2020"));
    assert_eq!(at(c, "ignoreDeprecations"), &s("6.0"));
    assert_eq!(at(c, "noUncheckedSideEffectImports"), &JsonValue::Bool(false));
    assert_eq!(at(c, "libReplacement"), &JsonValue::Bool(true));
    assert_eq!(at(&root, "files"), &arr(&["/proj/src/a.ts", "/proj/src/b.ts"]));
}

#[test]
fn temp_config_inlines_when_base_url_present() {
    let raw = obj(vec![(
        "compilerOptions",
        obj(vec![
            ("target", s("ES2020")),
            ("baseUrl", s(".")),
            ("paths", obj(vec![("@app/*", arr(&["src/app/*"]))])),
        ]),
    )]);
    let effective = map(vec![
        ("target", s("ES2020")),
        ("baseUrl", s(".")),
        ("paths", obj(vec![("@app/*", arr(&["src/app/*"]))])),
    ]);
    let root = build_temp_config(
        "/proj/tsconfig.json",
        &raw,
        &files(),
        Some("/proj"),
        Some(&effective),
        None,
        None,
    );
    assert!(root.get("extends").is_none(), "no extends when baseUrl is inlined");
    let c = co(&root);
    assert!(c.get("baseUrl").is_none(), "baseUrl should be stripped");
    let app = match at(c, "paths") {
        JsonValue::Object(p) => text(&items(at(p, "@app/*"))[0]).to_string(),
        _ => panic!("paths is not an object"),
    };
    assert_eq!(app, "/proj/src/app/*");
    assert_eq!(at(c, "strict"), &JsonValue::Bool(true));
    assert_eq!(at(c, "noEmit"), &JsonValue::Bool(true));
    assert_eq!(at(c, "ignoreDeprecations"), &s("6.0"));
    assert_eq!(at(c, "noUncheckedSideEffectImports"), &JsonValue::Bool(false));
    assert_eq!(at(c, "libReplacement"), &JsonValue::Bool(true));
}

#[test]
fn temp_config_rewrites_esmoduleinterop_false_from_effective_options() {
    let raw = obj(vec![("compilerOptions", obj(vec![]))]);
    let effective = map(vec![
        ("esModuleInterop", JsonValue::Bool(false)),
        ("allowSyntheticDefaultImports", JsonValue::Bool(false)),
        ("alwaysStrict", JsonValue::Bool(false)),
    ]);
    let root =
        build_temp_config("/proj/tsconfig.json", &raw, &files(), None, Some(&effective), None, None);
    let c = co(&root);
    assert_eq!(at(c, "esModuleInterop"), &JsonValue::Bool(true));
    assert_eq!(at(c, "allowSyntheticDefaultImports"), &JsonValue::Bool(true));
    assert_eq!(at(c, "alwaysStrict"), &JsonValue::Bool(true));
}

#[test]
fn type_roots_anchored_at_defining_config_when_base_url_present() {
    let raw = obj(vec![(
        "compilerOptions",
        obj(vec![
            ("typeRoots", arr(&["../../node_modules/@types", "../../node_modules"])),
            ("types", arr(&["vitest/globals"])),
        ]),
    )]);
    let effective = map(vec![
        ("baseUrl", s(".")),
        ("typeRoots", arr(&["../../node_modules/@types", "../../node_modules"])),
    ]);
    let root = build_temp_config(
        "/ws/libs/testing/tsconfig.lib.json",
        &raw,
        &["/ws/libs/testing/src/a.ts".to_string()],
        Some("/ws"),
        Some(&effective),
        Some("/ws/libs/testing"),
        None,
    );
    let roots = items(at(co(&root), "typeRoots"));
    let first = text(&roots[0]);
    assert!(!first.starts_with("/ws/../../node_modules"), "anchored at baseUrl: {first}");
    assert!(first.starts_with("/ws/libs/testing") || first == "/ws/node_modules/@types", "{first}");
    assert!(first.ends_with("/node_modules/@types"), "{first}");
}

#[test]
fn relative_type_roots_rewritten_to_absolute_in_no_base_url_branch() {
    let raw = obj(vec![(
        "compilerOptions",
        obj(vec![
            ("typeRoots", arr(&["../../node_modules/@types", "../../node_modules"])),
            ("types", arr(&["vitest/globals"])),
        ]),
    )]);
    let root = build_temp_config("/proj/tsconfig.json", &raw, &files(), None, None, None, None);
    let roots = items(at(co(&root), "typeRoots"));
    assert!(text(&roots[0]).starts_with('/'));
    assert!(text(&roots[1]).starts_with('/'));
    assert!(text(&roots[0]).ends_with("/node_modules/@types"));
}

#[test]
fn dot_relative_type_roots_rewritten_to_absolute() {
    let raw = obj(vec![("compilerOptions", obj(vec![("typeRoots", arr(&["./node_modules/@types"]))]))]);
    let root = build_temp_config("/proj/tsconfig.json", &raw, &files(), None, None, None, None);
    let entry = text(&items(at(co(&root), "typeRoots"))[0]).to_string();
    assert!(entry.starts_with('/'), "{entry}");
    assert!(entry.contains("/node_modules/@types"), "{entry}");
}

#[test]
fn absolute_type_roots_left_alone() {
    let raw = obj(vec![("compilerOptions", obj(vec![("typeRoots", arr(&["/abs/types"]))]))]);
    let root = build_temp_config("/proj/tsconfig.json", &raw, &files(), None, None, None, None);
    assert_eq!(text(&items(at(co(&root), "typeRoots"))[0]), "/abs/types");
}

#[test]
fn relative_paths_rewritten_to_absolute_in_no_base_url_branch() {
    let raw = obj(vec![(
        "compilerOptions",
        obj(vec![("paths", obj(vec![("@lib/*", arr(&["./src/lib/*"]))]))]),
    )]);
    let root = build_temp_config("/proj/tsconfig.json", &raw, &files(), None, None, None, None);
    let first = match at(co(&root), "paths") {
        JsonValue::Object(p) => text(&items(at(p, "@lib/*"))[0]).to_string(),
        _ => panic!("paths is not an object"),
    };
    assert!(first.starts_with('/'), "{first}");
    assert!(first.ends_with("/src/lib/*"), "{first}");
}

#[test]
fn auto_type_directives_become_types() {
    let raw = obj(vec![("compilerOptions", obj(vec![]))]);
    let types = vec!["node".to_string(), "jest".to_string()];
    let root =
        build_temp_config("/proj/tsconfig.json", &raw, &files(), None, None, None, Some(&types));
    assert_eq!(at(co(&root), "types"), &arr(&["node", "jest"]));
}

#[test]
fn strict_flags_win_over_the_project() {
    let raw = obj(vec![(
        "compilerOptions",
        obj(vec![("strict", JsonValue::Bool(false)), ("noEmit", JsonValue::Bool(false))]),
    )]);
    let root = build_temp_config("/proj/tsconfig.json", &raw, &[], None, None, None, None);
    assert_eq!(at(co(&root), "strict"), &JsonValue::Bool(true));
    assert_eq!(at(co(&root), "noEmit"), &JsonValue::Bool(true));
    assert_eq!(at(&root, "files"), &JsonValue::Array(Vec::new()));
}
