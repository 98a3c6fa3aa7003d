use tsgo_strict_core::config::{
    normalize_base_url, resolve_effective_base_url, resolve_effective_compiler_options,
    resolve_effective_type_roots_dir, rewrite_relative_type_roots,
};
use tsgo_strict_core::discovery::{resolve_auto_type_directives, type_root_candidates, TypeRootEntry};
use tsgo_strict_core::json::{JsonMap, JsonValue};
use tsgo_strict_core::tsconfig::{
    build_project_context, parse_tsconfig_text, resolve_inherited_field, resolve_leaf_only_field,
    resolve_plugin_config,
};
use tsgo_strict_core::errors::Error;
use tsgo_strict_core::v6_compat::apply_v6_compat_shims;

fn s(x: &str) -> JsonValue {
    JsonValue::Str(x.to_string())
}

fn b(x: bool) -> JsonValue {
    JsonValue::Bool(x)
}

fn arr(items: &[&str]) -> JsonValue {
    JsonValue::Array(items.iter().map(|x| s(x)).collect())
}

fn map(pairs: Vec<(&str, JsonValue)>) -> JsonMap {
    let mut m = JsonMap::new();
    for (k, v) in pairs {
        m.insert(k.to_string(), v);
    }
    m
}

fn obj(pairs: Vec<(&str, JsonValue)>) -> JsonValue {
    JsonValue::Object(map(pairs))
}

fn chain_entry(dir: &str, value: JsonValue) -> (String, JsonValue) {
    (dir.to_string(), value)
}

fn object_of<'a>(v: &'a JsonValue) -> &'a JsonMap {
    match v {
        JsonValue::Object(m) => m,
        _ => panic!("not an object"),
    }
}

fn array_of<'a>(v: &'a JsonValue) -> &'a Vec<JsonValue> {
    match v {
        JsonValue::Array(a) => a,
        _ => panic!("not an array"),
    }
}

// ---- baseUrl and friends ----

#[test]
fn base_url_dot_at_root_prefixes_paths() {
    let mut co = map(vec![
        ("baseUrl", s(".")),
        ("paths", obj(vec![("@app/*", arr(&["src/app/*"])), ("@lib/*", arr(&["src/lib/*"]))])),
    ]);
    normalize_base_url(&mut co, "/project");
    assert!(!co.contains_key("baseUrl"));
    let paths = object_of(co.get("paths").unwrap());
    assert_eq!(paths.get("@app/*").unwrap(), &arr(&["/project/src/app/*"]));
    assert_eq!(paths.get("@lib/*").unwrap(), &arr(&["/project/src/lib/*"]));
}

#[test]
fn base_url_src_prefixes_paths() {
    let mut co = map(vec![
        ("baseUrl", s("./src")),
        ("paths", obj(vec![("@app/*", arr(&["app/*"])), ("@lib/*", arr(&["lib/*"]))])),
    ]);
    normalize_base_url(&mut co, "/project/src");
    assert!(!co.contains_key("baseUrl"));
    let paths = object_of(co.get("paths").unwrap());
    assert_eq!(paths.get("@app/*").unwrap(), &arr(&["/project/src/app/*"]));
    assert_eq!(paths.get("@lib/*").unwrap(), &arr(&["/project/src/lib/*"]));
}

#[test]
fn relative_paths_resolved_to_absolute() {
    let mut co = map(vec![
        ("baseUrl", s(".")),
        ("paths", obj(vec![("@foo/*", arr(&["./src/foo/*"])), ("@bar/*", arr(&["../shared/bar/*"]))])),
    ]);
    normalize_base_url(&mut co, "/project");
    let paths = object_of(co.get("paths").unwrap());
    assert_eq!(paths.get("@foo/*").unwrap(), &arr(&["/project/./src/foo/*"]));
    assert_eq!(paths.get("@bar/*").unwrap(), &arr(&["/project/../shared/bar/*"]));
}

#[test]
fn wildcard_positions_preserved() {
    let mut co = map(vec![
        ("baseUrl", s(".")),
        ("paths", obj(vec![("*", arr(&["types/*", "fallback/*"]))])),
    ]);
    normalize_base_url(&mut co, "/project");
    let paths = object_of(co.get("paths").unwrap());
    assert_eq!(paths.get("*").unwrap(), &arr(&["/project/types/*", "/project/fallback/*"]));
}

#[test]
fn base_url_without_paths_synthesizes_wildcard() {
    let mut co = map(vec![("baseUrl", s("."))]);
    normalize_base_url(&mut co, "/project");
    assert!(!co.contains_key("baseUrl"));
    let paths = object_of(co.get("paths").unwrap());
    assert_eq!(paths.get("*").unwrap(), &arr(&["/project/*"]));
}

#[test]
fn base_url_src_without_paths_synthesizes_wildcard_with_prefix() {
    let mut co = map(vec![("baseUrl", s("./src"))]);
    normalize_base_url(&mut co, "/project/src");
    assert!(!co.contains_key("baseUrl"));
    let paths = object_of(co.get("paths").unwrap());
    assert_eq!(paths.get("*").unwrap(), &arr(&["/project/src/*"]));
}

#[test]
fn normalize_base_url_leaves_type_roots_untouched() {
    let mut co = map(vec![
        ("baseUrl", s(".")),
        ("typeRoots", arr(&["node_modules/@types", "custom-types"])),
    ]);
    normalize_base_url(&mut co, "/project");
    let roots = array_of(co.get("typeRoots").unwrap());
    assert_eq!(roots[0], s("node_modules/@types"));
    assert_eq!(roots[1], s("custom-types"));
}

#[test]
fn rewrite_relative_type_roots_against_defining_dir() {
    let mut co = map(vec![("typeRoots", arr(&["../../node_modules/@types", "custom-types"]))]);
    rewrite_relative_type_roots(&mut co, "/workspace/libs/testing");
    let roots = array_of(co.get("typeRoots").unwrap());
    assert_eq!(roots[0], s("/workspace/libs/testing/../../node_modules/@types"));
    assert_eq!(roots[1], s("/workspace/libs/testing/custom-types"));
}

#[test]
fn rewrite_relative_type_roots_leaves_absolute_alone() {
    let mut co = map(vec![("typeRoots", arr(&["/abs/types", "./relative"]))]);
    rewrite_relative_type_roots(&mut co, "/anchor");
    let roots = array_of(co.get("typeRoots").unwrap());
    assert_eq!(roots[0], s("/abs/types"));
    assert_eq!(roots[1], s("/anchor/./relative"));
}

#[test]
fn rewrite_relative_type_roots_is_noop_when_unset() {
    let mut co = map(vec![("target", s("ES2022"))]);
    rewrite_relative_type_roots(&mut co, "/anchor");
    assert!(co.get("typeRoots").is_none());
}

#[test]
fn resolve_effective_type_roots_dir_uses_last_defining_config() {
    let chain = vec![
        chain_entry("/workspace", obj(vec![("compilerOptions", obj(vec![("typeRoots", arr(&["node_modules/@types"]))]))])),
        chain_entry(
            "/workspace/libs/testing",
            obj(vec![("compilerOptions", obj(vec![("typeRoots", arr(&["../../node_modules"]))]))]),
        ),
    ];
    let result = resolve_effective_type_roots_dir(&chain);
    assert_eq!(result, Some("/workspace/libs/testing".to_string()));
}

#[test]
fn resolve_effective_type_roots_dir_inherits_when_leaf_omits() {
    let chain = vec![
        chain_entry("/workspace", obj(vec![("compilerOptions", obj(vec![("typeRoots", arr(&["node_modules/@types"]))]))])),
        chain_entry("/workspace/libs/testing", obj(vec![("compilerOptions", obj(vec![]))])),
    ];
    let result = resolve_effective_type_roots_dir(&chain);
    assert_eq!(result, Some("/workspace".to_string()));
}

#[test]
fn resolve_effective_type_roots_dir_none_when_absent() {
    let chain = vec![chain_entry("/workspace", obj(vec![]))];
    assert!(resolve_effective_type_roots_dir(&chain).is_none());
}

#[test]
fn already_absolute_paths_unchanged() {
    let mut co = map(vec![
        ("baseUrl", s(".")),
        ("paths", obj(vec![("@abs/*", arr(&["/absolute/path/*"]))])),
    ]);
    normalize_base_url(&mut co, "/project");
    let paths = object_of(co.get("paths").unwrap());
    assert_eq!(paths.get("@abs/*").unwrap(), &arr(&["/absolute/path/*"]));
}

#[test]
fn resolve_effective_base_url_from_ancestor() {
    let chain = vec![
        chain_entry("/base", obj(vec![("compilerOptions", obj(vec![("baseUrl", s("."))]))])),
        chain_entry("/leaf", obj(vec![])),
    ];
    let result = resolve_effective_base_url(&chain);
    assert_eq!(result, Some("/base/.".to_string()));
}

#[test]
fn resolve_effective_base_url_leaf_overrides() {
    let chain = vec![
        chain_entry("/base", obj(vec![("compilerOptions", obj(vec![("baseUrl", s("."))]))])),
        chain_entry("/leaf", obj(vec![("compilerOptions", obj(vec![("baseUrl", s("./src"))]))])),
    ];
    let result = resolve_effective_base_url(&chain);
    assert_eq!(result, Some("/leaf/./src".to_string()));
}

#[test]
fn resolve_effective_base_url_none_when_absent() {
    let chain = vec![chain_entry("/base", obj(vec![])), chain_entry("/leaf", obj(vec![]))];
    assert!(resolve_effective_base_url(&chain).is_none());
}

#[test]
fn resolve_effective_compiler_options_merges_per_key() {
    let chain = vec![
        chain_entry("/base", obj(vec![("compilerOptions", obj(vec![("target", s("ES2020")), ("strict", b(false))]))])),
        chain_entry("/leaf", obj(vec![("compilerOptions", obj(vec![("strict", b(true)), ("outDir", s("./dist"))]))])),
    ];
    let merged = resolve_effective_compiler_options(&chain);
    assert_eq!(merged.get("target").unwrap(), &s("ES2020"));
    assert_eq!(merged.get("strict").unwrap(), &b(true));
    assert_eq!(merged.get("outDir").unwrap(), &s("./dist"));
}

// ---- inherited fields ----

#[test]
fn inherit_include_from_base_when_leaf_omits() {
    let chain = vec![
        chain_entry("/base", obj(vec![("include", arr(&["src/**/*"]))])),
        chain_entry("/leaf", obj(vec![])),
    ];
    let field = resolve_inherited_field(&chain, "include").unwrap().unwrap();
    assert_eq!(field.patterns, vec!["src/**/*".to_string()]);
    assert_eq!(field.config_dir, "/base");
}

#[test]
fn leaf_include_overrides_base() {
    let chain = vec![
        chain_entry("/base", obj(vec![("include", arr(&["lib/**/*"]))])),
        chain_entry("/leaf", obj(vec![("include", arr(&["src/**/*"]))])),
    ];
    let field = resolve_inherited_field(&chain, "include").unwrap().unwrap();
    assert_eq!(field.patterns, vec!["src/**/*".to_string()]);
    assert_eq!(field.config_dir, "/leaf");
}

#[test]
fn inherit_exclude_from_base_when_leaf_omits() {
    let chain = vec![
        chain_entry("/base", obj(vec![("exclude", arr(&["dist"]))])),
        chain_entry("/leaf", obj(vec![])),
    ];
    let field = resolve_inherited_field(&chain, "exclude").unwrap().unwrap();
    assert_eq!(field.patterns, vec!["dist".to_string()]);
    assert_eq!(field.config_dir, "/base");
}

#[test]
fn no_field_in_chain_returns_none() {
    let chain = vec![chain_entry("/base", obj(vec![])), chain_entry("/leaf", obj(vec![]))];
    assert!(resolve_inherited_field(&chain, "include").unwrap().is_none());
}

#[test]
fn three_level_chain_middle_overrides_root() {
    let chain = vec![
        chain_entry("/root", obj(vec![("include", arr(&["a"]))])),
        chain_entry("/mid", obj(vec![("include", arr(&["b"]))])),
        chain_entry("/leaf", obj(vec![])),
    ];
    let field = resolve_inherited_field(&chain, "include").unwrap().unwrap();
    assert_eq!(field.patterns, vec!["b".to_string()]);
    assert_eq!(field.config_dir, "/mid");
}

#[test]
fn parent_files_empty_does_not_block_leaf_include() {
    let chain = vec![
        chain_entry("/parent", obj(vec![("files", arr(&[]))])),
        chain_entry("/leaf", obj(vec![("include", arr(&["src/**/*.ts"]))])),
    ];
    let resolved = resolve_leaf_only_field(&chain, "files").unwrap();
    assert!(resolved.is_none());
    let inc = resolve_inherited_field(&chain, "include").unwrap().unwrap();
    assert_eq!(inc.patterns, vec!["src/**/*.ts".to_string()]);
}

#[test]
fn leaf_files_still_used_when_leaf_has_include() {
    let chain = vec![
        chain_entry("/parent", obj(vec![("files", arr(&["parent.ts"]))])),
        chain_entry("/leaf", obj(vec![("files", arr(&["leaf.ts"])), ("include", arr(&["src/**/*.ts"]))])),
    ];
    let resolved = resolve_leaf_only_field(&chain, "files").unwrap().unwrap();
    assert_eq!(resolved.patterns, vec!["leaf.ts".to_string()]);
    assert_eq!(resolved.config_dir, "/leaf");
}

#[test]
fn parent_files_inherited_when_leaf_has_no_include() {
    let chain = vec![
        chain_entry("/parent", obj(vec![("files", arr(&["a.ts"]))])),
        chain_entry("/leaf", obj(vec![])),
    ];
    let resolved = resolve_inherited_field(&chain, "files").unwrap().unwrap();
    assert_eq!(resolved.patterns, vec!["a.ts".to_string()]);
    assert_eq!(resolved.config_dir, "/parent");
}

// ---- type roots ----

#[test]
fn returns_none_when_types_explicitly_set() {
    let chain = vec![chain_entry("/project", obj(vec![("compilerOptions", obj(vec![("types", arr(&["node"]))]))]))];
    assert!(resolve_auto_type_directives(&chain, &[]).is_none());
}

#[test]
fn returns_none_when_types_set_in_ancestor() {
    let chain = vec![
        chain_entry("/base", obj(vec![("compilerOptions", obj(vec![("types", arr(&["jest"]))]))])),
        chain_entry("/leaf", obj(vec![])),
    ];
    assert!(resolve_auto_type_directives(&chain, &[]).is_none());
}

#[test]
fn returns_none_when_types_empty_array() {
    let chain = vec![chain_entry("/project", obj(vec![("compilerOptions", obj(vec![("types", arr(&[]))]))]))];
    assert!(resolve_auto_type_directives(&chain, &[]).is_none());
}

#[test]
fn empty_when_no_type_roots_exist() {
    let tmp = tempfile::tempdir().unwrap();
    let root = tmp.path().to_str().unwrap().to_string();
    let chain = vec![chain_entry(&root, obj(vec![]))];
    let candidates = type_root_candidates(&chain, &root);
    let listings: Vec<Vec<TypeRootEntry>> = candidates
        .iter()
        .filter(|c| std::path::Path::new(c.as_str()).is_dir())
        .map(|_| Vec::new())
        .collect();
    let result = resolve_auto_type_directives(&chain, &listings).unwrap();
    assert!(result.is_empty());
}

fn dir(name: &str) -> TypeRootEntry {
    TypeRootEntry { name: name.to_string(), is_dir: true, children: Vec::new() }
}

#[test]
fn type_directives_are_sorted_scoped_and_deduplicated() {
    let chain = vec![chain_entry("/p", obj(vec![]))];
    let scoped = TypeRootEntry {
        name: "@testing-library".to_string(),
        is_dir: true,
        children: vec![("jest-dom".to_string(), true), (".cache".to_string(), true), ("README.md".to_string(), false)],
    };
    let file = TypeRootEntry { name: "index.d.ts".to_string(), is_dir: false, children: Vec::new() };
    let listings = vec![vec![dir("node"), dir(".hidden"), scoped, file], vec![dir("react"), dir("node"), dir("jest")]];
    let result = resolve_auto_type_directives(&chain, &listings).unwrap();
    assert_eq!(result, vec!["@testing-library/jest-dom", "jest", "node", "react"]);
}

#[test]
fn configured_type_roots_resolve_against_defining_config() {
    let chain = vec![
        chain_entry("/root", obj(vec![("compilerOptions", obj(vec![("typeRoots", arr(&["base-types"]))]))])),
        chain_entry("/root/app", obj(vec![("compilerOptions", obj(vec![("typeRoots", arr(&["leaf-types", "/abs/types"]))]))])),
    ];
    assert_eq!(type_root_candidates(&chain, "/root/app"), vec!["/root/app/leaf-types", "/abs/types"]);
}

#[test]
fn default_type_roots_walk_up_from_the_project() {
    let chain = vec![chain_entry("/a/b", obj(vec![]))];
    assert_eq!(
        type_root_candidates(&chain, "/a/b"),
        vec!["/a/b/node_modules/@types", "/a/node_modules/@types", "/node_modules/@types"]
    );
}

// ---- plugin block and project context ----

fn plugin_chain() -> Vec<(String, JsonValue)> {
    vec![
        chain_entry(
            "/repo",
            obj(vec![(
                "compilerOptions",
                obj(vec![(
                    "plugins",
                    JsonValue::Array(vec![obj(vec![
                        ("name", s("typescript-strict-plugin")),
                        ("paths", arr(&["./old"])),
                    ])]),
                )]),
            )]),
        ),
        chain_entry(
            "/repo/app",
            obj(vec![
                ("include", arr(&["src/**/*"])),
                (
                    "compilerOptions",
                    obj(vec![
                        ("baseUrl", s(".")),
                        (
                            "plugins",
                            JsonValue::Array(vec![
                                obj(vec![("name", s("other-plugin"))]),
                                obj(vec![
                                    ("name", s("typescript-strict-plugin")),
                                    ("paths", arr(&["./src/strict"])),
                                    ("excludePattern", s("**/*.test.ts")),
                                ]),
                            ]),
                        ),
                    ]),
                ),
            ]),
        ),
    ]
}

#[test]
fn plugin_config_last_matching_block_wins_and_bare_exclude_string_is_a_list() {
    let cfg = resolve_plugin_config(&plugin_chain(), "typescript-strict-plugin").unwrap();
    assert_eq!(cfg.name, "typescript-strict-plugin");
    assert_eq!(cfg.paths, Some(vec!["./src/strict".to_string()]));
    assert_eq!(cfg.exclude_pattern, Some(vec!["**/*.test.ts".to_string()]));
    assert!(resolve_plugin_config(&plugin_chain(), "missing").is_none());
}

#[test]
fn project_context_gathers_the_chain() {
    let chain = plugin_chain();
    let raw = chain[1].1.duplicate();
    let ctx = build_project_context("/repo/app", "tsconfig.json", raw, &chain, "typescript-strict-plugin", None);
    assert_eq!(ctx.project_path, "/repo/app/tsconfig.json");
    assert_eq!(ctx.config_dir, "/repo/app");
    assert_eq!(ctx.resolved_include.as_ref().unwrap().patterns, vec!["src/**/*".to_string()]);
    assert!(ctx.resolved_exclude.is_none());
    assert!(ctx.resolved_files.is_none());
    assert_eq!(ctx.effective_base_url, Some("/repo/app/.".to_string()));
    assert!(ctx.effective_compiler_options.is_some());
    assert!(ctx.strict_plugin_config.is_some());
}

// ---- v6 compatibility shims ----

fn empty() -> JsonMap {
    JsonMap::new()
}

#[test]
fn ignore_deprecations_injected_when_absent() {
    let mut leaf = empty();
    apply_v6_compat_shims(&mut leaf, &empty());
    assert_eq!(leaf.get("ignoreDeprecations").unwrap(), &s("6.0"));
}

#[test]
fn ignore_deprecations_respects_user_value() {
    let effective = map(vec![("ignoreDeprecations", s("5.5"))]);
    let mut leaf = map(vec![("ignoreDeprecations", s("5.5"))]);
    apply_v6_compat_shims(&mut leaf, &effective);
    assert_eq!(leaf.get("ignoreDeprecations").unwrap(), &s("5.5"));
}

#[test]
fn es_module_interop_false_rewritten_to_true() {
    let effective = map(vec![("esModuleInterop", b(false))]);
    let mut leaf = empty();
    apply_v6_compat_shims(&mut leaf, &effective);
    assert_eq!(leaf.get("esModuleInterop").unwrap(), &b(true));
}

#[test]
fn es_module_interop_true_left_alone() {
    let effective = map(vec![("esModuleInterop", b(true))]);
    let mut leaf = empty();
    apply_v6_compat_shims(&mut leaf, &effective);
    assert!(leaf.get("esModuleInterop").is_none());
}

#[test]
fn es_module_interop_absent_not_injected() {
    let mut leaf = empty();
    apply_v6_compat_shims(&mut leaf, &empty());
    assert!(leaf.get("esModuleInterop").is_none());
}

#[test]
fn allow_synthetic_default_imports_false_rewritten_to_true() {
    let effective = map(vec![("allowSyntheticDefaultImports", b(false))]);
    let mut leaf = empty();
    apply_v6_compat_shims(&mut leaf, &effective);
    assert_eq!(leaf.get("allowSyntheticDefaultImports").unwrap(), &b(true));
}

#[test]
fn allow_synthetic_default_imports_true_left_alone() {
    let effective = map(vec![("allowSyntheticDefaultImports", b(true))]);
    let mut leaf = empty();
    apply_v6_compat_shims(&mut leaf, &effective);
    assert!(leaf.get("allowSyntheticDefaultImports").is_none());
}

#[test]
fn allow_synthetic_default_imports_absent_not_injected() {
    let mut leaf = empty();
    apply_v6_compat_shims(&mut leaf, &empty());
    assert!(leaf.get("allowSyntheticDefaultImports").is_none());
}

#[test]
fn always_strict_false_rewritten_to_true() {
    let effective = map(vec![("alwaysStrict", b(false))]);
    let mut leaf = empty();
    apply_v6_compat_shims(&mut leaf, &effective);
    assert_eq!(leaf.get("alwaysStrict").unwrap(), &b(true));
}

#[test]
fn always_strict_true_left_alone() {
    let effective = map(vec![("alwaysStrict", b(true))]);
    let mut leaf = empty();
    apply_v6_compat_shims(&mut leaf, &effective);
    assert!(leaf.get("alwaysStrict").is_none());
}

#[test]
fn always_strict_absent_not_injected() {
    let mut leaf = empty();
    apply_v6_compat_shims(&mut leaf, &empty());
    assert!(leaf.get("alwaysStrict").is_none());
}

#[test]
fn no_unchecked_side_effect_imports_absent_injected_as_false() {
    let mut leaf = empty();
    apply_v6_compat_shims(&mut leaf, &empty());
    assert_eq!(leaf.get("noUncheckedSideEffectImports").unwrap(), &b(false));
}

#[test]
fn no_unchecked_side_effect_imports_true_preserved() {
    let effective = map(vec![("noUncheckedSideEffectImports", b(true))]);
    let mut leaf = empty();
    apply_v6_compat_shims(&mut leaf, &effective);
    assert!(leaf.get("noUncheckedSideEffectImports").is_none());
}

#[test]
fn no_unchecked_side_effect_imports_false_preserved() {
    let effective = map(vec![("noUncheckedSideEffectImports", b(false))]);
    let mut leaf = empty();
    apply_v6_compat_shims(&mut leaf, &effective);
    assert!(leaf.get("noUncheckedSideEffectImports").is_none());
}

#[test]
fn lib_replacement_absent_injected_as_true() {
    let mut leaf = empty();
    apply_v6_compat_shims(&mut leaf, &empty());
    assert_eq!(leaf.get("libReplacement").unwrap(), &b(true));
}

#[test]
fn lib_replacement_true_preserved() {
    let effective = map(vec![("libReplacement", b(true))]);
    let mut leaf = empty();
    apply_v6_compat_shims(&mut leaf, &effective);
    assert!(leaf.get("libReplacement").is_none());
}

#[test]
fn lib_replacement_false_preserved() {
    let effective = map(vec![("libReplacement", b(false))]);
    let mut leaf = empty();
    apply_v6_compat_shims(&mut leaf, &effective);
    assert!(leaf.get("libReplacement").is_none());
}

#[test]
fn idempotent_when_called_twice() {
    let effective = map(vec![("esModuleInterop", b(false))]);
    let mut once = empty();
    apply_v6_compat_shims(&mut once, &effective);
    let mut twice = once.duplicate();
    apply_v6_compat_shims(&mut twice, &effective);
    assert_eq!(once, twice);
}

#[test]
fn does_not_touch_unrelated_keys() {
    let effective = map(vec![
        ("target", s("ES2020")),
        ("module", s("esnext")),
        ("strict", b(true)),
        ("paths", obj(vec![("@app/*", arr(&["src/app/*"]))])),
    ]);
    let mut leaf = effective.duplicate();
    apply_v6_compat_shims(&mut leaf, &effective);
    assert_eq!(leaf.get("target").unwrap(), &s("ES2020"));
    assert_eq!(leaf.get("module").unwrap(), &s("esnext"));
    assert_eq!(leaf.get("strict").unwrap(), &b(true));
    assert_eq!(leaf.get("paths").unwrap(), &obj(vec![("@app/*", arr(&["src/app/*"]))]));
}

#[test]
fn tsconfig_text_allows_comments_and_trailing_commas() {
    let text = "{\n  // the options\n  \"compilerOptions\": { \"strict\": false, /* inline */ },\n  \"include\": [\"src\",],\n}";
    let v = parse_tsconfig_text("/p/tsconfig.json", text).unwrap();
    let m = match &v {
        JsonValue::Object(m) => m,
        _ => panic!("not an object"),
    };
    match m.get("compilerOptions") {
        Some(JsonValue::Object(co)) => assert_eq!(co.get("strict"), Some(&JsonValue::Bool(false))),
        _ => panic!("no compilerOptions"),
    }
    match m.get("include") {
        Some(JsonValue::Array(a)) => assert_eq!(a, &vec![s("src")]),
        _ => panic!("no include"),
    }
}

#[test]
fn tsconfig_text_empty_is_null() {
    assert_eq!(parse_tsconfig_text("/p/tsconfig.json", "").unwrap(), JsonValue::Null);
    assert_eq!(parse_tsconfig_text("/p/tsconfig.json", "  // nothing\n").unwrap(), JsonValue::Null);
}

#[test]
fn tsconfig_text_numbers_and_nesting() {
    let v = parse_tsconfig_text("t.json", "{\"a\": 3, \"b\": [null, true, \"x\"]}").unwrap();
    match &v {
        JsonValue::Object(m) => {
            assert_eq!(m.get("a"), Some(&JsonValue::Number("3".to_string())));
            match m.get("b") {
                Some(JsonValue::Array(a)) => {
                    assert_eq!(a, &vec![JsonValue::Null, JsonValue::Bool(true), s("x")]);
                }
                _ => panic!("no b"),
            }
        }
        _ => panic!("not an object"),
    }
}

#[test]
fn tsconfig_text_invalid_is_a_parse_error() {
    match parse_tsconfig_text("/p/tsconfig.json", "{ \"a\": ") {
        Err(Error::TsconfigParse { path, message }) => {
            assert_eq!(path, "/p/tsconfig.json");
            assert!(!message.is_empty());
        }
        other => panic!("unexpected {:?}", other),
    }
}
