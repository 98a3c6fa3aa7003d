use tsgo_strict_core::discovery::{
    binary_override, binary_probes, ProbeKind, exe_file_name, extract_bin, package_dirs, platform_binary_candidates,
    platform_suffix,
};
use tsgo_strict_core::json::{JsonMap, JsonValue};

fn s(x: &str) -> JsonValue {
    JsonValue::Str(x.to_string())
}

fn obj(pairs: Vec<(&str, JsonValue)>) -> JsonValue {
    let mut m = JsonMap::new();
    for (k, v) in pairs {
        m.insert(k.to_string(), v);
    }
    JsonValue::Object(m)
}

#[test]
fn extract_bin_handles_string_object_and_fallback() {
    let st = obj(vec![("bin", s("bin/tsgo.js"))]);
    assert_eq!(extract_bin(&st), Some("bin/tsgo.js".to_string()));

    let o = obj(vec![("bin", obj(vec![("tsgo", s("bin/tsgo.js")), ("other", s("x"))]))]);
    assert_eq!(extract_bin(&o), Some("bin/tsgo.js".to_string()));

    let tsc = obj(vec![("bin", obj(vec![("tsc", s("bin/tsc")), ("other", s("x"))]))]);
    assert_eq!(extract_bin(&tsc), Some("bin/tsc".to_string()));

    let other = obj(vec![("bin", obj(vec![("only", s("bin/only.js"))]))]);
    assert_eq!(extract_bin(&other), Some("bin/only.js".to_string()));

    let none = obj(vec![("name", s("fake"))]);
    assert_eq!(extract_bin(&none), None);
}

// ---- further cases ----

#[test]
fn extract_bin_fallback_takes_the_least_key() {
    let m = obj(vec![("bin", obj(vec![("zeta", s("z.js")), ("alpha", s("a.js"))]))]);
    assert_eq!(extract_bin(&m), Some("a.js".to_string()));
    let not_text = obj(vec![("bin", JsonValue::Bool(true))]);
    assert_eq!(extract_bin(&not_text), None);
}

#[test]
fn platform_suffix_names_shipped_targets() {
    assert_eq!(platform_suffix("linux", "x86_64"), Some("linux-x64".to_string()));
    assert_eq!(platform_suffix("macos", "aarch64"), Some("darwin-arm64".to_string()));
    assert_eq!(platform_suffix("windows", "x86_64"), Some("win32-x64".to_string()));
    assert_eq!(platform_suffix("freebsd", "x86_64"), None);
    assert_eq!(platform_suffix("linux", "riscv64"), None);
}

#[test]
fn exe_file_name_appends_exe_on_windows() {
    assert_eq!(exe_file_name("tsgo", true), "tsgo.exe");
    assert_eq!(exe_file_name("tsgo", false), "tsgo");
}

#[test]
fn binary_candidates_walk_up_nearest_first() {
    let c = platform_binary_candidates("/a/b", "@typescript/native-preview", "linux-x64", "tsgo");
    assert_eq!(
        c,
        vec![
            "/a/b/node_modules/@typescript/native-preview-linux-x64/lib/tsgo".to_string(),
            "/a/node_modules/@typescript/native-preview-linux-x64/lib/tsgo".to_string(),
            "/node_modules/@typescript/native-preview-linux-x64/lib/tsgo".to_string(),
        ]
    );
    let d = package_dirs("/a", "tsgo");
    assert_eq!(d, vec!["/a/node_modules/tsgo".to_string(), "/node_modules/tsgo".to_string()]);
}

#[test]
fn binary_override_ignores_blank_values() {
    assert_eq!(binary_override("  /opt/tsgo \n"), Some("/opt/tsgo".to_string()));
    assert_eq!(binary_override("   "), None);
    assert_eq!(binary_override(""), None);
}

#[test]
fn binary_probes_follow_the_documented_order() {
    let probes = binary_probes("/a", Some(" /x/tsgo "), "linux", "x86_64");
    let seen: Vec<(ProbeKind, String)> = probes.into_iter().map(|p| (p.kind, p.target)).collect();
    assert_eq!(
        seen,
        vec![
            (ProbeKind::Override, "/x/tsgo".to_string()),
            (ProbeKind::NativeBinary, "/a/node_modules/@typescript/typescript-linux-x64/lib/tsc".to_string()),
            (ProbeKind::NativeBinary, "/node_modules/@typescript/typescript-linux-x64/lib/tsc".to_string()),
            (ProbeKind::NativeBinary, "/a/node_modules/@typescript/native-preview-linux-x64/lib/tsgo".to_string()),
            (ProbeKind::NativeBinary, "/node_modules/@typescript/native-preview-linux-x64/lib/tsgo".to_string()),
            (ProbeKind::PackageBin, "/a/node_modules/typescript".to_string()),
            (ProbeKind::PackageBin, "/node_modules/typescript".to_string()),
            (ProbeKind::PackageBin, "/a/node_modules/@typescript/native-preview".to_string()),
            (ProbeKind::PackageBin, "/node_modules/@typescript/native-preview".to_string()),
            (ProbeKind::PackageBin, "/a/node_modules/tsgo".to_string()),
            (ProbeKind::PackageBin, "/node_modules/tsgo".to_string()),
            (ProbeKind::LocalBin, "/a/node_modules/.bin/tsgo".to_string()),
            (ProbeKind::OnPath, "tsgo".to_string()),
            (ProbeKind::OnPath, "tsc".to_string()),
        ]
    );
    let win = binary_probes("C:/p", None, "windows", "x86_64");
    assert_eq!(win[0].kind, ProbeKind::NativeBinary);
    assert!(win[0].target.ends_with("/lib/tsc.exe"));
    let none = binary_probes("/a", Some("  "), "plan9", "x86_64");
    assert_eq!(none[0].kind, ProbeKind::PackageBin);
}
