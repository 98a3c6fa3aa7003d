use tsgo_strict_core::spawn::parse_list_files_output;

#[test]
fn parse_list_files_output_empty_input() {
    assert!(parse_list_files_output("").is_empty());
    assert!(parse_list_files_output("   \n  \n").is_empty());
}

#[test]
fn parse_list_files_output_filters_node_modules() {
    let input = "/proj/src/main.ts\n/proj/node_modules/lib/index.d.ts\n/proj/src/util.ts\n";
    let files = parse_list_files_output(input);
    assert_eq!(files.len(), 2);
    assert!(files.iter().any(|f| f == "/proj/src/main.ts"));
    assert!(files.iter().any(|f| f == "/proj/src/util.ts"));
}

#[test]
fn parse_list_files_output_preserves_case_and_normalizes_separators() {
    let input = "C:\\Proj\\Src\\Main.ts\n";
    let files = parse_list_files_output(input);
    assert_eq!(files.len(), 1);
    assert_eq!(files[0], "C:/Proj/Src/Main.ts");
}

#[test]
fn parse_list_files_output_drops_interleaved_tsgo_diagnostics() {
    let input = "/proj/src/main.ts\n\
                 libs/_data/olly/api-client/tsconfig.lib.json(3,3): error TS5090: non-relative paths are not allowed. did you forget a leading './'?\n\
                 libs/_data/olly/api-client/tsconfig.lib.json(3,3): error TS5102: Option 'baseURL' has been removed. Please remove it from your configuration.\n\
                 use '\"paths\": {\"*\": [\"../../../../*\"]}' instead.\n\
                 /proj/src/util.ts\n";
    let files = parse_list_files_output(input);
    assert_eq!(files.len(), 2, "should keep only the two real files, got {files:?}");
    assert!(files.iter().any(|f| f == "/proj/src/main.ts"));
    assert!(files.iter().any(|f| f == "/proj/src/util.ts"));
}

#[test]
fn parse_list_files_output_handles_blank_lines_and_whitespace() {
    let input = "\n  /a/b.ts  \n\n  /c/d.ts\n  \n";
    let files = parse_list_files_output(input);
    assert_eq!(files.len(), 2);
    assert!(files.iter().any(|f| f == "/a/b.ts"));
    assert!(files.iter().any(|f| f == "/c/d.ts"));
}

#[test]
fn parse_list_files_output_extension_is_case_insensitive() {
    let files = parse_list_files_output("/p/A.TSX\n/p/b.MTS\n/p/c.cts\n/p/d.js\n/p/e.d.ts\r\n");
    assert_eq!(files, vec!["/p/A.TSX", "/p/b.MTS", "/p/c.cts", "/p/e.d.ts"]);
}

#[test]
fn parse_list_files_output_drops_windows_node_modules_and_relative() {
    let files = parse_list_files_output("D:\\w\\node_modules\\x.ts\nsrc/rel.ts\nE:/ok.ts");
    assert_eq!(files, vec!["E:/ok.ts"]);
}
