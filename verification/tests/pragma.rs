use tsgo_strict_core::pragma::{classify_head, PragmaHint};

#[test]
fn detects_strict() {
    assert_eq!(classify_head(b"// @ts-strict\nconst x = 1;"), PragmaHint::Strict);
}

#[test]
fn detects_ignore() {
    assert_eq!(classify_head(b"// @ts-strict-ignore\nconst x = 1;"), PragmaHint::Ignore);
}

#[test]
fn ignore_wins_over_strict() {
    assert_eq!(
        classify_head(b"// @ts-strict-ignore\n// @ts-strict\nconst x = 1;"),
        PragmaHint::Ignore
    );
}

#[test]
fn word_boundary_required() {
    assert_eq!(classify_head(b"// @ts-strictx\nconst x = 1;"), PragmaHint::Absent);
}

#[test]
fn empty_is_none() {
    assert_eq!(classify_head(b""), PragmaHint::Absent);
}

#[test]
fn double_commented_ignore_is_not_a_pragma() {
    assert_eq!(classify_head(b"// // @ts-strict-ignore\nconst x = 1;"), PragmaHint::Absent);
    assert_eq!(classify_head(b"// // @ts-strict\nconst x = 1;"), PragmaHint::Absent);
}

#[test]
fn block_comment_pragma_is_not_matched() {
    assert_eq!(classify_head(b"/* @ts-strict-ignore */\nconst x = 1;"), PragmaHint::Absent);
    assert_eq!(classify_head(b"/* @ts-strict */\nconst x = 1;"), PragmaHint::Absent);
}

#[test]
fn pragma_inside_string_literal_is_not_matched() {
    assert_eq!(classify_head(b"const msg = \"@ts-strict-ignore\";\n"), PragmaHint::Absent);
}

#[test]
fn leading_whitespace_allowed_before_comment() {
    assert_eq!(classify_head(b"    // @ts-strict-ignore\nconst x = 1;"), PragmaHint::Ignore);
    assert_eq!(classify_head(b"\t// @ts-strict-ignore\nconst x = 1;"), PragmaHint::Ignore);
}

#[test]
fn no_space_between_slashes_and_pragma() {
    assert_eq!(classify_head(b"//@ts-strict-ignore\nconst x = 1;"), PragmaHint::Ignore);
}

#[test]
fn pragma_on_later_line_matches() {
    assert_eq!(
        classify_head(b"import { x } from 'y';\n// @ts-strict-ignore\nconst x = 1;"),
        PragmaHint::Ignore
    );
}

#[test]
fn pragma_after_non_comment_code_on_same_line_not_matched() {
    assert_eq!(classify_head(b"const x = 1; // @ts-strict-ignore\n"), PragmaHint::Absent);
}

#[test]
fn strict_before_ignore_still_yields_ignore() {
    assert_eq!(
        classify_head(b"// @ts-strict\nlet a = 1;\n// @ts-strict-ignore\n"),
        PragmaHint::Ignore
    );
}

#[test]
fn pragma_at_end_without_newline_matches() {
    assert_eq!(classify_head(b"let a = 1;\n  //  @ts-strict"), PragmaHint::Strict);
}

#[test]
fn triple_slash_is_not_a_pragma() {
    assert_eq!(classify_head(b"/// @ts-strict\n"), PragmaHint::Absent);
}

#[test]
fn pragma_followed_by_punctuation_matches() {
    assert_eq!(classify_head(b"// @ts-strict-ignore: legacy\n"), PragmaHint::Ignore);
    assert_eq!(classify_head(b"// @ts-strict-ignorex\n"), PragmaHint::Strict);
    assert_eq!(classify_head(b"// @ts-strict_\n"), PragmaHint::Absent);
}

#[test]
fn crlf_lines_are_classified() {
    assert_eq!(classify_head(b"// @ts-strict\r\nconst x = 1;\r\n"), PragmaHint::Strict);
}

#[test]
fn joined_heads_take_the_stronger_hint_in_either_order() {
    let heads: [&[u8]; 4] = [b"const a = 1;", b"// @ts-strict", b"// @ts-strict-ignore", b""];
    let rank = |h: PragmaHint| match h {
        PragmaHint::Absent => 0,
        PragmaHint::Strict => 1,
        PragmaHint::Ignore => 2,
    };
    for a in heads {
        for b in heads {
            let ab = [a, b"\n", b].concat();
            let ba = [b, b"\n", a].concat();
            let joined = classify_head(&ab);
            assert_eq!(rank(joined), rank(classify_head(a)).max(rank(classify_head(b))));
            assert_eq!(joined, classify_head(&ba));
        }
    }
}
