use sqlx_inline_fmt::literal::{escape_regular_string, required_raw_hashes, rewrite_literal};
use sqlx_inline_fmt::normalize::{literal_indent, normalized_content_for_formatter};
use sqlx_inline_fmt::text::{indent_block, strip_indent};

fn chars(s: &str) -> Vec<char> {
    s.chars().collect()
}

fn text(v: &[char]) -> String {
    v.iter().collect()
}

#[test]
fn escape_plain_text_is_unchanged() {
    assert_eq!(text(&escape_regular_string(&chars("SELECT * FROM t"))), "SELECT * FROM t");
}

#[test]
fn escape_quotes_backslashes_and_controls() {
    assert_eq!(
        text(&escape_regular_string(&chars("a\"b\\c\rd\te\0f"))),
        "a\\\"b\\\\c\\rd\\te\\0f"
    );
    assert_eq!(text(&escape_regular_string(&chars("x\ny"))), "x\\u{A}y");
    assert_eq!(text(&escape_regular_string(&chars("\u{1b}\u{7f}\u{9f}"))), "\\u{1B}\\u{7F}\\u{9F}");
    assert_eq!(text(&escape_regular_string(&chars("é\u{a0}"))), "é\u{a0}");
}

#[test]
fn raw_hashes_counts_the_longest_quote_hash_run() {
    assert_eq!(required_raw_hashes(&chars("no quotes")), 0);
    assert_eq!(required_raw_hashes(&chars("a \"quote\"")), 1);
    assert_eq!(required_raw_hashes(&chars("x \"# y")), 2);
    assert_eq!(required_raw_hashes(&chars("\"## and \"#")), 3);
    assert_eq!(required_raw_hashes(&chars("")), 0);
}

#[test]
fn indent_block_skips_empty_lines() {
    assert_eq!(text(&indent_block(&chars("a\n\nb"), &chars("  "))), "  a\n\n  b");
    assert_eq!(text(&indent_block(&chars("a\nb\n"), &chars("\t"))), "\ta\n\tb\n");
    assert_eq!(text(&indent_block(&chars("a\nb"), &chars(""))), "a\nb");
    assert_eq!(text(&indent_block(&chars(""), &chars("  "))), "");
}

#[test]
fn strip_indent_only_strips_matching_lines() {
    assert_eq!(text(&strip_indent(&chars("    a\n  b\n    c"), &chars("    "))), "a\n  b\nc");
    assert_eq!(text(&strip_indent(&chars("  a\n"), &chars("  "))), "a\n");
    assert_eq!(text(&strip_indent(&chars("a\nb"), &chars(""))), "a\nb");
}

#[test]
fn strip_indent_undoes_indent_block() {
    let block = chars("SELECT 1\n\nFROM t\n");
    let indent = chars("        ");
    let indented = indent_block(&block, &indent);
    assert_eq!(strip_indent(&indented, &indent), block);
}

#[test]
fn literal_indent_takes_leading_blanks_of_the_line() {
    let src = chars("fn f() {\n    let q = sqlx::query!(\"x\");\n}");
    let start = src.iter().position(|&c| c == '"').unwrap();
    assert_eq!(text(&literal_indent(&src, start)), "    ");
    let src2 = chars("\t  x(\"a\")");
    assert_eq!(text(&literal_indent(&src2, 4)), "\t  ");
    assert_eq!(text(&literal_indent(&chars("abc"), 0)), "");
}

#[test]
fn normalized_content_of_single_line_literal_is_its_value() {
    let raw = chars("\"SELECT 1\"");
    let value = chars("SELECT 1");
    assert_eq!(text(&normalized_content_for_formatter(&raw, &value)), "SELECT 1");
}

#[test]
fn normalized_content_removes_literal_layout() {
    let raw = chars("r#\"\n        SELECT *\n          FROM t\n        \"#");
    let value = chars("\n        SELECT *\n          FROM t\n        ");
    assert_eq!(text(&normalized_content_for_formatter(&raw, &value)), "SELECT *\n  FROM t\n");
}

#[test]
fn normalized_content_skips_blank_lines_when_finding_indent() {
    let raw = chars("\"\n   \r\n    SELECT 1\n  \"");
    let value = chars("\n   \r\n    SELECT 1\n  ");
    assert_eq!(text(&normalized_content_for_formatter(&raw, &value)), "   \r\nSELECT 1\n");
}

#[test]
fn rewrite_single_line_output_as_regular_literal() {
    assert_eq!(text(&rewrite_literal(&chars("SELECT 1\n\n"), &chars("    "))), "\"SELECT 1\"");
    assert_eq!(text(&rewrite_literal(&chars("a \"b\""), &chars(""))), "\"a \\\"b\\\"\"");
}

#[test]
fn rewrite_multi_line_output_as_raw_literal() {
    assert_eq!(
        text(&rewrite_literal(&chars("SELECT *\nFROM t\n"), &chars("    "))),
        "r\"\n    SELECT *\n    FROM t\n    \""
    );
    assert_eq!(
        text(&rewrite_literal(&chars("\nSELECT \"x\"\n\nFROM t"), &chars("  "))),
        "r#\"\n  SELECT \"x\"\n\n  FROM t  \"#"
    );
}

#[test]
fn rewriting_then_normalizing_gives_the_output_back() {
    let output = chars("SELECT *\n  FROM t\n WHERE x = \"a\"#\n");
    let indent = chars("        ");
    let literal = rewrite_literal(&output, &indent);
    let s = text(&literal);
    let open = s.find('"').unwrap();
    let close = s.rfind('"').unwrap();
    let value: Vec<char> = chars(&s[open + 1..close]);
    assert_eq!(normalized_content_for_formatter(&literal, &value), output);
}
