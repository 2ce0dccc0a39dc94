use sqlx_inline_fmt::capture::{
    capture_role, captures_from_selection, is_string_literal, literal_capture_from_node,
    select_literal_nodes, str_equals, CaptureRole, NodeLiteral, QueryCaptureData, QueryMatchData,
    SyntaxNode,
};
use sqlx_inline_fmt::command::{parse_formatter_command, CommandError};
use sqlx_inline_fmt::formatter::Formatter;
use sqlx_inline_fmt::literal::rewrite_literal;
use sqlx_inline_fmt::plan::{formatter_content, FormatterCommandOutput};
use sqlx_inline_fmt::utf8::{char_index_of_byte, chars_of};

fn node(start: usize, end: usize, kind: &str, row: usize) -> SyntaxNode {
    SyntaxNode { start_byte: start, end_byte: end, kind: kind.to_string(), row }
}

fn cap(index: usize, n: SyntaxNode) -> QueryCaptureData {
    QueryCaptureData { index, node: n }
}

fn names() -> Vec<String> {
    vec!["name".to_string(), "lit".to_string(), "raw".to_string(), "inv".to_string()]
}

#[test]
fn string_comparisons() {
    assert!(str_equals("inv", "inv"));
    assert!(!str_equals("inv", "lit"));
    assert!(is_string_literal("string_literal"));
    assert!(is_string_literal("raw_string_literal"));
    assert!(!is_string_literal("identifier"));
    let n = names();
    assert_eq!(capture_role(&n, 3), CaptureRole::Invocation);
    assert_eq!(capture_role(&n, 1), CaptureRole::Literal);
    assert_eq!(capture_role(&n, 2), CaptureRole::Literal);
    assert_eq!(capture_role(&n, 0), CaptureRole::Other);
    assert_eq!(capture_role(&n, 9), CaptureRole::Other);
}

#[test]
fn byte_offsets_to_char_positions() {
    let chars = chars_of("aé€x");
    assert_eq!(chars, vec!['a', 'é', '€', 'x']);
    assert_eq!(char_index_of_byte(&chars, 0), Some(0));
    assert_eq!(char_index_of_byte(&chars, 1), Some(1));
    assert_eq!(char_index_of_byte(&chars, 2), None);
    assert_eq!(char_index_of_byte(&chars, 3), Some(2));
    assert_eq!(char_index_of_byte(&chars, 6), Some(3));
    assert_eq!(char_index_of_byte(&chars, 7), Some(4));
    assert_eq!(char_index_of_byte(&chars, 8), None);
}

#[test]
fn selection_keeps_smallest_literal_per_invocation_in_order() {
    let matches = vec![
        QueryMatchData {
            captures: vec![
                cap(3, node(40, 60, "macro_invocation", 2)),
                cap(1, node(50, 58, "string_literal", 2)),
            ],
        },
        QueryMatchData {
            captures: vec![
                cap(3, node(0, 30, "macro_invocation", 0)),
                cap(2, node(20, 29, "raw_string_literal", 0)),
                cap(1, node(10, 15, "string_literal", 0)),
            ],
        },
        QueryMatchData {
            captures: vec![
                cap(3, node(0, 30, "macro_invocation", 0)),
                cap(1, node(12, 18, "string_literal", 0)),
            ],
        },
        QueryMatchData { captures: vec![cap(3, node(70, 80, "macro_invocation", 4))] },
        QueryMatchData {
            captures: vec![
                cap(3, node(90, 99, "macro_invocation", 5)),
                cap(1, node(92, 95, "identifier", 5)),
            ],
        },
    ];
    let sel = select_literal_nodes(&matches, &names());
    assert_eq!(sel.len(), 2);
    assert_eq!(sel[0].invocation, (0, 30));
    assert_eq!((sel[0].node.start_byte, sel[0].node.end_byte), (10, 15));
    assert_eq!(sel[1].invocation, (40, 60));
    assert_eq!((sel[1].node.start_byte, sel[1].node.end_byte), (50, 58));
}

#[test]
fn literal_from_node_parses_escapes() {
    let src = "  q!(\"a\\tb\")";
    let chars = chars_of(src);
    match literal_capture_from_node(&chars, &node(5, 11, "string_literal", 4)) {
        NodeLiteral::Captured(c) => {
            assert_eq!(c.raw.iter().collect::<String>(), "\"a\\tb\"");
            assert_eq!(c.value.iter().collect::<String>(), "a\tb");
            assert_eq!(c.line, 5);
            assert_eq!(c.indent.iter().collect::<String>(), "  ");
            assert_eq!((c.span.start, c.span.end), (5, 11));
        }
        _ => panic!("expected a literal"),
    }
}

#[test]
fn literal_from_node_reports_unparsable_and_misplaced() {
    let src = "x!(\"é)";
    let chars = chars_of(src);
    match literal_capture_from_node(&chars, &node(3, 7, "string_literal", 0)) {
        NodeLiteral::Unparsable(f) => {
            assert_eq!(f.text.iter().collect::<String>(), "\"é)");
            assert!(!f.message.is_empty());
        }
        _ => panic!("expected a parse failure"),
    }
    assert!(matches!(
        literal_capture_from_node(&chars, &node(3, 5, "string_literal", 0)),
        NodeLiteral::Misplaced
    ));
}

#[test]
fn captures_from_selection_keeps_order() {
    let src = "a(\"x\") b(\"y\\\"\")";
    let matches = vec![
        QueryMatchData {
            captures: vec![cap(3, node(7, 15, "macro_invocation", 0)), cap(1, node(9, 14, "string_literal", 0))],
        },
        QueryMatchData {
            captures: vec![cap(3, node(0, 6, "macro_invocation", 0)), cap(1, node(2, 5, "string_literal", 0))],
        },
    ];
    let sel = select_literal_nodes(&matches, &names());
    let scan = captures_from_selection(src, &sel);
    assert_eq!(scan.failures.len(), 0);
    assert_eq!(scan.captures.len(), 2);
    assert_eq!(scan.captures[0].value, vec!['x']);
    assert_eq!(scan.captures[1].value, vec!['y', '"']);
}

#[test]
fn formatter_command_is_split_like_a_shell() {
    assert_eq!(
        parse_formatter_command("sqlfluff fix --dialect 'postgres sql'").unwrap(),
        vec!["sqlfluff", "fix", "--dialect", "postgres sql"]
    );
    assert_eq!(parse_formatter_command("pg_format").unwrap(), vec!["pg_format"]);
    assert_eq!(parse_formatter_command("   ").unwrap_err(), CommandError::Empty);
    assert_eq!(parse_formatter_command("fmt 'open").unwrap_err(), CommandError::Unparsable);
}

#[test]
fn formatter_finds_sqlx_query_literals() {
    let mut f = Formatter::new(vec!["pg_format".to_string()], false).unwrap();
    assert!(!f.had_errors());
    assert_eq!(f.command(), &vec!["pg_format".to_string()]);
    let src = "fn main() {\n    let r = sqlx::query!(\"select 1\", x);\n    let s = query_as!(T, r#\"\n        select \"a\"\n    \"#);\n    let t = other!(\"no\");\n    let u = sqlx::query_file!(\"q.sql\");\n}\n";
    let scan = f.collect_literal_captures(src).unwrap();
    assert_eq!(scan.failures.len(), 0);
    assert_eq!(scan.captures.len(), 2);
    assert_eq!(scan.captures[0].value.iter().collect::<String>(), "select 1");
    assert_eq!(scan.captures[0].line, 2);
    assert_eq!(scan.captures[0].indent.iter().collect::<String>(), "    ");
    assert_eq!(scan.captures[1].value.iter().collect::<String>(), "\n        select \"a\"\n    ");
    assert_eq!(scan.captures[1].line, 3);
    assert!(!f.had_errors());
}

#[test]
fn second_run_keeps_the_rewritten_raw_literal() {
    let output: Vec<char> = "SELECT *\n  FROM t\n WHERE x = \"a\"#\n".chars().collect();
    let indent: Vec<char> = "    ".chars().collect();
    let literal: String = rewrite_literal(&output, &indent).iter().collect();
    let src = format!("fn main() {{\n    sqlx::query!({literal}).fetch_all(db);\n}}\n");

    let mut f = Formatter::new(vec!["pg_format".to_string()], false).unwrap();
    let scan = f.collect_literal_captures(&src).unwrap();
    assert_eq!(scan.captures.len(), 1);
    let capture = &scan.captures[0];
    assert_eq!(capture.raw.iter().collect::<String>(), literal);
    assert_eq!(formatter_content(capture), output);

    let answer = FormatterCommandOutput { stdout: output.clone(), stderr: Vec::new(), success: true };
    let plan = f.plan_replacements(std::slice::from_ref(capture), std::slice::from_ref(&answer));
    assert!(plan.replacements.is_empty());
    assert!(plan.warnings.is_empty());
    assert!(!f.had_errors());
}

#[test]
fn second_run_keeps_the_rewritten_regular_literal() {
    let output: Vec<char> = "SELECT \"a\\b\"\tx\u{1}\n".chars().collect();
    let indent: Vec<char> = "    ".chars().collect();
    let literal: String = rewrite_literal(&output, &indent).iter().collect();
    assert_eq!(literal, "\"SELECT \\\"a\\\\b\\\"\\tx\\u{1}\"");
    let src = format!("fn main() {{\n    sqlx::query!({literal}).fetch_all(db);\n}}\n");

    let mut f = Formatter::new(vec!["pg_format".to_string()], false).unwrap();
    let scan = f.collect_literal_captures(&src).unwrap();
    assert_eq!(scan.captures.len(), 1);
    let capture = &scan.captures[0];
    assert_eq!(capture.value.iter().collect::<String>(), "SELECT \"a\\b\"\tx\u{1}");
    assert_eq!(formatter_content(capture), output[..output.len() - 1].to_vec());

    let answer = FormatterCommandOutput { stdout: output.clone(), stderr: Vec::new(), success: true };
    let plan = f.plan_replacements(std::slice::from_ref(capture), std::slice::from_ref(&answer));
    assert!(plan.replacements.is_empty());
}
