use sqlx_inline_fmt::splice::{apply_replacements, sorted_by_start, try_apply_replacements, Replacement, Span};

fn chars(s: &str) -> Vec<char> {
    s.chars().collect()
}

fn rep(start: usize, end: usize, t: &str) -> Replacement {
    Replacement { span: Span { start, end }, text: chars(t) }
}

#[test]
fn apply_replacements_splices_in_start_order() {
    let src = chars("let a = \"x\"; let b = \"y\";");
    let out = apply_replacements(vec![rep(21, 24, "\"YY\""), rep(8, 11, "\"XX\"")], &src);
    assert_eq!(out.iter().collect::<String>(), "let a = \"XX\"; let b = \"YY\";");
}

#[test]
fn apply_no_replacements_keeps_source() {
    let src = chars("unchanged");
    assert_eq!(apply_replacements(vec![], &src), src);
}

#[test]
fn apply_identical_replacement_keeps_source() {
    let src = chars("abc\"def\"ghi");
    assert_eq!(apply_replacements(vec![rep(3, 8, "\"def\"")], &src), src);
}

#[test]
fn sorting_is_stable() {
    let sorted = sorted_by_start(vec![rep(5, 5, "b"), rep(1, 2, "a"), rep(5, 5, "c")]);
    let texts: Vec<String> = sorted.iter().map(|r| r.text.iter().collect()).collect();
    assert_eq!(texts, vec!["a", "b", "c"]);
}

#[test]
fn overlapping_replacements_are_refused() {
    let src = chars("0123456789");
    assert!(try_apply_replacements(vec![rep(0, 5, "x"), rep(3, 6, "y")], &src).is_none());
    assert!(try_apply_replacements(vec![rep(8, 12, "x")], &src).is_none());
    let out = try_apply_replacements(vec![rep(0, 2, "ab"), rep(2, 4, "cd")], &src).unwrap();
    assert_eq!(out.iter().collect::<String>(), "abcd456789");
}

#[test]
fn input_order_does_not_matter_for_distinct_starts() {
    let src = chars("a=\"x\"; b=\"y\"; c=\"z\";");
    let one = apply_replacements(vec![rep(2, 5, "\"1\""), rep(9, 12, "\"22\""), rep(16, 19, "\"3\"")], &src);
    let two = apply_replacements(vec![rep(16, 19, "\"3\""), rep(2, 5, "\"1\""), rep(9, 12, "\"22\"")], &src);
    assert_eq!(one, two);
    assert_eq!(one.iter().collect::<String>(), "a=\"1\"; b=\"22\"; c=\"3\";");
}
