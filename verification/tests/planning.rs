use sqlx_inline_fmt::formatter::{file_outcome, ApplyError, Formatter};
use sqlx_inline_fmt::plan::{
    format_outcome, formatter_content, formatter_stdin, replacements, FormatterCommandOutput,
    FormatterOutcome, LiteralCapture, WarningKind,
};
use sqlx_inline_fmt::splice::{Replacement, Span};
use sqlx_inline_fmt::{exit_status, FileChange, Mode};

fn chars(s: &str) -> Vec<char> {
    s.chars().collect()
}

fn text(v: &[char]) -> String {
    v.iter().collect()
}

fn capture(start: usize, raw: &str, value: &str, line: usize, indent: &str) -> LiteralCapture {
    let raw = chars(raw);
    LiteralCapture {
        span: Span { start, end: start + raw.len() },
        raw,
        value: chars(value),
        line,
        indent: chars(indent),
    }
}

fn output(stdout: &str, stderr: &str, success: bool) -> FormatterCommandOutput {
    FormatterCommandOutput { stdout: chars(stdout), stderr: chars(stderr), success }
}

#[test]
fn file_change_did_change() {
    assert!(!FileChange::Unchanged.did_change());
    assert!(FileChange::WouldChange.did_change());
    assert!(FileChange::Changed.did_change());
}

#[test]
fn mode_from_check_flag() {
    assert!(Mode::from(true).is_check());
    assert!(!Mode::from(false).is_check());
    assert_eq!(Mode::from(false), Mode::Write);
}

#[test]
fn stdin_gets_a_final_newline() {
    assert_eq!(text(&formatter_stdin(&chars("select 1"))), "select 1\n");
    assert_eq!(text(&formatter_stdin(&chars("select 1\n"))), "select 1\n");
    assert_eq!(text(&formatter_stdin(&chars(""))), "\n");
}

#[test]
fn content_for_formatter_is_normalized_value() {
    let cap = capture(0, "\"select  1\"", "select  1", 1, "");
    assert_eq!(text(&formatter_content(&cap)), "select  1");
}

#[test]
fn outcome_of_success_failure_and_ignored_failure() {
    let cap = capture(0, "\"x\"", "x", 3, "  ");
    match format_outcome(&cap, &output("SELECT x\n", "", true), false) {
        FormatterOutcome::Formatted(f) => assert_eq!(text(&f), "\"SELECT x\""),
        _ => panic!("expected a formatted literal"),
    }
    match format_outcome(&cap, &output("SELECT x\n", "warn", false), true) {
        FormatterOutcome::FormattedWithWarnings { formatted, stderr } => {
            assert_eq!(text(&formatted), "\"SELECT x\"");
            assert_eq!(text(&stderr), "warn");
        }
        _ => panic!("expected a formatted literal with warnings"),
    }
    match format_outcome(&cap, &output("", "boom", false), false) {
        FormatterOutcome::FormatterErrored { stderr } => assert_eq!(text(&stderr), "boom"),
        _ => panic!("expected an error"),
    }
}

#[test]
fn replacements_skip_unchanged_literals_and_record_errors() {
    let caps = vec![
        capture(10, "\"select 1\"", "select 1", 1, ""),
        capture(30, "\"SELECT 2\"", "SELECT 2", 2, ""),
        capture(50, "\"x\"", "x", 3, ""),
    ];
    let outs = vec![
        output("SELECT 1\n", "", true),
        output("SELECT 2\n", "", true),
        output("", "syntax error", false),
    ];
    let mut had_errors = false;
    let plan = replacements(&caps, &outs, false, &mut had_errors);
    assert!(had_errors);
    assert_eq!(plan.replacements.len(), 1);
    assert_eq!(plan.replacements[0].span, Span { start: 10, end: 20 });
    assert_eq!(text(&plan.replacements[0].text), "\"SELECT 1\"");
    assert_eq!(plan.warnings.len(), 1);
    assert_eq!(plan.warnings[0].kind, WarningKind::FormatterError);
    assert_eq!(plan.warnings[0].line, 3);
    assert_eq!(text(&plan.warnings[0].stderr), "syntax error");
}

#[test]
fn ignored_failures_still_rewrite_and_do_not_count_as_errors() {
    let caps = vec![capture(0, "\"x\"", "x", 7, "")];
    let outs = vec![output("X\n", "careful", false)];
    let mut had_errors = false;
    let plan = replacements(&caps, &outs, true, &mut had_errors);
    assert!(!had_errors);
    assert_eq!(plan.replacements.len(), 1);
    assert_eq!(text(&plan.replacements[0].text), "\"X\"");
    assert_eq!(plan.warnings[0].kind, WarningKind::IgnoredExitStatus);
    assert_eq!(plan.warnings[0].line, 7);
}

#[test]
fn file_outcome_by_mode() {
    let src = chars("a \"x\" b");
    let reps = || vec![Replacement { span: Span { start: 2, end: 5 }, text: chars("\"y\"") }];
    match file_outcome(vec![], &src, Mode::Write) {
        Ok((FileChange::Unchanged, None)) => {}
        _ => panic!("expected no change"),
    }
    match file_outcome(reps(), &src, Mode::Check) {
        Ok((FileChange::WouldChange, None)) => {}
        _ => panic!("expected would change"),
    }
    match file_outcome(reps(), &src, Mode::Write) {
        Ok((FileChange::Changed, Some(updated))) => assert_eq!(text(&updated), "a \"y\" b"),
        _ => panic!("expected a change"),
    }
    let overlapping = vec![
        Replacement { span: Span { start: 0, end: 4 }, text: chars("") },
        Replacement { span: Span { start: 2, end: 5 }, text: chars("") },
    ];
    assert!(matches!(file_outcome(overlapping, &src, Mode::Write), Err(ApplyError::Overlapping)));
}

#[test]
fn error_flag_accumulates_over_files() {
    let mut f = Formatter::new(vec!["fmt".to_string()], false).unwrap();
    let first = "fn a() { sqlx::query!(\"select 1\"); }\n";
    let scan = f.collect_literal_captures(first).unwrap();
    assert_eq!(scan.captures.len(), 1);
    let plan = f.plan_replacements(&scan.captures, &[output("select 1\n", "", true)]);
    assert!(plan.replacements.is_empty());
    assert!(!f.had_errors());

    let second = "fn b() { sqlx::query!(\"select 2\"); }\n";
    let scan = f.collect_literal_captures(second).unwrap();
    let plan = f.plan_replacements(&scan.captures, &[output("", "boom", false)]);
    assert_eq!(plan.warnings.len(), 1);
    assert_eq!(plan.warnings[0].kind, WarningKind::FormatterError);
    assert!(f.had_errors());

    let scan = f.collect_literal_captures(first).unwrap();
    f.plan_replacements(&scan.captures, &[output("select 1\n", "", true)]);
    assert!(f.had_errors());
}

#[test]
fn exit_status_by_errors_mode_and_changes() {
    assert_eq!(exit_status(true, Mode::Check, true), 2);
    assert_eq!(exit_status(false, Mode::Check, true), 1);
    assert_eq!(exit_status(false, Mode::Write, true), 0);
    assert_eq!(exit_status(false, Mode::Check, false), 0);
}
