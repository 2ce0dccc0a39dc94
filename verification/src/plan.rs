//! Deciding, literal by literal, what the formatter's answers mean for a
//! file: which literals are rewritten, what is reported, and whether the
//! run counts as failed.
use vstd::prelude::*;

use crate::literal::{regular_value_agrees, rewrite_literal, rewritten};
use crate::normalize::{
    all_blank, has_two_quotes, normalized_content, normalized_content_for_formatter,
    raw_value_agrees,
};
use crate::splice::{Replacement, Span};
use crate::text::push_all;

verus! {

/// A string literal found in a source text, with what formatting needs of
/// it.
#[derive(Debug)]
pub struct LiteralCapture {
    /// Where the literal stands in the source, in characters.
    pub span: Span,
    /// The literal as written, quotes (and `r`, hashes, suffix) included.
    pub raw: Vec<char>,
    /// The string the literal stands for.
    pub value: Vec<char>,
    /// The line (counted from 1) on which the literal starts.
    pub line: usize,
    /// The spaces and tabs that start the literal's line, up to the literal.
    pub indent: Vec<char>,
}

impl LiteralCapture {
    /// A literal as written always has an opening and a closing quote.
    pub open spec fn wf(&self) -> bool {
        has_two_quotes(self.raw@)
    }

    /// What holds of every literal read from a source: a raw literal stands
    /// for the text between its quotes, a regular literal that `escaped`
    /// wrote stands for the text it escaped, and the indent is spaces and
    /// tabs.
    pub open spec fn as_read(&self) -> bool {
        &&& raw_value_agrees(self.raw@, self.value@)
        &&& regular_value_agrees(self.raw@, self.value@)
        &&& all_blank(self.indent@)
    }
}

/// What the formatter command did with one input.
#[derive(Debug)]
pub struct FormatterCommandOutput {
    pub stdout: Vec<char>,
    pub stderr: Vec<char>,
    pub success: bool,
}

/// What running the formatter on one literal amounts to.
#[derive(Debug)]
pub enum FormatterOutcome {
    /// The formatter succeeded; the literal as it should now be written.
    Formatted(Vec<char>),
    /// The formatter failed but its exit status is ignored.
    FormattedWithWarnings { formatted: Vec<char>, stderr: Vec<char> },
    /// The formatter failed.
    FormatterErrored { stderr: Vec<char> },
}

/// The kind of a report about a formatter run.
#[derive(Debug, Clone, Copy, PartialEq, Eq, Structural)]
pub enum WarningKind {
    /// The formatter exited with a non-zero status, which was ignored.
    IgnoredExitStatus,
    /// The formatter reported an error.
    FormatterError,
}

/// A report about the formatter run for the literal on `line`.
#[derive(Debug)]
pub struct FormatterWarning {
    pub kind: WarningKind,
    pub line: usize,
    pub stderr: Vec<char>,
}

/// The rewrites and reports for the literals of one file.
#[derive(Debug)]
pub struct ReplacementPlan {
    pub replacements: Vec<Replacement>,
    pub warnings: Vec<FormatterWarning>,
}

/// The text handed to the formatter for `literal`.
pub fn formatter_content(literal: &LiteralCapture) -> (res: Vec<char>)
    requires
        literal.wf(),
    ensures
        res@ == normalized_content(literal.raw@, literal.value@),
{
    normalized_content_for_formatter(literal.raw.as_slice(), literal.value.as_slice())
}

/// What the formatter reads on its standard input for `content`: the
/// content, ended by a line feed if it does not end with one.
pub open spec fn stdin_text(content: Seq<char>) -> Seq<char> {
    if content.len() > 0 && content.last() == '\n' {
        content
    } else {
        content.push('\n')
    }
}

/// The formatter's standard input for `content`.
pub fn formatter_stdin(content: &[char]) -> (res: Vec<char>)
    ensures
        res@ == stdin_text(content@),
{
    let mut out: Vec<char> = Vec::new();
    push_all(&mut out, content);
    if !(content.len() > 0 && content[content.len() - 1] == '\n') {
        out.push('\n');
    }
    out
}

/// The literal that the formatter's output makes of `literal`.
pub open spec fn rewritten_for(literal: LiteralCapture, output: FormatterCommandOutput) -> Seq<
    char,
> {
    rewritten(output.stdout@, literal.indent@)
}

/// The outcome of running the formatter on `literal`.
pub open spec fn outcome_matches(
    literal: LiteralCapture,
    output: FormatterCommandOutput,
    ignore_exit_code: bool,
    outcome: FormatterOutcome,
) -> bool {
    if output.success {
        outcome matches FormatterOutcome::Formatted(f) && f@ == rewritten_for(literal, output)
    } else if ignore_exit_code {
        outcome matches FormatterOutcome::FormattedWithWarnings { formatted, stderr } && formatted@
            == rewritten_for(literal, output) && stderr@ == output.stderr@
    } else {
        outcome matches FormatterOutcome::FormatterErrored { stderr } && stderr@ == output.stderr@
    }
}

fn copy_chars(s: &Vec<char>) -> (res: Vec<char>)
    ensures
        res@ == s@,
{
    let mut out: Vec<char> = Vec::new();
    push_all(&mut out, s.as_slice());
    out
}

/// What the formatter's `output` for `literal` amounts to: a success gives
/// the rewritten literal; a failure gives the rewritten literal and the
/// error output when the exit status is ignored, and only the error output
/// otherwise.
pub fn format_outcome(
    literal: &LiteralCapture,
    output: &FormatterCommandOutput,
    ignore_exit_code: bool,
) -> (res: FormatterOutcome)
    ensures
        outcome_matches(*literal, *output, ignore_exit_code, res),
{
    if output.success {
        return FormatterOutcome::Formatted(
            rewrite_literal(output.stdout.as_slice(), literal.indent.as_slice()),
        );
    }
    if ignore_exit_code {
        return FormatterOutcome::FormattedWithWarnings {
            formatted: rewrite_literal(output.stdout.as_slice(), literal.indent.as_slice()),
            stderr: copy_chars(&output.stderr),
        };
    }
    FormatterOutcome::FormatterErrored { stderr: copy_chars(&output.stderr) }
}

/// Whether two character sequences are equal.
pub fn chars_equal(a: &[char], b: &[char]) -> (res: bool)
    ensures
        res == (a@ == b@),
{
    if a.len() != b.len() {
        return false;
    }
    let mut i: usize = 0;
    while i < a.len()
        invariant
            a@.len() == b@.len(),
            i <= a@.len(),
            forall|j: int| 0 <= j < i ==> a@[j] == b@[j],
        decreases a@.len() - i,
    {
        if a[i] != b[i] {
            return false;
        }
        i += 1;
    }
    assert(a@ =~= b@);
    true
}

/// A replacement as plain values: its span and its text.
pub open spec fn replacement_view(r: Replacement) -> (Span, Seq<char>) {
    (r.span, r.text@)
}

/// A report as plain values: its kind, line and error output.
pub open spec fn warning_view(w: FormatterWarning) -> (WarningKind, usize, Seq<char>) {
    (w.kind, w.line, w.stderr@)
}

/// The rewrite for one literal: its span and new text, when the formatter's
/// answer is used (a success, or a failure whose exit status is ignored) and
/// the new text differs from the literal as written.
pub open spec fn replacement_for(
    literal: LiteralCapture,
    output: FormatterCommandOutput,
    ignore_exit_code: bool,
) -> Option<(Span, Seq<char>)> {
    if output.success || ignore_exit_code {
        let f = rewritten_for(literal, output);
        if f != literal.raw@ {
            Some((literal.span, f))
        } else {
            None
        }
    } else {
        None
    }
}

/// The report for one literal: none on success; otherwise the kind that
/// says whether the failure was ignored, the literal's line and the error
/// output.
pub open spec fn warning_for(
    literal: LiteralCapture,
    output: FormatterCommandOutput,
    ignore_exit_code: bool,
) -> Option<(WarningKind, usize, Seq<char>)> {
    if output.success {
        None
    } else if ignore_exit_code {
        Some((WarningKind::IgnoredExitStatus, literal.line, output.stderr@))
    } else {
        Some((WarningKind::FormatterError, literal.line, output.stderr@))
    }
}

/// The present values of `s`, in order.
pub open spec fn somes<A>(s: Seq<Option<A>>) -> Seq<A>
    decreases s.len(),
{
    if s.len() == 0 {
        seq![]
    } else {
        match s.last() {
            Some(a) => somes(s.drop_last()).push(a),
            None => somes(s.drop_last()),
        }
    }
}

/// The rewrites for the first `n` literals.
pub open spec fn planned_replacements(
    captures: Seq<LiteralCapture>,
    outputs: Seq<FormatterCommandOutput>,
    ignore_exit_code: bool,
    n: int,
) -> Seq<(Span, Seq<char>)> {
    somes(
        Seq::new(n as nat, |i: int| replacement_for(captures[i], outputs[i], ignore_exit_code)),
    )
}

/// The reports for the first `n` literals.
pub open spec fn planned_warnings(
    captures: Seq<LiteralCapture>,
    outputs: Seq<FormatterCommandOutput>,
    ignore_exit_code: bool,
    n: int,
) -> Seq<(WarningKind, usize, Seq<char>)> {
    somes(Seq::new(n as nat, |i: int| warning_for(captures[i], outputs[i], ignore_exit_code)))
}

/// Whether one of the first `n` runs failed with its exit status not
/// ignored.
pub open spec fn some_run_failed(
    outputs: Seq<FormatterCommandOutput>,
    ignore_exit_code: bool,
    n: int,
) -> bool {
    !ignore_exit_code && exists|i: int| 0 <= i < n && !(#[trigger] outputs[i]).success
}

proof fn lemma_somes_step<A>(f: spec_fn(int) -> Option<A>, n: int)
    requires
        0 <= n,
    ensures
        somes(Seq::new((n + 1) as nat, f)) == match f(n) {
            Some(a) => somes(Seq::new(n as nat, f)).push(a),
            None => somes(Seq::new(n as nat, f)),
        },
{
    assert(Seq::new((n + 1) as nat, f).drop_last() =~= Seq::new(n as nat, f));
}

/// Decides, for every literal and the formatter's output for it, whether the
/// literal is rewritten and what is reported; sets `had_errors` when a run
/// failed and its exit status is not ignored.
pub fn replacements(
    captures: &[LiteralCapture],
    outputs: &[FormatterCommandOutput],
    ignore_exit_code: bool,
    had_errors: &mut bool,
) -> (res: ReplacementPlan)
    requires
        captures@.len() == outputs@.len(),
    ensures
        res.replacements@.map_values(|r: Replacement| replacement_view(r)) == planned_replacements(
            captures@,
            outputs@,
            ignore_exit_code,
            captures@.len() as int,
        ),
        res.warnings@.map_values(|w: FormatterWarning| warning_view(w)) == planned_warnings(
            captures@,
            outputs@,
            ignore_exit_code,
            captures@.len() as int,
        ),
        *final(had_errors) == (*old(had_errors) || some_run_failed(
            outputs@,
            ignore_exit_code,
            captures@.len() as int,
        )),
{
    let mut reps: Vec<Replacement> = Vec::new();
    let mut warnings: Vec<FormatterWarning> = Vec::new();
    let mut i: usize = 0;
    let ghost rf = |k: int| replacement_for(captures@[k], outputs@[k], ignore_exit_code);
    let ghost wf = |k: int| warning_for(captures@[k], outputs@[k], ignore_exit_code);
    while i < captures.len()
        invariant
            captures@.len() == outputs@.len(),
            i <= captures@.len(),
            rf == (|k: int| replacement_for(captures@[k], outputs@[k], ignore_exit_code)),
            wf == (|k: int| warning_for(captures@[k], outputs@[k], ignore_exit_code)),
            reps@.map_values(|r: Replacement| replacement_view(r)) == somes(
                Seq::new(i as nat, rf),
            ),
            warnings@.map_values(|w: FormatterWarning| warning_view(w)) == somes(
                Seq::new(i as nat, wf),
            ),
            *had_errors == (*old(had_errors) || some_run_failed(
                outputs@,
                ignore_exit_code,
                i as int,
            )),
        decreases captures@.len() - i,
    {
        let cap = &captures[i];
        let out = &outputs[i];
        proof {
            lemma_somes_step(rf, i as int);
            lemma_somes_step(wf, i as int);
        }
        let ghost reps_before = reps@;
        let ghost warnings_before = warnings@;
        match format_outcome(cap, out, ignore_exit_code) {
            FormatterOutcome::Formatted(formatted) => {
                if !chars_equal(formatted.as_slice(), cap.raw.as_slice()) {
                    reps.push(Replacement { span: cap.span, text: formatted });
                }
            },
            FormatterOutcome::FormattedWithWarnings { formatted, stderr } => {
                warnings.push(
                    FormatterWarning { kind: WarningKind::IgnoredExitStatus, line: cap.line, stderr },
                );
                if !chars_equal(formatted.as_slice(), cap.raw.as_slice()) {
                    reps.push(Replacement { span: cap.span, text: formatted });
                }
            },
            FormatterOutcome::FormatterErrored { stderr } => {
                warnings.push(
                    FormatterWarning { kind: WarningKind::FormatterError, line: cap.line, stderr },
                );
                if !ignore_exit_code {
                    *had_errors = true;
                }
            },
        }
        assert(reps@.map_values(|r: Replacement| replacement_view(r)) =~= match rf(i as int) {
            Some(a) => reps_before.map_values(|r: Replacement| replacement_view(r)).push(a),
            None => reps_before.map_values(|r: Replacement| replacement_view(r)),
        });
        assert(warnings@.map_values(|w: FormatterWarning| warning_view(w)) =~= match wf(i as int) {
            Some(a) => warnings_before.map_values(|w: FormatterWarning| warning_view(w)).push(a),
            None => warnings_before.map_values(|w: FormatterWarning| warning_view(w)),
        });
        i += 1;
    }
    ReplacementPlan { replacements: reps, warnings }
}

} // verus!
