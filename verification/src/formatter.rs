//! The formatter for one run: the Rust parser, the query that finds `sqlx`
//! query macros, the formatter command, and whether anything went wrong.
use tree_sitter::StreamingIterator;
use vstd::prelude::*;

use crate::capture::{
    capture_view, captures_from_selection, chosen_literals, lists_map, match_views, name_views,
    node_capture, node_failure, select_literal_nodes, CaptureScan, LiteralFailure, QueryCaptureData,
    QueryMatchData, SelectedLiteral, SyntaxNode,
};
use crate::external::{
    compile_rust_query, new_parser, query_capture_list, rust_query_compiles, rust_query_matches,
    rust_source_parses, set_rust_language,
};
use crate::outcome::{FileChange, Mode};
use crate::plan::{
    planned_replacements, planned_warnings, replacement_view, replacements, some_run_failed, somes,
    warning_view, FormatterCommandOutput, FormatterWarning, LiteralCapture, ReplacementPlan,
};
use crate::splice::{applicable, applied, try_apply_replacements, Replacement};

verus! {

/// The tree-sitter query that finds the string literals of `sqlx` query
/// macro invocations: `@inv` captures the invocation, `@lit` and `@raw` a
/// (raw) string literal among its tokens.
pub const SQLX_MACRO_QUERY: &'static str = "(macro_invocation
  macro: [
    (scoped_identifier name: (identifier) @name)
    (identifier) @name
  ]
  (token_tree [(string_literal) @lit (raw_string_literal) @raw])
  (#match? @name \"^query(_as|_scalar)?(_unchecked)?$\")) @inv";

/// Why a formatter could not be set up.
#[derive(Debug)]
pub enum SetupError {
    /// The Rust grammar could not be given to the parser.
    Language(tree_sitter::LanguageError),
    /// The query could not be compiled.
    Query(tree_sitter::QueryError),
}

/// Why a source file could not be scanned.
#[derive(Debug, Clone, Copy, PartialEq, Eq, Structural)]
pub enum ScanError {
    /// The parser gave no syntax tree.
    Parse,
}

/// Why the rewrites of a file could not be applied.
#[derive(Debug, Clone, Copy, PartialEq, Eq, Structural)]
pub enum ApplyError {
    /// Two rewrites overlap, or one reaches past the end of the file.
    Overlapping,
}

/// Everything one run of the tool needs to format files.
pub struct Formatter {
    parser: tree_sitter::Parser,
    query: tree_sitter::Query,
    command: Vec<String>,
    had_errors: bool,
    ignore_exit_code: bool,
    /// The text of the query that `query` was compiled from.
    query_text: Ghost<Seq<char>>,
}

/// `scan` is what the literal nodes `sel` give in `source`.
pub open spec fn scan_of(source: Seq<char>, sel: Seq<SelectedLiteral>, scan: CaptureScan) -> bool {
    &&& forall|i: int|
        0 <= i < scan.captures@.len() ==> (#[trigger] scan.captures@[i]).wf()
            && scan.captures@[i].as_read()
    &&& scan.captures@.map_values(|c: LiteralCapture| capture_view(c)) == somes(
        Seq::new(sel.len(), |k: int| node_capture(source, sel[k].node@)),
    )
    &&& scan.failures@.map_values(|f: LiteralFailure| f.text@) == somes(
        Seq::new(sel.len(), |k: int| node_failure(source, sel[k].node@)),
    )
}

impl Formatter {
    /// Whether a formatter run failed (or a literal did not parse) so far.
    pub closed spec fn had_errors_view(&self) -> bool {
        self.had_errors
    }

    /// The formatter command and its arguments.
    pub closed spec fn command_view(&self) -> Seq<String> {
        self.command@
    }

    /// Whether failing formatter runs are only reported.
    pub closed spec fn ignores_exit_code(&self) -> bool {
        self.ignore_exit_code
    }

    /// The text of the query the formatter runs.
    pub closed spec fn query_text(&self) -> Seq<char> {
        self.query_text@
    }

    /// Sets up the Rust parser and the query for a run with the formatter
    /// `command`. Succeeds exactly when the query compiles against the Rust
    /// grammar.
    pub fn new(command: Vec<String>, ignore_exit_code: bool) -> (res: Result<Formatter, SetupError>)
        ensures
            res matches Ok(f) ==> f.command_view() == command@ && f.ignores_exit_code()
                == ignore_exit_code && !f.had_errors_view() && f.query_text()
                == SQLX_MACRO_QUERY@,
            res is Ok <==> rust_query_compiles(SQLX_MACRO_QUERY@),
    {
        let mut parser = new_parser();
        match set_rust_language(&mut parser) {
            Ok(()) => {},
            Err(e) => return Err(SetupError::Language(e)),
        }
        let query = match compile_rust_query(SQLX_MACRO_QUERY) {
            Ok(q) => q,
            Err(e) => return Err(SetupError::Query(e)),
        };
        Ok(
            Formatter {
                parser,
                query,
                command,
                had_errors: false,
                ignore_exit_code,
                query_text: Ghost(SQLX_MACRO_QUERY@),
            },
        )
    }

    /// Parses `source` with the Rust parser and runs the query on its syntax
    /// tree (`tree_sitter::Parser::parse`, then
    /// `tree_sitter::QueryCursor::matches`), turning every match into plain
    /// values. Trusted: Verus believes this contract. It claims that the
    /// result is `None` exactly when `rust_source_parses` does not hold of
    /// `source`, and otherwise the matches that `rust_query_matches` names
    /// for the formatter's query text. That is so because a `Formatter` is
    /// only built by `new`, which sets the Rust grammar on `parser` and
    /// compiles `query` from `query_text` against it. Nothing else of the
    /// formatter changes.
    #[verifier::external_body]
    fn run_query(&mut self, source: &str) -> (res: Option<Vec<QueryMatchData>>)
        ensures
            final(self).command_view() == old(self).command_view(),
            final(self).ignores_exit_code() == old(self).ignores_exit_code(),
            final(self).had_errors_view() == old(self).had_errors_view(),
            final(self).query_text() == old(self).query_text(),
            match res {
                None => !rust_source_parses(source@),
                Some(ms) => rust_source_parses(source@) && match_views(ms@) == rust_query_matches(
                    old(self).query_text(),
                    source@,
                ),
            },
    {
        let tree = self.parser.parse(source, None)?;
        let mut cursor = tree_sitter::QueryCursor::new();
        let mut matches = cursor.matches(&self.query, tree.root_node(), source.as_bytes());
        let mut found = Vec::new();
        while let Some(m) = matches.next() {
            let captures = m.captures.iter().map(|c| QueryCaptureData {
                index: c.index as usize,
                node: SyntaxNode { start_byte: c.node.start_byte(), end_byte: c.node.end_byte(),
                    kind: c.node.kind().to_string(), row: c.node.start_position().row },
            });
            found.push(QueryMatchData { captures: captures.collect() });
        }
        Some(found)
    }

    /// The capture names of the formatter's query
    /// (`tree_sitter::Query::capture_names`), as owned strings. Trusted:
    /// claims they are the names that `query_capture_list` gives for the
    /// query text, which holds because `new` compiled `query` from it.
    #[verifier::external_body]
    fn capture_names(&self) -> (res: Vec<String>)
        ensures
            name_views(res@) == query_capture_list(self.query_text()),
    {
        self.query.capture_names().iter().map(|name| name.to_string()).collect()
    }

    /// Whether a formatter run failed (or a literal did not parse) so far.
    pub fn had_errors(&self) -> (res: bool)
        ensures
            res == self.had_errors_view(),
    {
        self.had_errors
    }

    /// The formatter command and its arguments.
    pub fn command(&self) -> (res: &Vec<String>)
        ensures
            res@ == self.command_view(),
    {
        &self.command
    }

    /// Whether failing formatter runs are only reported.
    pub fn ignore_exit_code(&self) -> (res: bool)
        ensures
            res == self.ignores_exit_code(),
    {
        self.ignore_exit_code
    }

    /// Finds the string literals of the `sqlx` query macros in `source`:
    /// for every invocation the query matches, the literal chosen for it,
    /// read at its place in `source`. Literal nodes that do not parse are
    /// given back as failures and count as errors of the run. Fails only when
    /// the parser gives no syntax tree.
    pub fn collect_literal_captures(&mut self, source: &str) -> (res: Result<CaptureScan, ScanError>)
        ensures
            final(self).command_view() == old(self).command_view(),
            final(self).ignores_exit_code() == old(self).ignores_exit_code(),
            final(self).query_text() == old(self).query_text(),
            res is Ok <==> rust_source_parses(source@),
            match res {
                Ok(scan) => {
                    &&& final(self).had_errors_view() == (old(self).had_errors_view()
                        || scan.failures@.len() > 0)
                    &&& exists|sel: Seq<SelectedLiteral>|
                        #![trigger lists_map(sel, chosen_literals(rust_query_matches(old(self).query_text(), source@), query_capture_list(old(self).query_text())))]
                        lists_map(
                            sel,
                            chosen_literals(
                                rust_query_matches(old(self).query_text(), source@),
                                query_capture_list(old(self).query_text()),
                            ),
                        ) && scan_of(source@, sel, scan)
                },
                Err(_) => final(self).had_errors_view() == old(self).had_errors_view(),
            },
    {
        let matches: Vec<QueryMatchData> = match self.run_query(source) {
            Some(ms) => ms,
            None => return Err(ScanError::Parse),
        };
        let names: Vec<String> = self.capture_names();
        let selected: Vec<SelectedLiteral> = select_literal_nodes(matches.as_slice(), names.as_slice());
        let scan = captures_from_selection(source, selected.as_slice());
        if scan.failures.len() > 0 {
            self.had_errors = true;
        }
        Ok(scan)
    }

    /// Decides what the formatter's `outputs` (one per literal of
    /// `captures`) mean for the file, and records failed runs.
    pub fn plan_replacements(
        &mut self,
        captures: &[LiteralCapture],
        outputs: &[FormatterCommandOutput],
    ) -> (res: ReplacementPlan)
        requires
            captures@.len() == outputs@.len(),
        ensures
            final(self).command_view() == old(self).command_view(),
            final(self).ignores_exit_code() == old(self).ignores_exit_code(),
            final(self).query_text() == old(self).query_text(),
            res.replacements@.map_values(|r: Replacement| replacement_view(r))
                == planned_replacements(
                captures@,
                outputs@,
                old(self).ignores_exit_code(),
                captures@.len() as int,
            ),
            res.warnings@.map_values(|w: FormatterWarning| warning_view(w)) == planned_warnings(
                captures@,
                outputs@,
                old(self).ignores_exit_code(),
                captures@.len() as int,
            ),
            final(self).had_errors_view() == (old(self).had_errors_view() || some_run_failed(
                outputs@,
                old(self).ignores_exit_code(),
                captures@.len() as int,
            )),
    {
        let ignore: bool = self.ignore_exit_code;
        replacements(captures, outputs, ignore, &mut self.had_errors)
    }
}

/// What formatting does to a file with the rewrites `replacements`: nothing
/// when there are none; in check mode, only reports that it would change;
/// otherwise gives the rewritten text, or an error when the rewrites
/// overlap or reach past the end of the text.
pub fn file_outcome(replacements: Vec<Replacement>, source: &[char], mode: Mode) -> (res: Result<
    (FileChange, Option<Vec<char>>),
    ApplyError,
>)
    ensures
        replacements@.len() == 0 ==> res matches Ok((FileChange::Unchanged, None)),
        replacements@.len() > 0 && mode is Check ==> res matches Ok((FileChange::WouldChange, None)),
        replacements@.len() > 0 && mode is Write ==> match res {
            Ok((change, updated)) => {
                &&& change is Changed
                &&& applicable(source@.len() as int, replacements@)
                &&& updated matches Some(text) && text@ == applied(source@, replacements@)
            },
            Err(_) => !applicable(source@.len() as int, replacements@),
        },
{
    if replacements.len() == 0 {
        return Ok((FileChange::Unchanged, None));
    }
    if mode.is_check() {
        return Ok((FileChange::WouldChange, None));
    }
    match try_apply_replacements(replacements, source) {
        Some(updated) => Ok((FileChange::Changed, Some(updated))),
        None => Err(ApplyError::Overlapping),
    }
}

} // verus!
