//! The calls this library makes into `litrs`, `shlex`, `tree-sitter` and
//! `tree-sitter-rust`. Each item here is trusted: Verus believes its
//! contract without proof. Two more trusted items, the query run and the
//! capture names, are methods of `Formatter` (in `formatter`), because what
//! they claim rests on how a `Formatter` is built.
use vstd::prelude::*;

use crate::literal::{regular_value_agrees, written_by_escape};
use crate::normalize::{has_two_quotes, raw_value_agrees};

verus! {

#[verifier::external_type_specification]
#[verifier::external_body]
pub struct ExParser(tree_sitter::Parser);

#[verifier::external_type_specification]
#[verifier::external_body]
pub struct ExQuery(tree_sitter::Query);

#[verifier::external_type_specification]
#[verifier::external_body]
pub struct ExLanguageError(tree_sitter::LanguageError);

#[verifier::external_type_specification]
#[verifier::external_body]
pub struct ExQueryError(tree_sitter::QueryError);

/// The value of the Rust string literal written as `text` (its escapes
/// resolved), or `None` when `text` is not a string literal, as
/// `litrs::StringLit::parse` decides.
pub uninterp spec fn string_literal_value(text: Seq<char>) -> Option<Seq<char>>;

/// Whether the tree-sitter query written as `query` compiles against the
/// Rust grammar of `tree_sitter_rust`, as `tree_sitter::Query::new` decides.
pub uninterp spec fn rust_query_compiles(query: Seq<char>) -> bool;

/// The capture names of the tree-sitter query written as `query`, compiled
/// against the Rust grammar, in the order of their indices, as
/// `tree_sitter::Query::capture_names` gives them.
pub uninterp spec fn query_capture_list(query: Seq<char>) -> Seq<Seq<char>>;

/// Whether `tree_sitter::Parser::parse`, with the Rust grammar set and no
/// earlier tree, gives a syntax tree for `source`.
pub uninterp spec fn rust_source_parses(source: Seq<char>) -> bool;

/// The matches of the tree-sitter query written as `query`, compiled against
/// the Rust grammar, on the root of the syntax tree of `source`, as
/// `tree_sitter::QueryCursor::matches` gives them over the bytes of `source`:
/// for each match, in order, its captures, each as the index of its name and
/// its node's start byte, end byte, kind and starting row.
pub uninterp spec fn rust_query_matches(query: Seq<char>, source: Seq<char>) -> Seq<
    Seq<(usize, (usize, usize, Seq<char>, usize))>,
>;

/// The words of the command line `line`, or `None` when it cannot be split,
/// as `shlex::split` decides.
pub uninterp spec fn shell_words(line: Seq<char>) -> Option<Seq<Seq<char>>>;

/// Calls `litrs::StringLit::parse` on `text`. Claims: the result is
/// `Ok` exactly when `string_literal_value` names a value, and then it is
/// that value; a text that parses holds an opening and a closing double
/// quote (the parser requires both, see `parse_impl`, `unescape_string` and
/// `scan_raw_string` in litrs); and the value of a raw string literal (one
/// that starts with `r`) is the text between its first and its last double
/// quote (`scan_raw_string` takes the quote after `r` and the hashes, and the
/// suffix after the closing quote cannot hold a quote, see `check_suffix`;
/// `value` then slices `inner_range`); and a regular literal written as a
/// double quote, the text `t` escaped by `escaped` and a double quote parses,
/// with the value `t` (`unescape_string` passes the characters that
/// `escaped` leaves alone, and `unescape` reads back each escape it writes:
/// quote, backslash, carriage return, tab and nul by letter, and other
/// control characters as a Unicode escape in upper-case hexadecimal; the
/// escaped text holds no bare quote, carriage return or backslash).
/// The error message is not stated.
#[verifier::external_body]
pub(crate) fn parse_string_literal(text: &[char]) -> (res: Result<Vec<char>, String>)
    ensures
        match res {
            Ok(value) => string_literal_value(text@) == Some(value@) && has_two_quotes(text@)
                && raw_value_agrees(text@, value@) && regular_value_agrees(text@, value@),
            Err(_) => string_literal_value(text@) is None,
        },
        written_by_escape(text@) ==> res is Ok,
{
    let input: String = text.iter().collect();
    match litrs::StringLit::parse(input.as_str()) {
        Ok(lit) => Ok(lit.value().chars().collect()),
        Err(e) => Err(e.to_string()),
    }
}

/// Calls `shlex::split` on `line`. Claims: the result is the words that
/// `shell_words` names, or `None` exactly when it names none.
#[verifier::external_body]
pub(crate) fn split_shell_words(line: &str) -> (res: Option<Vec<String>>)
    ensures
        match res {
            Some(words) => shell_words(line@) == Some(words@.map_values(|w: String| w@)),
            None => shell_words(line@) is None,
        },
{
    shlex::split(line)
}

/// Calls `tree_sitter::Parser::new`. Nothing is claimed of the parser.
#[verifier::external_body]
pub(crate) fn new_parser() -> tree_sitter::Parser {
    tree_sitter::Parser::new()
}

/// Calls `tree_sitter::Parser::set_language` with the Rust grammar of
/// `tree_sitter_rust::LANGUAGE`. Claims: it succeeds. `set_language` accepts
/// every grammar whose ABI version lies between
/// `MIN_COMPATIBLE_LANGUAGE_VERSION` and `LANGUAGE_VERSION` (13 and 15 in
/// `include/tree_sitter/api.h` of tree-sitter 0.25), and the Rust grammar
/// is generated with version 15 (`LANGUAGE_VERSION` in
/// `src/parser.c` of tree-sitter-rust 0.24).
#[verifier::external_body]
pub(crate) fn set_rust_language(parser: &mut tree_sitter::Parser) -> (res: Result<
    (),
    tree_sitter::LanguageError,
>)
    ensures
        res is Ok,
{
    parser.set_language(&tree_sitter_rust::LANGUAGE.into())
}

/// Calls `tree_sitter::Query::new` to compile the query `source` against
/// the Rust grammar of `tree_sitter_rust::LANGUAGE`. Claims: the result is
/// `Ok` exactly when `rust_query_compiles` holds of `source`.
#[verifier::external_body]
pub(crate) fn compile_rust_query(source: &str) -> (res: Result<
    tree_sitter::Query,
    tree_sitter::QueryError,
>)
    ensures
        res is Ok <==> rust_query_compiles(source@),
{
    tree_sitter::Query::new(&tree_sitter_rust::LANGUAGE.into(), source)
}

} // verus!
