//! The formatter command line given on the command line of the tool.
use vstd::prelude::*;

use crate::external::{shell_words, split_shell_words};

verus! {

/// Why a formatter command line was refused.
#[derive(Debug, Clone, Copy, PartialEq, Eq, Structural)]
pub enum CommandError {
    /// The line cannot be split into words like a shell would.
    Unparsable,
    /// The line holds no word.
    Empty,
}

/// The formatter command from its words as split (or not) by a shell-like
/// splitter: the words, when there are any.
pub fn check_formatter_command(words: Option<Vec<String>>) -> (res: Result<Vec<String>, CommandError>)
    ensures
        match words {
            None => res == Err::<Vec<String>, CommandError>(CommandError::Unparsable),
            Some(w) => if w@.len() == 0 {
                res == Err::<Vec<String>, CommandError>(CommandError::Empty)
            } else {
                res matches Ok(parts) && parts@ == w@
            },
        },
{
    match words {
        None => Err(CommandError::Unparsable),
        Some(w) => {
            if w.len() == 0 {
                Err(CommandError::Empty)
            } else {
                Ok(w)
            }
        },
    }
}

/// The formatter command given as the shell-like command line `line`: its
/// words, refused when the line cannot be split or holds no word.
pub fn parse_formatter_command(line: &str) -> (res: Result<Vec<String>, CommandError>)
    ensures
        match shell_words(line@) {
            None => res == Err::<Vec<String>, CommandError>(CommandError::Unparsable),
            Some(w) => if w.len() == 0 {
                res == Err::<Vec<String>, CommandError>(CommandError::Empty)
            } else {
                res matches Ok(parts) && parts@.map_values(|p: String| p@) == w
            },
        },
{
    check_formatter_command(split_shell_words(line))
}

} // verus!
