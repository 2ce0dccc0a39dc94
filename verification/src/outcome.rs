use vstd::prelude::*;

verus! {

/// What formatting did (or would do) to one file.
#[derive(Debug, Clone, Copy, PartialEq, Eq, Structural)]
pub enum FileChange {
    Unchanged,
    WouldChange,
    Changed,
}

impl FileChange {
    /// Whether the file was, or in check mode would have been, rewritten.
    pub fn did_change(self) -> (res: bool)
        ensures
            res <==> (self is WouldChange || self is Changed),
    {
        match self {
            FileChange::WouldChange | FileChange::Changed => true,
            FileChange::Unchanged => false,
        }
    }
}

/// Whether files are rewritten or only checked.
#[derive(Debug, Clone, Copy, PartialEq, Eq, Structural)]
pub enum Mode {
    Check,
    Write,
}

impl Mode {
    /// Check mode never writes files.
    pub fn is_check(self) -> (res: bool)
        ensures
            res <==> self is Check,
    {
        match self {
            Mode::Check => true,
            Mode::Write => false,
        }
    }
}

/// The mode selected by the `--check` flag.
impl From<bool> for Mode {
    fn from(check: bool) -> (res: Mode) {
        if check {
            Mode::Check
        } else {
            Mode::Write
        }
    }
}

impl vstd::std_specs::convert::FromSpecImpl<bool> for Mode {
    open spec fn obeys_from_spec() -> bool {
        true
    }

    open spec fn from_spec(check: bool) -> Mode {
        if check {
            Mode::Check
        } else {
            Mode::Write
        }
    }
}

/// The tool's exit status once every file is done: 2 when a formatter run
/// failed (or a literal did not parse), otherwise 1 in check mode when some
/// file would change, otherwise 0.
pub fn exit_status(had_errors: bool, mode: Mode, any_changes: bool) -> (res: u8)
    ensures
        res == (if had_errors {
            2u8
        } else if mode is Check && any_changes {
            1u8
        } else {
            0u8
        }),
{
    if had_errors {
        2
    } else if mode.is_check() && any_changes {
        1
    } else {
        0
    }
}

} // verus!
