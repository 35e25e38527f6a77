//! Process exit codes of the `aa` command-line tool.
use vstd::prelude::*;

verus! {

/// Contractual exit codes of the command-line tool.
#[derive(Debug, Clone, Copy, PartialEq, Eq)]
pub enum ExitCode {
    Success,
    ValidationFailed,
    CompileFailed,
    InvalidArgs,
    InternalError,
}

/// The number each exit code stands for.
pub open spec fn exit_number(c: ExitCode) -> i32 {
    match c {
        ExitCode::Success => 0,
        ExitCode::ValidationFailed => 1,
        ExitCode::CompileFailed => 2,
        ExitCode::InvalidArgs => 4,
        ExitCode::InternalError => 5,
    }
}

impl ExitCode {
    pub fn as_i32(self) -> (r: i32)
        ensures
            r == exit_number(self),
    {
        match self {
            ExitCode::Success => 0,
            ExitCode::ValidationFailed => 1,
            ExitCode::CompileFailed => 2,
            ExitCode::InvalidArgs => 4,
            ExitCode::InternalError => 5,
        }
    }
}

} // verus!
