//! The exit code of `aa playtest`.
use vstd::prelude::*;
use crate::exit_codes::ExitCode;

verus! {

/// What running the headless playtest process gave.
#[derive(Debug, Clone, Copy, PartialEq, Eq)]
pub enum PlaytestRun {
    /// The process could not be started.
    SpawnFailed,
    /// It ran past the scenario's duration and its grace period.
    TimedOut,
    /// It exited in time, successfully or not.
    Exited { success: bool },
}

/// How a playtest ends once its process has run: a process that could not be
/// started or ran too long is an internal failure, one that exited unsuccessfully
/// fails the playtest, and otherwise the report it wrote decides (`report_ok` is
/// `None` where the report is missing or not valid JSON, an internal failure).
pub fn playtest_exit_code(run: PlaytestRun, report_ok: Option<bool>) -> (r: ExitCode)
    ensures
        r == match run {
            PlaytestRun::SpawnFailed => ExitCode::InternalError,
            PlaytestRun::TimedOut => ExitCode::InternalError,
            PlaytestRun::Exited { success: false } => ExitCode::ValidationFailed,
            PlaytestRun::Exited { success: true } => match report_ok {
                None => ExitCode::InternalError,
                Some(true) => ExitCode::Success,
                Some(false) => ExitCode::ValidationFailed,
            },
        },
{
    match run {
        PlaytestRun::SpawnFailed => ExitCode::InternalError,
        PlaytestRun::TimedOut => ExitCode::InternalError,
        PlaytestRun::Exited { success } => {
            if !success {
                ExitCode::ValidationFailed
            } else {
                match report_ok {
                    None => ExitCode::InternalError,
                    Some(true) => ExitCode::Success,
                    Some(false) => ExitCode::ValidationFailed,
                }
            }
        },
    }
}

} // verus!
