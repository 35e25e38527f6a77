//! Exit codes of the `world inspect` and `world cook` commands.
use vstd::prelude::*;
use crate::exit_codes::ExitCode;
use crate::project::ProjectError;

verus! {

/// How a world command ends: a project without a manifest is a usage error,
/// any other failure to open it is internal, as is a report that could not be
/// written out (`report_ok` is `None`); otherwise the report's verdict decides.
pub fn run(resolution: &Result<String, ProjectError>, report_ok: Option<bool>) -> (r: ExitCode)
    ensures
        r == match resolution {
            Err(ProjectError::ManifestMissing(_)) => ExitCode::InvalidArgs,
            Err(_) => ExitCode::InternalError,
            Ok(_) => match report_ok {
                None => ExitCode::InternalError,
                Some(true) => ExitCode::Success,
                Some(false) => ExitCode::ValidationFailed,
            },
        },
{
    match resolution {
        Err(ProjectError::ManifestMissing(_)) => ExitCode::InvalidArgs,
        Err(_) => ExitCode::InternalError,
        Ok(_) => match report_ok {
            None => ExitCode::InternalError,
            Some(true) => ExitCode::Success,
            Some(false) => ExitCode::ValidationFailed,
        },
    }
}

} // verus!
