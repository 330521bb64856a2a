//! How a command ends.

use vstd::prelude::*;

verus! {

/// The outcome of a command, as its process exit status.
#[derive(Clone, Copy, Debug, PartialEq, Eq, Structural)]
pub enum ExitCode {
    Success,
    GeneralError,
    UsageError,
    NetworkError,
    NotFound,
    UnsupportedFeature,
}

/// A command that stops early: how it ends and what it says.
pub struct Failure {
    pub code: ExitCode,
    pub message: String,
}

/// An argument that a check refused ends the command as a usage error, with
/// the check's own message.
pub fn usage_failure(message: String) -> (f: Failure)
    ensures
        f.code == ExitCode::UsageError,
        f.message == message,
{
    Failure { code: ExitCode::UsageError, message }
}

} // verus!
