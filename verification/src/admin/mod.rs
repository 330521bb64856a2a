//! Admin commands for IAM management on RustFS/MinIO-compatible servers.

use vstd::prelude::*;

use crate::exit_code::{ExitCode, Failure};
use crate::text::concat;
use vstd::string::*;

pub mod policy;

verus! {

/// Admin subcommands.
pub enum AdminCommands {
    /// Manage IAM policies.
    Policy(policy::PolicyCommands),
}

/// Why an admin client could not be had for an alias.
pub enum AdminClientError {
    /// The alias configuration could not be loaded.
    AliasesUnavailable(String),
    /// No alias has the name.
    AliasNotFound,
    /// Looking up the alias failed otherwise.
    AliasLookup(String),
    /// The client could not be created.
    ClientCreation(String),
}

/// How the command ends when no admin client can be had, and what it says.
pub open spec fn admin_failure_spec(e: AdminClientError, alias_name: Seq<char>) -> (ExitCode, Seq<char>) {
    match e {
        AdminClientError::AliasesUnavailable(m) => (ExitCode::GeneralError, "Failed to load aliases: "@ + m@),
        AdminClientError::AliasNotFound => (ExitCode::NotFound, "Alias '"@ + alias_name + "' not found"@),
        AdminClientError::AliasLookup(m) => (ExitCode::GeneralError, "Failed to get alias: "@ + m@),
        AdminClientError::ClientCreation(m) => (ExitCode::GeneralError, "Failed to create admin client: "@ + m@),
    }
}

/// The failure for an admin client that could not be had for `alias_name`.
pub fn admin_client_failure(e: &AdminClientError, alias_name: &str) -> (f: Failure)
    ensures
        (f.code, f.message@) == admin_failure_spec(*e, alias_name@),
{
    match e {
        AdminClientError::AliasesUnavailable(m) => Failure {
            code: ExitCode::GeneralError,
            message: concat("Failed to load aliases: ", m.as_str()),
        },
        AdminClientError::AliasNotFound => {
            let mut message = concat("Alias '", alias_name);
            message.append("' not found");
            Failure { code: ExitCode::NotFound, message }
        },
        AdminClientError::AliasLookup(m) => Failure {
            code: ExitCode::GeneralError,
            message: concat("Failed to get alias: ", m.as_str()),
        },
        AdminClientError::ClientCreation(m) => Failure {
            code: ExitCode::GeneralError,
            message: concat("Failed to create admin client: ", m.as_str()),
        },
    }
}

} // verus!
