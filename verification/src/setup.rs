//! The steps that connect a command to its server, as a state machine: the
//! caller performs the step that the state names and reports how it went.

use vstd::prelude::*;

use crate::exit_code::{ExitCode, Failure};
use crate::text::concat;

verus! {

/// What the server says it supports.
#[derive(Clone, Copy, Debug, PartialEq, Eq, Structural)]
pub struct Capabilities {
    pub versioning: bool,
    pub tagging: bool,
}

/// The step to perform next, or how setting up ended.
pub enum SetupStep {
    /// Load the alias configuration.
    LoadAliases,
    /// Look up the alias by name.
    ResolveAlias,
    /// Create the client for the alias.
    CreateClient,
    /// Ask the server for its capabilities.
    DetectCapabilities,
    /// Ask whether the bucket exists.
    CheckBucket,
    /// The client is ready.
    Ready,
    /// Setting up failed.
    Failed(Failure),
}

/// How a step went; an error carries the text of the error.
pub enum SetupEvent {
    AliasesLoaded(Result<(), String>),
    AliasResolved(bool),
    ClientCreated(Result<(), String>),
    CapabilitiesDetected(Result<Capabilities, String>),
    BucketChecked(Result<bool, String>),
}

/// A setup state as a value.
pub enum StepView {
    LoadAliases,
    ResolveAlias,
    CreateClient,
    DetectCapabilities,
    CheckBucket,
    Ready,
    Failed(ExitCode, Seq<char>),
}

/// A step's outcome as a value.
pub enum EventView {
    AliasesLoaded(Result<(), Seq<char>>),
    AliasResolved(bool),
    ClientCreated(Result<(), Seq<char>>),
    CapabilitiesDetected(Result<Capabilities, Seq<char>>),
    BucketChecked(Result<bool, Seq<char>>),
}

/// The view of a setup state.
pub open spec fn step_view(s: SetupStep) -> StepView {
    match s {
        SetupStep::LoadAliases => StepView::LoadAliases,
        SetupStep::ResolveAlias => StepView::ResolveAlias,
        SetupStep::CreateClient => StepView::CreateClient,
        SetupStep::DetectCapabilities => StepView::DetectCapabilities,
        SetupStep::CheckBucket => StepView::CheckBucket,
        SetupStep::Ready => StepView::Ready,
        SetupStep::Failed(f) => StepView::Failed(f.code, f.message@),
    }
}

/// The view of a unit outcome.
pub open spec fn unit_result_view(r: Result<(), String>) -> Result<(), Seq<char>> {
    match r {
        Ok(()) => Ok(()),
        Err(e) => Err(e@),
    }
}

/// The view of a step's outcome.
pub open spec fn event_view(e: SetupEvent) -> EventView {
    match e {
        SetupEvent::AliasesLoaded(r) => EventView::AliasesLoaded(unit_result_view(r)),
        SetupEvent::AliasResolved(b) => EventView::AliasResolved(b),
        SetupEvent::ClientCreated(r) => EventView::ClientCreated(unit_result_view(r)),
        SetupEvent::CapabilitiesDetected(r) => EventView::CapabilitiesDetected(
            match r {
                Ok(c) => Ok(c),
                Err(e) => Err(e@),
            },
        ),
        SetupEvent::BucketChecked(r) => EventView::BucketChecked(
            match r {
                Ok(b) => Ok(b),
                Err(e) => Err(e@),
            },
        ),
    }
}

/// The first two steps, common to every command: the aliases must load and
/// the alias must exist. `None` for any other state or outcome.
pub open spec fn common_next(s: StepView, e: EventView, alias_name: Seq<char>) -> Option<StepView> {
    match (s, e) {
        (StepView::LoadAliases, EventView::AliasesLoaded(Ok(()))) => Some(StepView::ResolveAlias),
        (StepView::LoadAliases, EventView::AliasesLoaded(Err(m))) => Some(
            StepView::Failed(ExitCode::GeneralError, "Failed to load aliases: "@ + m),
        ),
        (StepView::ResolveAlias, EventView::AliasResolved(true)) => Some(StepView::CreateClient),
        (StepView::ResolveAlias, EventView::AliasResolved(false)) => Some(
            StepView::Failed(ExitCode::NotFound, "Alias '"@ + alias_name + "' not found"@),
        ),
        (StepView::CreateClient, EventView::ClientCreated(Err(m))) => Some(
            StepView::Failed(ExitCode::NetworkError, "Failed to create S3 client: "@ + m),
        ),
        _ => None,
    }
}

/// A failure ending with `code` and saying `a`, `detail`, `b`.
pub fn fail_around(code: ExitCode, a: &str, detail: &str, b: &str) -> (s: SetupStep)
    ensures
        step_view(s) == StepView::Failed(code, a@ + detail@ + b@),
{
    let mut m = concat(a, detail);
    m.append(b);
    SetupStep::Failed(Failure { code, message: m })
}

/// A failure ending with `code` and saying `prefix` followed by `detail`.
pub fn fail_with(code: ExitCode, prefix: &str, detail: &str) -> (s: SetupStep)
    ensures
        step_view(s) == StepView::Failed(code, prefix@ + detail@),
{
    SetupStep::Failed(Failure { code, message: concat(prefix, detail) })
}

/// A failure ending with `code` and saying `message`.
pub fn fail(code: ExitCode, message: &str) -> (s: SetupStep)
    ensures
        step_view(s) == StepView::Failed(code, message@),
{
    SetupStep::Failed(Failure { code, message: message.to_owned() })
}

/// The step after `state` when `event` is one that `common_next` decides.
pub fn common_step(state: SetupStep, event: &SetupEvent, alias_name: &str) -> (r: Result<SetupStep, SetupStep>)
    ensures
        common_next(step_view(state), event_view(*event), alias_name@) matches Some(n) ==> r is Ok
            && step_view(r->Ok_0) == n,
        common_next(step_view(state), event_view(*event), alias_name@) is None ==> r is Err && r->Err_0
            == state,
{
    match (&state, event) {
        (SetupStep::LoadAliases, SetupEvent::AliasesLoaded(Ok(()))) => Ok(SetupStep::ResolveAlias),
        (SetupStep::LoadAliases, SetupEvent::AliasesLoaded(Err(m))) => Ok(
            fail_with(ExitCode::GeneralError, "Failed to load aliases: ", m.as_str()),
        ),
        (SetupStep::ResolveAlias, SetupEvent::AliasResolved(true)) => Ok(SetupStep::CreateClient),
        (SetupStep::ResolveAlias, SetupEvent::AliasResolved(false)) => Ok(
            fail_around(ExitCode::NotFound, "Alias '", alias_name, "' not found"),
        ),
        (SetupStep::CreateClient, SetupEvent::ClientCreated(Err(m))) => Ok(
            fail_with(ExitCode::NetworkError, "Failed to create S3 client: ", m.as_str()),
        ),
        _ => Err(state),
    }
}


/// The setup steps of a command that needs only a client: aliases, alias,
/// client. Any other pairing of state and outcome leaves the state as it is.
pub open spec fn plain_setup_next(s: StepView, e: EventView, alias_name: Seq<char>) -> StepView {
    match common_next(s, e, alias_name) {
        Some(n) => n,
        None => match (s, e) {
            (StepView::CreateClient, EventView::ClientCreated(Ok(()))) => StepView::Ready,
            _ => s,
        },
    }
}

/// The setup state after `state` when `event` reports how its step went.
pub fn plain_setup_step(state: SetupStep, event: &SetupEvent, alias_name: &str) -> (next: SetupStep)
    ensures
        step_view(next) == plain_setup_next(step_view(state), event_view(*event), alias_name@),
{
    let state = match common_step(state, event, alias_name) {
        Ok(n) => return n,
        Err(s) => s,
    };
    match (&state, event) {
        (SetupStep::CreateClient, SetupEvent::ClientCreated(Ok(()))) => SetupStep::Ready,
        _ => state,
    }
}

/// Reported successes carry a plain setup from loading aliases to ready in
/// three steps, and each reported failure ends it: an unknown alias is a
/// not-found failure naming it, a failed load a general error, a failed
/// client a network error, each passing on the message it was given.
pub proof fn law_plain_setup_path(alias_name: Seq<char>, m: Seq<char>)
    ensures
        plain_setup_next(StepView::LoadAliases, EventView::AliasesLoaded(Ok(())), alias_name)
            == StepView::ResolveAlias,
        plain_setup_next(StepView::ResolveAlias, EventView::AliasResolved(true), alias_name)
            == StepView::CreateClient,
        plain_setup_next(StepView::CreateClient, EventView::ClientCreated(Ok(())), alias_name) == StepView::Ready,
        plain_setup_next(StepView::LoadAliases, EventView::AliasesLoaded(Err(m)), alias_name) == StepView::Failed(
            ExitCode::GeneralError,
            "Failed to load aliases: "@ + m,
        ),
        plain_setup_next(StepView::ResolveAlias, EventView::AliasResolved(false), alias_name) == StepView::Failed(
            ExitCode::NotFound,
            "Alias '"@ + alias_name + "' not found"@,
        ),
        plain_setup_next(StepView::CreateClient, EventView::ClientCreated(Err(m)), alias_name)
            == StepView::Failed(ExitCode::NetworkError, "Failed to create S3 client: "@ + m),
{
}

/// An event that does not report on the step a plain setup is at leaves it
/// where it is.
pub proof fn law_plain_setup_ignores_other_events(s: StepView, e: EventView, alias_name: Seq<char>)
    requires
        !(s is LoadAliases && e is AliasesLoaded),
        !(s is ResolveAlias && e is AliasResolved),
        !(s is CreateClient && e is ClientCreated),
    ensures
        plain_setup_next(s, e, alias_name) == s,
{
}

} // verus!
