//! Policy management: list, create, info, remove and attach IAM policies.

use vstd::prelude::*;

use crate::exit_code::{ExitCode, Failure};
use crate::text::{
    concat, is_trimmed, join, lemma_first_pos, lemma_split_all_pieces, lemma_split_join, lemma_trim_ws,
    lemma_trim_ws_trimmed, split_all, split_text, texts, trim, trim_ws,
};
use vstd::string::*;

verus! {

/// Policy management subcommands.
pub enum PolicyCommands {
    /// List all policies.
    List(ListArgs),
    /// Create a new policy.
    Create(CreateArgs),
    /// Get policy information.
    Info(InfoArgs),
    /// Remove a policy.
    Remove(RemoveArgs),
    /// Attach policy to a user or group.
    Attach(AttachArgs),
}

/// Arguments of `policy ls`.
pub struct ListArgs {
    /// Alias name of the server.
    pub alias: String,
}

/// Arguments of `policy create`.
pub struct CreateArgs {
    /// Alias name of the server.
    pub alias: String,
    /// Policy name.
    pub name: String,
    /// Path to policy JSON file.
    pub policy_file: String,
}

/// Arguments of `policy info`.
pub struct InfoArgs {
    /// Alias name of the server.
    pub alias: String,
    /// Policy name.
    pub name: String,
}

/// Arguments of `policy rm`.
pub struct RemoveArgs {
    /// Alias name of the server.
    pub alias: String,
    /// Policy name to remove.
    pub name: String,
}

/// Arguments of `policy attach`.
pub struct AttachArgs {
    /// Alias name of the server.
    pub alias: String,
    /// Policy name(s) to attach (comma-separated for multiple).
    pub policies: String,
    /// Target user access key.
    pub user: Option<String>,
    /// Target group name.
    pub group: Option<String>,
}

/// What a policy is attached to.
#[derive(Clone, Copy, Debug, PartialEq, Eq, Structural)]
pub enum PolicyEntity {
    User,
    Group,
}

// ---------------------------------------------------------------------------
// Creating
// ---------------------------------------------------------------------------

/// Whether `serde_json::from_str::<serde_json::Value>` accepts `text`.
pub uninterp spec fn json_parses(text: Seq<char>) -> bool;

/// `serde_json::from_str::<serde_json::Value>`: whether `text` is one JSON
/// value, as the crate reads it.
#[verifier::external_body]
fn is_json_value(text: &str) -> (r: bool)
    ensures
        r == json_parses(text@),
{
    serde_json::from_str::<serde_json::Value>(text).is_ok()
}

/// Checks the name of a policy to create: it must not be empty.
pub fn check_policy_name(name: &str) -> (r: Result<(), String>)
    ensures
        r is Ok <==> name@.len() > 0,
        r matches Err(e) ==> e@ == "Policy name cannot be empty"@,
{
    if name.is_empty() {
        Err("Policy name cannot be empty".to_owned())
    } else {
        Ok(())
    }
}

/// Checks the document of a policy to create: it must be valid JSON.
pub fn check_policy_document(content: &str) -> (r: Result<(), String>)
    ensures
        r is Ok <==> json_parses(content@),
        r matches Err(e) ==> e@ == "Policy file is not valid JSON"@,
{
    if is_json_value(content) {
        Ok(())
    } else {
        Err("Policy file is not valid JSON".to_owned())
    }
}

/// The message after the policy `name` was created or removed.
pub fn policy_done_message(name: &str, created: bool) -> (m: String)
    ensures
        m@ == "Policy '"@ + name@ + (if created { "' created successfully"@ } else { "' removed successfully"@ }),
{
    let mut m = concat("Policy '", name);
    if created {
        m.append("' created successfully");
    } else {
        m.append("' removed successfully");
    }
    m
}

/// A request about policies in general.
#[derive(Clone, Copy, Debug, PartialEq, Eq, Structural)]
pub enum PolicyAction {
    List,
    Create,
    Attach,
}

/// What a failed policy request says before the server's error.
pub open spec fn policy_action_words(a: PolicyAction) -> Seq<char> {
    match a {
        PolicyAction::List => "Failed to list policies: "@,
        PolicyAction::Create => "Failed to create policy: "@,
        PolicyAction::Attach => "Failed to attach policy: "@,
    }
}

/// A failed policy request ends the command as a general error that passes
/// on the server's `error` after a word on what was asked.
pub fn policy_action_failure(action: PolicyAction, error: &str) -> (f: Failure)
    ensures
        f.code == ExitCode::GeneralError,
        f.message@ == policy_action_words(action) + error@,
{
    let message = match action {
        PolicyAction::List => concat("Failed to list policies: ", error),
        PolicyAction::Create => concat("Failed to create policy: ", error),
        PolicyAction::Attach => concat("Failed to attach policy: ", error),
    };
    Failure { code: ExitCode::GeneralError, message }
}

/// A policy file that cannot be read ends the command as a usage error that
/// names the file and passes on the reading `error`.
pub fn policy_file_failure(path: &str, error: &str) -> (f: Failure)
    ensures
        f.code == ExitCode::UsageError,
        f.message@ == "Failed to read policy file '"@ + path@ + "': "@ + error@,
{
    let mut message = concat("Failed to read policy file '", path);
    message.append("': ");
    message.append(error);
    Failure { code: ExitCode::UsageError, message }
}

/// The lines of a policy listing: a note when there is no policy, else each
/// name indented by two spaces.
pub open spec fn policy_list_spec(names: Seq<Seq<char>>) -> Seq<Seq<char>> {
    if names.len() == 0 {
        seq!["No policies found."@]
    } else {
        names.map_values(|n: Seq<char>| "  "@ + n)
    }
}

/// The lines that list the policies `names`.
pub fn policy_list_lines(names: &[String]) -> (lines: Vec<String>)
    ensures
        texts(lines@) == policy_list_spec(texts(names@)),
{
    let mut lines: Vec<String> = Vec::new();
    if names.len() == 0 {
        lines.push("No policies found.".to_owned());
        proof {
            assert(texts(lines@) =~= policy_list_spec(texts(names@)));
        }
        return lines;
    }
    let n = names.len();
    let mut i: usize = 0;
    while i < n
        invariant
            n == names@.len(),
            i <= n,
            texts(lines@) =~= texts(names@).take(i as int).map_values(|t: Seq<char>| "  "@ + t),
        decreases n - i,
    {
        let ghost before = texts(lines@);
        lines.push(concat("  ", names[i].as_str()));
        proof {
            assert(texts(lines@) =~= before.push("  "@ + names@[i as int]@));
            assert(texts(names@).take(i + 1) =~= texts(names@).take(i as int).push(names@[i as int]@));
        }
        i += 1;
    }
    proof {
        assert(texts(names@).take(n as int) =~= texts(names@));
    }
    lines
}

/// Why a request about one named policy failed.
pub enum PolicyRequestError {
    /// The server has no policy of that name.
    NotFound,
    /// Any other failure, with its message.
    Other(String),
}

/// What was asked about a named policy.
#[derive(Clone, Copy, Debug, PartialEq, Eq, Structural)]
pub enum PolicyRequest {
    /// Its document was asked for.
    Info,
    /// It was to be removed.
    Remove,
}

/// How a failed request about the policy `name` ends, and what it says: a
/// missing policy is named, any other failure is passed on after a word on
/// what was asked.
pub open spec fn policy_request_failure_spec(
    e: PolicyRequestError,
    request: PolicyRequest,
    name: Seq<char>,
) -> (ExitCode, Seq<char>) {
    match e {
        PolicyRequestError::NotFound => (ExitCode::NotFound, "Policy '"@ + name + "' not found"@),
        PolicyRequestError::Other(m) => (
            ExitCode::GeneralError,
            match request {
                PolicyRequest::Info => "Failed to get policy info: "@,
                PolicyRequest::Remove => "Failed to remove policy: "@,
            } + m@,
        ),
    }
}

/// The failure of a request about the policy `name`.
pub fn policy_request_failure(e: &PolicyRequestError, request: PolicyRequest, name: &str) -> (f: Failure)
    ensures
        (f.code, f.message@) == policy_request_failure_spec(*e, request, name@),
{
    match e {
        PolicyRequestError::NotFound => {
            let mut message = concat("Policy '", name);
            message.append("' not found");
            Failure { code: ExitCode::NotFound, message }
        },
        PolicyRequestError::Other(m) => {
            let message = match request {
                PolicyRequest::Info => concat("Failed to get policy info: ", m.as_str()),
                PolicyRequest::Remove => concat("Failed to remove policy: ", m.as_str()),
            };
            Failure { code: ExitCode::GeneralError, message }
        },
    }
}

// ---------------------------------------------------------------------------
// Attaching
// ---------------------------------------------------------------------------

/// The policy names of a comma-separated list: each piece trimmed of white
/// space, empty pieces dropped.
pub open spec fn policy_names_spec(s: Seq<char>) -> Seq<Seq<char>> {
    split_all(s, ',').map_values(|p: Seq<char>| trim_ws(p)).filter(|p: Seq<char>| p.len() > 0)
}

/// The policy names in a comma-separated list.
pub fn parse_policy_names(policies: &str) -> (names: Vec<String>)
    ensures
        texts(names@) == policy_names_spec(policies@),
{
    let pieces = split_text(policies, ',');
    let ghost trimmed = texts(pieces@).map_values(|p: Seq<char>| trim_ws(p));
    let mut names: Vec<String> = Vec::new();
    let mut i: usize = 0;
    proof {
        assert(trimmed.take(0).filter(|p: Seq<char>| p.len() > 0) =~= Seq::<Seq<char>>::empty());
        assert(texts(names@) =~= Seq::<Seq<char>>::empty());
    }
    while i < pieces.len()
        invariant
            i <= pieces@.len(),
            trimmed == texts(pieces@).map_values(|p: Seq<char>| trim_ws(p)),
            texts(names@) == trimmed.take(i as int).filter(|p: Seq<char>| p.len() > 0),
        decreases pieces@.len() - i,
    {
        let t = trim(pieces[i].as_str());
        let ghost before = texts(names@);
        proof {
            assert(trimmed[i as int] == t@);
            assert(trimmed.take(i + 1int).drop_last() =~= trimmed.take(i as int));
            assert(trimmed.take(i + 1int).last() == t@);
            reveal_with_fuel(Seq::filter, 1);
        }
        if !t.as_str().is_empty() {
            names.push(t);
            proof {
                assert(texts(names@) =~= before.push(t@));
            }
        }
        i += 1;
    }
    proof {
        assert(trimmed.take(pieces@.len() as int) =~= trimmed);
    }
    names
}

/// What `policy attach` sends: the policies and their target.
pub struct AttachPlan {
    pub entity: PolicyEntity,
    pub entity_name: String,
    pub policy_names: Vec<String>,
}

/// The target of `policy attach`: exactly one of a user and a group.
pub open spec fn attach_target(user: Option<Seq<char>>, group: Option<Seq<char>>) -> Option<(PolicyEntity, Seq<char>)> {
    match (user, group) {
        (Some(u), None) => Some((PolicyEntity::User, u)),
        (None, Some(g)) => Some((PolicyEntity::Group, g)),
        _ => None,
    }
}

/// The usage error of `policy attach`, checked in the command's order: one
/// target, then at least one policy name.
pub open spec fn attach_error(args: AttachArgs) -> Option<Seq<char>> {
    if attach_target(opt_view(args.user), opt_view(args.group)) is None {
        Some("Must specify either --user or --group"@)
    } else if policy_names_spec(args.policies@).len() == 0 {
        Some("At least one policy name is required"@)
    } else {
        None
    }
}

/// The view of an optional text.
pub open spec fn opt_view(o: Option<String>) -> Option<Seq<char>> {
    crate::text::opt_text(o)
}

/// Checks the arguments of `policy attach` and gives what to send, or the
/// first usage error.
pub fn prepare_attach(args: &AttachArgs) -> (r: Result<AttachPlan, String>)
    ensures
        r is Err <==> attach_error(*args) is Some,
        r matches Err(e) ==> attach_error(*args) == Some(e@),
        r matches Ok(plan) ==> attach_target(opt_view(args.user), opt_view(args.group)) == Some(
            (plan.entity, plan.entity_name@),
        ) && texts(plan.policy_names@) == policy_names_spec(args.policies@),
        r matches Ok(plan) ==> match plan.entity {
            PolicyEntity::User => args.group is None && (args.user matches Some(u) && u@ == plan.entity_name@),
            PolicyEntity::Group => args.user is None && (args.group matches Some(g) && g@ == plan.entity_name@),
        },
{
    let (entity, entity_name) = match (&args.user, &args.group) {
        (Some(user), None) => (PolicyEntity::User, user.clone()),
        (None, Some(group)) => (PolicyEntity::Group, group.clone()),
        _ => {
            return Err("Must specify either --user or --group".to_owned());
        },
    };
    let policy_names = parse_policy_names(args.policies.as_str());
    if policy_names.len() == 0 {
        return Err("At least one policy name is required".to_owned());
    }
    Ok(AttachPlan { entity, entity_name, policy_names })
}

/// How the target of an attachment is described.
pub open spec fn entity_description_spec(entity: PolicyEntity, name: Seq<char>) -> Seq<char> {
    match entity {
        PolicyEntity::User => "user '"@ + name + "'"@,
        PolicyEntity::Group => "group '"@ + name + "'"@,
    }
}

/// How the target of an attachment is described.
pub fn entity_description(entity: PolicyEntity, name: &str) -> (d: String)
    ensures
        d@ == entity_description_spec(entity, name@),
{
    let mut d = match entity {
        PolicyEntity::User => concat("user '", name),
        PolicyEntity::Group => concat("group '", name),
    };
    d.append("'");
    d
}

/// `names` joined with `sep` between neighbours.
pub fn join_names(names: &[String], sep: &str) -> (out: String)
    ensures
        out@ == join(texts(names@), sep@),
{
    let mut out = String::new();
    let mut i: usize = 0;
    while i < names.len()
        invariant
            i <= names@.len(),
            out@ == join(texts(names@).take(i as int), sep@),
        decreases names@.len() - i,
    {
        proof {
            let t = texts(names@).take(i + 1int);
            assert(t.drop_last() =~= texts(names@).take(i as int));
            assert(t.last() == names@[i as int]@);
        }
        if i > 0 {
            out.append(sep);
        } else {
            proof {
                assert(texts(names@).take(1) =~= seq![names@[0]@]);
            }
        }
        out.append(names[i].as_str());
        proof {
            if i == 0 {
                assert(out@ =~= join(texts(names@).take(1), sep@));
            }
        }
        i += 1;
    }
    proof {
        assert(texts(names@).take(names@.len() as int) =~= texts(names@));
    }
    out
}

/// The message after `names` were attached to the described target.
pub fn attached_message(names: &[String], entity: PolicyEntity, entity_name: &str) -> (m: String)
    ensures
        m@ == "Policy '"@ + join(texts(names@), ","@) + "' attached to "@ + entity_description_spec(
            entity,
            entity_name@,
        ) + " successfully"@,
{
    let joined = join_names(names, ",");
    let mut m = concat("Policy '", joined.as_str());
    m.append("' attached to ");
    let d = entity_description(entity, entity_name);
    m.append(d.as_str());
    m.append(" successfully");
    m
}


// ---------------------------------------------------------------------------
// Laws of policy lists
// ---------------------------------------------------------------------------

/// Every element of a filtered sequence is an element of the sequence.
proof fn lemma_filter_from(s: Seq<Seq<char>>, pred: spec_fn(Seq<char>) -> bool)
    ensures
        forall|i: int| 0 <= i < s.filter(pred).len() ==> s.contains(#[trigger] s.filter(pred)[i]),
    decreases s.len(),
{
    reveal_with_fuel(Seq::filter, 1);
    if s.len() > 0 {
        lemma_filter_from(s.drop_last(), pred);
        let f = s.filter(pred);
        let g = s.drop_last().filter(pred);
        assert forall|i: int| 0 <= i < f.len() implies s.contains(#[trigger] f[i]) by {
            if i < g.len() {
                assert(f[i] == g[i]);
                let j = choose|j: int| 0 <= j < s.drop_last().len() && s.drop_last()[j] == g[i];
                assert(s[j] == g[i]);
            } else {
                assert(f[i] == s[s.len() - 1]);
            }
        }
    }
}

/// Filtering keeps a sequence whose elements all pass.
proof fn lemma_filter_all(s: Seq<Seq<char>>, pred: spec_fn(Seq<char>) -> bool)
    requires
        forall|i: int| 0 <= i < s.len() ==> pred(#[trigger] s[i]),
    ensures
        s.filter(pred) == s,
    decreases s.len(),
{
    reveal_with_fuel(Seq::filter, 1);
    if s.len() > 0 {
        lemma_filter_all(s.drop_last(), pred);
        assert(pred(s[s.len() - 1]));
        assert(s.drop_last().push(s.last()) =~= s);
    }
}

/// Each policy name of a list is non-empty, holds no comma, and neither
/// starts nor ends with white space.
pub proof fn law_policy_names_shape(s: Seq<char>)
    ensures
        forall|i: int|
            0 <= i < policy_names_spec(s).len() ==> {
                let n = #[trigger] policy_names_spec(s)[i];
                &&& n.len() > 0
                &&& !n.contains(',')
                &&& is_trimmed(n)
            },
{
    let pieces = split_all(s, ',');
    let mapped = pieces.map_values(|p: Seq<char>| trim_ws(p));
    let pred = |p: Seq<char>| p.len() > 0;
    lemma_split_all_pieces(s, ',');
    lemma_filter_from(mapped, pred);
    broadcast use vstd::seq_lib::group_filter_ensures;
    assert forall|i: int| 0 <= i < policy_names_spec(s).len() implies {
        let n = #[trigger] policy_names_spec(s)[i];
        &&& n.len() > 0
        &&& !n.contains(',')
        &&& is_trimmed(n)
    } by {
        let n = policy_names_spec(s)[i];
        assert(mapped.filter(pred)[i] == n);
        assert(mapped.contains(n));
        let j = choose|j: int| 0 <= j < mapped.len() && mapped[j] == n;
        assert(mapped[j] == trim_ws(pieces[j]));
        assert(!pieces[j].contains(','));
        lemma_trim_ws(pieces[j]);
    }
}

/// Names of that shape, joined with commas, are read back as the same list.
pub proof fn law_policy_names_join(names: Seq<Seq<char>>)
    requires
        forall|i: int|
            0 <= i < names.len() ==> {
                let n = #[trigger] names[i];
                &&& n.len() > 0
                &&& !n.contains(',')
                &&& is_trimmed(n)
            },
    ensures
        policy_names_spec(join(names, seq![','])) == names,
{
    let pred = |p: Seq<char>| p.len() > 0;
    if names.len() == 0 {
        let s = join(names, seq![',']);
        assert(s =~= Seq::<char>::empty());
        lemma_first_pos(s, ',');
        assert(split_all(s, ',') =~= seq![s]);
        let mapped = split_all(s, ',').map_values(|p: Seq<char>| trim_ws(p));
        assert(trim_ws(s) =~= Seq::<char>::empty());
        assert(mapped =~= seq![Seq::<char>::empty()]);
        reveal_with_fuel(Seq::filter, 2);
        assert(mapped.drop_last() =~= Seq::<Seq<char>>::empty());
        assert(mapped.filter(pred) =~= names);
    } else {
        lemma_split_join(names, ',');
        let mapped = names.map_values(|p: Seq<char>| trim_ws(p));
        assert forall|i: int| 0 <= i < names.len() implies mapped[i] == names[i] by {
            lemma_trim_ws_trimmed(names[i]);
        }
        assert(mapped =~= names);
        lemma_filter_all(names, pred);
    }
}

/// The target of an attachment is the one that was given: a user given
/// alone is that user, a group given alone is that group, and both or
/// neither give no target.
pub proof fn law_attach_target_follows_flag(name: Seq<char>, other: Seq<char>)
    ensures
        attach_target(Some(name), None) == Some((PolicyEntity::User, name)),
        attach_target(None, Some(name)) == Some((PolicyEntity::Group, name)),
        attach_target(Some(name), Some(other)) is None,
        attach_target(None, None) is None,
{
}

/// A request about a named policy that fails because the policy does not
/// exist is a not-found failure naming the policy, whatever was asked; any
/// other failure is a general error that ends with the server's message.
pub proof fn law_policy_request_failures(request: PolicyRequest, name: Seq<char>, error: String)
    ensures
        policy_request_failure_spec(PolicyRequestError::NotFound, request, name) == (
            ExitCode::NotFound,
            "Policy '"@ + name + "' not found"@,
        ),
        ({
            let (code, message) = policy_request_failure_spec(PolicyRequestError::Other(error), request, name);
            &&& code == ExitCode::GeneralError
            &&& message.len() >= error@.len()
            &&& message.skip(message.len() - error@.len()) == error@
        }),
{
    let (code, message) = policy_request_failure_spec(PolicyRequestError::Other(error), request, name);
    assert(message.skip(message.len() - error@.len()) =~= error@);
}

/// The target of an attachment is described by its kind and quoted name.
pub proof fn law_entity_description(name: Seq<char>)
    ensures
        entity_description_spec(PolicyEntity::User, name) == "user '"@ + name + "'"@,
        entity_description_spec(PolicyEntity::Group, name) == "group '"@ + name + "'"@,
{
}

} // verus!
