use rc::admin::policy::{policy_action_failure, policy_file_failure, PolicyAction};
use rc::admin::policy::policy_list_lines;
use rc::admin::policy::{
    attached_message, check_policy_document, check_policy_name, entity_description, join_names,
    parse_policy_names, policy_done_message, policy_request_failure, prepare_attach, AttachArgs,
    PolicyEntity, PolicyRequest, PolicyRequestError,
};
use rc::admin::{admin_client_failure, AdminClientError};
use rc::exit_code::ExitCode;
use rc::text::trim;

fn attach(user: Option<&str>, group: Option<&str>, policies: &str) -> AttachArgs {
    AttachArgs {
        alias: "a".to_string(),
        policies: policies.to_string(),
        user: user.map(|s| s.to_string()),
        group: group.map(|s| s.to_string()),
    }
}

#[test]
fn policy_names_are_trimmed_and_nonempty() {
    assert_eq!(parse_policy_names(" readonly, ,admin ,\u{3000}diag\t"), vec!["readonly", "admin", "diag"]);
    assert!(parse_policy_names(" , ").is_empty());
    assert_eq!(trim("\n x y \u{2003}"), "x y");
}

#[test]
fn attach_arguments() {
    assert_eq!(prepare_attach(&attach(None, None, "p")).err().unwrap(), "Must specify either --user or --group");
    assert_eq!(prepare_attach(&attach(Some("u"), Some("g"), "p")).err().unwrap(), "Must specify either --user or --group");
    assert_eq!(prepare_attach(&attach(Some("u"), None, " , ")).err().unwrap(), "At least one policy name is required");
    let plan = prepare_attach(&attach(None, Some("devs"), "readonly, admin")).ok().unwrap();
    assert_eq!(plan.entity, PolicyEntity::Group);
    assert_eq!(plan.entity_name, "devs");
    assert_eq!(plan.policy_names, vec!["readonly", "admin"]);
    assert_eq!(join_names(&plan.policy_names, ", "), "readonly, admin");
    assert_eq!(
        attached_message(&plan.policy_names, plan.entity, &plan.entity_name),
        "Policy 'readonly,admin' attached to group 'devs' successfully"
    );
    assert_eq!(entity_description(PolicyEntity::User, "bob"), "user 'bob'");
    assert_eq!(join_names(&[], ","), "");
}

#[test]
fn create_checks() {
    assert_eq!(check_policy_name("").unwrap_err(), "Policy name cannot be empty");
    assert!(check_policy_name("p").is_ok());
    assert!(check_policy_document("{\"Version\":\"2012-10-17\",\"Statement\":[]}").is_ok());
    assert_eq!(check_policy_document("{not json").unwrap_err(), "Policy file is not valid JSON");
    assert_eq!(policy_done_message("p", true), "Policy 'p' created successfully");
    assert_eq!(policy_done_message("p", false), "Policy 'p' removed successfully");
}

#[test]
fn admin_client_failures() {
    let f = admin_client_failure(&AdminClientError::AliasNotFound, "prod");
    assert_eq!((f.code, f.message.as_str()), (ExitCode::NotFound, "Alias 'prod' not found"));
    let f = admin_client_failure(&AdminClientError::AliasesUnavailable("io".to_string()), "prod");
    assert_eq!((f.code, f.message.as_str()), (ExitCode::GeneralError, "Failed to load aliases: io"));
    let f = admin_client_failure(&AdminClientError::AliasLookup("x".to_string()), "prod");
    assert_eq!((f.code, f.message.as_str()), (ExitCode::GeneralError, "Failed to get alias: x"));
    let f = admin_client_failure(&AdminClientError::ClientCreation("y".to_string()), "prod");
    assert_eq!((f.code, f.message.as_str()), (ExitCode::GeneralError, "Failed to create admin client: y"));
}

#[test]
fn policy_names_roundtrip_through_join() {
    let names = vec!["readonly".to_string(), "write only".to_string(), "diag".to_string()];
    assert_eq!(parse_policy_names(&join_names(&names, ",")), names);
    for n in parse_policy_names(" a ,b,, c\t") {
        assert!(!n.is_empty() && !n.contains(',') && n.trim() == n);
    }
}

#[test]
fn policy_request_failures() {
    let f = policy_request_failure(&PolicyRequestError::NotFound, PolicyRequest::Info, "ro");
    assert_eq!(f.code, ExitCode::NotFound);
    assert_eq!(f.message, "Policy 'ro' not found");
    let f = policy_request_failure(&PolicyRequestError::NotFound, PolicyRequest::Remove, "ro");
    assert_eq!(f.code, ExitCode::NotFound);
    assert_eq!(f.message, "Policy 'ro' not found");
    let e = PolicyRequestError::Other("timeout".to_string());
    let f = policy_request_failure(&e, PolicyRequest::Info, "ro");
    assert_eq!(f.code, ExitCode::GeneralError);
    assert_eq!(f.message, "Failed to get policy info: timeout");
    let f = policy_request_failure(&e, PolicyRequest::Remove, "ro");
    assert_eq!(f.code, ExitCode::GeneralError);
    assert_eq!(f.message, "Failed to remove policy: timeout");
}

#[test]
fn trim_knows_unicode_white_space() {
    assert_eq!(trim("\u{3000}\u{85}a b\u{a0}\u{2028}\t"), "a b");
    assert_eq!(trim("\u{200b}a"), "\u{200b}a");
    assert_eq!(trim(" \u{1680}\u{202f}\u{205f}\u{2029}\u{b}\u{c}\r\n"), "");
}

#[test]
fn policy_action_and_file_failures() {
    let f = policy_action_failure(PolicyAction::List, "e");
    assert_eq!((f.code, f.message.as_str()), (ExitCode::GeneralError, "Failed to list policies: e"));
    let f = policy_action_failure(PolicyAction::Create, "e");
    assert_eq!((f.code, f.message.as_str()), (ExitCode::GeneralError, "Failed to create policy: e"));
    let f = policy_action_failure(PolicyAction::Attach, "e");
    assert_eq!((f.code, f.message.as_str()), (ExitCode::GeneralError, "Failed to attach policy: e"));
    let f = policy_file_failure("p.json", "No such file");
    assert_eq!((f.code, f.message.as_str()), (ExitCode::UsageError, "Failed to read policy file 'p.json': No such file"));
}

#[test]
fn policy_list_text() {
    assert_eq!(policy_list_lines(&[]), vec!["No policies found."]);
    let names = vec!["readonly".to_string(), "admin".to_string()];
    assert_eq!(policy_list_lines(&names), vec!["  readonly", "  admin"]);
}
