use rc::tag::{tag_request_failure, TagRequest};
use rc::exit_code::{usage_failure, ExitCode};
use rc::setup::{Capabilities, SetupEvent, SetupStep};
use rc::tag::{
    parse_tags, prepare_set_tags, removed_tags_message, set_tags_message, tag_list_lines, tag_setup_step,
    SetTagArgs,
};

fn s(v: &[&str]) -> Vec<String> {
    v.iter().map(|x| x.to_string()).collect()
}

#[test]
fn later_tag_value_wins() {
    let tags = parse_tags(&s(&["k=v", "x=1", "k=w", "e=", "a=b=c"])).unwrap();
    let pairs: Vec<(&str, &str)> = tags.iter().map(|(k, v)| (k.as_str(), v.as_str())).collect();
    assert_eq!(pairs, vec![("k", "w"), ("x", "1"), ("e", ""), ("a", "b=c")]);
}

#[test]
fn tag_errors() {
    assert_eq!(
        parse_tags(&s(&["ok=1", "novalue", "=v"])).unwrap_err(),
        "Invalid tag format: 'novalue' (expected key=value)"
    );
    assert_eq!(parse_tags(&s(&["=v"])).unwrap_err(), "Invalid tag format: '=v' (key cannot be empty)");
}

#[test]
fn set_tags_checks_in_order() {
    let args = SetTagArgs { path: "a/b".to_string(), tags: vec![], force: false };
    assert_eq!(prepare_set_tags(&args).err().unwrap(), "At least one tag is required (--tags key=value)");
    let args = SetTagArgs { path: "a/b".to_string(), tags: s(&["bad"]), force: false };
    assert_eq!(prepare_set_tags(&args).err().unwrap(), "Object key is required (alias/bucket/key)");
    let args = SetTagArgs { path: "a/b/c".to_string(), tags: s(&["bad"]), force: false };
    assert_eq!(prepare_set_tags(&args).err().unwrap(), "Invalid tag format: 'bad' (expected key=value)");
    let args = SetTagArgs { path: "a/b/c/d".to_string(), tags: s(&["k=v", "k=w"]), force: true };
    let plan = prepare_set_tags(&args).ok().unwrap();
    assert_eq!((plan.alias.as_str(), plan.bucket.as_str(), plan.key.as_str()), ("a", "b", "c/d"));
    assert_eq!(plan.tags, vec![("k".to_string(), "w".to_string())]);
}

#[test]
fn tag_listing_lines() {
    assert_eq!(tag_list_lines("a/b/c", &[]), vec!["No tags found."]);
    let tags = vec![("k".to_string(), "v".to_string()), ("x".to_string(), "".to_string())];
    assert_eq!(tag_list_lines("a/b/c", &tags), vec!["Tags for 'a/b/c':", "  k=v", "  x="]);
    assert_eq!(removed_tags_message("a/b/c"), "Removed all tags from 'a/b/c'");
}

fn failure(step: SetupStep) -> (ExitCode, String) {
    match step {
        SetupStep::Failed(f) => (f.code, f.message),
        _ => panic!("expected a failure"),
    }
}

#[test]
fn tag_setup_checks_capabilities_unless_forced() {
    let ev = SetupEvent::AliasesLoaded(Ok(()));
    let st = tag_setup_step(SetupStep::LoadAliases, &ev, false, "al");
    assert!(matches!(st, SetupStep::ResolveAlias));
    let st = tag_setup_step(st, &SetupEvent::AliasResolved(true), false, "al");
    assert!(matches!(st, SetupStep::CreateClient));
    let st2 = tag_setup_step(SetupStep::CreateClient, &SetupEvent::ClientCreated(Ok(())), true, "al");
    assert!(matches!(st2, SetupStep::Ready));
    let st = tag_setup_step(st, &SetupEvent::ClientCreated(Ok(())), false, "al");
    assert!(matches!(st, SetupStep::DetectCapabilities));
    let caps = Capabilities { versioning: true, tagging: false };
    let st = tag_setup_step(st, &SetupEvent::CapabilitiesDetected(Ok(caps)), false, "al");
    assert_eq!(
        failure(st),
        (ExitCode::UnsupportedFeature, "Backend does not support tagging. Use --force to attempt anyway.".to_string())
    );
}

#[test]
fn tag_setup_failures() {
    let st = tag_setup_step(SetupStep::LoadAliases, &SetupEvent::AliasesLoaded(Err("bad toml".to_string())), false, "al");
    assert_eq!(failure(st), (ExitCode::GeneralError, "Failed to load aliases: bad toml".to_string()));
    let st = tag_setup_step(SetupStep::ResolveAlias, &SetupEvent::AliasResolved(false), false, "al");
    assert_eq!(failure(st), (ExitCode::NotFound, "Alias 'al' not found".to_string()));
    let st = tag_setup_step(SetupStep::CreateClient, &SetupEvent::ClientCreated(Err("x".to_string())), false, "al");
    assert_eq!(failure(st), (ExitCode::NetworkError, "Failed to create S3 client: x".to_string()));
    let st = tag_setup_step(SetupStep::DetectCapabilities, &SetupEvent::CapabilitiesDetected(Err("t".to_string())), false, "al");
    assert_eq!(failure(st), (ExitCode::NetworkError, "Failed to detect capabilities: t".to_string()));
    let st = tag_setup_step(SetupStep::Ready, &SetupEvent::AliasResolved(false), false, "al");
    assert!(matches!(st, SetupStep::Ready));
}

#[test]
fn set_tags_message_counts() {
    assert_eq!(set_tags_message(2, "a/b/k"), "Set 2 tag(s) on 'a/b/k'");
    assert_eq!(set_tags_message(0, "x"), "Set 0 tag(s) on 'x'");
    assert_eq!(set_tags_message(1234567, "p"), "Set 1234567 tag(s) on 'p'");
}

#[test]
fn tag_request_failures() {
    let f = tag_request_failure(TagRequest::GetTags, "boom");
    assert_eq!((f.code, f.message.as_str()), (ExitCode::GeneralError, "Failed to get tags: boom"));
    let f = tag_request_failure(TagRequest::SetTags, "boom");
    assert_eq!((f.code, f.message.as_str()), (ExitCode::GeneralError, "Failed to set tags: boom"));
    let f = tag_request_failure(TagRequest::RemoveTags, "");
    assert_eq!((f.code, f.message.as_str()), (ExitCode::GeneralError, "Failed to remove tags: "));
}

#[test]
fn refused_arguments_are_usage_errors() {
    let f = usage_failure("Path cannot be empty".to_string());
    assert_eq!(f.code, ExitCode::UsageError);
    assert_eq!(f.message, "Path cannot be empty");
}
