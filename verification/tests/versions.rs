use rc::version::{version_request_failure, VersionRequest};
use rc::exit_code::ExitCode;
use rc::setup::{Capabilities, SetupEvent, SetupStep};
use rc::size_text::human_size;
use rc::version::{
    size_human_of, version_list_lines, version_row, version_setup_step, versioning_changed_message, versioning_info_lines,
    versioning_label, VersionEntry,
};

#[test]
fn versioning_labels() {
    assert_eq!(versioning_label(Some(true)), "Enabled");
    assert_eq!(versioning_label(Some(false)), "Suspended");
    assert_eq!(versioning_label(None), "Not configured");
    assert_eq!(versioning_changed_message("b", true), "Versioning enabled for bucket 'b'");
    assert_eq!(versioning_changed_message("b", false), "Versioning suspended for bucket 'b'");
    assert_eq!(versioning_info_lines("b", None), vec!["Bucket: b", "Versioning: Not configured"]);
}

#[test]
fn human_sizes() {
    assert_eq!(human_size(1024), "1 KiB");
    assert_eq!(human_size(1536), "1.50 KiB");
    assert_eq!(human_size(10), "10 B");
    assert_eq!(size_human_of(Some(2048)), Some("2 KiB".to_string()));
    assert_eq!(size_human_of(None), None);
}

#[test]
fn version_rows() {
    let v = VersionEntry {
        key: "file.txt".to_string(),
        version_id: "abcdefghijklmnop".to_string(),
        is_latest: true,
        is_delete_marker: false,
        size_bytes: Some(1024),
    };
    assert_eq!(
        version_row(&v),
        format!("{} {:<40} {:>10} {:>12} {}", "*", "file.txt", "abcdefghij", "1 KiB", "")
    );
    let w = VersionEntry {
        key: "ключ".repeat(12),
        version_id: "v1".to_string(),
        is_latest: false,
        is_delete_marker: true,
        size_bytes: None,
    };
    assert_eq!(
        version_row(&w),
        format!("{} {:<40} {:>10} {:>12} {}", " ", "ключ".repeat(12), "v1", "", "[DELETE]")
    );
}

fn failure(step: SetupStep) -> (ExitCode, String) {
    match step {
        SetupStep::Failed(f) => (f.code, f.message),
        _ => panic!("expected a failure"),
    }
}

#[test]
fn version_setup_flow() {
    let none = Capabilities { versioning: false, tagging: false };
    let st = version_setup_step(SetupStep::CreateClient, &SetupEvent::ClientCreated(Ok(())), true, "a", "b");
    assert!(matches!(st, SetupStep::DetectCapabilities));
    let st2 = version_setup_step(SetupStep::DetectCapabilities, &SetupEvent::CapabilitiesDetected(Err("e".to_string())), true, "a", "b");
    assert!(matches!(st2, SetupStep::CheckBucket));
    let st3 = version_setup_step(SetupStep::DetectCapabilities, &SetupEvent::CapabilitiesDetected(Ok(none)), true, "a", "b");
    assert!(matches!(st3, SetupStep::CheckBucket));
    let st4 = version_setup_step(SetupStep::DetectCapabilities, &SetupEvent::CapabilitiesDetected(Ok(none)), false, "a", "b");
    assert_eq!(
        failure(st4),
        (ExitCode::UnsupportedFeature, "Backend does not support versioning. Use --force to attempt anyway.".to_string())
    );
    let st5 = version_setup_step(SetupStep::CheckBucket, &SetupEvent::BucketChecked(Ok(false)), false, "a", "b");
    assert_eq!(failure(st5), (ExitCode::NotFound, "Bucket 'b' does not exist".to_string()));
    let st6 = version_setup_step(SetupStep::CheckBucket, &SetupEvent::BucketChecked(Err("down".to_string())), false, "a", "b");
    assert_eq!(failure(st6), (ExitCode::NetworkError, "Failed to check bucket: down".to_string()));
    let st7 = version_setup_step(SetupStep::CheckBucket, &SetupEvent::BucketChecked(Ok(true)), false, "a", "b");
    assert!(matches!(st7, SetupStep::Ready));
}

#[test]
fn version_list_with_and_without_versions() {
    assert_eq!(version_list_lines(&[]), vec!["No versions found."]);
    let v = |key: &str, latest: bool| VersionEntry {
        key: key.to_string(),
        version_id: "v1".to_string(),
        is_latest: latest,
        is_delete_marker: false,
        size_bytes: None,
    };
    let entries = vec![v("a", true), v("b", false)];
    let lines = version_list_lines(&entries);
    assert_eq!(lines.len(), 3);
    assert_eq!(lines[0], version_row(&entries[0]));
    assert_eq!(lines[1], version_row(&entries[1]));
    assert_eq!(lines[2], "\nTotal: 2 version(s)");
}

#[test]
fn version_request_failures() {
    let cases = [
        (VersionRequest::Enable, "Failed to enable versioning: x"),
        (VersionRequest::Suspend, "Failed to suspend versioning: x"),
        (VersionRequest::Status, "Failed to get versioning status: x"),
        (VersionRequest::List, "Failed to list versions: x"),
    ];
    for (r, m) in cases {
        let f = version_request_failure(r, "x");
        assert_eq!(f.code, ExitCode::GeneralError);
        assert_eq!(f.message, m);
    }
}
