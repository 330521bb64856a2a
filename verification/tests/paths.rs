use rc::tag::parse_object_path;
use rc::tree::parse_tree_path;
use rc::version::{parse_bucket_path, parse_version_path};

#[test]
fn test_parse_object_path() {
    let (alias, bucket, key) = parse_object_path("myalias/mybucket/path/to/file.txt").unwrap();
    assert_eq!(alias, "myalias");
    assert_eq!(bucket, "mybucket");
    assert_eq!(key, "path/to/file.txt");
}

#[test]
fn test_parse_object_path_errors() {
    assert!(parse_object_path("").is_err());
    assert!(parse_object_path("myalias").is_err());
    assert!(parse_object_path("myalias/mybucket").is_err());
    assert!(parse_object_path("myalias/mybucket/").is_err());
}

#[test]
fn test_parse_tree_path() {
    let (alias, bucket, prefix) = parse_tree_path("myalias/mybucket").unwrap();
    assert_eq!(alias, "myalias");
    assert_eq!(bucket, "mybucket");
    assert!(prefix.is_none());
}

#[test]
fn test_parse_tree_path_with_prefix() {
    let (alias, bucket, prefix) = parse_tree_path("myalias/mybucket/path/to").unwrap();
    assert_eq!(alias, "myalias");
    assert_eq!(bucket, "mybucket");
    assert_eq!(prefix, Some("path/to".to_string()));
}

#[test]
fn test_parse_tree_path_errors() {
    assert!(parse_tree_path("").is_err());
    assert!(parse_tree_path("myalias").is_err());
}

#[test]
fn test_parse_bucket_path() {
    let (alias, bucket) = parse_bucket_path("myalias/mybucket").unwrap();
    assert_eq!(alias, "myalias");
    assert_eq!(bucket, "mybucket");

    let (alias, bucket) = parse_bucket_path("myalias/mybucket/").unwrap();
    assert_eq!(alias, "myalias");
    assert_eq!(bucket, "mybucket");
}

#[test]
fn test_parse_bucket_path_errors() {
    assert!(parse_bucket_path("").is_err());
    assert!(parse_bucket_path("myalias").is_err());
    assert!(parse_bucket_path("myalias/").is_err());
}

#[test]
fn test_parse_version_path() {
    let (alias, bucket, prefix) = parse_version_path("myalias/mybucket").unwrap();
    assert_eq!(alias, "myalias");
    assert_eq!(bucket, "mybucket");
    assert!(prefix.is_none());

    let (alias, bucket, prefix) = parse_version_path("myalias/mybucket/path/to").unwrap();
    assert_eq!(alias, "myalias");
    assert_eq!(bucket, "mybucket");
    assert_eq!(prefix, Some("path/to".to_string()));
}

#[test]
fn path_error_messages() {
    assert_eq!(parse_object_path("").unwrap_err(), "Path cannot be empty");
    assert_eq!(parse_object_path("a/b").unwrap_err(), "Object key is required (alias/bucket/key)");
    assert_eq!(parse_tree_path("a").unwrap_err(), "Bucket name is required");
    assert_eq!(parse_bucket_path("a/").unwrap_err(), "Bucket name is required (alias/bucket)");
    assert_eq!(parse_version_path("").unwrap_err(), "Path cannot be empty");
}

#[test]
fn object_path_key_keeps_slashes_and_roundtrips() {
    let (a, b, k) = parse_object_path("x/y/z/").unwrap();
    assert_eq!((a.as_str(), b.as_str(), k.as_str()), ("x", "y", "z/"));
    assert_eq!(format!("{a}/{b}/{k}"), "x/y/z/");
    let (a, b, k) = parse_object_path("al/bu/k").unwrap();
    assert_eq!(format!("{a}/{b}/{k}"), "al/bu/k");
}

#[test]
fn prefixed_paths_keep_empty_parts() {
    let (a, b, p) = parse_tree_path("a//x").unwrap();
    assert_eq!((a.as_str(), b.as_str(), p), ("a", "", Some("x".to_string())));
    let (_, _, p) = parse_version_path("a/b/").unwrap();
    assert_eq!(p, Some(String::new()));
    assert_eq!(parse_tree_path("a/b/c/d"), parse_version_path("a/b/c/d"));
}

#[test]
fn bucket_path_trailing_slashes_are_dropped() {
    assert_eq!(parse_bucket_path("a/b///").unwrap(), ("a".to_string(), "b".to_string()));
    assert_eq!(parse_bucket_path("a/b/c").unwrap(), ("a".to_string(), "b/c".to_string()));
    assert_eq!(parse_bucket_path("a//"), Err("Bucket name is required (alias/bucket)".to_string()));
    assert_eq!(parse_bucket_path("myalias///"), Err("Bucket name is required (alias/bucket)".to_string()));
    assert_eq!(parse_bucket_path("a/b"), parse_bucket_path("a/b/"));
}

#[test]
fn paths_with_unicode() {
    let (a, b, k) = parse_object_path("älias/bücket/ключ/файл").unwrap();
    assert_eq!((a.as_str(), b.as_str(), k.as_str()), ("älias", "bücket", "ключ/файл"));
}
