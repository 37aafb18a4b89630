//! Keys and the entity constructors.

use vaultsync::entity;
use vaultsync::entity::{ensure_valid_key, folder, Entity};
use vaultsync::error::Error;

fn file(key: &str, size: u64, mtime_ms: Option<u64>) -> Entity {
    entity::file(key, size, mtime_ms)
}

#[test]
fn entity_file_helpers() {
    let e = file("a.md", 10, Some(1000));
    assert_eq!(e.key, "a.md");
    assert_eq!(e.size, 10);
    assert_eq!(e.mtime_ms, Some(1000));
    assert_eq!(e.etag, None);
}

#[test]
fn entity_folder_helper_trailing_slash() {
    assert_eq!(folder("notes").key, "notes/");
    assert_eq!(folder("notes/").key, "notes/");
}

#[test]
fn entity_is_folder() {
    assert!(folder("notes").is_folder());
    assert!(!file("notes/a.md", 1, None).is_folder());
}

#[test]
fn entity_reject_dot_segment() {
    let err = ensure_valid_key("foo/./bar").unwrap_err();
    assert!(matches!(err, Error::InvalidKey(_)));
}

#[test]
fn entity_allows_dotfile_name() {
    assert!(ensure_valid_key(".obsidian/app.json").is_ok());
    assert!(ensure_valid_key(".gitignore").is_ok());
}

#[test]
fn entity_reject_empty_segment() {
    let err = ensure_valid_key("foo//bar").unwrap_err();
    assert!(matches!(err, Error::InvalidKey(_)));
}

#[test]
fn entity_reject_dot_match() {
    assert!(ensure_valid_key("foo/.").is_err());
    assert!(ensure_valid_key("foo/..").is_err());
}

#[test]
fn entity_folder_trailing_slash_ok() {
    assert!(ensure_valid_key("notes/").is_ok());
}

#[test]
fn entity_reject_dotdot_segment() {
    let err = ensure_valid_key("foo/../bar.md").unwrap_err();
    assert!(matches!(err, Error::InvalidKey(_)));
}

#[test]
fn entity_reject_dotdot_only() {
    let err = ensure_valid_key("..").unwrap_err();
    assert!(matches!(err, Error::InvalidKey(_)));
}

#[test]
fn entity_reject_dotdot_prefix() {
    let err = ensure_valid_key("../x").unwrap_err();
    assert!(matches!(err, Error::InvalidKey(_)));
}

#[test]
fn entity_reject_leading_slash() {
    let err = ensure_valid_key("/a").unwrap_err();
    assert!(matches!(err, Error::InvalidKey(_)));
}

#[test]
fn entity_reject_backslash() {
    let err = ensure_valid_key("a\\b").unwrap_err();
    assert!(matches!(err, Error::InvalidKey(_)));
}

#[test]
fn entity_reject_control_chars() {
    for key in ["a/\nb", "a/\tb.md", "a/\rb", "a\u{0}b", "a\u{7f}b"] {
        let err = ensure_valid_key(key).unwrap_err();
        assert!(matches!(err, Error::InvalidKey(_)), "key {key:?}");
    }
}

#[test]
fn entity_reject_whitespace_only_segment() {
    for key in ["a/ /b", " /a.md", "a/ ", "\t"] {
        let err = ensure_valid_key(key).unwrap_err();
        assert!(matches!(err, Error::InvalidKey(_)), "key {key:?}");
    }
    assert!(ensure_valid_key("a/ b.md").is_ok());
    assert!(ensure_valid_key("a/b ").is_ok());
}

#[test]
fn entity_reject_empty() {
    let err = ensure_valid_key("").unwrap_err();
    assert!(matches!(err, Error::InvalidKey(_)));
}
