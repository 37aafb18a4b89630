//! The in-memory store, and the inventory protocols over it.

use vaultsync::config::InventoryMode;
use vaultsync::entity;
use vaultsync::error::Error;
use vaultsync::inventory::{
    commit_manifest, load_remote_inventory, repair_manifest, CommitMutation, CommitOutcome,
    InventoryBase, InventorySource, RepairOpts,
};
use vaultsync::local::MANIFEST_KEY;
use vaultsync::manifest::{file_entities_to_manifest, parse_manifest_bytes, serialize_manifest};
use vaultsync::store::mock::{body_fingerprint, MemoryStore};
use vaultsync::store::{CappedWriter, GetOpts, GetOutcome, ObjectStore, PutOpts, Session};

/// A session over a store with the given objects.
fn session(objects: &[(&str, &[u8])]) -> Session<MemoryStore> {
    let mut store = MemoryStore::new();
    for (key, body) in objects {
        store.put_from(key, body, Some(1)).unwrap();
    }
    Session::new(store)
}

/// The manifest body of files of size 1.
fn manifest_body(keys: &[&str]) -> Vec<u8> {
    let files: Vec<entity::Entity> = keys.iter().map(|k| entity::file(k, 1, Some(1))).collect();
    let m = file_entities_to_manifest(&files, 7, None, None).unwrap();
    serialize_manifest(&m).unwrap()
}

/// The keys of the manifest that the store holds.
fn manifest_keys(store: &mut Session<MemoryStore>) -> Vec<String> {
    let (r, w) = store.get_to(MANIFEST_KEY, u64::MAX);
    r.unwrap();
    let m = parse_manifest_bytes(w.bytes()).unwrap();
    m.entries.into_iter().map(|e| e.key).collect()
}

#[test]
fn memory_get_hands_over_the_whole_body_or_trips() {
    let mut store = MemoryStore::new();
    store.put_from("a", b"hello", Some(9)).unwrap();
    let mut w = CappedWriter::new(5);
    let e = store.get_to("a", &mut w).unwrap();
    assert_eq!((e.size, e.mtime_ms), (5, Some(9)));
    assert_eq!(w.bytes().as_slice(), b"hello");
    assert!(!w.is_tripped());
    let mut small = CappedWriter::new(4);
    let err = store.get_to("a", &mut small).unwrap_err();
    assert!(matches!(err, Error::Io(_)), "unexpected: {err:?}");
    assert!(small.is_tripped());
    assert!(small.bytes().is_empty());
    let err = store.get_to("b", &mut w).unwrap_err();
    assert!(matches!(err, Error::NotFound(_)), "unexpected: {err:?}");
    assert_eq!(w.bytes().as_slice(), b"hello");
}

#[test]
fn memory_conditional_get_answers_by_the_etag() {
    let mut store = MemoryStore::new();
    let put = store.put_from("a", b"hello", None).unwrap();
    assert_eq!(put.etag, Some(body_fingerprint(b"hello")));
    let same = GetOpts { if_none_match_etag: put.etag.clone() };
    let mut w = CappedWriter::new(10);
    let r = store.get_to_with("a", &mut w, &same).unwrap();
    assert!(matches!(r, GetOutcome::NotModified(_)), "unexpected: {r:?}");
    assert!(w.bytes().is_empty());
    let other = GetOpts { if_none_match_etag: Some("other".to_string()) };
    let r = store.get_to_with("a", &mut w, &other).unwrap();
    assert!(matches!(r, GetOutcome::Body(_)), "unexpected: {r:?}");
    assert_eq!(w.bytes().as_slice(), b"hello");
    let mut none = CappedWriter::new(2);
    assert!(store.get_to_with("a", &mut none, &other).is_err());
    assert!(none.is_tripped());
    assert!(store.get_to_with("b", &mut w, &same).is_err());
}

#[test]
fn memory_conditional_put_checks_what_is_there() {
    let mut store = MemoryStore::new();
    let create = PutOpts { if_none_match_star: true, ..PutOpts::default() };
    let first = store.put_from_with("a", b"1", &create).unwrap();
    let err = store.put_from_with("a", b"2", &create).unwrap_err();
    assert!(matches!(err, Error::PreconditionFailed(_)), "unexpected: {err:?}");
    let on_first = PutOpts { if_match_etag: first.etag, ..PutOpts::default() };
    store.put_from_with("a", b"3", &on_first).unwrap();
    assert!(store.put_from_with("a", b"4", &on_first).is_err());
    assert!(store.put_from_with("b", b"4", &on_first).is_err());
    let mut w = CappedWriter::new(10);
    store.get_to("a", &mut w).unwrap();
    assert_eq!(w.into_bytes(), b"3".to_vec());
}

#[test]
fn memory_session_answers_as_its_store_does() {
    let mut s = session(&[("a/b", b"x")]);
    let listed: Vec<String> = s.list("").unwrap().entities.into_iter().map(|e| e.key).collect();
    assert_eq!(listed, vec!["a/", "a/b"]);
    assert_eq!(s.head("a/b").unwrap().size, 1);
    s.delete("a/b").unwrap();
    assert!(matches!(s.delete("a/b"), Err(Error::NotFound(_))));
    assert!(s.list("").unwrap().entities.is_empty());
}

#[test]
fn memory_dry_repair_of_an_empty_store_lists_nothing() {
    let mut s = session(&[]);
    let opts = RepairOpts { dry_run: true, force: false };
    let (r, _) = repair_manifest(&mut s, &opts, 5);
    let r = r.unwrap();
    assert_eq!(r.listed, 0);
    assert!(!r.written);
    assert!(r.dry_run);
    assert!(r.etag.is_none());
    assert!(r.warnings.is_empty());
    assert!(s.head(MANIFEST_KEY).is_err());
}

#[test]
fn memory_repair_replaces_whatever_manifest_was_there() {
    let mut s = session(&[("b.md", b"x"), (MANIFEST_KEY, b"garbage")]);
    let opts = RepairOpts { dry_run: false, force: false };
    let (r, _) = repair_manifest(&mut s, &opts, 5);
    let r = r.unwrap();
    assert_eq!((r.listed, r.written), (1, true));
    assert_eq!(r.etag, s.head(MANIFEST_KEY).unwrap().etag);
    assert_eq!(manifest_keys(&mut s), vec!["b.md"]);
}

#[test]
fn memory_load_is_warm_once_a_manifest_is_there() {
    let body = manifest_body(&["c.md", "a/b.md"]);
    let mut s = session(&[("unlisted.md", b"x"), (MANIFEST_KEY, &body)]);
    let (r, _) = load_remote_inventory(&mut s, InventoryMode::Auto, None, 5);
    let inv = r.unwrap();
    let keys: Vec<&str> = inv.entities.iter().map(|e| e.key.as_str()).collect();
    assert_eq!(keys, vec!["a/", "a/b.md", "c.md"]);
    assert_eq!(inv.base.manifest_etag, Some(body_fingerprint(&body)));
    assert!(inv.warnings.is_empty());
}

#[test]
fn memory_load_by_listing_leaves_reserved_keys_out() {
    let mut s = session(&[("c.md", b"x"), ("a/b.md", b"x")]);
    let (r, _) = load_remote_inventory(&mut s, InventoryMode::ListHead, None, 5);
    let inv = r.unwrap();
    let keys: Vec<&str> = inv.base.file_entities.iter().map(|e| e.key.as_str()).collect();
    assert_eq!(keys, vec!["a/b.md", "c.md"]);
    assert_eq!(inv.base.source, InventorySource::LiveListHead);
    assert!(inv.base.manifest_etag.is_none());
    assert!(inv.warnings.is_empty());
    s.put_from(MANIFEST_KEY, b"garbage", None).unwrap();
    let (r, _) = load_remote_inventory(&mut s, InventoryMode::ListHead, None, 5);
    let inv = r.unwrap();
    assert_eq!(inv.base.file_entities.len(), 2);
    assert_eq!(inv.warnings.len(), 1);
}

#[test]
fn memory_commit_on_a_stale_etag_changes_nothing() {
    let body = manifest_body(&["a.md"]);
    let mut s = session(&[(MANIFEST_KEY, &body)]);
    let stale = InventoryBase {
        source: InventorySource::Manifest { remote_etag: Some("stale".to_string()) },
        file_entities: vec![],
        manifest_etag: Some("stale".to_string()),
    };
    let up = [CommitMutation::Upload(entity::file("b.md", 1, None))];
    let (r, _) = commit_manifest(&mut s, &stale, &up, 5);
    assert_eq!(r.unwrap(), CommitOutcome::PreconditionFailed);
    assert_eq!(manifest_keys(&mut s), vec!["a.md"]);
}

#[test]
fn memory_cold_commit_keeps_the_other_writers_file() {
    let body = manifest_body(&["theirs.md"]);
    let mut s = session(&[(MANIFEST_KEY, &body)]);
    let cold = InventoryBase {
        source: InventorySource::LiveListHead,
        file_entities: vec![],
        manifest_etag: None,
    };
    let up = [CommitMutation::Upload(entity::file("ours.md", 1, None))];
    let (r, _) = commit_manifest(&mut s, &cold, &up, 5);
    let etag = s.head(MANIFEST_KEY).unwrap().etag;
    assert_eq!(r.unwrap(), CommitOutcome::Written { etag, entry_count: 2 });
    assert_eq!(manifest_keys(&mut s), vec!["ours.md", "theirs.md"]);
}
