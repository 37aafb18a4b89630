//! The manifest codec.

use vaultsync::entity;
use vaultsync::entity::{folder, Entity};
use vaultsync::error::Error;
use vaultsync::manifest::{
    file_entities_to_manifest, manifest_to_file_entities, parse_manifest_bytes,
    parse_manifest_bytes_with_cap, serialize_manifest, synthesize_folders, ManifestEntry,
    ManifestV1, MANIFEST_SCHEMA,
};
use vaultsync::store::mock::MemoryStore;
use vaultsync::store::ObjectStore;

fn file(key: &str, size: u64, mtime_ms: Option<u64>) -> Entity {
    entity::file(key, size, mtime_ms)
}

#[test]
fn manifest_parse_entry_point_exists() {
    let body =
        br#"{"schema":"vaultsync.manifest.v1","created_ms":0,"entry_count":0,"entries":[]}"#;
    let m = parse_manifest_bytes(body).unwrap();
    assert_eq!(m.schema, MANIFEST_SCHEMA);
    assert!(m.entries.is_empty());
}

#[test]
fn manifest_parse_happy_path_with_entries() {
    let body = br#"{"schema":"vaultsync.manifest.v1","created_ms":1735689600000,"generator":"vaultsync 0.1.0","prefix":"vault/","entry_count":2,"entries":[{"key":"notes/b.md","size":2,"mtime_ms":200,"etag":"\"b\""},{"key":"a.md","size":1,"mtime_ms":100,"etag":"\"a\""}]}"#;
    let m = parse_manifest_bytes(body).unwrap();
    assert_eq!(m.schema, MANIFEST_SCHEMA);
    assert_eq!(m.created_ms, 1735689600000);
    assert_eq!(m.generator.as_deref(), Some("vaultsync 0.1.0"));
    assert_eq!(m.prefix.as_deref(), Some("vault/"));
    assert_eq!(m.entry_count, 2);
    assert_eq!(m.entries.len(), 2);
    let keys: Vec<&str> = m.entries.iter().map(|e| e.key.as_str()).collect();
    assert_eq!(keys, vec!["a.md", "notes/b.md"], "entries must be sorted");
    assert_eq!(m.entries[0].size, 1);
    assert_eq!(m.entries[0].mtime_ms, Some(100));
    assert_eq!(m.entries[0].etag.as_deref(), Some("\"a\""));
}

#[test]
fn manifest_parse_rejects_unknown_schema() {
    let body =
        br#"{"schema":"vaultsync.manifest.v2","created_ms":0,"entry_count":0,"entries":[]}"#;
    let err = parse_manifest_bytes(body).unwrap_err();
    assert!(
        err.to_string().contains("unknown schema"),
        "unexpected: {err:?}"
    );
}

#[test]
fn manifest_parse_rejects_entry_count_mismatch() {
    let body = br#"{"schema":"vaultsync.manifest.v1","created_ms":0,"entry_count":3,"entries":[{"key":"a.md","size":1,"mtime_ms":100}]}"#;
    let err = parse_manifest_bytes(body).unwrap_err();
    assert!(
        err.to_string().contains("entry_count"),
        "unexpected: {err:?}"
    );
}

#[test]
fn manifest_parse_rejects_json_corruption() {
    let err = parse_manifest_bytes(b"not json at all").unwrap_err();
    assert!(err.to_string().contains("corrupt"), "unexpected: {err:?}");
}

#[test]
fn manifest_parse_rejects_duplicate_keys() {
    let body = br#"{"schema":"vaultsync.manifest.v1","created_ms":0,"entry_count":2,"entries":[{"key":"a.md","size":1,"mtime_ms":100},{"key":"a.md","size":2,"mtime_ms":200}]}"#;
    let err = parse_manifest_bytes(body).unwrap_err();
    assert!(err.to_string().contains("duplicate"), "unexpected: {err:?}");
}

#[test]
fn manifest_parse_rejects_folder_key_entry() {
    let body = br#"{"schema":"vaultsync.manifest.v1","created_ms":0,"entry_count":1,"entries":[{"key":"notes/","size":0,"mtime_ms":null}]}"#;
    let err = parse_manifest_bytes(body).unwrap_err();
    assert!(err.to_string().contains("folder"), "unexpected: {err:?}");
}

#[test]
fn manifest_parse_rejects_invalid_entry_key() {
    for key in ["../x", "/abs", "a//b", "a/\nb"] {
        let body = format!(
            r#"{{"schema":"vaultsync.manifest.v1","created_ms":0,"entry_count":1,"entries":[{{"key":{key:?},"size":1,"mtime_ms":100}}]}}"#
        );
        let err = parse_manifest_bytes(body.as_bytes()).unwrap_err();
        assert!(
            matches!(err, Error::InvalidKey(_)),
            "key {key:?} must be rejected, got {err:?}"
        );
    }
}

#[test]
fn manifest_parse_rejects_control_plane_entry() {
    let body = br#"{"schema":"vaultsync.manifest.v1","created_ms":0,"entry_count":1,"entries":[{"key":".vaultsync/manifest/v1.json","size":1,"mtime_ms":100}]}"#;
    let err = parse_manifest_bytes(body).unwrap_err();
    assert!(err.to_string().contains("reserved"), "unexpected: {err:?}");
}

#[test]
fn parse_rejects_unknown_entry_field() {
    let body = br#"{"schema":"vaultsync.manifest.v1","created_ms":0,"entry_count":1,"entries":[{"key":"a.md","size":1,"mTime_ms":100}]}"#;
    let err = parse_manifest_bytes(body).unwrap_err();
    assert!(
        err.to_string().contains("unknown field"),
        "unexpected: {err:?}"
    );
}

#[test]
fn parse_rejects_unknown_top_level_field() {
    let body = br#"{"schema":"vaultsync.manifest.v1","created_ms":0,"entry_count":0,"entries":[],"version":2}"#;
    let err = parse_manifest_bytes(body).unwrap_err();
    assert!(
        err.to_string().contains("unknown field"),
        "unexpected: {err:?}"
    );
}

#[test]
fn manifest_parse_rejects_over_soft_cap() {
    let body =
        br#"{"schema":"vaultsync.manifest.v1","created_ms":0,"entry_count":0,"entries":[]}"#;
    let err = parse_manifest_bytes_with_cap(body, 8).unwrap_err();
    assert!(err.to_string().contains("soft cap"), "unexpected: {err:?}");
}

#[test]
fn manifest_null_mtime_maps_to_none_and_etag_optional() {
    let body = br#"{"schema":"vaultsync.manifest.v1","created_ms":0,"entry_count":2,"entries":[{"key":"a.md","size":1,"mtime_ms":null},{"key":"b.md","size":2,"mtime_ms":200,"etag":"\"b\""}]}"#;
    let m = parse_manifest_bytes(body).unwrap();
    assert_eq!(m.entries[0].mtime_ms, None);
    assert_eq!(m.entries[0].etag, None);
    assert_eq!(m.entries[1].mtime_ms, Some(200));
    assert_eq!(m.entries[1].etag.as_deref(), Some("\"b\""));
}

#[test]
fn manifest_serialize_round_trip_compact_sorted() {
    let m = ManifestV1 {
        schema: MANIFEST_SCHEMA.to_string(),
        created_ms: 1234,
        generator: Some("vaultsync 0.1.0".to_string()),
        prefix: None,
        entry_count: 2,
        entries: vec![
            ManifestEntry {
                key: "z.md".to_string(),
                size: 3,
                mtime_ms: Some(300),
                etag: None,
            },
            ManifestEntry {
                key: "a.md".to_string(),
                size: 1,
                mtime_ms: None,
                etag: Some("\"a\"".to_string()),
            },
        ],
    };
    let bytes = serialize_manifest(&m).unwrap();
    let text = String::from_utf8(bytes.clone()).unwrap();
    assert!(!text.contains('\n'), "compact JSON, got: {text}");
    let back = parse_manifest_bytes(&bytes).unwrap();
    assert_eq!(back.schema, MANIFEST_SCHEMA);
    assert_eq!(back.created_ms, 1234);
    assert_eq!(back.generator.as_deref(), Some("vaultsync 0.1.0"));
    assert_eq!(back.prefix, None);
    let keys: Vec<&str> = back.entries.iter().map(|e| e.key.as_str()).collect();
    assert_eq!(keys, vec!["a.md", "z.md"]);
    assert_eq!(back.entries[0].mtime_ms, None);
    assert_eq!(back.entries[0].etag.as_deref(), Some("\"a\""));
    assert_eq!(back.entries[1].size, 3);
    assert_eq!(back.entries[1].mtime_ms, Some(300));
    assert_eq!(back.entries[1].etag, None);
}

#[test]
fn manifest_to_file_entities_maps_fields() {
    let body = br#"{"schema":"vaultsync.manifest.v1","created_ms":0,"entry_count":2,"entries":[{"key":"a.md","size":1,"mtime_ms":null},{"key":"notes/b.md","size":2,"mtime_ms":200,"etag":"\"b\""}]}"#;
    let m = parse_manifest_bytes(body).unwrap();
    let ents = manifest_to_file_entities(&m).unwrap();
    assert_eq!(ents.len(), 2);
    assert!(!ents.iter().any(|e| e.is_folder()));
    let a = ents.iter().find(|e| e.key == "a.md").unwrap();
    assert_eq!(a.size, 1);
    assert_eq!(a.mtime_ms, None);
    assert_eq!(a.etag, None);
    let b = ents.iter().find(|e| e.key == "notes/b.md").unwrap();
    assert_eq!(b.size, 2);
    assert_eq!(b.mtime_ms, Some(200));
    assert_eq!(b.etag.as_deref(), Some("\"b\""));
}

#[test]
fn synthesize_folders_matches_list_ethos() {
    let files = vec![
        file("a.md", 1, Some(1)),
        file("notes/b.md", 2, Some(2)),
        file("notes/deep/c.md", 3, Some(3)),
    ];
    let folders = synthesize_folders(&files);
    let mut folder_keys: Vec<String> = folders.iter().map(|f| f.key.clone()).collect();
    folder_keys.sort();
    assert_eq!(
        folder_keys,
        vec!["notes/".to_string(), "notes/deep/".to_string()],
        "folder views: {folder_keys:?}"
    );
    assert!(folders.iter().all(|f| f.is_folder() && f.size == 0));
    let mut store = MemoryStore::new();
    for f in &files {
        store.put_from(&f.key, &vec![0u8; f.size as usize], f.mtime_ms).unwrap();
    }
    let listed_folders: Vec<String> = store
        .list("")
        .unwrap()
        .entities
        .into_iter()
        .filter(|e| e.is_folder())
        .map(|e| e.key)
        .collect();
    assert_eq!(
        folder_keys, listed_folders,
        "folder synthesis must match the list ethos"
    );
}

#[test]
fn file_entities_to_manifest_round_trip() {
    let files = vec![
        file("b.md", 2, Some(200)),
        file("a.md", 1, None),
    ];
    let m = file_entities_to_manifest(&files, 42, Some("vaultsync 0.1.0".to_string()), None)
        .unwrap();
    assert_eq!(m.entry_count, 2);
    assert_eq!(m.created_ms, 42);
    assert_eq!(m.generator.as_deref(), Some("vaultsync 0.1.0"));
    let bytes = serialize_manifest(&m).unwrap();
    let back = parse_manifest_bytes(&bytes).unwrap();
    let ents = manifest_to_file_entities(&back).unwrap();
    let keys: Vec<&str> = ents.iter().map(|e| e.key.as_str()).collect();
    assert_eq!(keys, vec!["a.md", "b.md"], "sorted by key");
    assert_eq!(ents[0].mtime_ms, None);
    assert_eq!(ents[1].mtime_ms, Some(200));
}

#[test]
fn file_entities_to_manifest_rejects_folder_entities() {
    let files = vec![folder("notes")];
    let err = file_entities_to_manifest(&files, 0, None, None).unwrap_err();
    assert!(err.to_string().contains("folder"), "unexpected: {err:?}");
}

#[test]
fn written_manifest_is_one_line_and_reads_back_in_any_order() {
    let entry = |key: &str| ManifestEntry {
        key: key.to_string(),
        size: 3,
        mtime_ms: Some(4),
        etag: Some("line\nbreak \u{1}\t\"".to_string()),
    };
    let of = |keys: &[&str]| ManifestV1 {
        schema: MANIFEST_SCHEMA.to_string(),
        created_ms: 5,
        generator: Some("two\nlines\r".to_string()),
        prefix: None,
        entry_count: keys.len(),
        entries: keys.iter().map(|k| entry(k)).collect(),
    };
    let body = serialize_manifest(&of(&["z", "a/b", "m"])).unwrap();
    assert!(!body.contains(&b'\n'));
    assert_eq!(body, serialize_manifest(&of(&["m", "z", "a/b"])).unwrap());
    assert_eq!(parse_manifest_bytes(&body).unwrap(), of(&["a/b", "m", "z"]));
}
