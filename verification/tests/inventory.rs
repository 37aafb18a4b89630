//! The remote inventory: loading, committing, bootstrapping, repairing.

#![allow(dead_code)]

use std::cell::{Cell, RefCell};
use std::rc::Rc;
use vaultsync::config::InventoryMode;
use vaultsync::entity;
use vaultsync::entity::Entity;
use vaultsync::error::Error;
use vaultsync::inventory::{
    apply_commit_mutations, commit_manifest, ensure_remote_manifest, head_then_get_manifest,
    load_remote_inventory, repair_manifest, CacheMeta, CachePaths, CacheSnapshot, CacheUpdate,
    CommitMutation, CommitOutcome, EnsureOutcome, InventoryBase, InventorySource, RemoteInventory,
    RepairOpts, RepairReport, WarmFetch,
};
use vaultsync::local::MANIFEST_KEY;
use vaultsync::manifest::{
    file_entities_to_manifest, parse_manifest_bytes, serialize_manifest, MANIFEST_MAX_BYTES,
};
use vaultsync::store::mock::{body_fingerprint, MemoryStore};
use vaultsync::store::{
    CappedWriter, GetOpts, GetOutcome, Listing, ObjectStore, PutOpts, Session,
};

fn file(key: &str, size: u64, mtime_ms: Option<u64>) -> Entity {
    entity::file(key, size, mtime_ms)
}

type ListHook = fn(Listing) -> Result<Listing, Error>;
type HeadHook = fn(&str) -> Option<Result<Entity, Error>>;
type GetHook = fn(&str, &mut CappedWriter) -> Option<Result<Entity, Error>>;
type PutHook = fn(&str, &PutOpts) -> Option<Error>;

/// A store whose answers can be replaced, and whose requests are counted. Its
/// clones share one [`MemoryStore`].
#[derive(Clone)]
struct Double {
    inner: Rc<RefCell<MemoryStore>>,
    on_list: Option<ListHook>,
    on_head: Option<HeadHook>,
    on_get: Option<GetHook>,
    on_put: Option<PutHook>,
    no_list: bool,
    lists: Rc<Cell<usize>>,
    fetched: Rc<Cell<usize>>,
    /// The requests that may change the store, in their order.
    log: Rc<RefCell<Vec<String>>>,
}

impl Double {
    fn new() -> Self {
        Double {
            inner: Rc::new(RefCell::new(MemoryStore::new())),
            on_list: None,
            on_head: None,
            on_get: None,
            on_put: None,
            no_list: false,
            lists: Rc::new(Cell::new(0)),
            fetched: Rc::new(Cell::new(0)),
            log: Rc::new(RefCell::new(Vec::new())),
        }
    }

    /// Stores an object past the counters.
    fn seed(&self, key: &str, body: &[u8], mtime_ms: Option<u64>) -> Entity {
        self.inner.borrow_mut().put_from(key, body, mtime_ms).unwrap()
    }

    fn body(&self, key: &str) -> Vec<u8> {
        let mut w = CappedWriter::new(u64::MAX);
        self.inner.borrow_mut().get_to(key, &mut w).unwrap();
        w.into_bytes()
    }

    fn stat(&self, key: &str) -> Result<Entity, Error> {
        self.inner.borrow_mut().head(key)
    }

    fn session(&self) -> Session<Double> {
        Session::new(self.clone())
    }
}

impl ObjectStore for Double {
    fn list(&mut self, prefix: &str) -> Result<Listing, Error> {
        if self.no_list {
            panic!("this store must not be listed");
        }
        self.lists.set(self.lists.get() + 1);
        let listing = self.inner.borrow_mut().list(prefix)?;
        match self.on_list {
            Some(h) => h(listing),
            None => Ok(listing),
        }
    }

    fn head(&mut self, key: &str) -> Result<Entity, Error> {
        if let Some(r) = self.on_head.and_then(|h| h(key)) {
            return r;
        }
        self.inner.borrow_mut().head(key)
    }

    fn get_to(&mut self, key: &str, w: &mut CappedWriter) -> Result<Entity, Error> {
        if let Some(r) = self.on_get.and_then(|h| h(key, w)) {
            return r;
        }
        let r = self.inner.borrow_mut().get_to(key, w);
        self.fetched.set(self.fetched.get() + w.bytes().len());
        r
    }

    fn get_to_with(
        &mut self,
        key: &str,
        w: &mut CappedWriter,
        opts: &GetOpts,
    ) -> Result<GetOutcome, Error> {
        if let Some(r) = self.on_get.and_then(|h| h(key, w)) {
            return r.map(GetOutcome::Body);
        }
        let r = self.inner.borrow_mut().get_to_with(key, w, opts);
        self.fetched.set(self.fetched.get() + w.bytes().len());
        r
    }

    fn put_from(&mut self, key: &str, body: &[u8], mtime_ms: Option<u64>) -> Result<Entity, Error> {
        self.log.borrow_mut().push(format!("put {key}"));
        let opts = PutOpts { mtime_ms, ..PutOpts::default() };
        if let Some(e) = self.on_put.and_then(|h| h(key, &opts)) {
            return Err(e);
        }
        self.inner.borrow_mut().put_from(key, body, mtime_ms)
    }

    fn put_from_with(&mut self, key: &str, body: &[u8], opts: &PutOpts) -> Result<Entity, Error> {
        self.log.borrow_mut().push(format!("put {key}"));
        if let Some(e) = self.on_put.and_then(|h| h(key, opts)) {
            return Err(e);
        }
        self.inner.borrow_mut().put_from_with(key, body, opts)
    }

    fn delete(&mut self, key: &str) -> Result<(), Error> {
        self.log.borrow_mut().push(format!("delete {key}"));
        self.inner.borrow_mut().delete(key)
    }
}

fn manifest_body(entries: &[(&str, u64, Option<u64>)]) -> Vec<u8> {
    let files: Vec<Entity> = entries.iter().map(|(k, s, m)| file(k, *s, *m)).collect();
    serialize_manifest(&file_entities_to_manifest(&files, 42, None, None).unwrap()).unwrap()
}

fn load(store: &Double, mode: InventoryMode) -> Result<RemoteInventory, Error> {
    load_remote_inventory(&mut store.session(), mode, None, 7).0
}

/// Loads through a cache, and does to the cache what the load says.
fn load_cached(store: &Double, cache: &mut CacheSnapshot) -> Result<RemoteInventory, Error> {
    let (r, update) = load_remote_inventory(&mut store.session(), InventoryMode::Auto, Some(cache), 7);
    apply(cache, update);
    r
}

fn apply(cache: &mut CacheSnapshot, update: CacheUpdate) {
    match update {
        CacheUpdate::Keep => {}
        CacheUpdate::Invalidate => {
            cache.body = None;
            cache.meta = None;
        }
        CacheUpdate::Fill { body, meta } => {
            cache.body = Some(body);
            cache.meta = Some(meta);
        }
    }
}

fn no_cache() -> CacheSnapshot {
    CacheSnapshot { meta: None, body: None }
}

fn commit(
    store: &Double,
    base: &InventoryBase,
    successes: &[CommitMutation],
) -> Result<CommitOutcome, Error> {
    commit_manifest(&mut store.session(), base, successes, 7).0
}

fn ensure(store: &Double, base: &InventoryBase) -> Result<EnsureOutcome, Error> {
    ensure_remote_manifest(&mut store.session(), base, 7).0
}

fn repair(store: &Double, force: bool, dry_run: bool) -> Result<RepairReport, Error> {
    repair_manifest(&mut store.session(), &RepairOpts { force, dry_run }, 7).0
}

fn cold_base(files: Vec<Entity>) -> InventoryBase {
    InventoryBase {
        source: InventorySource::LiveListHead,
        file_entities: files,
        manifest_etag: None,
    }
}

fn keys(v: &[Entity]) -> Vec<&str> {
    v.iter().map(|e| e.key.as_str()).collect()
}

fn manifest_keys(store: &Double) -> Vec<String> {
    let m = parse_manifest_bytes(&store.body(MANIFEST_KEY)).unwrap();
    assert_eq!(m.entry_count, m.entries.len());
    m.entries.into_iter().map(|e| e.key).collect()
}

#[test]
fn warm_path_reads_manifest_without_list() {
    let mut store = Double::new();
    store.no_list = true;
    let body = manifest_body(&[("notes/a.md", 3, Some(100)), ("b.md", 1, None)]);
    let put = store.seed(MANIFEST_KEY, &body, None);
    let inv = load(&store, InventoryMode::Auto).unwrap();
    assert_eq!(
        inv.base.source,
        InventorySource::Manifest {
            remote_etag: put.etag.clone()
        }
    );
    assert_eq!(inv.base.manifest_etag, put.etag);
    assert_eq!(keys(&inv.base.file_entities), vec!["b.md", "notes/a.md"]);
    assert_eq!(
        keys(&inv.entities),
        vec!["b.md", "notes/", "notes/a.md"],
        "files + synthesized folder view"
    );
    assert!(inv.warnings.is_empty(), "{:?}", inv.warnings);
}

#[test]
fn auto_falls_back_cold_when_manifest_missing() {
    let store = Double::new();
    store.seed("a.md", b"aaa", Some(1_600_000_000_000));
    let inv = load(&store, InventoryMode::Auto).unwrap();
    assert_eq!(inv.base.source, InventorySource::LiveListHead);
    assert_eq!(keys(&inv.base.file_entities), vec!["a.md"]);
    let warn = inv.warnings.join(" ");
    assert!(warn.contains("falling back"), "warnings: {warn}");
    assert!(warn.contains("list+head"), "warnings: {warn}");
}

#[test]
fn auto_falls_back_cold_when_manifest_corrupt() {
    let store = Double::new();
    store.seed(MANIFEST_KEY, b"not json at all", None);
    store.seed("a.md", b"aaa", Some(1_600_000_000_000));
    let inv = load(&store, InventoryMode::Auto).unwrap();
    assert_eq!(inv.base.source, InventorySource::LiveListHead);
    let warn = inv.warnings.join(" ");
    assert!(warn.contains("falling back"), "warnings: {warn}");
    assert!(warn.contains("list+head"), "warnings: {warn}");
}

#[test]
fn auto_missing_manifest_warning_names_absent() {
    let store = Double::new();
    let inv = load(&store, InventoryMode::Auto).unwrap();
    assert_eq!(inv.base.source, InventorySource::LiveListHead);
    let warn = inv.warnings.join(" ");
    assert!(warn.contains("missing"), "warnings: {warn}");
    assert!(
        !warn.contains("corrupt"),
        "missing must not be called corrupt: {warn}"
    );
    assert!(
        !warn.contains("invalid"),
        "missing must not be called invalid: {warn}"
    );
    assert!(warn.contains("push"), "warnings: {warn}");
}

#[test]
fn auto_corrupt_manifest_warning_includes_parse_detail() {
    let store = Double::new();
    store.seed(MANIFEST_KEY, b"not json at all", None);
    let inv = load(&store, InventoryMode::Auto).unwrap();
    assert_eq!(inv.base.source, InventorySource::LiveListHead);
    let warn = inv.warnings.join(" ");
    assert!(
        warn.contains("JSON parse failed"),
        "parse detail must surface: {warn}"
    );
    assert!(warn.contains("falling back"), "warnings: {warn}");
    assert!(warn.contains("push"), "warnings: {warn}");
}

#[test]
fn strict_manifest_mode_surfaces_parse_detail() {
    let store = Double::new();
    store.seed(MANIFEST_KEY, b"not json", None);
    let msg = load(&store, InventoryMode::Manifest).unwrap_err().to_string();
    assert!(
        msg.contains("JSON parse failed"),
        "parse detail must surface in strict error: {msg}"
    );
    assert!(msg.contains("repair"), "error must suggest repair: {msg}");
}

#[test]
fn strict_mode_requires_valid_manifest() {
    let store = Double::new();
    store.seed("a.md", b"aaa", Some(1_600_000_000_000));
    let msg = load(&store, InventoryMode::Manifest).unwrap_err().to_string();
    assert!(msg.contains("repair"), "error must suggest repair: {msg}");

    let store2 = Double::new();
    store2.seed(MANIFEST_KEY, b"not json", None);
    let msg = load(&store2, InventoryMode::Manifest).unwrap_err().to_string();
    assert!(msg.contains("repair"), "error must suggest repair: {msg}");
}

#[test]
fn warm_fetch_non_not_found_fails_closed() {
    let mut store = Double::new();
    store.on_head = Some(|_| Some(Err(Error::Unavailable("store down".to_string()))));
    store.on_get = Some(|_, _| Some(Err(Error::Unavailable("store down".to_string()))));
    let err = load(&store, InventoryMode::Auto).unwrap_err();
    assert!(matches!(err, Error::Unavailable(_)), "got {err:?}");
}

#[test]
fn cold_path_uses_list_and_splits_files_folders() {
    let store = Double::new();
    store.seed("notes/a.md", b"aaa", Some(1_600_000_000_000));
    store.seed(MANIFEST_KEY, b"j", Some(1_600_000_000_000));
    let inv = load(&store, InventoryMode::ListHead).unwrap();
    assert_eq!(
        keys(&inv.entities),
        vec!["notes/", "notes/a.md"],
        "planner input: file + folder view, no control-plane"
    );
    assert_eq!(
        keys(&inv.base.file_entities),
        vec!["notes/a.md"],
        "files-only base"
    );
    assert_eq!(inv.base.source, InventorySource::LiveListHead);
    assert_eq!(inv.base.manifest_etag, None);
    assert!(
        inv.warnings
            .iter()
            .any(|w| w.contains("reserved vaultsync namespace")),
        "control-plane drop must be surfaced: {:?}",
        inv.warnings
    );
}

#[test]
fn commit_apply_upserts_deletes_and_keeps_failed() {
    let base = vec![
        file("a.md", 1, Some(1)),
        file("b.md", 2, Some(2)),
        file("gone.md", 3, Some(3)),
    ];
    let successes = vec![
        CommitMutation::Upload(Entity {
            key: "b.md".to_string(),
            size: 20,
            mtime_ms: Some(200),
            etag: Some("\"new-etag\"".to_string()),
        }),
        CommitMutation::DeleteRemote("gone.md".to_string()),
    ];
    let out = apply_commit_mutations(&base, &successes);
    assert_eq!(keys(&out), vec!["a.md", "b.md"], "sorted unique");
    let b = out.iter().find(|e| e.key == "b.md").unwrap();
    assert_eq!(b.size, 20);
    assert_eq!(b.mtime_ms, Some(200));
    assert_eq!(b.etag.as_deref(), Some("\"new-etag\""));
    let a = out.iter().find(|e| e.key == "a.md").unwrap();
    assert_eq!(a.size, 1, "failed/absent key keeps base entry");
    assert!(!out.iter().any(|e| e.key == "gone.md"));
    let out = apply_commit_mutations(&base, &[CommitMutation::Upload(file("c.md", 4, Some(4)))]);
    assert_eq!(keys(&out), vec!["a.md", "b.md", "c.md", "gone.md"]);
}

#[test]
fn commit_manifest_create_then_if_match_race() {
    let store = Double::new();
    let empty = cold_base(Vec::new());
    let out = commit(&store, &empty, &[]).unwrap();
    assert_eq!(out, CommitOutcome::SkippedNoMutations);
    assert!(matches!(
        store.stat(MANIFEST_KEY).unwrap_err(),
        Error::NotFound(_)
    ));
    let up = CommitMutation::Upload(file("a.md", 5, Some(5)));
    let out = commit(&store, &empty, std::slice::from_ref(&up)).unwrap();
    let (etag1, count1) = match out {
        CommitOutcome::Written { etag, entry_count } => (etag, entry_count),
        other => panic!("expected Written, got {other:?}"),
    };
    assert_eq!(count1, 1);
    let etag1 = etag1.expect("mock returns etags");
    let stale = InventoryBase {
        source: InventorySource::Manifest {
            remote_etag: Some("\"stale\"".to_string()),
        },
        file_entities: vec![file("a.md", 5, Some(5))],
        manifest_etag: Some("\"stale\"".to_string()),
    };
    let out = commit(&store, &stale, std::slice::from_ref(&up)).unwrap();
    assert_eq!(out, CommitOutcome::PreconditionFailed);
    assert_eq!(manifest_keys(&store), vec!["a.md"]);
    let current = InventoryBase {
        source: InventorySource::Manifest {
            remote_etag: Some(etag1.clone()),
        },
        file_entities: vec![file("a.md", 5, Some(5))],
        manifest_etag: Some(etag1.clone()),
    };
    let out = commit(
        &store,
        &current,
        &[CommitMutation::Upload(file("b.md", 7, Some(7)))],
    )
    .unwrap();
    let (etag2, count2) = match out {
        CommitOutcome::Written { etag, entry_count } => (etag, entry_count),
        other => panic!("expected Written, got {other:?}"),
    };
    assert_eq!(count2, 2);
    assert_ne!(etag2, Some(etag1));
    let mut w = CappedWriter::new(MANIFEST_MAX_BYTES);
    let out = store
        .inner
        .borrow_mut()
        .get_to_with(
            MANIFEST_KEY,
            &mut w,
            &GetOpts {
                if_none_match_etag: Some(etag2.clone().unwrap()),
            },
        )
        .unwrap();
    assert!(matches!(out, GetOutcome::NotModified(_)));
}

#[test]
fn commit_manifest_cold_keeps_concurrent_valid_keys() {
    let store = Double::new();
    let their_etag = store
        .seed(MANIFEST_KEY, &manifest_body(&[("b.md", 1, None)]), None)
        .etag;
    let cold = cold_base(vec![file("a.md", 5, Some(5))]);
    let out = commit(
        &store,
        &cold,
        &[CommitMutation::Upload(file("a.md", 5, Some(5)))],
    )
    .unwrap();
    match out {
        CommitOutcome::Written { etag, entry_count } => {
            assert!(etag.is_some());
            assert_eq!(entry_count, 2);
        }
        other => panic!("expected Written, got {other:?}"),
    }
    let put = store.stat(MANIFEST_KEY).unwrap();
    assert_ne!(put.etag, their_etag, "we wrote a new manifest object");
    assert_eq!(
        manifest_keys(&store),
        vec!["a.md", "b.md"],
        "their key must survive"
    );
}

#[test]
fn commit_manifest_cold_base_overwrites_existing_corrupt_body() {
    let store = Double::new();
    store.seed(MANIFEST_KEY, b"this is not a manifest", None);
    let cold = cold_base(vec![file("a.md", 5, Some(5))]);
    let out = commit(
        &store,
        &cold,
        &[CommitMutation::Upload(file("a.md", 5, Some(5)))],
    )
    .unwrap();
    let (etag, count) = match out {
        CommitOutcome::Written { etag, entry_count } => (etag, entry_count),
        other => panic!("expected Written, got {other:?}"),
    };
    assert_eq!(count, 1);
    assert!(etag.is_some(), "mock returns etags");
    assert_eq!(manifest_keys(&store).len(), 1);
}

#[test]
fn commit_manifest_cold_base_creates_when_absent() {
    let store = Double::new();
    let cold = cold_base(Vec::new());
    let out = commit(
        &store,
        &cold,
        &[CommitMutation::Upload(file("a.md", 5, Some(5)))],
    )
    .unwrap();
    match out {
        CommitOutcome::Written { etag, entry_count } => {
            assert!(etag.is_some(), "mock returns etags");
            assert_eq!(entry_count, 1);
        }
        other => panic!("expected Written, got {other:?}"),
    }
}

/// A store whose manifest is too large by its head, and may not be fetched.
fn over_cap_store() -> Double {
    let mut store = Double::new();
    store.on_head = Some(|key| {
        if key != MANIFEST_KEY {
            return None;
        }
        Some(Ok(Entity {
            key: key.to_string(),
            size: MANIFEST_MAX_BYTES + 1,
            mtime_ms: None,
            etag: Some("fake-etag".to_string()),
        }))
    });
    store.on_get = Some(|_, _| panic!("the head already refuses"));
    store
}

#[test]
fn head_then_get_manifest_refuses_over_cap_without_get() {
    match head_then_get_manifest(&mut over_cap_store().session(), 8) {
        Ok(WarmFetch::OverCap(msg)) => {
            assert!(msg.contains("soft cap"), "msg: {msg}");
        }
        other => panic!("expected OverCap, got {other:?}"),
    }
}

#[test]
fn head_then_get_manifest_trips_on_lying_size() {
    let mut store = Double::new();
    store.on_head = Some(|key| {
        Some(Ok(Entity {
            key: key.to_string(),
            size: 4,
            mtime_ms: None,
            etag: Some("fake-etag".to_string()),
        }))
    });
    store.on_get = Some(|key, w| {
        if let Err(e) = w.write(b"0123456789abcdef") {
            return Some(Err(e));
        }
        Some(Ok(Entity {
            key: key.to_string(),
            size: 16,
            mtime_ms: None,
            etag: Some("real-etag".to_string()),
        }))
    });
    match head_then_get_manifest(&mut store.session(), 8) {
        Ok(WarmFetch::OverCap(msg)) => {
            assert!(msg.contains("soft cap"), "msg: {msg}");
        }
        other => panic!("expected OverCap, got {other:?}"),
    }
}

#[test]
fn warm_auto_falls_back_when_head_over_cap() {
    let inv = load(&over_cap_store(), InventoryMode::Auto).unwrap();
    assert_eq!(inv.base.source, InventorySource::LiveListHead);
    let warn = inv.warnings.join(" ");
    assert!(warn.contains("invalid"), "warnings: {warn}");
    assert!(warn.contains("soft cap"), "warnings: {warn}");
}

#[test]
fn strict_manifest_mode_over_cap_is_invalid() {
    let err = load(&over_cap_store(), InventoryMode::Manifest).unwrap_err();
    assert!(
        err.to_string().contains("requires a valid remote manifest"),
        "err: {err:?}"
    );
}

#[test]
fn repair_writes_valid_manifest_from_live_list() {
    let store = Double::new();
    store.seed("notes/a.md", b"aaa", Some(1_600_000_000_000));
    store.seed("b.md", b"j", Some(1_600_000_000_000));
    store.seed(".vaultsync/cache/stale.json", b"stray", None);
    let rep = repair(&store, false, false).unwrap();
    assert_eq!(rep.listed, 2);
    assert!(rep.written);
    assert!(!rep.dry_run);
    assert!(rep.etag.is_some());
    let m = parse_manifest_bytes(&store.body(MANIFEST_KEY)).unwrap();
    let keys: Vec<&str> = m.entries.iter().map(|e| e.key.as_str()).collect();
    assert_eq!(keys, vec!["b.md", "notes/a.md"]);
    assert_eq!(m.entries[0].size, 1);
    assert_eq!(m.entries[1].mtime_ms, Some(1_600_000_000_000));
}

#[test]
fn repair_dry_run_writes_nothing() {
    let store = Double::new();
    store.seed("a.md", b"aaa", Some(1_600_000_000_000));
    let rep = repair(&store, false, true).unwrap();
    assert_eq!(rep.listed, 1);
    assert!(rep.dry_run);
    assert!(!rep.written);
    assert!(matches!(
        store.stat(MANIFEST_KEY).unwrap_err(),
        Error::NotFound(_)
    ));
}

#[test]
fn repair_force_overwrites_existing_manifest() {
    let store = Double::new();
    store.seed("a.md", b"aaa", Some(1_600_000_000_000));
    store.seed(MANIFEST_KEY, b"corrupt", None);
    let rep = repair(&store, false, false).unwrap();
    assert!(rep.written);
    assert_eq!(manifest_keys(&store), vec!["a.md"]);
    store.seed("z.md", b"zzz", Some(2));
    let rep = repair(&store, true, false).unwrap();
    assert!(rep.written);
    assert_eq!(manifest_keys(&store), vec!["a.md", "z.md"]);
}

#[test]
fn repair_force_uses_put_etag_without_trailing_head() {
    let mut store = Double::new();
    store.on_head = Some(|_| Some(Err(Error::Unavailable("head disabled".to_string()))));
    store.seed("a.md", b"hi", Some(1));
    let rep = repair(&store, true, false).unwrap();
    assert!(rep.written);
    assert!(
        rep.etag.is_some(),
        "etag must come from the put result, not a trailing head"
    );
}

#[test]
fn cache_serves_second_load_via_304_without_redownload() {
    let mut cache = no_cache();
    let store = Double::new();
    let body = manifest_body(&[("notes/a.md", 3, Some(100)), ("b.md", 1, None)]);
    let etag = store.seed(MANIFEST_KEY, &body, None).etag.unwrap();

    let inv1 = load_cached(&store, &mut cache).unwrap();
    assert_eq!(
        inv1.base.source,
        InventorySource::Manifest {
            remote_etag: Some(etag.clone())
        }
    );
    assert!(store.fetched.get() > 0, "first load must fetch the body");
    assert_eq!(store.lists.get(), 0, "warm path must not list");
    let fetched1 = store.fetched.get();

    let inv2 = load_cached(&store, &mut cache).unwrap();
    assert_eq!(
        inv2.base.source,
        InventorySource::Manifest {
            remote_etag: Some(etag.clone())
        }
    );
    assert_eq!(
        store.fetched.get(),
        fetched1,
        "second load must not re-download the body (304 + cache)"
    );
    assert_eq!(keys(&inv2.base.file_entities), vec!["b.md", "notes/a.md"]);
}

#[test]
fn cached_garbage_body_304_path_refetches_fresh() {
    let store = Double::new();
    let body = manifest_body(&[("a.md", 3, Some(100))]);
    let etag = store.seed(MANIFEST_KEY, &body, None).etag.unwrap();
    let mut cache = CacheSnapshot {
        meta: Some(CacheMeta {
            remote_etag: Some(etag.clone()),
            fetched_at_ms: 1,
            source_key: MANIFEST_KEY.to_string(),
            body_fnv: body_fingerprint(b"garbage body"),
        }),
        body: Some(b"garbage body".to_vec()),
    };
    let inv = load_cached(&store, &mut cache).unwrap();
    assert_eq!(
        inv.base.source,
        InventorySource::Manifest {
            remote_etag: Some(etag.clone())
        }
    );
    let m = parse_manifest_bytes(&cache.body.expect("cache healed")).unwrap();
    assert_eq!(m.entry_count, 1);
    assert_eq!(m.entries[0].key, "a.md");
}

#[test]
fn cache_body_mismatched_fingerprint_is_invalidated_not_served() {
    let store = Double::new();
    let current = manifest_body(&[("a.md", 3, Some(100))]);
    let etag = store.seed(MANIFEST_KEY, &current, None).etag.unwrap();
    let stale = manifest_body(&[("stale.md", 1, None)]);
    let mut cache = CacheSnapshot {
        meta: Some(CacheMeta {
            remote_etag: Some(etag.clone()),
            fetched_at_ms: 1,
            source_key: MANIFEST_KEY.to_string(),
            body_fnv: body_fingerprint(&current),
        }),
        body: Some(stale),
    };
    let inv = load_cached(&store, &mut cache).unwrap();
    assert_eq!(
        inv.base.source,
        InventorySource::Manifest {
            remote_etag: Some(etag.clone())
        }
    );
    assert_eq!(
        keys(&inv.base.file_entities),
        vec!["a.md"],
        "stale body must not be served"
    );
    let cached = cache.body.expect("cache healed");
    let m = parse_manifest_bytes(&cached).unwrap();
    assert_eq!(m.entries[0].key, "a.md");
    assert_eq!(
        body_fingerprint(&cached),
        cache.meta.unwrap().body_fnv,
        "cache pair must be consistent after healing"
    );
}

#[test]
fn cache_is_never_authority_on_remote_failure() {
    let body = manifest_body(&[("a.md", 3, Some(100))]);
    let cache = CacheSnapshot {
        meta: Some(CacheMeta {
            remote_etag: Some("\"abc\"".to_string()),
            fetched_at_ms: 1,
            source_key: MANIFEST_KEY.to_string(),
            body_fnv: body_fingerprint(&body),
        }),
        body: Some(body),
    };
    let mut failing = Double::new();
    failing.on_get = Some(|_, _| Some(Err(Error::Unavailable("store down".to_string()))));
    let (r, _) =
        load_remote_inventory(&mut failing.session(), InventoryMode::Auto, Some(&cache), 7);
    let err = r.unwrap_err();
    assert!(
        matches!(err, Error::Unavailable(_)),
        "non-NotFound remote failure must fail closed (got {err:?})"
    );
}

#[test]
fn commit_and_repair_refresh_local_cache() {
    let mut cache = no_cache();
    let store = Double::new();
    let base = cold_base(Vec::new());
    let up = CommitMutation::Upload(file("a.md", 5, Some(5)));
    let (out, update) = commit_manifest(&mut store.session(), &base, &[up], 7);
    apply(&mut cache, update);
    let (etag, count) = match out.unwrap() {
        CommitOutcome::Written { etag, entry_count } => (etag, entry_count),
        other => panic!("expected Written, got {other:?}"),
    };
    assert_eq!(count, 1);
    assert_eq!(etag, cache.meta.as_ref().unwrap().remote_etag);
    let m = parse_manifest_bytes(cache.body.as_ref().expect("cache body written")).unwrap();
    assert_eq!(m.entry_count, 1);
    assert_eq!(m.entries[0].key, "a.md");

    store.seed("a.md", b"aaa", Some(5));
    store.seed("b.md", b"bbb", Some(2));
    let opts = RepairOpts { force: false, dry_run: false };
    let (rep, update) = repair_manifest(&mut store.session(), &opts, 7);
    apply(&mut cache, update);
    let rep = rep.unwrap();
    assert!(rep.written);
    assert_eq!(
        rep.etag,
        cache.meta.as_ref().unwrap().remote_etag,
        "repair must refresh the cache etag"
    );
    let m = parse_manifest_bytes(cache.body.as_ref().unwrap()).unwrap();
    assert_eq!(m.entry_count, 2);
}

#[test]
fn ensure_written_empty_create() {
    let store = Double::new();
    let out = ensure(&store, &cold_base(Vec::new())).unwrap();
    let (etag, count) = match out {
        EnsureOutcome::Written { etag, entry_count } => (etag, entry_count),
        other => panic!("expected Written, got {other:?}"),
    };
    assert!(etag.is_some());
    assert_eq!(count, 0);
    let m = parse_manifest_bytes(&store.body(MANIFEST_KEY)).unwrap();
    assert_eq!(m.entry_count, 0);
    assert!(m.entries.is_empty());
    assert_eq!(*store.log.borrow(), vec![format!("put {MANIFEST_KEY}")]);
}

#[test]
fn ensure_written_non_empty_entry_count() {
    let store = Double::new();
    let base = cold_base(vec![file("a.md", 1, None), file("b.md", 2, None)]);
    let out = ensure(&store, &base).unwrap();
    let (etag, count) = match out {
        EnsureOutcome::Written { etag, entry_count } => (etag, entry_count),
        other => panic!("expected Written, got {other:?}"),
    };
    assert!(etag.is_some());
    assert_eq!(count, 2);
    assert_eq!(manifest_keys(&store), vec!["a.md", "b.md"]);
}

#[test]
fn ensure_heals_corrupt_present_and_next_load_warm() {
    let store = Double::new();
    store.seed(MANIFEST_KEY, b"not a manifest", None);
    let out = ensure(&store, &cold_base(vec![file("a.md", 3, Some(1))])).unwrap();
    let (etag, count) = match out {
        EnsureOutcome::Written { etag, entry_count } => (etag, entry_count),
        other => panic!("expected Written, got {other:?}"),
    };
    assert!(etag.is_some());
    assert_eq!(count, 1);
    assert_eq!(manifest_keys(&store), vec!["a.md"]);
    let mut nolist = Double::new();
    nolist.no_list = true;
    nolist.seed(MANIFEST_KEY, &store.body(MANIFEST_KEY), None);
    let inv = load(&nolist, InventoryMode::Auto).unwrap();
    assert!(
        matches!(inv.base.source, InventorySource::Manifest { .. }),
        "healed manifest must be warm authority, got {:?}",
        inv.base.source
    );
}

#[test]
fn ensure_adopts_concurrent_valid_with_zero_puts() {
    let store = Double::new();
    let live_etag = store
        .seed(MANIFEST_KEY, &manifest_body(&[("b.md", 1, None)]), None)
        .etag;
    let out = ensure(&store, &cold_base(vec![file("a.md", 5, Some(5))])).unwrap();
    let (etag, count) = match out {
        EnsureOutcome::Adopted { etag, entry_count } => (etag, entry_count),
        other => panic!("expected Adopted, got {other:?}"),
    };
    assert_eq!(etag, live_etag);
    assert_eq!(count, 1);
    assert!(store.log.borrow().is_empty(), "adopt must not put");
    assert_eq!(manifest_keys(&store), vec!["b.md"]);
}

#[test]
fn ensure_precondition_failed_is_race_as_data() {
    let mut store = Double::new();
    store.on_head = Some(|key| {
        if key == MANIFEST_KEY {
            Some(Err(Error::NotFound(key.to_string())))
        } else {
            None
        }
    });
    store.on_put = Some(|_, opts| {
        if opts.if_none_match_star || opts.if_match_etag.is_some() {
            Some(Error::PreconditionFailed("lost race".to_string()))
        } else {
            None
        }
    });
    store.seed(MANIFEST_KEY, &manifest_body(&[("x.md", 1, None)]), None);
    let (out, kept, update) =
        ensure_remote_manifest(&mut store.session(), &cold_base(Vec::new()), 7);
    assert!(kept.is_none(), "a lost race leaves the base as it was");
    assert_eq!(out.unwrap(), EnsureOutcome::PreconditionFailed);
    assert_eq!(manifest_keys(&store), vec!["x.md"]);
    assert!(
        matches!(update, CacheUpdate::Keep),
        "no cache body on PreconditionFailed"
    );
}

#[test]
fn ensure_fills_cache_on_written_not_adopted() {
    let store = Double::new();
    let base = cold_base(vec![file("a.md", 2, Some(1))]);
    let (out, published, update) = ensure_remote_manifest(&mut store.session(), &base, 7);
    let etag = match out.unwrap() {
        EnsureOutcome::Written { etag, .. } => etag,
        other => panic!("expected Written, got {other:?}"),
    };
    let published = published.unwrap();
    assert_eq!(published.manifest_etag, etag);
    assert_eq!(published.file_entities, base.file_entities);
    match update {
        CacheUpdate::Fill { body, meta } => {
            assert_eq!(body, store.body(MANIFEST_KEY));
            assert_eq!(meta.remote_etag, etag);
            assert_eq!(meta.fetched_at_ms, 7);
            assert_eq!(meta.source_key, MANIFEST_KEY);
            assert_eq!(meta.body_fnv, body_fingerprint(&body));
        }
        other => panic!("expected Fill, got {other:?}"),
    }
    store.seed(MANIFEST_KEY, &manifest_body(&[("b.md", 1, None)]), None);
    let base2 = cold_base(vec![file("c.md", 3, Some(3))]);
    let (out, adopted, update) = ensure_remote_manifest(&mut store.session(), &base2, 7);
    assert!(matches!(out.unwrap(), EnsureOutcome::Adopted { .. }));
    let adopted = adopted.unwrap();
    assert_eq!(adopted.manifest_etag, store.stat(MANIFEST_KEY).unwrap().etag);
    assert_eq!(adopted.file_entities, vec![file("b.md", 1, None)]);
    assert!(matches!(update, CacheUpdate::Keep), "no fill on adopt");
}

#[test]
fn cache_paths_lie_in_the_control_plane() {
    let p = CachePaths::new("/vault");
    assert_eq!(p.body, "/vault/.vaultsync/cache/manifest-v1.json");
    assert_eq!(p.meta, "/vault/.vaultsync/cache/manifest-v1.meta.json");
}

#[test]
fn published_files_come_back_from_the_next_load() {
    let store = Double::new();
    let base = cold_base(Vec::new());
    let ups = [
        CommitMutation::Upload(file("z.md", 9, Some(9))),
        CommitMutation::Upload(file("a/b.md", 1, None)),
    ];
    commit(&store, &base, &ups).unwrap();
    let inv = load(&store, InventoryMode::Manifest).unwrap();
    assert_eq!(
        inv.base.file_entities,
        vec![file("a/b.md", 1, None), file("z.md", 9, Some(9))]
    );
    assert_eq!(store.lists.get(), 0);
}

#[test]
fn warm_and_cold_loads_see_the_same_entities() {
    let store = Double::new();
    store.seed("notes/deep/a.md", b"aaa", Some(5));
    store.seed("b.md", b"b", None);
    let cold = load(&store, InventoryMode::ListHead).unwrap();
    repair(&store, false, false).unwrap();
    let warm = load(&store, InventoryMode::Manifest).unwrap();
    assert_eq!(warm.entities, cold.entities);
    assert_eq!(warm.base.file_entities, cold.base.file_entities);
}

#[test]
fn last_mutation_of_a_key_counts() {
    let out = apply_commit_mutations(
        &[file("k", 1, None)],
        &[
            CommitMutation::DeleteRemote("k".to_string()),
            CommitMutation::Upload(file("k", 2, None)),
            CommitMutation::Upload(file("k", 3, None)),
            CommitMutation::Upload(file("j", 4, None)),
            CommitMutation::DeleteRemote("j".to_string()),
        ],
    );
    assert_eq!(out, vec![file("k", 3, None)]);
}

#[test]
fn commit_without_etag_on_the_live_object_puts_unconditionally() {
    let mut store = Double::new();
    store.on_head = Some(|key| Some(Ok(file(key, 3, None))));
    store.on_put = Some(|_, opts| {
        assert!(opts.if_match_etag.is_none() && !opts.if_none_match_star);
        None
    });
    store.seed(MANIFEST_KEY, b"bad", None);
    let out = commit(
        &store,
        &cold_base(Vec::new()),
        &[CommitMutation::Upload(file("a.md", 5, Some(5)))],
    );
    assert!(matches!(out.unwrap(), CommitOutcome::Written { .. }));
}

#[test]
fn repair_refuses_a_key_that_no_manifest_can_hold() {
    let store = Double::new();
    store.seed("a//b", b"x", None);
    let err = repair(&store, false, false).unwrap_err();
    assert!(matches!(err, Error::InvalidKey(_)), "{err:?}");
    assert!(store.log.borrow().is_empty());
}
