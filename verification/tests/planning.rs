//! Planning against a store, and the connectivity check.

#![allow(dead_code)]

use std::cell::{Cell, RefCell};
use std::collections::{BTreeMap, BTreeSet};
use std::rc::Rc;
use vaultsync::config::InventoryMode;
use vaultsync::entity;
use vaultsync::entity::{ensure_valid_key, folder, Entity};
use vaultsync::error::Error;
use vaultsync::inventory::{InventoryBase, InventorySource, RemoteInventory};
use vaultsync::local::{LinkTarget, LocalFs, NodeKind, NodeStat, PathPart, WalkStep};
use vaultsync::plan::{ActionKind, Mode, Plan, PlanOpts};
use vaultsync::store::mock::MemoryStore;
use vaultsync::store::{
    CappedWriter, GetOpts, GetOutcome, Listing, ObjectStore, PutOpts, Session,
};
use vaultsync::{
    build_plan, check_store, format_plan_human, format_plan_human_verbose, is_reserved_key,
    partition_ignored_remote_keys, partition_reserved_remote_keys, plan_inventory, probe_key,
    status_with_store, version, IgnoreSet, PlanReport,
};

fn file(key: &str, size: u64, mtime_ms: Option<u64>) -> Entity {
    entity::file(key, size, mtime_ms)
}

type ListHook = fn(Listing) -> Result<Listing, Error>;
type HeadHook = fn(&str) -> Option<Result<Entity, Error>>;
type GetHook = fn(&str, &mut CappedWriter) -> Option<Result<Entity, Error>>;
type PutHook = fn(&str, &PutOpts) -> Option<Error>;

/// A store whose answers can be replaced, and whose requests are counted. Its
/// clones share one [`MemoryStore`].
#[derive(Clone)]
struct Double {
    inner: Rc<RefCell<MemoryStore>>,
    on_list: Option<ListHook>,
    on_head: Option<HeadHook>,
    on_get: Option<GetHook>,
    on_put: Option<PutHook>,
    no_list: bool,
    lists: Rc<Cell<usize>>,
    fetched: Rc<Cell<usize>>,
    /// The requests that may change the store, in their order.
    log: Rc<RefCell<Vec<String>>>,
}

impl Double {
    fn new() -> Self {
        Double {
            inner: Rc::new(RefCell::new(MemoryStore::new())),
            on_list: None,
            on_head: None,
            on_get: None,
            on_put: None,
            no_list: false,
            lists: Rc::new(Cell::new(0)),
            fetched: Rc::new(Cell::new(0)),
            log: Rc::new(RefCell::new(Vec::new())),
        }
    }

    /// Stores an object past the counters.
    fn seed(&self, key: &str, body: &[u8], mtime_ms: Option<u64>) -> Entity {
        self.inner.borrow_mut().put_from(key, body, mtime_ms).unwrap()
    }

    fn body(&self, key: &str) -> Vec<u8> {
        let mut w = CappedWriter::new(u64::MAX);
        self.inner.borrow_mut().get_to(key, &mut w).unwrap();
        w.into_bytes()
    }

    fn stat(&self, key: &str) -> Result<Entity, Error> {
        self.inner.borrow_mut().head(key)
    }

    fn session(&self) -> Session<Double> {
        Session::new(self.clone())
    }
}

impl ObjectStore for Double {
    fn list(&mut self, prefix: &str) -> Result<Listing, Error> {
        if self.no_list {
            panic!("this store must not be listed");
        }
        self.lists.set(self.lists.get() + 1);
        let listing = self.inner.borrow_mut().list(prefix)?;
        match self.on_list {
            Some(h) => h(listing),
            None => Ok(listing),
        }
    }

    fn head(&mut self, key: &str) -> Result<Entity, Error> {
        if let Some(r) = self.on_head.and_then(|h| h(key)) {
            return r;
        }
        self.inner.borrow_mut().head(key)
    }

    fn get_to(&mut self, key: &str, w: &mut CappedWriter) -> Result<Entity, Error> {
        if let Some(r) = self.on_get.and_then(|h| h(key, w)) {
            return r;
        }
        let r = self.inner.borrow_mut().get_to(key, w);
        self.fetched.set(self.fetched.get() + w.bytes().len());
        r
    }

    fn get_to_with(
        &mut self,
        key: &str,
        w: &mut CappedWriter,
        opts: &GetOpts,
    ) -> Result<GetOutcome, Error> {
        if let Some(r) = self.on_get.and_then(|h| h(key, w)) {
            return r.map(GetOutcome::Body);
        }
        let r = self.inner.borrow_mut().get_to_with(key, w, opts);
        self.fetched.set(self.fetched.get() + w.bytes().len());
        r
    }

    fn put_from(&mut self, key: &str, body: &[u8], mtime_ms: Option<u64>) -> Result<Entity, Error> {
        self.log.borrow_mut().push(format!("put {key}"));
        let opts = PutOpts { mtime_ms, ..PutOpts::default() };
        if let Some(e) = self.on_put.and_then(|h| h(key, &opts)) {
            return Err(e);
        }
        self.inner.borrow_mut().put_from(key, body, mtime_ms)
    }

    fn put_from_with(&mut self, key: &str, body: &[u8], opts: &PutOpts) -> Result<Entity, Error> {
        self.log.borrow_mut().push(format!("put {key}"));
        if let Some(e) = self.on_put.and_then(|h| h(key, opts)) {
            return Err(e);
        }
        self.inner.borrow_mut().put_from_with(key, body, opts)
    }

    fn delete(&mut self, key: &str) -> Result<(), Error> {
        self.log.borrow_mut().push(format!("delete {key}"));
        self.inner.borrow_mut().delete(key)
    }
}

/// A vault held in memory: its nodes by path. Folders above a node need no
/// node of their own.
#[derive(Clone)]
enum Node {
    File(Vec<u8>, u64),
    Dir,
    Link(String),
    Special,
}

#[derive(Clone, Default)]
struct Vault {
    nodes: BTreeMap<String, Node>,
}

impl Vault {
    fn with(files: &[(&str, &str, u64)]) -> Self {
        let mut v = Vault::default();
        for (path, body, mtime) in files {
            v.write(path, body.as_bytes(), *mtime);
        }
        v
    }

    fn write(&mut self, path: &str, body: &[u8], mtime: u64) {
        self.nodes
            .insert(path.to_string(), Node::File(body.to_vec(), mtime));
    }

    fn link(&mut self, path: &str, target: &str) {
        self.nodes
            .insert(path.to_string(), Node::Link(target.to_string()));
    }

    /// The node at a path; `""` is the root.
    fn at(&self, path: &str) -> Option<Node> {
        let below = format!("{path}/");
        match self.nodes.get(path) {
            Some(n) => Some(n.clone()),
            None if path.is_empty() || self.nodes.keys().any(|k| k.starts_with(&below)) => {
                Some(Node::Dir)
            }
            None => None,
        }
    }

    /// The names in a directory.
    fn names(&self, dir: &str) -> BTreeSet<String> {
        let base = if dir.is_empty() { String::new() } else { format!("{dir}/") };
        self.nodes
            .keys()
            .filter_map(|k| k.strip_prefix(&base))
            .filter(|rest| !rest.is_empty())
            .map(|rest| rest.split('/').next().unwrap().to_string())
            .collect()
    }

    /// Walks the vault, doing what the walk says.
    fn walk(&self, fs: LocalFs) -> Result<LocalFs, Error> {
        let mut fs = fs;
        self.walk_dir(&mut fs, "", "")?;
        Ok(fs)
    }

    /// `seen` is the directory's path as the walk sees it, `real` where it is.
    fn walk_dir(&self, fs: &mut LocalFs, seen: &str, real: &str) -> Result<(), Error> {
        for name in self.names(real) {
            let path = if seen.is_empty() { name.clone() } else { format!("{seen}/{name}") };
            let mut place = if real.is_empty() { name.clone() } else { format!("{real}/{name}") };
            let parts: Vec<PathPart> = path
                .split('/')
                .map(|p| PathPart::Normal(p.to_string()))
                .collect();
            let shown = format!("{path:?}");
            let mut node = self.at(&place);
            let kind = match &node {
                Some(Node::File(..)) => NodeKind::File,
                Some(Node::Dir) => NodeKind::Dir,
                Some(Node::Link(_)) => NodeKind::Symlink,
                _ => NodeKind::Special,
            };
            let mut step = fs.visit(&parts, &shown, kind)?;
            if let (WalkStep::Resolve, Some(Node::Link(to))) = (&step, &node) {
                let target = match self.at(to) {
                    _ if to.starts_with('/') => LinkTarget::Outside,
                    None => LinkTarget::Missing,
                    Some(Node::Dir) => LinkTarget::Dir(format!("/vault/{to}")),
                    Some(Node::File(..)) => LinkTarget::File,
                    Some(_) => LinkTarget::Special,
                };
                step = fs.follow_link(&parts, &shown, &target)?;
                place = to.clone();
                node = self.at(&place);
            }
            if let WalkStep::Stat { key, folder } = step {
                let stat = match &node {
                    Some(Node::File(body, mtime)) => Some(NodeStat {
                        size: body.len() as u64,
                        mtime_ms: Some(*mtime),
                    }),
                    Some(_) => Some(NodeStat {
                        size: 4096,
                        mtime_ms: Some(1),
                    }),
                    None => None,
                };
                fs.record(&key, folder, stat);
                if folder {
                    self.walk_dir(fs, &path, &place)?;
                }
            }
        }
        Ok(())
    }

}

/// A store with a fixed listing and no objects.
struct StubStore {
    listed: Vec<Entity>,
}

impl ObjectStore for StubStore {
    fn list(&mut self, _prefix: &str) -> Result<Listing, Error> {
        Ok(Listing {
            entities: self.listed.clone(),
            warnings: Vec::new(),
        })
    }

    fn head(&mut self, key: &str) -> Result<Entity, Error> {
        Err(Error::NotFound(key.to_string()))
    }

    fn get_to(&mut self, key: &str, _w: &mut CappedWriter) -> Result<Entity, Error> {
        Err(Error::NotFound(key.to_string()))
    }

    fn put_from(&mut self, _: &str, _: &[u8], _: Option<u64>) -> Result<Entity, Error> {
        Err(Error::Other("stub".to_string()))
    }

    fn delete(&mut self, key: &str) -> Result<(), Error> {
        Err(Error::NotFound(key.to_string()))
    }
}

fn report<S: ObjectStore>(
    fs: &LocalFs,
    store: S,
    mode: Mode,
    opts: &PlanOpts,
) -> Result<PlanReport, Error> {
    let mut session = Session::new(store);
    let ignore = IgnoreSet::empty();
    build_plan(fs, &mut session, mode, opts, &ignore, InventoryMode::ListHead, None, 7).0
}

fn planned<S: ObjectStore>(fs: &LocalFs, store: S, mode: Mode) -> Plan {
    report(fs, store, mode, &PlanOpts::default()).unwrap().plan
}

fn empty_vault() -> LocalFs {
    LocalFs::new("/vault")
}

fn walked(files: &[(&str, &str, u64)]) -> LocalFs {
    Vault::with(files).walk(LocalFs::new("/vault")).unwrap()
}

fn keys(v: &[Entity]) -> Vec<&str> {
    v.iter().map(|e| e.key.as_str()).collect()
}

#[test]
fn partition_reserved_drops_trailing_slash_reserved_folder() {
    let all = vec![
        folder(".vaultsync-check-1"),
        folder("a/.name.vaultsync-tmp-1-2"),
        folder("notes"),
    ];
    let (kept, dropped) = partition_reserved_remote_keys(all);
    assert_eq!(keys(&kept), vec!["notes/"]);
    assert_eq!(
        keys(&dropped),
        vec![".vaultsync-check-1/", "a/.name.vaultsync-tmp-1-2/"]
    );
}

#[test]
fn partition_reserved_remote_keys_splits_and_preserves_order() {
    let all = vec![
        file("a.md", 1, Some(1)),
        file(".a.md.vaultsync-tmp-1-2", 2, Some(2)),
        file("notes/.vaultsync-check-1-2-3", 3, Some(3)),
        file("b.md", 4, Some(4)),
        file("notes/.b.md.vaultsync-tmp-5-6", 5, Some(5)),
    ];
    let (kept, dropped) = partition_reserved_remote_keys(all);
    assert_eq!(keys(&kept), vec!["a.md", "b.md"], "kept order wrong");
    assert_eq!(
        keys(&dropped),
        vec![
            ".a.md.vaultsync-tmp-1-2",
            "notes/.vaultsync-check-1-2-3",
            "notes/.b.md.vaultsync-tmp-5-6"
        ],
        "dropped order wrong"
    );
}

#[test]
fn build_plan_drops_reserved_remote_keys_unchanged() {
    let store = StubStore {
        listed: vec![
            file(".a.md.vaultsync-tmp-1-2", 25, Some(100)),
            file("notes/.vaultsync-check-1-2-3", 25, Some(100)),
            file("ok.md", 25, Some(100)),
        ],
    };
    let p = planned(&empty_vault(), store, Mode::Pull);
    assert!(
        !p.actions.iter().any(|a| {
            a.key == ".a.md.vaultsync-tmp-1-2" || a.key == "notes/.vaultsync-check-1-2-3"
        }),
        "reserved keys planned: {:?}",
        p.actions
    );
    assert!(p.actions.iter().any(|a| a.key == "ok.md"));
}

#[test]
fn build_plan_surfaces_reserved_namespace_warning_in_report() {
    let store = Double::new();
    store.seed(".vaultsync-check-1-2-3", b"x", None);
    let report = report(&empty_vault(), store, Mode::Pull, &PlanOpts::default()).unwrap();
    assert!(
        report
            .warnings
            .iter()
            .any(|w| w.contains("reserved vaultsync namespace")
                && w.contains(".vaultsync-check-1-2-3")),
        "reserved-namespace warning missing: {:?}",
        report.warnings
    );
    assert!(
        !report
            .plan
            .actions
            .iter()
            .any(|a| a.key.starts_with(".vaultsync-check-")),
        "reserved key planned: {:?}",
        report.plan.actions
    );
}

#[test]
fn build_plan_ignores_remote_check_probe_leftovers() {
    let store = StubStore {
        listed: vec![file(".vaultsync-check-1-2-3", 25, Some(100))],
    };
    let p = planned(&empty_vault(), store, Mode::Pull);
    assert!(
        !p.actions
            .iter()
            .any(|a| a.key.starts_with(".vaultsync-check-")),
        "probe leftover planned: {:?}",
        p.actions
    );
}

#[test]
fn build_plan_drops_nested_remote_check_probe_key() {
    let store = StubStore {
        listed: vec![file("notes/.vaultsync-check-1-2-3", 25, Some(100))],
    };
    let p = planned(&empty_vault(), store, Mode::Pull);
    assert!(
        !p.actions
            .iter()
            .any(|a| a.key == "notes/.vaultsync-check-1-2-3"),
        "nested probe leftover planned: {:?}",
        p.actions
    );
}

#[test]
fn build_plan_remote_tmp_sibling_never_downloads() {
    let store = StubStore {
        listed: vec![
            file(".a.md.vaultsync-tmp-1-2", 25, Some(100)),
            file("notes/.a.md.vaultsync-tmp-3-4", 25, Some(100)),
        ],
    };
    let p = planned(&empty_vault(), store, Mode::Pull);
    assert!(
        !p.actions.iter().any(|a| {
            a.key == ".a.md.vaultsync-tmp-1-2" || a.key == "notes/.a.md.vaultsync-tmp-3-4"
        }),
        "tmp-sibling key planned: {:?}",
        p.actions
    );
}

#[test]
fn build_plan_push_skips_followed_symlink_files() {
    let mut vault = Vault::with(&[("real.md", "r", 5), ("realdir/child.md", "c", 5)]);
    vault.link("link.md", "real.md");
    vault.link("linkdir", "realdir");
    let fs = vault.walk(LocalFs::with_follow("/vault", true)).unwrap();
    let p = planned(&fs, MemoryStore::new(), Mode::Push);
    let link = p.actions.iter().find(|a| a.key == "link.md").unwrap();
    assert_eq!(link.kind, ActionKind::Skip, "{:?}", link);
    assert_eq!(link.reason, "followed_symlink");
    let real = p.actions.iter().find(|a| a.key == "real.md").unwrap();
    assert_eq!(real.kind, ActionKind::Upload, "{:?}", real);
    let child = p
        .actions
        .iter()
        .find(|a| a.key == "linkdir/child.md")
        .unwrap();
    assert_eq!(child.kind, ActionKind::Upload, "dir child must transfer");
}

#[test]
fn build_plan_pull_skips_followed_symlink_downloads() {
    let base = 1_700_000_000_000u64;
    let mut vault = Vault::with(&[("real.md", "r", base)]);
    vault.link("link.md", "real.md");
    let fs = vault.walk(LocalFs::with_follow("/vault", true)).unwrap();
    let store = Double::new();
    store.seed("link.md", b"remote-new", Some(base + 1_000_000));
    store.seed("real.md", b"r", Some(1));
    let p = planned(&fs, store, Mode::Pull);
    let link = p
        .actions
        .iter()
        .find(|a| a.key == "link.md")
        .expect("link.md action");
    assert_eq!(link.kind, ActionKind::Skip, "{:?}", link);
    assert_eq!(link.reason, "followed_symlink");
}

#[test]
fn build_plan_pull_delete_skips_followed_symlink_files() {
    let mut vault = Vault::with(&[("real.md", "r", 5)]);
    vault.link("link.md", "real.md");
    let fs = vault.walk(LocalFs::with_follow("/vault", true)).unwrap();
    let opts = PlanOpts {
        delete: true,
        ..Default::default()
    };
    let p = report(&fs, MemoryStore::new(), Mode::Pull, &opts).unwrap().plan;
    let link = p.actions.iter().find(|a| a.key == "link.md").unwrap();
    assert_eq!(link.kind, ActionKind::Skip, "{:?}", link);
    assert_eq!(link.reason, "followed_symlink");
}

#[test]
fn build_plan_status_keeps_followed_symlink_rows() {
    let mut vault = Vault::with(&[("real.md", "r", 5)]);
    vault.link("link.md", "real.md");
    let fs = vault.walk(LocalFs::with_follow("/vault", true)).unwrap();
    let p = planned(&fs, MemoryStore::new(), Mode::Status);
    let link = p.actions.iter().find(|a| a.key == "link.md").unwrap();
    assert_eq!(
        link.kind,
        ActionKind::Upload,
        "status must keep inventory row: {:?}",
        link
    );
}

#[test]
fn build_plan_ignores_exact_prefix_marker_object() {
    let store = StubStore {
        listed: vec![Entity {
            key: "".to_string(),
            size: 0,
            mtime_ms: Some(123),
            etag: None,
        }],
    };
    let p = planned(&empty_vault(), store, Mode::Status);
    assert!(
        !p.actions.iter().any(|a| a.key.is_empty()),
        "empty key planned: {:?}",
        p.actions
    );
}

#[test]
fn build_plan_rejects_invalid_remote_key() {
    for bad in ["../evil.md", "a/\nb.md"] {
        let store = StubStore {
            listed: vec![file(bad, 1, Some(1))],
        };
        let err = report(&empty_vault(), store, Mode::Status, &PlanOpts::default()).unwrap_err();
        assert!(matches!(err, Error::InvalidKey(_)), "key {bad:?}: {err:?}");
    }
}

#[test]
fn build_plan_accepts_remote_folder_entities() {
    let store = StubStore {
        listed: vec![folder("notes"), file("notes/a.md", 1, Some(1))],
    };
    let p = planned(&empty_vault(), store, Mode::Status);
    let folder_act = p
        .actions
        .iter()
        .find(|a| a.key == "notes/")
        .expect("folder entity present");
    assert_eq!(folder_act.kind, ActionKind::Skip);
    assert_eq!(folder_act.reason, "folder");
    let file_act = p
        .actions
        .iter()
        .find(|a| a.key == "notes/a.md")
        .expect("file entity present");
    assert_eq!(file_act.kind, ActionKind::Download);
}

#[test]
fn version_matches_package_version() {
    assert_eq!(version(), "0.1.0");
}

fn status(fs: &LocalFs, store: &Double) -> Plan {
    status_with_store(fs, &mut store.session(), &PlanOpts::default()).unwrap()
}

#[test]
fn status_with_store_local_only() {
    let p = status(&walked(&[("a.md", "hi", 5)]), &Double::new());
    assert_eq!(p.actions.len(), 1);
    assert_eq!(p.actions[0].key, "a.md");
    assert_eq!(p.actions[0].kind, ActionKind::Upload);
}

#[test]
fn status_with_store_matches_seeded_remote() {
    let store = Double::new();
    store.seed("a.md", b"same", Some(5000));
    let p = status(&walked(&[("a.md", "same", 5000)]), &store);
    assert_eq!(p.actions.len(), 1);
    assert_eq!(p.actions[0].kind, ActionKind::Skip);
    assert_eq!(p.stats.skip, 1);
}

#[test]
fn status_with_store_remote_only_download() {
    let store = Double::new();
    store.seed("b.md", b"x", Some(1000));
    let p = status(&empty_vault(), &store);
    assert!(p
        .actions
        .iter()
        .any(|a| a.key == "b.md" && a.kind == ActionKind::Download));
}

#[test]
fn format_plan_human_contains_stats_line() {
    let store = Double::new();
    store.seed("b.md", b"x", Some(1000));
    let p = status(&walked(&[("a.md", "hi", 5)]), &store);
    let txt = format_plan_human(&p);
    assert!(txt.contains("plan:"));
    assert!(txt.contains("1 upload"));
    assert!(txt.contains("1 download"));
}

#[test]
fn format_plan_human_marks_actions() {
    let store = Double::new();
    store.seed("b.md", b"x", Some(1000));
    store.seed("c.md", b"xx", Some(7000));
    let p = status(&walked(&[("a.md", "hi", 5), ("c.md", "x", 7000)]), &store);
    let txt = format_plan_human(&p);
    assert!(txt.lines().any(|l| l.starts_with("U  a.md")));
    assert!(txt.lines().any(|l| l.starts_with("D  b.md")));
    assert!(txt.lines().any(|l| l.starts_with("*  c.md")));
}

#[test]
fn folder_mtime_asymmetry_is_intentional() {
    let mut vault = Vault::default();
    vault.nodes.insert("notes".to_string(), Node::Dir);
    let local_ents = vault.walk(LocalFs::new("/vault")).unwrap().list();
    let local_folder = local_ents.iter().find(|e| e.key == "notes/").unwrap();
    assert!(local_folder.mtime_ms.is_some());

    let mut store = MemoryStore::new();
    store.put_from("notes/a.md", b"x", Some(1000)).unwrap();
    let remote_ents = store.list("").unwrap().entities;
    let remote_folder = remote_ents.iter().find(|e| e.key == "notes/").unwrap();
    assert_eq!(remote_folder.mtime_ms, None);
}

#[test]
fn phase1_exit_status_against_mock_in_temp_vault() {
    let p = status(&walked(&[("notes/hello.md", "hi", 5)]), &Double::new());
    let upload = p
        .actions
        .iter()
        .find(|a| a.key == "notes/hello.md")
        .expect("file upload planned");
    assert_eq!(upload.kind, ActionKind::Upload);
    assert_eq!(upload.reason, "local_only");
    let folder_act = p
        .actions
        .iter()
        .find(|a| a.key == "notes/")
        .expect("folder entity present");
    assert_eq!(folder_act.kind, ActionKind::Skip);
    assert_eq!(folder_act.reason, "folder");
    assert_eq!(p.stats.upload, 1);
}

#[test]
fn build_plan_exact_case_file_folder_keeps_path_collision() {
    let store = StubStore {
        listed: vec![folder("notes"), file("notes/x", 1, Some(1))],
    };
    let p = planned(&walked(&[("notes", "file-notes", 5)]), store, Mode::Status);
    for key in ["notes", "notes/"] {
        let act = p.actions.iter().find(|a| a.key == key).expect(key);
        assert_eq!(act.kind, ActionKind::Conflict);
        assert_eq!(act.reason, "path_collision", "{key} mislabeled");
    }
}

#[test]
fn build_plan_case_collision_cross_side_conflicts() {
    let store = StubStore {
        listed: vec![file("note.md", 5, Some(1000))],
    };
    let p = planned(&walked(&[("Note.md", "local-case", 5)]), store, Mode::Status);
    for key in ["Note.md", "note.md"] {
        let act = p.actions.iter().find(|a| a.key == key).expect(key);
        assert_eq!(act.kind, ActionKind::Conflict);
        assert_eq!(act.reason, "case_collision");
    }
    assert_eq!(p.stats.conflict, 2);
}

#[test]
fn build_plan_case_collision_file_vs_folder() {
    let store = StubStore {
        listed: vec![folder("notes"), file("notes/x", 1, Some(1))],
    };
    let p = planned(&walked(&[("Notes", "local", 5)]), store, Mode::Status);
    for key in ["Notes", "notes/"] {
        let act = p.actions.iter().find(|a| a.key == key).expect(key);
        assert_eq!(act.kind, ActionKind::Conflict);
        assert_eq!(act.reason, "case_collision");
    }
}

#[test]
fn build_plan_case_collision_conflict_survives_follow_override() {
    let mut vault = Vault::with(&[("target.md", "real-target", 5)]);
    vault.link("link.md", "target.md");
    let fs = vault.walk(LocalFs::with_follow("/vault", true)).unwrap();
    let store = StubStore {
        listed: vec![file("LINK.md", 11, Some(100))],
    };
    let p = planned(&fs, store, Mode::Push);
    let link = p
        .actions
        .iter()
        .find(|a| a.key == "link.md")
        .expect("link.md row");
    assert_eq!(
        link.kind,
        ActionKind::Conflict,
        "case_collision Conflict overridden: {link:?}"
    );
    assert_eq!(
        link.reason, "case_collision",
        "case_collision reason dropped: {link:?}"
    );
}

#[test]
fn build_plan_ignores_tmp_leftover() {
    let fs = walked(&[
        ("note.md", "real", 5),
        (".note.md.vaultsync-tmp-123-4", "leftover", 5),
    ]);
    let p = planned(&fs, MemoryStore::new(), Mode::Push);
    assert_eq!(p.stats.upload, 1);
    assert!(p.actions.iter().any(|a| a.key == "note.md"));
    assert!(
        !p.actions
            .iter()
            .any(|a| a.key.starts_with('.') && a.key.contains("vaultsync-tmp")),
        "tmp sibling planned"
    );
}

#[test]
fn check_probe_key_under_prefix() {
    let k = probe_key(1, 2, 3);
    assert!(k.starts_with(".vaultsync-check-"));
    assert!(ensure_valid_key(&k).is_ok(), "invalid probe key {k:?}");
}

#[test]
fn probe_key_unique_and_valid() {
    let a = probe_key(77, 0, 5);
    let b = probe_key(77, 1, 5);
    assert_ne!(a, b, "probe keys must be unique");
    for k in [&a, &b] {
        assert!(k.starts_with(".vaultsync-check-"), "key {k:?}");
        assert!(ensure_valid_key(k).is_ok(), "invalid probe key {k:?}");
        assert!(is_reserved_key(k));
    }
    assert_eq!(a, ".vaultsync-check-77-0-5");
}

#[test]
fn check_store_succeeds_on_mock() {
    let store = Double::new();
    check_store(&mut store.session(), &probe_key(1, 2, 3)).unwrap();
    assert!(store
        .inner
        .borrow_mut()
        .list("")
        .unwrap()
        .entities
        .is_empty());
}

fn assert_no_check_probe(store: &Double) {
    let listed = store.inner.borrow_mut().list("").unwrap().entities;
    assert!(
        !listed.iter().any(|e| e.key.starts_with(".vaultsync-check-")),
        "probe leaked after failed check: {listed:?}"
    );
}

#[test]
fn check_store_cleans_probe_when_get_fails() {
    let mut store = Double::new();
    store.on_get = Some(|_, _| Some(Err(Error::Other("injected get failure".to_string()))));
    assert!(check_store(&mut store.session(), &probe_key(1, 2, 3)).is_err());
    assert_no_check_probe(&store);
}

#[test]
fn check_store_cleans_probe_on_readback_mismatch() {
    let mut store = Double::new();
    store.on_get = Some(|key, w| {
        w.write(b"vaultsync-connectivity-probe").ok()?;
        Some(Ok(file(key, 999, None)))
    });
    assert!(check_store(&mut store.session(), &probe_key(1, 2, 3)).is_err());
    assert_no_check_probe(&store);
}

#[test]
fn format_plan_verbose_shows_skip_reasons() {
    let p = planned(
        &walked(&[("local-only.md", "x", 5)]),
        MemoryStore::new(),
        Mode::Pull,
    );
    let verbose = format_plan_human_verbose(&p, 1);
    let s_line = verbose
        .lines()
        .find(|l| l.starts_with("S  ") && l.contains("local-only.md"))
        .unwrap_or_else(|| panic!("no S line for local-only.md: {verbose}"));
    assert!(
        s_line.contains("local_only"),
        "S line lacks reason: {s_line:?}"
    );
}

#[test]
fn format_plan_human_hides_skips_by_default() {
    let store = Double::new();
    store.seed("a.md", b"same", Some(5000));
    let p = status(&walked(&[("notes/a.md", "x", 5), ("a.md", "same", 5000)]), &store);
    let default = format_plan_human(&p);
    assert!(
        !default.lines().any(|l| l.starts_with("S  ")),
        "skips leaked: {default}"
    );
    let verbose = format_plan_human_verbose(&p, 1);
    assert!(
        verbose.lines().any(|l| l.starts_with("S  ")),
        "skips hidden with -v: {verbose}"
    );
}

fn ignoring(patterns: &[&str]) -> IgnoreSet {
    IgnoreSet::from_patterns(&patterns.iter().map(|p| p.to_string()).collect::<Vec<_>>()).unwrap()
}

#[test]
fn ignored_remote_keys_are_dropped_and_counted() {
    let set = ignoring(&["private/", ".DS_Store"]);
    let (kept, dropped) = partition_ignored_remote_keys(
        vec![
            file("private/a", 1, None),
            file("b", 1, None),
            file("c/.DS_Store", 1, None),
        ],
        &set,
    );
    assert_eq!(keys(&kept), vec!["b"]);
    assert_eq!(keys(&dropped), vec!["private/a", "c/.DS_Store"]);
    let store = Double::new();
    store.seed("private/a", b"x", None);
    store.seed("b", b"x", None);
    let opts = PlanOpts {
        delete: true,
        ..Default::default()
    };
    let (r, _) = build_plan(
        &empty_vault(),
        &mut store.session(),
        Mode::Push,
        &opts,
        &set,
        InventoryMode::ListHead,
        None,
        7,
    );
    let r = r.unwrap();
    assert_eq!(r.plan.actions.len(), 1);
    assert_eq!(r.plan.actions[0].key, "b");
    assert_eq!(r.plan.actions[0].kind, ActionKind::DeleteRemote);
    assert!(r
        .warnings
        .iter()
        .any(|w| w == "ignored 2 remote key(s) by ignore patterns"));
}

#[test]
fn a_plan_needs_no_store() {
    let inv = RemoteInventory {
        entities: vec![file("b.md", 1, Some(5))],
        base: InventoryBase {
            source: InventorySource::LiveListHead,
            file_entities: vec![file("b.md", 1, Some(5))],
            manifest_etag: None,
        },
        warnings: vec!["note".to_string()],
    };
    let r = plan_inventory(
        &walked(&[("a.md", "hi", 5)]),
        inv,
        Mode::Push,
        &PlanOpts::default(),
        &IgnoreSet::empty(),
    )
    .unwrap();
    assert_eq!(r.warnings, vec!["note"]);
    assert_eq!(
        format_plan_human_verbose(&r.plan, 1),
        "plan: 1 upload, 0 download, 0 delete_local, 0 delete_remote, 1 skip, 0 conflict\nU  a.md\nS  b.md    remote_only\n"
    );
}

#[test]
fn planning_changes_nothing() {
    let store = Double::new();
    store.seed("b.md", b"x", None);
    for mode in [Mode::Status, Mode::Push, Mode::Pull] {
        for inventory in [InventoryMode::Auto, InventoryMode::ListHead] {
            let (r, _) = build_plan(
                &walked(&[("a.md", "hi", 5)]),
                &mut store.session(),
                mode,
                &PlanOpts::default(),
                &IgnoreSet::empty(),
                inventory,
                None,
                7,
            );
            r.unwrap();
        }
    }
    assert!(store.log.borrow().is_empty());
}
