//! Carrying out a plan.

#![allow(dead_code)]

use std::cell::{Cell, RefCell};
use std::collections::{BTreeMap, BTreeSet};
use std::rc::Rc;
use vaultsync::config::InventoryMode;
use vaultsync::entity;
use vaultsync::entity::Entity;
use vaultsync::error::Error;
use vaultsync::exec::{
    check_delete_local, check_destination, cleanup_warning, emptied_dirs, exec_delete_remote,
    exec_download, exec_upload, execute_plan, execution_passes, execution_steps, ExecFailure,
    ExecReport, StepOutcome,
};
use vaultsync::inventory::CommitMutation;
use vaultsync::local::{
    LinkTarget, LocalFs, NodeKind, NodeStat, Opened, PathPart, WalkStep,
};
use vaultsync::plan::{Action, ActionKind, Mode, Plan, PlanOpts};
use vaultsync::store::enrich::{enrich_with_head_mtimes, keys_to_head};
use vaultsync::store::mock::MemoryStore;
use vaultsync::store::{
    CappedWriter, GetOpts, GetOutcome, Listing, ObjectStore, PutOpts, Session,
};
use vaultsync::{
    build_plan, partition_reserved_remote_keys, reserved_drops_warning, IgnoreSet, PlanReport,
};

type ListHook = fn(Listing) -> Result<Listing, Error>;
type HeadHook = fn(&str) -> Option<Result<Entity, Error>>;
type GetHook = fn(&str, &mut CappedWriter) -> Option<Result<Entity, Error>>;
type PutHook = fn(&str, &PutOpts) -> Option<Error>;

/// A store whose answers can be replaced, and whose requests are counted. Its
/// clones share one [`MemoryStore`].
#[derive(Clone)]
struct Double {
    inner: Rc<RefCell<MemoryStore>>,
    on_list: Option<ListHook>,
    on_head: Option<HeadHook>,
    on_get: Option<GetHook>,
    on_put: Option<PutHook>,
    no_list: bool,
    lists: Rc<Cell<usize>>,
    fetched: Rc<Cell<usize>>,
    /// The requests that may change the store, in their order.
    log: Rc<RefCell<Vec<String>>>,
}

impl Double {
    fn new() -> Self {
        Double {
            inner: Rc::new(RefCell::new(MemoryStore::new())),
            on_list: None,
            on_head: None,
            on_get: None,
            on_put: None,
            no_list: false,
            lists: Rc::new(Cell::new(0)),
            fetched: Rc::new(Cell::new(0)),
            log: Rc::new(RefCell::new(Vec::new())),
        }
    }

    /// Stores an object past the counters.
    fn seed(&self, key: &str, body: &[u8], mtime_ms: Option<u64>) -> Entity {
        self.inner.borrow_mut().put_from(key, body, mtime_ms).unwrap()
    }

    fn body(&self, key: &str) -> Vec<u8> {
        let mut w = CappedWriter::new(u64::MAX);
        self.inner.borrow_mut().get_to(key, &mut w).unwrap();
        w.into_bytes()
    }

    fn stat(&self, key: &str) -> Result<Entity, Error> {
        self.inner.borrow_mut().head(key)
    }

    fn session(&self) -> Session<Double> {
        Session::new(self.clone())
    }
}

impl ObjectStore for Double {
    fn list(&mut self, prefix: &str) -> Result<Listing, Error> {
        if self.no_list {
            panic!("this store must not be listed");
        }
        self.lists.set(self.lists.get() + 1);
        let listing = self.inner.borrow_mut().list(prefix)?;
        match self.on_list {
            Some(h) => h(listing),
            None => Ok(listing),
        }
    }

    fn head(&mut self, key: &str) -> Result<Entity, Error> {
        if let Some(r) = self.on_head.and_then(|h| h(key)) {
            return r;
        }
        self.inner.borrow_mut().head(key)
    }

    fn get_to(&mut self, key: &str, w: &mut CappedWriter) -> Result<Entity, Error> {
        if let Some(r) = self.on_get.and_then(|h| h(key, w)) {
            return r;
        }
        let r = self.inner.borrow_mut().get_to(key, w);
        self.fetched.set(self.fetched.get() + w.bytes().len());
        r
    }

    fn get_to_with(
        &mut self,
        key: &str,
        w: &mut CappedWriter,
        opts: &GetOpts,
    ) -> Result<GetOutcome, Error> {
        if let Some(r) = self.on_get.and_then(|h| h(key, w)) {
            return r.map(GetOutcome::Body);
        }
        let r = self.inner.borrow_mut().get_to_with(key, w, opts);
        self.fetched.set(self.fetched.get() + w.bytes().len());
        r
    }

    fn put_from(&mut self, key: &str, body: &[u8], mtime_ms: Option<u64>) -> Result<Entity, Error> {
        self.log.borrow_mut().push(format!("put {key}"));
        let opts = PutOpts { mtime_ms, ..PutOpts::default() };
        if let Some(e) = self.on_put.and_then(|h| h(key, &opts)) {
            return Err(e);
        }
        self.inner.borrow_mut().put_from(key, body, mtime_ms)
    }

    fn put_from_with(&mut self, key: &str, body: &[u8], opts: &PutOpts) -> Result<Entity, Error> {
        self.log.borrow_mut().push(format!("put {key}"));
        if let Some(e) = self.on_put.and_then(|h| h(key, opts)) {
            return Err(e);
        }
        self.inner.borrow_mut().put_from_with(key, body, opts)
    }

    fn delete(&mut self, key: &str) -> Result<(), Error> {
        self.log.borrow_mut().push(format!("delete {key}"));
        self.inner.borrow_mut().delete(key)
    }
}

/// A vault held in memory: its nodes by path. Folders above a node need no
/// node of their own.
#[derive(Clone)]
enum Node {
    File(Vec<u8>, u64),
    Dir,
    Link(String),
    Special,
}

#[derive(Clone, Default)]
struct Vault {
    nodes: BTreeMap<String, Node>,
}

impl Vault {
    fn with(files: &[(&str, &str, u64)]) -> Self {
        let mut v = Vault::default();
        for (path, body, mtime) in files {
            v.write(path, body.as_bytes(), *mtime);
        }
        v
    }

    fn write(&mut self, path: &str, body: &[u8], mtime: u64) {
        self.nodes
            .insert(path.to_string(), Node::File(body.to_vec(), mtime));
    }

    fn link(&mut self, path: &str, target: &str) {
        self.nodes
            .insert(path.to_string(), Node::Link(target.to_string()));
    }

    /// The node at a path; `""` is the root.
    fn at(&self, path: &str) -> Option<Node> {
        let below = format!("{path}/");
        match self.nodes.get(path) {
            Some(n) => Some(n.clone()),
            None if path.is_empty() || self.nodes.keys().any(|k| k.starts_with(&below)) => {
                Some(Node::Dir)
            }
            None => None,
        }
    }

    /// The names in a directory.
    fn names(&self, dir: &str) -> BTreeSet<String> {
        let base = if dir.is_empty() { String::new() } else { format!("{dir}/") };
        self.nodes
            .keys()
            .filter_map(|k| k.strip_prefix(&base))
            .filter(|rest| !rest.is_empty())
            .map(|rest| rest.split('/').next().unwrap().to_string())
            .collect()
    }

    /// Walks the vault, doing what the walk says.
    fn walk(&self, fs: LocalFs) -> Result<LocalFs, Error> {
        let mut fs = fs;
        self.walk_dir(&mut fs, "", "")?;
        Ok(fs)
    }

    /// `seen` is the directory's path as the walk sees it, `real` where it is.
    fn walk_dir(&self, fs: &mut LocalFs, seen: &str, real: &str) -> Result<(), Error> {
        for name in self.names(real) {
            let path = if seen.is_empty() { name.clone() } else { format!("{seen}/{name}") };
            let mut place = if real.is_empty() { name.clone() } else { format!("{real}/{name}") };
            let parts: Vec<PathPart> = path
                .split('/')
                .map(|p| PathPart::Normal(p.to_string()))
                .collect();
            let shown = format!("{path:?}");
            let mut node = self.at(&place);
            let kind = match &node {
                Some(Node::File(..)) => NodeKind::File,
                Some(Node::Dir) => NodeKind::Dir,
                Some(Node::Link(_)) => NodeKind::Symlink,
                _ => NodeKind::Special,
            };
            let mut step = fs.visit(&parts, &shown, kind)?;
            if let (WalkStep::Resolve, Some(Node::Link(to))) = (&step, &node) {
                let target = match self.at(to) {
                    _ if to.starts_with('/') => LinkTarget::Outside,
                    None => LinkTarget::Missing,
                    Some(Node::Dir) => LinkTarget::Dir(format!("/vault/{to}")),
                    Some(Node::File(..)) => LinkTarget::File,
                    Some(_) => LinkTarget::Special,
                };
                step = fs.follow_link(&parts, &shown, &target)?;
                place = to.clone();
                node = self.at(&place);
            }
            if let WalkStep::Stat { key, folder } = step {
                let stat = match &node {
                    Some(Node::File(body, mtime)) => Some(NodeStat {
                        size: body.len() as u64,
                        mtime_ms: Some(*mtime),
                    }),
                    Some(_) => Some(NodeStat {
                        size: 4096,
                        mtime_ms: Some(1),
                    }),
                    None => None,
                };
                fs.record(&key, folder, stat);
                if folder {
                    self.walk_dir(fs, &path, &place)?;
                }
            }
        }
        Ok(())
    }

}

impl Vault {
    /// What an open of the file would see.
    fn open(&self, path: &str) -> Opened {
        match self.at(path) {
            None => Opened::Missing,
            Some(Node::Link(_)) => Opened::Symlink,
            Some(Node::File(body, mtime)) => Opened::Node {
                regular: true,
                size: body.len() as u64,
                mtime_ms: Some(mtime),
            },
            Some(_) => Opened::Node {
                regular: false,
                size: 0,
                mtime_ms: None,
            },
        }
    }

    fn body(&self, path: &str) -> Vec<u8> {
        match self.nodes.get(path) {
            Some(Node::File(body, _)) => body.clone(),
            _ => Vec::new(),
        }
    }

    /// Carries out a plan step by step, and removes the folders it emptied.
    fn run<S: ObjectStore>(
        &mut self,
        fs: &LocalFs,
        store: &mut Session<S>,
        plan: &Plan,
        mode: Mode,
        tolerance_ms: u64,
    ) -> Vec<StepOutcome> {
        let mut results = Vec::new();
        for i in execution_steps(plan, mode) {
            let a = &plan.actions[i];
            let seen = self.open(&a.key);
            let done = match a.kind {
                ActionKind::Upload => {
                    let body = self.body(&a.key);
                    match exec_upload(store, fs, a, tolerance_ms, &seen, &body) {
                        Ok(e) => {
                            results.push(StepOutcome::Uploaded(e));
                            continue;
                        }
                        Err(e) => Err(e),
                    }
                }
                ActionKind::Download => exec_download(store, fs, a).and_then(|d| {
                    check_destination(fs, a, tolerance_ms, &seen)?;
                    self.write(&a.key, &d.body, d.mtime_ms.unwrap_or(0));
                    Ok(())
                }),
                ActionKind::DeleteLocal => {
                    check_delete_local(fs, a, tolerance_ms, &seen).map(|()| {
                        self.nodes.remove(&a.key);
                    })
                }
                _ => exec_delete_remote(store, a, tolerance_ms),
            };
            results.push(match done {
                Ok(()) => StepOutcome::Done,
                Err(e) => StepOutcome::Failed(e),
            });
        }
        for dir in emptied_dirs(plan, mode, &results) {
            let dir = dir.trim_end_matches('/').to_string();
            if self.names(&dir).is_empty() {
                self.nodes.remove(&dir);
            }
        }
        results
    }
}

fn delete() -> PlanOpts {
    PlanOpts {
        delete: true,
        ..Default::default()
    }
}

fn plan_of(vault: &Vault, store: &Double, mode: Mode, opts: &PlanOpts) -> (LocalFs, Plan) {
    let fs = vault.walk(LocalFs::new("/vault")).unwrap();
    let (report, _) = build_plan(
        &fs,
        &mut store.session(),
        mode,
        opts,
        &IgnoreSet::empty(),
        InventoryMode::ListHead,
        None,
        7,
    );
    (fs, report.unwrap().plan)
}

fn execute(
    vault: &mut Vault,
    store: &Double,
    fs: &LocalFs,
    plan: &Plan,
    mode: Mode,
    opts: &PlanOpts,
) -> ExecReport {
    let results = vault.run(fs, &mut store.session(), plan, mode, opts.mtime_tolerance_ms);
    execute_plan(plan, mode, &results)
}

#[test]
fn exec_upload_creates_remote_bytes_and_mtime() {
    let mut vault = Vault::with(&[("a.md", "hello", 1_700_000_000_000)]);
    let store = Double::new();
    let opts = PlanOpts::default();
    let (fs, plan) = plan_of(&vault, &store, Mode::Push, &opts);
    let rep = execute(&mut vault, &store, &fs, &plan, Mode::Push, &opts);
    assert_eq!(rep.failed, Vec::<ExecFailure>::new(), "{:?}", rep);
    assert_eq!(rep.executed, 1);
    let e = store.stat("a.md").unwrap();
    assert_eq!(e.size, 5);
    assert_eq!(e.mtime_ms, Some(1_700_000_000_000));
    assert_eq!(store.body("a.md"), b"hello");
}

#[test]
fn exec_upload_uses_plan_tolerance() {
    let base = 1_700_000_000_000u64;
    let mut vault = Vault::with(&[("a.md", "hello", base)]);
    let store = Double::new();
    let opts = PlanOpts {
        mtime_tolerance_ms: 5000,
        ..Default::default()
    };
    let (fs, plan) = plan_of(&vault, &store, Mode::Push, &opts);
    vault.write("a.md", b"hello", base + 3000);
    let rep = execute(&mut vault, &store, &fs, &plan, Mode::Push, &opts);
    assert_eq!(rep.failed, Vec::<ExecFailure>::new(), "{:?}", rep.failed);
    assert_eq!(rep.executed, 1, "{:?}", rep);
}

#[test]
fn exec_download_writes_file_and_mtime() {
    let mut vault = Vault::default();
    let store = Double::new();
    store.seed("n/b.md", b"remote-bytes", Some(1_700_000_000_123));
    let opts = PlanOpts::default();
    let (fs, plan) = plan_of(&vault, &store, Mode::Pull, &opts);
    let rep = execute(&mut vault, &store, &fs, &plan, Mode::Pull, &opts);
    assert_eq!(rep.failed, Vec::<ExecFailure>::new(), "{:?}", rep);
    assert_eq!(vault.body("n/b.md"), b"remote-bytes");
    match vault.at("n/b.md") {
        Some(Node::File(_, mtime)) => assert_eq!(mtime, 1_700_000_000_123),
        _ => panic!("no file"),
    }
}

#[test]
fn exec_push_delete_removes_remote_extras() {
    let mut vault = Vault::default();
    let store = Double::new();
    store.seed("gone.md", b"x", Some(100));
    let opts = delete();
    let (fs, plan) = plan_of(&vault, &store, Mode::Push, &opts);
    let rep = execute(&mut vault, &store, &fs, &plan, Mode::Push, &opts);
    assert_eq!(rep.failed, Vec::<ExecFailure>::new(), "{:?}", rep);
    assert!(matches!(
        store.stat("gone.md").unwrap_err(),
        Error::NotFound(_)
    ));
}

#[test]
fn exec_pull_delete_removes_local_and_cleans_empty_dirs() {
    let mut vault = Vault::with(&[
        ("n/gone.md", "bye", 5),
        ("n/sub/x.md", "keep? no - is orphan too", 5),
    ]);
    vault.nodes.insert("n".to_string(), Node::Dir);
    vault.nodes.insert("n/sub".to_string(), Node::Dir);
    vault.nodes.insert("empty".to_string(), Node::Dir);
    let store = Double::new();
    let opts = delete();
    let (fs, plan) = plan_of(&vault, &store, Mode::Pull, &opts);
    let rep = execute(&mut vault, &store, &fs, &plan, Mode::Pull, &opts);
    assert_eq!(rep.failed, Vec::<ExecFailure>::new(), "{:?}", rep);
    assert!(vault.at("n/gone.md").is_none());
    assert!(vault.at("n").is_none(), "empty n not cleaned");
    assert!(vault.at("empty").is_some(), "only emptied folders go");
}

#[test]
fn exec_deletes_run_after_transfers() {
    let mut vault = Vault::with(&[("a.md", "hello", 5)]);
    let store = Double::new();
    store.seed("gone.md", b"x", None);
    let opts = delete();
    let (fs, plan) = plan_of(&vault, &store, Mode::Push, &opts);
    let rep = execute(&mut vault, &store, &fs, &plan, Mode::Push, &opts);
    assert_eq!(rep.failed, Vec::<ExecFailure>::new(), "{:?}", rep);
    assert_eq!(*store.log.borrow(), vec!["put a.md", "delete gone.md"]);
}

#[test]
fn exec_conflict_and_skip_untouched() {
    let mut vault = Vault::with(&[("c.md", "x", 5000), ("a.md", "same", 5000)]);
    let store = Double::new();
    store.seed("c.md", b"xx", Some(5000));
    store.seed("a.md", b"same", Some(5000));
    let opts = PlanOpts::default();
    let (fs, plan) = plan_of(&vault, &store, Mode::Push, &opts);
    let before_c = store.stat("c.md").unwrap();
    let before_a = store.stat("a.md").unwrap();
    let rep = execute(&mut vault, &store, &fs, &plan, Mode::Push, &opts);
    assert_eq!(rep.executed, 0, "no transfers expected");
    assert_eq!(rep.failed, Vec::<ExecFailure>::new());
    assert_eq!(store.stat("c.md").unwrap(), before_c);
    assert_eq!(store.stat("a.md").unwrap(), before_a);
}

#[test]
fn exec_upload_restated_size_mismatch_fails_key() {
    let mut vault = Vault::with(&[("a.md", "abc", 5), ("ok.md", "stable", 5)]);
    let store = Double::new();
    let opts = PlanOpts::default();
    let (fs, plan) = plan_of(&vault, &store, Mode::Push, &opts);
    vault.write("a.md", b"abcdefghijklmnop", 5);
    let rep = execute(&mut vault, &store, &fs, &plan, Mode::Push, &opts);
    assert!(
        rep.failed.iter().any(|fl| fl.key == "a.md"),
        "a.md not failed: {:?}",
        rep.failed
    );
    assert!(matches!(store.stat("a.md").unwrap_err(), Error::NotFound(_)));
    assert!(store.stat("ok.md").is_ok());
    assert_eq!(rep.executed, 1, "only ok.md executed");
}

#[test]
fn exec_download_missing_remote_errors_key() {
    let mut vault = Vault::default();
    let store = Double::new();
    store.seed("a.md", b"x", Some(100));
    let opts = PlanOpts::default();
    let (fs, plan) = plan_of(&vault, &store, Mode::Pull, &opts);
    store.inner.borrow_mut().delete("a.md").unwrap();
    let rep = execute(&mut vault, &store, &fs, &plan, Mode::Pull, &opts);
    assert!(
        rep.failed.iter().any(|fl| fl.key == "a.md"),
        "a.md not failed: {:?}",
        rep.failed
    );
    assert!(vault.at("a.md").is_none());
}

#[test]
fn exec_report_counts_and_failures() {
    let mut vault = Vault::with(&[("ok.md", "stable", 5), ("bad.md", "abc", 5)]);
    let store = Double::new();
    let opts = PlanOpts::default();
    let (fs, plan) = plan_of(&vault, &store, Mode::Push, &opts);
    vault.write("bad.md", b"abcaaaaaaaaaa", 5);
    let rep = execute(&mut vault, &store, &fs, &plan, Mode::Push, &opts);
    assert_eq!(rep.executed, 1, "only ok.md");
    assert_eq!(rep.failed.len(), 1);
    assert_eq!(rep.failed[0].key, "bad.md");
}

#[test]
fn exec_path_collision_never_executes() {
    let mut vault = Vault::with(&[("K", "file-k", 5)]);
    let store = Double::new();
    store.seed("K/x", b"child", Some(100));
    let opts = PlanOpts::default();
    let (fs, plan) = plan_of(&vault, &store, Mode::Push, &opts);
    let rep = execute(&mut vault, &store, &fs, &plan, Mode::Push, &opts);
    assert_eq!(rep.executed, 0);
    assert_eq!(rep.failed, Vec::<ExecFailure>::new());
    assert!(matches!(store.stat("K").unwrap_err(), Error::NotFound(_)));
    assert!(store.stat("K/x").is_ok());
}

#[test]
fn exec_status_mode_mutates_nothing() {
    let mut vault = Vault::with(&[("a.md", "hello", 5)]);
    let store = Double::new();
    store.seed("b.md", b"remote", Some(100));
    let opts = PlanOpts::default();
    let (fs, plan) = plan_of(&vault, &store, Mode::Status, &opts);
    let rep = execute(&mut vault, &store, &fs, &plan, Mode::Status, &opts);
    assert_eq!(rep.executed, 0);
    assert_eq!(rep.failed, Vec::<ExecFailure>::new());
    assert!(matches!(store.stat("a.md").unwrap_err(), Error::NotFound(_)));
    assert!(vault.at("b.md").is_none());
    assert!(store.stat("b.md").is_ok());
    assert!(vault.at("a.md").is_some());
}

fn action(kind: ActionKind, local: Option<Entity>, remote: Option<Entity>) -> Action {
    Action {
        key: "a.md".to_string(),
        kind,
        reason: "test",
        local,
        remote,
    }
}

#[test]
fn remote_delete_refuses_a_changed_object_and_takes_a_gone_one() {
    let store = Double::new();
    let a = action(
        ActionKind::DeleteRemote,
        None,
        Some(entity::file("a.md", 1, Some(10_000))),
    );
    assert!(exec_delete_remote(&mut store.session(), &a, 1000).is_ok());
    assert!(store.log.borrow().is_empty(), "nothing there to delete");
    store.seed("a.md", b"xy", Some(10_000));
    assert!(exec_delete_remote(&mut store.session(), &a, 1000).is_err());
    store.seed("a.md", b"x", Some(11_001));
    assert!(exec_delete_remote(&mut store.session(), &a, 1000).is_err());
    assert!(store.log.borrow().is_empty());
    store.seed("a.md", b"x", Some(11_000));
    assert!(exec_delete_remote(&mut store.session(), &a, 1000).is_ok());
    assert_eq!(*store.log.borrow(), vec!["delete a.md"]);
}

#[test]
fn download_is_capped_at_the_planned_size() {
    let store = Double::new();
    store.seed("a.md", b"grown beyond", Some(5));
    let fs = LocalFs::new("/vault");
    let a = action(
        ActionKind::Download,
        None,
        Some(entity::file("a.md", 3, Some(5))),
    );
    assert!(exec_download(&mut store.session(), &fs, &a).is_err());
    store.seed("a.md", b"abc", Some(5));
    let d = exec_download(&mut store.session(), &fs, &a).unwrap();
    assert_eq!(d.body, b"abc");
    assert_eq!(d.mtime_ms, Some(5));
}

#[test]
fn download_never_replaces_an_unplanned_target() {
    let fs = LocalFs::new("/vault");
    let fresh = action(ActionKind::Download, None, None);
    assert!(check_destination(&fs, &fresh, 1000, &Opened::Missing).is_ok());
    let err = check_destination(&fs, &fresh, 1000, &Opened::Symlink).unwrap_err();
    assert_eq!(
        err.to_string(),
        "refusing to write through a symlink: /vault/a.md"
    );
    let node = Opened::Node {
        regular: true,
        size: 3,
        mtime_ms: Some(5),
    };
    let err = check_destination(&fs, &fresh, 1000, &node).unwrap_err();
    assert_eq!(
        err.to_string(),
        "download target appeared since the plan: a.md"
    );
    let known = action(
        ActionKind::Download,
        Some(entity::file("a.md", 3, Some(5))),
        None,
    );
    assert!(check_destination(&fs, &known, 1000, &node).is_ok());
    let failed = Opened::Failed("denied".to_string());
    assert!(matches!(
        check_destination(&fs, &known, 1000, &failed).unwrap_err(),
        Error::Io(_)
    ));
}

#[test]
fn successful_remote_changes_are_reported_as_mutations() {
    let mut vault = Vault::with(&[("a.md", "hello", 5), ("bad.md", "abc", 5)]);
    let store = Double::new();
    store.seed("gone.md", b"x", Some(5));
    let opts = delete();
    let (fs, plan) = plan_of(&vault, &store, Mode::Push, &opts);
    vault.write("bad.md", b"longer", 5);
    let rep = execute(&mut vault, &store, &fs, &plan, Mode::Push, &opts);
    assert_eq!(rep.executed, 2);
    let up = store.stat("a.md").unwrap();
    assert_eq!(
        rep.mutations,
        vec![
            CommitMutation::Upload(up),
            CommitMutation::DeleteRemote("gone.md".to_string())
        ]
    );
    assert_eq!(rep.failed[0].key, "bad.md");
}

#[test]
fn push_converges_and_so_does_pull() {
    let vault = Vault::with(&[("a.md", "aaa", 5000), ("notes/b.md", "bbbb", 6000)]);
    let mut here = vault.clone();
    let store = Double::new();
    let opts = PlanOpts::default();
    let (fs, plan) = plan_of(&here, &store, Mode::Push, &opts);
    assert!(execute(&mut here, &store, &fs, &plan, Mode::Push, &opts)
        .failed
        .is_empty());
    let (_, status) = plan_of(&here, &store, Mode::Status, &opts);
    assert_eq!(status.stats.skip as usize, status.actions.len());
    let mut there = Vault::default();
    let (fs, plan) = plan_of(&there, &store, Mode::Pull, &opts);
    assert!(execute(&mut there, &store, &fs, &plan, Mode::Pull, &opts)
        .failed
        .is_empty());
    assert_eq!(there.body("notes/b.md"), b"bbbb");
    let (_, status) = plan_of(&there, &store, Mode::Status, &opts);
    assert_eq!(status.stats.skip as usize, status.actions.len());
}

#[test]
fn clean_up_reaches_ancestors_of_deleted_files_deepest_first() {
    let vault = Vault::with(&[("n/sub/x.md", "x", 5), ("m/y.md", "y", 5)]);
    let store = Double::new();
    store.seed("m/y.md", b"y", Some(5));
    let (_, plan) = plan_of(&vault, &store, Mode::Pull, &delete());
    let results = vec![StepOutcome::Done];
    assert_eq!(
        emptied_dirs(&plan, Mode::Pull, &results),
        vec!["n/sub/", "n/"]
    );
    let failed = vec![StepOutcome::Failed(Error::Other("no".to_string()))];
    assert!(emptied_dirs(&plan, Mode::Pull, &failed).is_empty());
    assert_eq!(
        cleanup_warning("n/", "busy"),
        "could not remove empty directory n/: busy"
    );
}

/// A store whose listing shows upload times and no etags, and which heads each
/// listed file for its client mtime.
#[derive(Clone)]
struct UploadTimes {
    inner: Double,
    heads: Rc<RefCell<Vec<String>>>,
    fail_head: Option<&'static str>,
}

impl UploadTimes {
    fn new() -> Self {
        UploadTimes {
            inner: Double::new(),
            heads: Rc::new(RefCell::new(Vec::new())),
            fail_head: None,
        }
    }
}

impl ObjectStore for UploadTimes {
    fn list(&mut self, prefix: &str) -> Result<Listing, Error> {
        let mut listing = self.inner.list(prefix)?;
        for e in listing.entities.iter_mut() {
            if !e.is_folder() {
                e.mtime_ms = Some(9_999_999_999);
                e.etag = None;
            }
        }
        let (entities, dropped) = partition_reserved_remote_keys(listing.entities);
        listing.entities = entities;
        if !dropped.is_empty() {
            listing.warnings.push(reserved_drops_warning(&dropped));
        }
        let answers = keys_to_head(&listing).iter().map(|k| self.head(k)).collect();
        enrich_with_head_mtimes(listing, &answers)
    }

    fn head(&mut self, key: &str) -> Result<Entity, Error> {
        self.heads.borrow_mut().push(key.to_string());
        if self.fail_head == Some(key) {
            return Err(Error::Unavailable(format!("throttled: {key}")));
        }
        self.inner.head(key)
    }

    fn get_to(&mut self, key: &str, w: &mut CappedWriter) -> Result<Entity, Error> {
        self.inner.get_to(key, w)
    }

    fn put_from(&mut self, key: &str, body: &[u8], mtime_ms: Option<u64>) -> Result<Entity, Error> {
        self.inner.put_from(key, body, mtime_ms)
    }

    fn delete(&mut self, key: &str) -> Result<(), Error> {
        self.inner.delete(key)
    }
}

fn report_for(fs: &LocalFs, store: &UploadTimes, mode: Mode) -> Result<PlanReport, Error> {
    build_plan(
        fs,
        &mut Session::new(store.clone()),
        mode,
        &PlanOpts::default(),
        &IgnoreSet::empty(),
        InventoryMode::ListHead,
        None,
        7,
    )
    .0
}

#[test]
fn list_filters_reserved_keys_before_head_enrichment() {
    let store = UploadTimes::new();
    store.inner.seed(".vaultsync-check-9", b"junk", Some(1_600_000_000_000));
    store.inner.seed("notes/a.md", b"aaa", Some(1_600_000_000_000));
    let report = report_for(&LocalFs::new("/vault"), &store, Mode::Status).unwrap();
    assert!(
        !report
            .plan
            .actions
            .iter()
            .any(|a| a.key.starts_with(".vaultsync-check-")),
        "reserved key planned: {:?}",
        report.plan.actions
    );
    let matching: Vec<&String> = report
        .warnings
        .iter()
        .filter(|w| w.contains("reserved vaultsync namespace"))
        .collect();
    assert_eq!(
        matching.len(),
        1,
        "expected exactly one warning: {:?}",
        report.warnings
    );
    assert!(
        matching[0].contains(".vaultsync-check-9"),
        "warning must name the junk key: {}",
        matching[0]
    );
    let head_log = store.heads.borrow();
    assert!(
        head_log.iter().any(|k| k == "notes/a.md"),
        "healthy key not headed: {head_log:?}"
    );
    assert!(
        !head_log.iter().any(|k| k == ".vaultsync-check-9"),
        "reserved key was headed (should be pre-filtered): {head_log:?}"
    );
}

#[test]
fn reserved_key_head_failure_does_not_fail_listing() {
    let mut store = UploadTimes::new();
    store.fail_head = Some(".vaultsync-check-9");
    store.inner.seed(".vaultsync-check-9", b"junk", Some(1_600_000_000_000));
    store.inner.seed("notes/a.md", b"aaa", Some(1_600_000_000_000));
    let report = report_for(&LocalFs::new("/vault"), &store, Mode::Status).unwrap();
    assert!(
        report.plan.actions.iter().any(|a| a.key == "notes/a.md"),
        "healthy key dropped: {:?}",
        report.plan.actions
    );
    store.fail_head = Some("notes/a.md");
    let err = report_for(&LocalFs::new("/vault"), &store, Mode::Status).unwrap_err();
    assert!(matches!(err, Error::Unavailable(_)), "{err:?}");
}

#[test]
fn build_plan_status_converges_after_push_with_s3like_listing() {
    let fixed = 1_600_000_000_123u64;
    let files = [("a.md", "aaa", fixed), ("notes/b.md", "bbbb", fixed), ("c.md", "cc", fixed)];
    let mut vault = Vault::with(&files);
    let store = UploadTimes::new();
    let fs = vault.walk(LocalFs::new("/vault")).unwrap();
    let plan = report_for(&fs, &store, Mode::Push).unwrap().plan;
    assert_eq!(
        plan.stats.upload,
        files.len() as u32,
        "push plan must plan the seeded uploads: {:?}",
        plan.actions
    );
    let results = vault.run(&fs, &mut Session::new(store.clone()), &plan, Mode::Push, 1000);
    let rep = execute_plan(&plan, Mode::Push, &results);
    assert!(rep.failed.is_empty(), "push failures: {:?}", rep.failed);
    assert_eq!(
        rep.executed,
        files.len() as u32,
        "push must execute exactly the seeded uploads: {:?}",
        rep
    );
    for (rel, bytes, _) in &files {
        assert_eq!(store.inner.stat(rel).unwrap().size, bytes.len() as u64);
    }
    let status = report_for(&fs, &store, Mode::Status).unwrap().plan;
    assert_eq!(status.stats.upload, 0, "uploads: {:?}", status.actions);
    assert_eq!(status.stats.download, 0, "downloads: {:?}", status.actions);
    assert_eq!(status.stats.conflict, 0, "conflicts: {:?}", status.actions);
    for a in &status.actions {
        if !a.key.ends_with('/') {
            assert_eq!(a.kind, ActionKind::Skip, "non-converged row: {:?}", a);
        }
    }
}

#[test]
fn pull_into_fresh_dir_then_status_converges_with_s3like_listing() {
    let fixed = 1_600_000_000_123u64;
    let store = UploadTimes::new();
    let files = [("a.md", "aaa"), ("notes/b.md", "bbbb")];
    for (rel, bytes) in &files {
        store.inner.seed(rel, bytes.as_bytes(), Some(fixed));
    }
    let mut vault = Vault::default();
    let fs = vault.walk(LocalFs::new("/vault")).unwrap();
    let plan = report_for(&fs, &store, Mode::Pull).unwrap().plan;
    let results = vault.run(&fs, &mut Session::new(store.clone()), &plan, Mode::Pull, 1000);
    let rep = execute_plan(&plan, Mode::Pull, &results);
    assert!(rep.failed.is_empty(), "pull failures: {:?}", rep.failed);
    for (rel, bytes) in &files {
        match vault.at(rel) {
            Some(Node::File(body, mtime)) => {
                assert_eq!(body, bytes.as_bytes(), "{rel} bytes");
                assert_eq!(mtime, fixed, "{rel} mtime");
            }
            _ => panic!("{rel} is missing"),
        }
    }
    let fs = vault.walk(LocalFs::new("/vault")).unwrap();
    let status = report_for(&fs, &store, Mode::Status).unwrap().plan;
    assert_eq!(status.stats.upload, 0, "uploads: {:?}", status.actions);
    assert_eq!(status.stats.download, 0, "downloads: {:?}", status.actions);
    assert_eq!(status.stats.conflict, 0, "conflicts: {:?}", status.actions);
}

#[test]
fn a_key_that_vanishes_while_listed_is_dropped_with_a_warning() {
    let listing = Listing {
        entities: vec![
            entity::file("a.md", 1, Some(9)),
            entity::folder("n"),
            entity::file("n/b.md", 2, Some(9)),
        ],
        warnings: vec!["first".to_string()],
    };
    assert_eq!(keys_to_head(&listing), vec!["a.md", "n/b.md"]);
    let answers = vec![
        Err(Error::NotFound("a.md".to_string())),
        Ok(entity::file("n/b.md", 2, None)),
    ];
    let l = enrich_with_head_mtimes(listing, &answers).unwrap();
    assert_eq!(
        l.entities,
        vec![entity::folder("n"), entity::file("n/b.md", 2, None)]
    );
    assert_eq!(
        l.warnings,
        vec![
            "first",
            "dropping remote object a.md (deleted while it was listed)"
        ]
    );
}

#[test]
fn passes_make_up_the_run() {
    let vault = Vault::with(&[("a.md", "a", 5), ("b.md", "b", 5)]);
    let store = Double::new();
    store.seed("gone.md", b"x", Some(5));
    let (_, plan) = plan_of(&vault, &store, Mode::Push, &delete());
    let passes = execution_passes(&plan, Mode::Push, 4);
    let shape: Vec<(&str, u32, usize)> = passes
        .iter()
        .map(|p| (p.verb, p.concurrency, p.steps.len()))
        .collect();
    assert_eq!(
        shape,
        vec![("Downloading", 4, 0), ("Uploading", 4, 2), ("Deleting", 1, 1)]
    );
    let steps: Vec<usize> = passes.iter().flat_map(|p| p.steps.clone()).collect();
    assert_eq!(steps, execution_steps(&plan, Mode::Push));
    assert!(execution_passes(&plan, Mode::Status, 4).is_empty());
}
