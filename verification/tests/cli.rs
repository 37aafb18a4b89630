//! Commands end to end, against a vault and a store held in memory.

#![allow(dead_code)]

use std::cell::{Cell, RefCell};
use std::collections::{BTreeMap, BTreeSet};
use std::rc::Rc;
use vaultsync::cli::{
    cmd_config_path, ensure_usage, finish_transfer, is_clean, requires_real_store,
    resolve_vault_from_config, run_with_io, run_with_settings, walk_for, Cli, Command, Commands,
    Dispatch, DispatchCtx, Inputs, RepairArgs, StatusArgs, TransferArgs, VAULT_UNSET,
};
use vaultsync::config::{
    resolve_settings, EnvSnapshot, FileConfig, IgnoreConfig, InventoryBootstrap, InventoryMode,
    RetrySettings, Settings,
    StoreConfig, StoreSettings, TransferConfig, DEFAULT_MTIME_TOLERANCE_MS,
    OBSIDIAN_DEFAULT_IGNORE_PATTERNS,
};
use vaultsync::entity::Entity;
use vaultsync::error::Error;
use vaultsync::exec::{
    check_delete_local, check_destination, cleanup_warning, emptied_dirs, exec_delete_remote,
    exec_download, exec_upload, execution_steps, StepOutcome,
};
use vaultsync::inventory::{CacheSnapshot, CacheUpdate};
use vaultsync::local::{
    LinkTarget, LocalFs, NodeKind, NodeStat, Opened, PathPart, WalkStep, MANIFEST_KEY,
};
use vaultsync::manifest::{
    file_entities_to_manifest, parse_manifest_bytes, serialize_manifest, ManifestV1,
};
use vaultsync::plan::{ActionKind, Mode, Plan};
use vaultsync::progress::{progress_frame, resolve_progress_mode, ProgressMode, ResolvedMode};
use vaultsync::store::mock::MemoryStore;
use vaultsync::store::{
    CappedWriter, GetOpts, GetOutcome, Listing, ObjectStore, PutOpts, Session,
};
use vaultsync::{probe_key, IgnoreSet};

type ListHook = fn(Listing) -> Result<Listing, Error>;
type HeadHook = fn(&str) -> Option<Result<Entity, Error>>;
type GetHook = fn(&str, &mut CappedWriter) -> Option<Result<Entity, Error>>;
type PutHook = fn(&str, &PutOpts) -> Option<Error>;

/// A store whose answers can be replaced, and whose requests are counted. Its
/// clones share one [`MemoryStore`].
#[derive(Clone)]
struct Double {
    inner: Rc<RefCell<MemoryStore>>,
    on_list: Option<ListHook>,
    on_head: Option<HeadHook>,
    on_get: Option<GetHook>,
    on_put: Option<PutHook>,
    no_list: bool,
    lists: Rc<Cell<usize>>,
    fetched: Rc<Cell<usize>>,
    /// The requests that may change the store, in their order.
    log: Rc<RefCell<Vec<String>>>,
}

impl Double {
    fn new() -> Self {
        Double {
            inner: Rc::new(RefCell::new(MemoryStore::new())),
            on_list: None,
            on_head: None,
            on_get: None,
            on_put: None,
            no_list: false,
            lists: Rc::new(Cell::new(0)),
            fetched: Rc::new(Cell::new(0)),
            log: Rc::new(RefCell::new(Vec::new())),
        }
    }

    /// Stores an object past the counters.
    fn seed(&self, key: &str, body: &[u8], mtime_ms: Option<u64>) -> Entity {
        self.inner.borrow_mut().put_from(key, body, mtime_ms).unwrap()
    }

    fn body(&self, key: &str) -> Vec<u8> {
        let mut w = CappedWriter::new(u64::MAX);
        self.inner.borrow_mut().get_to(key, &mut w).unwrap();
        w.into_bytes()
    }

    fn stat(&self, key: &str) -> Result<Entity, Error> {
        self.inner.borrow_mut().head(key)
    }

    fn session(&self) -> Session<Double> {
        Session::new(self.clone())
    }
}

impl ObjectStore for Double {
    fn list(&mut self, prefix: &str) -> Result<Listing, Error> {
        if self.no_list {
            panic!("this store must not be listed");
        }
        self.lists.set(self.lists.get() + 1);
        let listing = self.inner.borrow_mut().list(prefix)?;
        match self.on_list {
            Some(h) => h(listing),
            None => Ok(listing),
        }
    }

    fn head(&mut self, key: &str) -> Result<Entity, Error> {
        if let Some(r) = self.on_head.and_then(|h| h(key)) {
            return r;
        }
        self.inner.borrow_mut().head(key)
    }

    fn get_to(&mut self, key: &str, w: &mut CappedWriter) -> Result<Entity, Error> {
        if let Some(r) = self.on_get.and_then(|h| h(key, w)) {
            return r;
        }
        let r = self.inner.borrow_mut().get_to(key, w);
        self.fetched.set(self.fetched.get() + w.bytes().len());
        r
    }

    fn get_to_with(
        &mut self,
        key: &str,
        w: &mut CappedWriter,
        opts: &GetOpts,
    ) -> Result<GetOutcome, Error> {
        if let Some(r) = self.on_get.and_then(|h| h(key, w)) {
            return r.map(GetOutcome::Body);
        }
        let r = self.inner.borrow_mut().get_to_with(key, w, opts);
        self.fetched.set(self.fetched.get() + w.bytes().len());
        r
    }

    fn put_from(&mut self, key: &str, body: &[u8], mtime_ms: Option<u64>) -> Result<Entity, Error> {
        self.log.borrow_mut().push(format!("put {key}"));
        let opts = PutOpts { mtime_ms, ..PutOpts::default() };
        if let Some(e) = self.on_put.and_then(|h| h(key, &opts)) {
            return Err(e);
        }
        self.inner.borrow_mut().put_from(key, body, mtime_ms)
    }

    fn put_from_with(&mut self, key: &str, body: &[u8], opts: &PutOpts) -> Result<Entity, Error> {
        self.log.borrow_mut().push(format!("put {key}"));
        if let Some(e) = self.on_put.and_then(|h| h(key, opts)) {
            return Err(e);
        }
        self.inner.borrow_mut().put_from_with(key, body, opts)
    }

    fn delete(&mut self, key: &str) -> Result<(), Error> {
        self.log.borrow_mut().push(format!("delete {key}"));
        self.inner.borrow_mut().delete(key)
    }
}

/// A vault held in memory: its nodes by path. Folders above a node need no
/// node of their own.
#[derive(Clone)]
enum Node {
    File(Vec<u8>, u64),
    Dir,
    Link(String),
    Special,
}

#[derive(Clone, Default)]
struct Vault {
    nodes: BTreeMap<String, Node>,
}

impl Vault {
    fn with(files: &[(&str, &str, u64)]) -> Self {
        let mut v = Vault::default();
        for (path, body, mtime) in files {
            v.write(path, body.as_bytes(), *mtime);
        }
        v
    }

    fn write(&mut self, path: &str, body: &[u8], mtime: u64) {
        self.nodes
            .insert(path.to_string(), Node::File(body.to_vec(), mtime));
    }

    fn link(&mut self, path: &str, target: &str) {
        self.nodes
            .insert(path.to_string(), Node::Link(target.to_string()));
    }

    /// The node at a path; `""` is the root.
    fn at(&self, path: &str) -> Option<Node> {
        let below = format!("{path}/");
        match self.nodes.get(path) {
            Some(n) => Some(n.clone()),
            None if path.is_empty() || self.nodes.keys().any(|k| k.starts_with(&below)) => {
                Some(Node::Dir)
            }
            None => None,
        }
    }

    /// The names in a directory.
    fn names(&self, dir: &str) -> BTreeSet<String> {
        let base = if dir.is_empty() { String::new() } else { format!("{dir}/") };
        self.nodes
            .keys()
            .filter_map(|k| k.strip_prefix(&base))
            .filter(|rest| !rest.is_empty())
            .map(|rest| rest.split('/').next().unwrap().to_string())
            .collect()
    }

    /// Walks the vault, doing what the walk says.
    fn walk(&self, fs: LocalFs) -> Result<LocalFs, Error> {
        let mut fs = fs;
        self.walk_dir(&mut fs, "", "")?;
        Ok(fs)
    }

    /// `seen` is the directory's path as the walk sees it, `real` where it is.
    fn walk_dir(&self, fs: &mut LocalFs, seen: &str, real: &str) -> Result<(), Error> {
        for name in self.names(real) {
            let path = if seen.is_empty() { name.clone() } else { format!("{seen}/{name}") };
            let mut place = if real.is_empty() { name.clone() } else { format!("{real}/{name}") };
            let parts: Vec<PathPart> = path
                .split('/')
                .map(|p| PathPart::Normal(p.to_string()))
                .collect();
            let shown = format!("{path:?}");
            let mut node = self.at(&place);
            let kind = match &node {
                Some(Node::File(..)) => NodeKind::File,
                Some(Node::Dir) => NodeKind::Dir,
                Some(Node::Link(_)) => NodeKind::Symlink,
                _ => NodeKind::Special,
            };
            let mut step = fs.visit(&parts, &shown, kind)?;
            if let (WalkStep::Resolve, Some(Node::Link(to))) = (&step, &node) {
                let target = match self.at(to) {
                    _ if to.starts_with('/') => LinkTarget::Outside,
                    None => LinkTarget::Missing,
                    Some(Node::Dir) => LinkTarget::Dir(format!("/vault/{to}")),
                    Some(Node::File(..)) => LinkTarget::File,
                    Some(_) => LinkTarget::Special,
                };
                step = fs.follow_link(&parts, &shown, &target)?;
                place = to.clone();
                node = self.at(&place);
            }
            if let WalkStep::Stat { key, folder } = step {
                let stat = match &node {
                    Some(Node::File(body, mtime)) => Some(NodeStat {
                        size: body.len() as u64,
                        mtime_ms: Some(*mtime),
                    }),
                    Some(_) => Some(NodeStat {
                        size: 4096,
                        mtime_ms: Some(1),
                    }),
                    None => None,
                };
                fs.record(&key, folder, stat);
                if folder {
                    self.walk_dir(fs, &path, &place)?;
                }
            }
        }
        Ok(())
    }

}

impl Vault {
    /// What an open of the file would see.
    fn open(&self, path: &str) -> Opened {
        match self.at(path) {
            None => Opened::Missing,
            Some(Node::Link(_)) => Opened::Symlink,
            Some(Node::File(body, mtime)) => Opened::Node {
                regular: true,
                size: body.len() as u64,
                mtime_ms: Some(mtime),
            },
            Some(_) => Opened::Node {
                regular: false,
                size: 0,
                mtime_ms: None,
            },
        }
    }

    fn body(&self, path: &str) -> Vec<u8> {
        match self.nodes.get(path) {
            Some(Node::File(body, _)) => body.clone(),
            _ => Vec::new(),
        }
    }

    /// Carries out a plan step by step, and removes the folders it emptied.
    fn run<S: ObjectStore>(
        &mut self,
        fs: &LocalFs,
        store: &mut Session<S>,
        plan: &Plan,
        mode: Mode,
        tolerance_ms: u64,
    ) -> Vec<StepOutcome> {
        let mut results = Vec::new();
        for i in execution_steps(plan, mode) {
            let a = &plan.actions[i];
            let seen = self.open(&a.key);
            let done = match a.kind {
                ActionKind::Upload => {
                    let body = self.body(&a.key);
                    match exec_upload(store, fs, a, tolerance_ms, &seen, &body) {
                        Ok(e) => {
                            results.push(StepOutcome::Uploaded(e));
                            continue;
                        }
                        Err(e) => Err(e),
                    }
                }
                ActionKind::Download => exec_download(store, fs, a).and_then(|d| {
                    check_destination(fs, a, tolerance_ms, &seen)?;
                    self.write(&a.key, &d.body, d.mtime_ms.unwrap_or(0));
                    Ok(())
                }),
                ActionKind::DeleteLocal => {
                    check_delete_local(fs, a, tolerance_ms, &seen).map(|()| {
                        self.nodes.remove(&a.key);
                    })
                }
                _ => exec_delete_remote(store, a, tolerance_ms),
            };
            results.push(match done {
                Ok(()) => StepOutcome::Done,
                Err(e) => StepOutcome::Failed(e),
            });
        }
        for dir in emptied_dirs(plan, mode, &results) {
            let dir = dir.trim_end_matches('/').to_string();
            if self.names(&dir).is_empty() {
                self.nodes.remove(&dir);
            }
        }
        results
    }
}

const HELP: &str = "Usage: vaultsync [OPTIONS] [COMMAND]";

/// The root of every vault here; there is nothing at any other path.
const ROOT: &str = "/vault";

fn root() -> String {
    ROOT.to_string()
}

fn ctx(inventory_mode: InventoryMode) -> DispatchCtx {
    DispatchCtx {
        tolerance_ms: DEFAULT_MTIME_TOLERANCE_MS,
        concurrency: 1,
        progress_mode: ProgressMode::Off,
        ignore: IgnoreSet::empty(),
        inventory_mode,
        inventory_bootstrap: InventoryBootstrap::PushEnsure,
        help: HELP.to_string(),
    }
}

/// A program around the library: it walks, dispatches, carries out the
/// transfers and finishes them.
struct Program {
    vault: Vault,
    store: Double,
    cache: CacheSnapshot,
    cleanup_warnings: Vec<String>,
}

impl Program {
    fn new(vault: Vault, store: Double) -> Self {
        Program {
            vault,
            store,
            cache: CacheSnapshot {
                meta: None,
                body: None,
            },
            cleanup_warnings: Vec::new(),
        }
    }

    fn apply(&mut self, update: CacheUpdate) {
        match update {
            CacheUpdate::Keep => {}
            CacheUpdate::Invalidate => {
                self.cache.body = None;
                self.cache.meta = None;
            }
            CacheUpdate::Fill { body, meta } => {
                self.cache.body = Some(body);
                self.cache.meta = Some(meta);
            }
        }
    }

    fn run(&mut self, cmd: Command, ctx: &DispatchCtx) -> (i32, String, String) {
        let walk = walk_for(&cmd, ctx).map(|fs| {
            fs.check_root(fs.root() == ROOT)?;
            self.vault.walk(fs)
        });
        let cache = std::mem::replace(
            &mut self.cache,
            CacheSnapshot {
                meta: None,
                body: None,
            },
        );
        let kept = CacheSnapshot {
            meta: cache.meta.as_ref().map(|m| vaultsync::inventory::CacheMeta {
                remote_etag: m.remote_etag.clone(),
                fetched_at_ms: m.fetched_at_ms,
                source_key: m.source_key.clone(),
                body_fnv: m.body_fnv.clone(),
            }),
            body: cache.body.clone(),
        };
        self.cache = kept;
        let inputs = Inputs {
            walk,
            cache: Some(cache),
            now_ms: 7,
            probe_key: probe_key(1, 2, 3),
            terminal: false,
        };
        let mut session = self.store.session();
        let mut out = String::new();
        let mut err = String::new();
        let (dispatch, update) =
            run_with_io(cmd, &mut session, ctx, inputs, &mut out, &mut err);
        self.apply(update);
        let code = match dispatch {
            Dispatch::Exit(code) => code,
            Dispatch::Transfer(p) => {
                let results =
                    self.vault
                        .run(&p.local, &mut session, &p.plan, p.mode, p.tolerance_ms);
                let (code, update) = finish_transfer(
                    &p,
                    &mut session,
                    &results,
                    &self.cleanup_warnings,
                    8,
                    &mut err,
                );
                self.apply(update);
                code
            }
        };
        (code, out, err)
    }

    /// Runs a command under resolved settings.
    fn run_settings(&mut self, cmd: Command, settings: &Settings) -> (i32, String, String) {
        let mut err = String::new();
        match run_with_settings(cmd, settings, ProgressMode::Off, HELP, &mut err) {
            Err(code) => (code, String::new(), err),
            Ok((cmd, ctx)) => self.run(cmd, &ctx),
        }
    }

    fn manifest(&self) -> ManifestV1 {
        parse_manifest_bytes(&self.store.body(MANIFEST_KEY)).unwrap()
    }
}

fn run(cmd: Command, vault: Vault, store: &Double) -> (i32, String, String) {
    Program::new(vault, store.clone()).run(cmd, &ctx(InventoryMode::ListHead))
}

fn run_mode(cmd: Command, vault: Vault, store: &Double, mode: ProgressMode) -> (i32, String, String) {
    let mut c = ctx(InventoryMode::ListHead);
    c.progress_mode = mode;
    Program::new(vault, store.clone()).run(cmd, &c)
}

fn has_line(text: &str, start: &str) -> bool {
    text.lines().any(|l| l.starts_with(start))
}

fn settings_of(cfg: &FileConfig) -> Settings {
    resolve_settings(cfg, &EnvSnapshot::default()).unwrap()
}

fn no_store_settings() -> Settings {
    settings_of(&FileConfig {
        vault_root: Some(root()),
        ..Default::default()
    })
}

fn settings_with_profile(profile: Option<&str>, patterns: Vec<&str>) -> Settings {
    settings_of(&FileConfig {
        vault_root: Some(root()),
        ignore: Some(IgnoreConfig {
            profile: profile.map(|p| p.to_string()),
            patterns: patterns.iter().map(|s| s.to_string()).collect(),
        }),
        ..Default::default()
    })
}

fn settings_with_ignore(patterns: Vec<&str>) -> Settings {
    settings_with_profile(None, patterns)
}

fn settings_profile_none(patterns: Vec<&str>) -> Settings {
    settings_with_profile(Some("none"), patterns)
}

fn with_bucket(settings: Settings) -> Settings {
    let mut settings = settings;
    settings.store.bucket = "b".to_string();
    settings
}

fn four_notes() -> Vault {
    Vault::with(&[
        ("n0.md", "body-0", 5),
        ("n1.md", "body-1", 5),
        ("n2.md", "body-2", 5),
        ("n3.md", "body-3", 5),
    ])
}

fn default_profile_vault() -> Vault {
    Vault::with(&[
        (".obsidian/app.json", "{}", 5),
        (".obsidian/workspace.json", "{}", 5),
        (".trash/x.md", "x", 5),
        (".git/HEAD", "ref: refs/heads/main", 5),
        ("notes/a.md", "hi", 5),
        ("notes/.DS_Store", "", 5),
    ])
}

fn fail_puts(store: &mut Double) {
    store.on_put = Some(|key, _| Some(Error::Other(format!("injected put failure for {key}"))));
}

#[test]
fn vault_precedence_cli_over_config() {
    let settings = Settings {
        vault_root: "/cfg/vault".to_string(),
        store: StoreSettings {
            bucket: String::new(),
            region: None,
            endpoint: None,
            prefix: String::new(),
            path_style: false,
        },
        mtime_tolerance_ms: 1000,
        concurrency: 4,
        retry: RetrySettings::default(),
        ignore_patterns: Vec::new(),
        resolved_ignore_patterns: Vec::new(),
        inventory_mode: InventoryMode::Auto,
        inventory_bootstrap: InventoryBootstrap::PushEnsure,
    };
    let cli_explicit = Command::status("/cli/vault".to_string());
    match resolve_vault_from_config(cli_explicit, &settings) {
        Command::Status { vault, .. } => assert_eq!(vault, "/cli/vault"),
        other => panic!("expected Status, got {other:?}"),
    }
    let cli_unset = Command::status(VAULT_UNSET.to_string());
    match resolve_vault_from_config(cli_unset, &settings) {
        Command::Status { vault, .. } => assert_eq!(vault, "/cfg/vault"),
        other => panic!("expected Status, got {other:?}"),
    }
}

#[test]
fn run_seam_defaults_progress_off_for_captured_io() {
    let (code, out, err) = run(
        Command::push(root(), false),
        four_notes(),
        &Double::new(),
    );
    assert_eq!(code, 0);
    assert!(!err.contains('\r'), "no carriage-return frames: {err:?}");
    assert!(!err.contains("\x1b[K"), "no clear-to-EOL: {err:?}");
    assert!(!err.contains("Uploading"), "no bar verb: {err:?}");
    assert!(out.contains("U  n0.md"), "plan text still on stdout: {out}");
}

#[test]
fn push_always_progress_writes_bar_frames_to_stderr() {
    let (code, out, err) = run_mode(
        Command::push(root(), false),
        four_notes(),
        &Double::new(),
        ProgressMode::Always,
    );
    assert_eq!(code, 0, "stderr: {err}");
    assert!(err.contains('\r'), "expected frames: {err:?}");
    assert!(err.contains("\x1b[K"), "expected clear-to-EOL: {err:?}");
    assert!(err.contains("Uploading"), "expected pass verb: {err:?}");
    assert!(err.contains("4/4"), "expected final n/n frame: {err:?}");
    assert!(out.contains("U  n0.md"), "plan text on stdout: {out}");
    assert!(
        !out.contains('\r'),
        "stdout must stay progress-free: {out:?}"
    );
    assert!(
        !out.contains("\x1b[K"),
        "stdout must stay progress-free: {out:?}"
    );
}

#[test]
fn push_off_progress_writes_nothing() {
    let (code_on, out_on, err_on) = run_mode(
        Command::push(root(), false),
        four_notes(),
        &Double::new(),
        ProgressMode::Always,
    );
    let (code_off, out_off, err_off) = run_mode(
        Command::push(root(), false),
        four_notes(),
        &Double::new(),
        ProgressMode::Off,
    );
    assert_eq!(code_on, code_off);
    assert_eq!(out_on, out_off, "stdout must be byte-identical");
    assert!(!err_off.contains('\r'), "no frames under Off: {err_off:?}");
    assert!(
        !err_off.contains("Uploading"),
        "no verb under Off: {err_off:?}"
    );
    assert!(
        err_on.contains('\r') && !err_on.is_empty(),
        "sanity: the Always leg does render"
    );
}

#[test]
fn pull_always_progress_writes_download_frames() {
    let store = Double::new();
    for i in 0..3 {
        store.seed(
            &format!("r{i}.md"),
            format!("remote-{i}").as_bytes(),
            Some(1_700_000_000_000 + i),
        );
    }
    let (code, out, err) = run_mode(
        Command::pull(root(), false),
        Vault::default(),
        &store,
        ProgressMode::Always,
    );
    assert_eq!(code, 0, "stderr: {err}");
    assert!(err.contains('\r'), "expected frames: {err:?}");
    assert!(err.contains("Downloading"), "expected pass verb: {err:?}");
    assert!(err.contains("3/3"), "expected final n/n frame: {err:?}");
    assert!(out.contains("D  r0.md"), "plan text on stdout: {out}");
    assert!(
        !out.contains("\x1b[K"),
        "stdout must stay progress-free: {out:?}"
    );
}

#[test]
fn dry_run_and_status_emit_no_progress() {
    let vault = Vault::with(&[("a.md", "hello", 5)]);
    let dry_run_cmd = Command::Push {
        vault: root(),
        delete: false,
        dry_run: true,
        force_local: false,
        force_remote: false,
        json: false,
        config: None,
        verbose: 0,
        follow_symlinks: false,
    };
    let (code_dry, _, err_dry) = run_mode(
        dry_run_cmd,
        vault.clone(),
        &Double::new(),
        ProgressMode::Always,
    );
    assert_eq!(code_dry, 2, "dry run of a dirty push exits 2 (like status)");
    assert!(
        !err_dry.contains('\r') && !err_dry.contains("Uploading"),
        "dry-run must not render: {err_dry:?}"
    );
    let (code_st, _, err_st) = run_mode(
        Command::status(root()),
        vault,
        &Double::new(),
        ProgressMode::Always,
    );
    assert!(
        !err_st.contains('\r') && !err_st.contains("Downloading") && !err_st.contains("Uploading"),
        "status must not render: {err_st:?}"
    );
    assert_eq!(code_st, 2, "dirty status exits 2");
}

#[test]
fn progress_does_not_change_exit_codes() {
    let store = Double::new();
    store.seed("c.md", b"xx", Some(5000));
    let (code_conflict, _, _) = run_mode(
        Command::push(root(), false),
        Vault::with(&[("c.md", "x", 5000)]),
        &store,
        ProgressMode::Always,
    );
    assert_eq!(code_conflict, 2, "conflict -> exit 2");

    let mut failing = Double::new();
    fail_puts(&mut failing);
    let (code_fail, _, err) = run_mode(
        Command::push(root(), false),
        Vault::with(&[("a.md", "hello", 5)]),
        &failing,
        ProgressMode::Always,
    );
    assert_eq!(code_fail, 1, "transfer failure -> exit 1, stderr: {err}");
}

#[test]
fn status_reports_skipped_temp_files() {
    let (code, _, err) = run(
        Command::status(root()),
        Vault::with(&[
            ("note.md", "real", 5),
            (".note.md.vaultsync-tmp-1-1", "crash-leftover", 5),
        ]),
        &Double::new(),
    );
    assert_ne!(code, 1, "unexpected error exit");
    assert!(
        err.contains("skipped 1 vaultsync temp/probe file(s)"),
        "skipped-temp warning missing: {err}"
    );
}

#[test]
fn run_version_exit_0() {
    let (code, out, _) = run(Command::Version, Vault::default(), &Double::new());
    assert_eq!(code, 0);
    assert!(out.starts_with("vaultsync 0.1.0"));
}

#[test]
fn run_help_exit_0() {
    let (code, out, _) = run(Command::Help, Vault::default(), &Double::new());
    assert_eq!(code, 0);
    assert!(out.contains("Usage:"));
}

#[test]
fn run_status_clean_exit_0() {
    let (code, out, _) = run(Command::status(root()), Vault::default(), &Double::new());
    assert_eq!(code, 0);
    assert!(out.contains("plan:"));
}

#[test]
fn run_status_dirty_exit_2() {
    let (code, out, _) = run(
        Command::status(root()),
        Vault::with(&[("a.md", "hi", 5)]),
        &Double::new(),
    );
    assert_eq!(code, 2);
    assert!(has_line(&out, "U  a.md"));
}

#[test]
fn status_prints_inventory_source_line() {
    let vault = Vault::with(&[("a.md", "hi", 5)]);
    let files = vault.walk(LocalFs::new(ROOT)).unwrap().list();
    let warm = Double::new();
    let m = file_entities_to_manifest(&files, 0, None, None).unwrap();
    warm.seed(MANIFEST_KEY, &serialize_manifest(&m).unwrap(), None);
    let (code, _, err) = Program::new(vault.clone(), warm)
        .run(Command::status(root()), &ctx(InventoryMode::Auto));
    assert_eq!(code, 0);
    assert!(
        err.contains("inventory: manifest (1 entries)"),
        "err: {err}"
    );

    let (code, _, err) = run(Command::status(root()), vault, &Double::new());
    assert_eq!(code, 2, "local-only rows make status dirty");
    assert!(err.contains("inventory: list+head (cold)"), "err: {err}");
}

#[test]
fn run_status_json_rejected_not_implemented() {
    let cmd = Command::Status {
        vault: root(),
        json: true,
        config: None,
        verbose: 0,
        follow_symlinks: false,
        write_manifest: false,
    };
    let (code, _, err) = run(cmd, Vault::default(), &Double::new());
    assert_eq!(code, 1);
    assert!(err.contains("--json"), "err: {err}");
}

#[test]
fn push_commits_manifest_with_uploaded_entries() {
    let mut p = Program::new(Vault::with(&[("a.md", "hi", 5)]), Double::new());
    let (code, _, err) = p.run(Command::push(root(), false), &ctx(InventoryMode::Auto));
    assert_eq!(code, 0, "err: {err}");
    let etag1 = p.store.stat(MANIFEST_KEY).expect("manifest written").etag;
    assert!(etag1.is_some());
    let m = p.manifest();
    assert_eq!(m.entry_count, 1);
    assert_eq!(m.entries[0].key, "a.md");
    assert_eq!(m.entries[0].size, 2);
    assert_eq!(
        *p.store.log.borrow(),
        vec![
            format!("put {MANIFEST_KEY}"),
            "put a.md".to_string(),
            format!("put {MANIFEST_KEY}"),
        ],
        "the baseline goes first, the commit last"
    );
    let (code, _, _) = p.run(Command::push(root(), false), &ctx(InventoryMode::Auto));
    assert_eq!(code, 0);
    let h = p.store.stat(MANIFEST_KEY).unwrap();
    assert_eq!(h.etag, etag1, "clean push must skip the commit");
}

#[test]
fn push_delete_removes_key_from_manifest() {
    let mut p = Program::new(Vault::with(&[("a.md", "hi", 5)]), Double::new());
    p.store.seed("gone.md", b"x", Some(1));
    let (code, _, err) = p.run(Command::push(root(), true), &ctx(InventoryMode::Auto));
    assert_eq!(code, 0, "err: {err}");
    assert!(
        matches!(p.store.stat("gone.md").unwrap_err(), Error::NotFound(_)),
        "remote extra must be deleted"
    );
    let m = p.manifest();
    let keys: Vec<&str> = m.entries.iter().map(|e| e.key.as_str()).collect();
    assert_eq!(
        keys,
        vec!["a.md"],
        "deleted key must be absent from manifest"
    );
}

#[test]
fn push_auto_replaces_corrupt_remote_manifest() {
    let mut p = Program::new(Vault::with(&[("a.md", "hi", 5)]), Double::new());
    p.store.seed(MANIFEST_KEY, b"not a manifest", None);
    let (code, _, err) = p.run(Command::push(root(), false), &ctx(InventoryMode::Auto));
    assert_eq!(code, 0, "err: {err}");
    assert!(
        !err.contains("not committed"),
        "no create-only stuck state: {err}"
    );
    let m = p.manifest();
    assert_eq!(m.entry_count, 1);
    assert_eq!(m.entries[0].key, "a.md");
}

#[test]
fn push_refreshes_local_manifest_cache() {
    let mut p = Program::new(Vault::with(&[("a.md", "hi", 5)]), Double::new());
    let (code, _, err) = p.run(Command::push(root(), false), &ctx(InventoryMode::Auto));
    assert_eq!(code, 0, "err: {err}");
    let remote = p.store.stat(MANIFEST_KEY).unwrap();
    assert_eq!(
        p.cache.meta.expect("cache meta missing").remote_etag,
        remote.etag,
        "cache meta etag must equal the committed remote etag"
    );
    let m = parse_manifest_bytes(&p.cache.body.expect("cache body missing")).unwrap();
    assert_eq!(m.entry_count, 1);
    assert_eq!(m.entries[0].key, "a.md");
}

#[test]
fn pull_does_not_write_manifest() {
    let mut p = Program::new(Vault::default(), Double::new());
    p.store.seed("a.md", b"hi", Some(1_600_000_000_000));
    let body = br#"{"schema":"vaultsync.manifest.v1","created_ms":0,"entry_count":1,"entries":[{"key":"a.md","size":2,"mtime_ms":1600000000000}]}"#;
    let put = p.store.seed(MANIFEST_KEY, body, None);
    let (code, _, err) = p.run(Command::pull(root(), false), &ctx(InventoryMode::Auto));
    assert_eq!(code, 0, "err: {err}");
    assert!(p.vault.at("a.md").is_some(), "body pulled");
    let h = p.store.stat(MANIFEST_KEY).unwrap();
    assert_eq!(h.etag, put.etag, "pull must not rewrite the manifest");
}

#[test]
fn push_race_warning_exit_0_with_warning() {
    let mut store = Double::new();
    store.on_put = Some(|key, opts| {
        if opts.if_match_etag.is_some() || opts.if_none_match_star {
            Some(Error::PreconditionFailed(format!("lost race on {key}")))
        } else {
            None
        }
    });
    let mut p = Program::new(Vault::with(&[("a.md", "hi", 5)]), store);
    let (code, _, err) = p.run(Command::push(root(), false), &ctx(InventoryMode::Auto));
    assert_eq!(code, 0, "race warning must not fail a successful push");
    assert!(
        err.contains("manifest not committed"),
        "locked warning substring missing: {err}"
    );
    assert!(err.contains("repair"), "suggests repair: {err}");
    assert!(p.store.stat("a.md").is_ok(), "uploaded body must be live");
    assert!(
        p.store.stat(MANIFEST_KEY).is_err(),
        "manifest must not be written on a lost race"
    );
}

fn repair_cmd(dry_run: bool, force: bool, json: bool) -> Command {
    Cli {
        config: None,
        vault: VAULT_UNSET.to_string(),
        json,
        verbose: 0,
        follow_symlinks: false,
        command: Some(Commands::Repair(RepairArgs { dry_run, force })),
    }
    .into_command()
}

#[test]
fn repair_parses_and_runs_with_summary() {
    match repair_cmd(false, false, false) {
        Command::Repair {
            dry_run: false,
            force: false,
            ..
        } => {}
        other => panic!("expected plain repair, got {other:?}"),
    }
    match repair_cmd(true, false, false) {
        Command::Repair { dry_run: true, .. } => {}
        other => panic!("expected --dry-run, got {other:?}"),
    }
    match repair_cmd(false, true, false) {
        Command::Repair { force: true, .. } => {}
        other => panic!("expected --force, got {other:?}"),
    }
    let mut p = Program::new(Vault::default(), Double::new());
    p.store.seed("a.md", b"hi", Some(1_600_000_000_000));
    let (code, out, err) = p.run(
        Command::Repair {
            vault: root(),
            json: false,
            config: None,
            verbose: 0,
            dry_run: false,
            force: false,
        },
        &ctx(InventoryMode::ListHead),
    );
    assert_eq!(code, 0, "err: {err}");
    assert!(
        out.contains("repair: listed 1 objects via list+head"),
        "out: {out}"
    );
    assert!(
        out.contains("repair: wrote .vaultsync/manifest/v1.json (1 entries"),
        "out: {out}"
    );
    assert!(!err.contains("error"), "no error expected: {err}");
    assert_eq!(p.manifest().entry_count, 1);
}

#[test]
fn repair_dry_run_prints_count_and_writes_nothing() {
    let store = Double::new();
    store.seed("a.md", b"hi", Some(1_600_000_000_000));
    let (code, out, _) = run(
        Command::Repair {
            vault: VAULT_UNSET.to_string(),
            json: false,
            config: None,
            verbose: 0,
            dry_run: true,
            force: false,
        },
        Vault::default(),
        &store,
    );
    assert_eq!(code, 0);
    assert!(
        out.contains("repair: listed 1 objects via list+head"),
        "out: {out}"
    );
    assert!(out.contains("dry-run"), "dry-run must be named: {out}");
    assert!(matches!(
        store.stat(MANIFEST_KEY).unwrap_err(),
        Error::NotFound(_)
    ));
}

#[test]
fn repair_refreshes_local_manifest_cache() {
    let mut p = Program::new(Vault::default(), Double::new());
    p.store.seed("a.md", b"hi", Some(1_600_000_000_000));
    let (code, _, err) = p.run(Command::repair(), &ctx(InventoryMode::ListHead));
    assert_eq!(code, 0, "err: {err}");
    let remote = p.store.stat(MANIFEST_KEY).unwrap();
    assert_eq!(
        p.cache.meta.expect("cache meta missing").remote_etag,
        remote.etag,
        "cache meta etag must equal the rebuilt remote etag"
    );
    let m = parse_manifest_bytes(&p.cache.body.expect("cache body missing")).unwrap();
    assert_eq!(m.entry_count, 1);
}

#[test]
fn repair_fails_loudly_on_store_error() {
    let mut store = Double::new();
    store.on_list = Some(|_| Err(Error::Unavailable("list failed".to_string())));
    let (code, _, err) = run(Command::repair(), Vault::default(), &store);
    assert_eq!(code, 1);
    assert!(err.contains("error"), "err: {err}");
}

#[test]
fn repair_json_is_rejected() {
    match repair_cmd(false, false, true) {
        Command::Repair { json: true, .. } => {}
        other => panic!("expected --json carried on Repair, got {other:?}"),
    }
    let (code, _, err) = run(
        repair_cmd(false, false, true),
        Vault::default(),
        &Double::new(),
    );
    assert_eq!(code, 1);
    assert!(err.contains("--json"), "err: {err}");
    assert!(err.contains("not implemented"), "err: {err}");
}

#[test]
fn walker_hint_does_not_promise_transfer_inclusion() {
    let mut vault = Vault::default();
    vault.link("link.txt", "/outside/secret.txt");
    let (code, _, err) = run(Command::status(root()), vault, &Double::new());
    assert_eq!(code, 0);
    assert!(
        !err.contains("to include"),
        "hint promises transfer inclusion: {err}"
    );
    assert!(
        err.contains("followed symlinks") || err.contains("status only"),
        "hint does not state inventory-only: {err}"
    );
}

#[test]
fn run_check_exit_0_no_mock_label() {
    let (code, out, _) = run(Command::check(), Vault::default(), &Double::new());
    assert_eq!(code, 0);
    assert!(out.contains("check: ok"));
    assert!(!out.contains("(mock)"), "(mock) marker removed: {out}");
}

#[test]
fn parse_check_json_flag_carried() {
    let cmd = Cli {
        config: None,
        vault: VAULT_UNSET.to_string(),
        json: true,
        verbose: 0,
        follow_symlinks: false,
        command: Some(Commands::Check),
    }
    .into_command();
    match cmd {
        Command::Check { json, .. } => assert!(json),
        other => panic!("expected Check, got {other:?}"),
    }
}

#[test]
fn run_check_json_rejected_not_implemented() {
    let (code, out, err) = run(
        Command::Check {
            config: None,
            verbose: 0,
            json: true,
        },
        Vault::default(),
        &Double::new(),
    );
    assert_eq!(code, 1);
    assert!(err.contains("--json"), "err: {err}");
    assert!(
        !out.contains("check: ok"),
        "must not run human check: {out}"
    );
}

#[test]
fn run_check_failure_actionable_message() {
    let mut store = Double::new();
    store.on_put = Some(|_, _| Some(Error::Unauthorized("denied".to_string())));
    let (code, _, err) = run(Command::check(), Vault::default(), &store);
    assert_eq!(code, 1);
    assert!(
        err.to_lowercase().contains("credential") || err.to_lowercase().contains("permission"),
        "actionable hint missing: {err}"
    );
}

#[test]
fn status_default_profile_hides_workspace() {
    let (code, out, err) = Program::new(default_profile_vault(), Double::new())
        .run_settings(Command::status(root()), &no_store_settings());
    assert_eq!(code, 2, "stderr: {err}");
    assert!(has_line(&out, "U  notes/a.md"), "notes/a.md must be listed: {out}");
    assert!(
        has_line(&out, "U  .obsidian/app.json"),
        ".obsidian/app.json must be listed: {out}"
    );
    assert!(
        !out.contains("workspace.json"),
        "workspace session file must be ignored: {out}"
    );
    assert!(!out.contains(".trash/"), ".trash/ pruned: {out}");
    assert!(!out.contains(".git/"), ".git/ pruned: {out}");
    assert!(!out.contains(".DS_Store"), ".DS_Store pruned: {out}");
}

#[test]
fn status_profile_none_lists_workspace() {
    let (code, out, err) = Program::new(default_profile_vault(), Double::new())
        .run_settings(Command::status(root()), &settings_profile_none(vec![]));
    assert_eq!(code, 2, "dirty plan; stderr: {err}");
    for expected in [
        "U  .obsidian/workspace.json",
        "U  .obsidian/app.json",
        "U  .trash/x.md",
        "U  .git/HEAD",
        "U  notes/.DS_Store",
        "U  notes/a.md",
    ] {
        assert!(
            has_line(&out, expected),
            "{expected} missing under profile=none: {out}"
        );
    }
}

#[test]
fn status_profile_none_still_skips_reserved() {
    let mut vault = default_profile_vault();
    vault.write(".name.vaultsync-tmp-1-2", b"x", 5);
    let (code, out, err) = Program::new(vault, Double::new())
        .run_settings(Command::status(root()), &settings_profile_none(vec![]));
    assert_eq!(code, 2, "dirty plan; stderr: {err}");
    assert!(
        !out.contains(".name.vaultsync-tmp-1-2"),
        "reserved name must be absent from plan: {out}"
    );
    assert!(
        err.contains("temp/probe") && err.contains("vaultsync"),
        "temp skip warning expected: {err}"
    );
    assert!(
        !err.contains("local path(s) by ignore patterns"),
        "reserved skip is not an ignore skip: {err}"
    );
}

#[test]
fn settings_with_ignore_helper_matches_resolve_split() {
    let s = settings_with_ignore(vec![".trash/"]);
    assert_eq!(s.ignore_patterns, vec![".trash/".to_string()]);
    assert!(
        !s.resolved_ignore_patterns.is_empty(),
        "helper must resolve defaults, not leave resolved empty"
    );
    let expected: Vec<String> = OBSIDIAN_DEFAULT_IGNORE_PATTERNS
        .iter()
        .map(|s| s.to_string())
        .collect();
    assert_eq!(
        s.resolved_ignore_patterns, expected,
        "built-in .trash/ deduped; no seventh entry"
    );
}

fn private_vault() -> Vault {
    Vault::with(&[("a.md", "hi", 5), ("private/secret.md", "s", 5)])
}

#[test]
fn push_with_ignore_patterns_applies() {
    let settings = with_bucket(settings_with_ignore(vec!["private/"]));
    let mut p = Program::new(private_vault(), Double::new());
    let (code, out, err) = p.run_settings(Command::push(root(), false), &settings);
    assert_eq!(code, 0, "stderr: {err}");
    assert!(has_line(&out, "U  a.md"), "a.md planned: {out}");
    assert!(
        !out.contains("private/secret.md"),
        "ignored key absent from plan: {out}"
    );
    assert!(p.store.stat("a.md").is_ok(), "a.md uploaded");
    assert!(
        matches!(p.store.stat("private/secret.md"), Err(Error::NotFound(_))),
        "ignored file must never reach the store"
    );
}

#[test]
fn pull_with_ignore_patterns_applies() {
    let settings = with_bucket(settings_with_ignore(vec!["private/"]));
    let mut p = Program::new(Vault::default(), Double::new());
    p.store.seed("a.md", b"a", Some(100));
    p.store.seed("private/secret.md", b"s", Some(100));
    let (code, out, err) = p.run_settings(Command::pull(root(), false), &settings);
    assert_eq!(code, 0, "stderr: {err}");
    assert!(!err.contains("Phase 3"), "stderr: {err}");
    assert!(has_line(&out, "D  a.md"), "a.md download planned: {out}");
    assert!(
        !out.contains("private/secret.md"),
        "ignored remote key absent from plan: {out}"
    );
    assert!(p.vault.at("a.md").is_some(), "a.md materialized");
    assert!(
        p.vault.at("private/secret.md").is_none(),
        "ignored remote key must not be downloaded"
    );
}

#[test]
fn status_with_ignore_patterns_applies() {
    let (code, out, err) = Program::new(private_vault(), Double::new())
        .run_settings(Command::status(root()), &settings_with_ignore(vec!["private/"]));
    assert_eq!(code, 2, "stderr: {err}");
    assert!(has_line(&out, "U  a.md"), "a.md planned: {out}");
    assert!(
        !out.contains("private/"),
        "ignored key absent from plan: {out}"
    );
}

#[test]
fn push_delete_does_not_delete_remote_ignored_e2e() {
    let mut p = Program::new(
        Vault::with(&[("notes/a.md", "hi", 1_700_000_000_000)]),
        Double::new(),
    );
    p.store.seed(".obsidian/workspace.json", b"{}", Some(100));
    p.store.seed("notes/a.md", b"same", Some(100));
    p.store.seed("orphan.md", b"orphan", Some(100));
    let settings = with_bucket(no_store_settings());
    let (code, out, err) = p.run_settings(Command::push(root(), true), &settings);
    assert_eq!(code, 0, "stderr: {err}");
    assert!(
        !has_line(&out, "DR .obsidian/workspace.json"),
        "no DeleteRemote for ignored workspace key: {out}"
    );
    assert!(
        has_line(&out, "DR orphan.md"),
        "non-ignored remote-only key still deletes: {out}"
    );
    assert!(
        p.store.stat(".obsidian/workspace.json").is_ok(),
        "ignored remote key survives on the store"
    );
    assert!(p.store.stat("orphan.md").is_err(), "orphan deleted");
    assert!(p.store.stat("notes/a.md").is_ok(), "a.md still present");
}

#[test]
fn pull_delete_does_not_delete_local_ignored() {
    let mut p = Program::new(
        Vault::with(&[
            ("notes/a.md", "same", 1_700_000_000_000),
            (".trash/x.md", "x", 1_700_000_000_000),
            ("extra.md", "extra", 1_700_000_000_000),
        ]),
        Double::new(),
    );
    p.store.seed("notes/a.md", b"same", Some(100));
    let (code, out, err) =
        p.run_settings(Command::pull(root(), true), &with_bucket(no_store_settings()));
    assert_eq!(code, 0, "stderr: {err}");
    assert!(
        !has_line(&out, "DL .trash/x.md"),
        "no DeleteLocal for ignored trash path: {out}"
    );
    assert!(
        p.vault.at(".trash/x.md").is_some(),
        "ignored local file survives the pull --delete"
    );
    assert!(p.vault.at("notes/a.md").is_some(), "a.md intact");
    assert!(
        has_line(&out, "DL extra.md"),
        "non-ignored local-only key must DeleteLocal: {out}"
    );
    assert!(
        p.vault.at("extra.md").is_none(),
        "non-ignored local-only file must be removed by pull --delete"
    );
}

#[test]
fn status_reports_skipped_ignored() {
    let (code, _, err) = Program::new(default_profile_vault(), Double::new())
        .run_settings(Command::status(root()), &no_store_settings());
    assert_eq!(code, 2, "stderr: {err}");
    assert!(
        err.contains("warning: ignored 4 local path(s) by ignore patterns"),
        "exact local ignore count line expected: {err}"
    );
    assert!(!err.contains("workspace.json"), "no key dump: {err}");
}

#[test]
fn push_reports_remote_ignored_count() {
    let mut p = Program::new(Vault::default(), Double::new());
    p.store.seed(".obsidian/workspace.json", b"{}", Some(100));
    p.store.seed(".trash/x.md", b"x", Some(100));
    let (code, _, err) =
        p.run_settings(Command::push(root(), false), &with_bucket(no_store_settings()));
    assert_eq!(code, 0, "stderr: {err}");
    assert!(
        err.contains("warning: ignored 3 remote key(s) by ignore patterns"),
        "remote ignore count line expected: {err}"
    );
    assert!(
        !err.contains(".obsidian/workspace.json") && !err.contains(".trash/x.md"),
        "no per-key dump in the warning: {err}"
    );
}

#[test]
fn status_no_local_ignore_warning_when_zero() {
    let (code, _, err) = Program::new(Vault::with(&[("notes/a.md", "hi", 5)]), Double::new())
        .run_settings(Command::status(root()), &settings_profile_none(vec![]));
    assert_eq!(code, 2, "dirty plan; stderr: {err}");
    assert!(
        !err.contains("local path(s) by ignore patterns"),
        "no ignore line when N == 0: {err}"
    );
}

#[test]
fn status_user_patterns_extend_default_profile() {
    let (code, out, err) = Program::new(
        Vault::with(&[
            ("private/secret.md", "s", 5),
            (".obsidian/workspace.json", "{}", 5),
            ("notes/a.md", "hi", 5),
        ]),
        Double::new(),
    )
    .run_settings(Command::status(root()), &settings_with_ignore(vec!["private/"]));
    assert_eq!(code, 2, "dirty plan; stderr: {err}");
    assert!(has_line(&out, "U  notes/a.md"), "notes/a.md kept: {out}");
    assert!(!out.contains("private/"), "user pattern pruned: {out}");
    assert!(
        !out.contains("workspace.json"),
        "built-in pattern still pruned: {out}"
    );
}

#[test]
fn check_with_ignore_patterns_does_not_refuse() {
    let (code, out, err) = Program::new(Vault::default(), Double::new())
        .run_settings(Command::check(), &settings_with_ignore(vec![".trash/"]));
    assert_eq!(code, 1, "store requirement failure; stderr: {err}");
    assert!(!err.contains("Phase 3"), "stderr: {err}");
    assert!(
        err.to_lowercase().contains("store"),
        "failure must be the store requirement: {err}"
    );
    assert!(
        !out.contains("check: ok"),
        "must not be a mock green check"
    );
}

#[test]
fn status_absent_ignore_resolve_does_not_warn_phase3() {
    let expected: Vec<String> = OBSIDIAN_DEFAULT_IGNORE_PATTERNS
        .iter()
        .map(|s| s.to_string())
        .collect();
    let absent = FileConfig {
        vault_root: Some(root()),
        ..Default::default()
    };
    let empty = FileConfig {
        vault_root: Some(root()),
        ignore: Some(IgnoreConfig::default()),
        ..Default::default()
    };
    for cfg in [absent, empty] {
        let settings = settings_of(&cfg);
        assert!(
            settings.ignore_patterns.is_empty(),
            "raw user field must stay empty"
        );
        assert_eq!(settings.resolved_ignore_patterns, expected);
        let (code, out, err) = Program::new(Vault::default(), Double::new())
            .run_settings(Command::status(root()), &settings);
        assert_eq!(code, 0, "stderr: {err}");
        assert!(!err.contains("[ignore].patterns"), "stderr: {err}");
        assert!(out.contains("plan:"), "plan produced: {out}");
    }
}

#[test]
fn push_absent_ignore_resolve_does_not_trip_w25() {
    let settings = no_store_settings();
    assert!(settings.ignore_patterns.is_empty());
    assert!(
        !settings.resolved_ignore_patterns.is_empty(),
        "resolved defaults must be present"
    );
    let (code, _, err) = Program::new(Vault::default(), Double::new())
        .run_settings(Command::push(root(), false), &settings);
    assert_eq!(code, 1, "stderr: {err}");
    assert!(!err.contains("[ignore].patterns"), "stderr: {err}");
    assert!(
        err.contains("[store]") || err.contains("store.bucket"),
        "failure must be the store requirement: {err}"
    );
}

#[test]
fn run_silent_on_configured_concurrency() {
    let mut settings = no_store_settings();
    settings.concurrency = 8;
    let (code, _, err) = Program::new(Vault::default(), Double::new())
        .run_settings(Command::status(root()), &settings);
    assert_eq!(code, 0);
    assert!(
        !err.to_lowercase().contains("concurrency") && !err.to_lowercase().contains("phase 3"),
        "concurrency must be live and silent: {err}"
    );
}

#[test]
fn requires_real_store_predicate() {
    assert!(requires_real_store(&Command::push(".".to_string(), false)));
    assert!(requires_real_store(&Command::pull(".".to_string(), false)));
    assert!(requires_real_store(&Command::check()));
    assert!(!requires_real_store(&Command::status(".".to_string())));
    assert!(!requires_real_store(&Command::Help));
    assert!(!requires_real_store(&Command::Version));
}

#[test]
fn run_pull_requires_configured_store() {
    let mut p = Program::new(Vault::with(&[("victim.md", "precious", 5)]), Double::new());
    let (code, _, err) = p.run_settings(Command::pull(root(), true), &no_store_settings());
    assert_eq!(code, 1);
    assert!(
        err.contains("[store]") || err.to_lowercase().contains("store"),
        "expected store refusal: {err}"
    );
    assert_eq!(p.vault.body("victim.md"), b"precious");
}

#[test]
fn run_check_requires_configured_store() {
    let (code, out, err) = Program::new(Vault::default(), Double::new())
        .run_settings(Command::check(), &no_store_settings());
    assert_eq!(code, 1);
    assert!(
        err.to_lowercase().contains("store"),
        "expected store refusal: {err}"
    );
    assert!(
        !out.contains("check: ok"),
        "must not be a mock green check"
    );
}

#[test]
fn run_with_settings_applies_toml_tolerance() {
    let settings = settings_of(&FileConfig {
        store: Some(StoreConfig {
            bucket: Some("b".to_string()),
            ..Default::default()
        }),
        transfer: Some(TransferConfig {
            mtime_tolerance_ms: Some(5000),
            ..Default::default()
        }),
        ..Default::default()
    });
    assert_eq!(settings.mtime_tolerance_ms, 5000);
    let mut p = Program::new(
        Vault::with(&[("a.md", "same", 1_700_000_004_000)]),
        Double::new(),
    );
    p.store.seed("a.md", b"same", Some(1_700_000_000_000));
    let (code, out, err) = p.run_settings(Command::push(root(), false), &settings);
    assert_eq!(code, 0, "stderr: {err}");
    assert!(
        !has_line(&out, "U  a.md"),
        "expected Skip under tolerance 5000: {out}"
    );
    let (code2, out2, err2) =
        p.run_settings(Command::push(root(), false), &with_bucket(no_store_settings()));
    assert_eq!(code2, 0, "stderr: {err2}");
    assert!(
        has_line(&out2, "U  a.md"),
        "expected Upload under default tolerance: {out2}"
    );
}

#[test]
fn cli_pull_delete_surfaces_cleanup_warning() {
    let mut p = Program::new(Vault::with(&[("a/b/gone.md", "bye", 5)]), Double::new());
    p.cleanup_warnings = vec![cleanup_warning("a/b/", "Permission denied")];
    let (code, _, err) = p.run(Command::pull(root(), true), &ctx(InventoryMode::ListHead));
    assert_eq!(code, 0, "cleanup warning is non-fatal: {err}");
    assert!(
        err.contains("warning:") && (err.contains("a/b") || err.contains("remove")),
        "cleanup warning missing from stderr: {err}"
    );
}

#[test]
fn cli_listing_warning_reaches_stderr() {
    let mut store = Double::new();
    store.on_list = Some(|listing| {
        let mut listing = listing;
        listing.warnings.push("ignoring remote object odd/ (10 bytes): keys ending in '/' are folder markers; rename it to sync".to_string());
        Ok(listing)
    });
    let (code, _, err) = run(Command::status(root()), Vault::default(), &store);
    assert_eq!(code, 0, "warning must be non-fatal: {err}");
    assert!(
        err.contains("warning: ignoring remote object odd/ (10 bytes)")
            && err.contains("folder markers"),
        "listing warning missing from stderr: {err}"
    );
}

#[test]
fn cli_reserved_namespace_warning_reaches_stderr() {
    let store = Double::new();
    store.seed(".vaultsync-check-1-2-3", b"x", None);
    let (code, _, err) = run(Command::status(root()), Vault::default(), &store);
    assert_eq!(code, 0, "warning must be non-fatal: {err}");
    assert!(
        err.contains("warning: ignoring 1 remote object(s) under the reserved vaultsync namespace")
            && err.contains(".vaultsync-check-1-2-3"),
        "reserved-namespace warning missing from stderr: {err}"
    );
}

#[test]
fn run_push_executes_uploads_exit_0() {
    let store = Double::new();
    let (code, out, _) = run(
        Command::push(root(), false),
        Vault::with(&[("a.md", "hi", 5)]),
        &store,
    );
    assert_eq!(code, 0);
    assert!(store.stat("a.md").is_ok());
    assert!(out.contains("plan:"), "no summary: {out}");
    assert!(has_line(&out, "U  a.md"));
}

#[test]
fn cli_dispatch_uses_configured_tolerance() {
    let vault = Vault::with(&[("a.md", "same", 1_700_000_004_000)]);
    let store = Double::new();
    store.seed("a.md", b"same", Some(1_700_000_000_000));
    let mut c = ctx(InventoryMode::ListHead);
    c.tolerance_ms = 5000;
    let (code, out, _) =
        Program::new(vault.clone(), store.clone()).run(Command::push(root(), false), &c);
    assert_eq!(code, 0);
    assert!(
        !has_line(&out, "U  a.md"),
        "expected Skip under tolerance 5000: {out}"
    );
    let (_, out2, _) = run(Command::push(root(), false), vault, &store);
    assert!(
        has_line(&out2, "U  a.md"),
        "expected Upload under default tolerance: {out2}"
    );
}

#[test]
fn run_push_conflict_exit_2() {
    let store = Double::new();
    store.seed("c.md", b"xx", Some(5000));
    let (code, out, _) = run(
        Command::push(root(), false),
        Vault::with(&[("c.md", "x", 5000)]),
        &store,
    );
    assert_eq!(code, 2, "conflict -> exit 2");
    assert!(has_line(&out, "*  c.md"), "conflict row: {out}");
    assert_eq!(store.stat("c.md").unwrap().size, 2);
}

#[test]
fn run_push_transfer_failure_exit_1() {
    let mut store = Double::new();
    fail_puts(&mut store);
    let (code, _, err) = run(
        Command::push(root(), false),
        Vault::with(&[("a.md", "hi", 5)]),
        &store,
    );
    assert_eq!(code, 1, "transfer failure -> exit 1");
    assert!(err.contains("a.md"), "stderr names key: {err}");
}

#[test]
fn run_push_delete_removes_remote_exit_0() {
    let store = Double::new();
    store.seed("gone.md", b"x", Some(100));
    let (code, out, _) = run(Command::push(root(), true), Vault::default(), &store);
    assert_eq!(code, 0);
    assert!(has_line(&out, "DR gone.md"));
    assert!(matches!(
        store.stat("gone.md").unwrap_err(),
        Error::NotFound(_)
    ));
}

#[test]
fn run_pull_delete_removes_local_exit_0() {
    let mut p = Program::new(Vault::with(&[("gone.md", "bye", 5)]), Double::new());
    let (code, out, _) = p.run(Command::pull(root(), true), &ctx(InventoryMode::ListHead));
    assert_eq!(code, 0);
    assert!(has_line(&out, "DL gone.md"));
    assert!(p.vault.at("gone.md").is_none(), "local extra removed");
}

#[test]
fn run_pull_dry_run_mutates_nothing_exit_2() {
    let mut p = Program::new(Vault::default(), Double::new());
    p.store.seed("b.md", b"x", Some(100));
    let cmd = Command::Pull {
        vault: root(),
        delete: false,
        dry_run: true,
        force_local: false,
        force_remote: false,
        json: false,
        config: None,
        verbose: 0,
        follow_symlinks: false,
    };
    let (code, out, _) = p.run(cmd, &ctx(InventoryMode::ListHead));
    assert_eq!(code, 2);
    assert!(out.contains("plan:"), "plan printed: {out}");
    assert!(has_line(&out, "D  b.md"));
    assert!(p.vault.at("b.md").is_none(), "dry-run mutates nothing");
}

#[test]
fn run_status_error_exit_1() {
    let (code, _, err) = run(
        Command::status("/nonexistent/vaultsync-zzz".to_string()),
        Vault::default(),
        &Double::new(),
    );
    assert_eq!(code, 1);
    assert!(err.contains("error:"));
}

#[test]
fn arguments_become_commands() {
    let cli = |command| Cli {
        config: Some("/c.toml".to_string()),
        vault: root(),
        json: false,
        verbose: 2,
        follow_symlinks: true,
        command,
    };
    assert_eq!(cli(None).into_command(), Command::Help);
    assert_eq!(cli(Some(Commands::Help)).into_command(), Command::Help);
    assert_eq!(cli(Some(Commands::Version)).into_command(), Command::Version);
    let args = TransferArgs {
        delete: true,
        dry_run: false,
        force_local: true,
        force_remote: false,
    };
    let cmd = cli(Some(Commands::Pull(args))).into_command();
    assert_eq!(cmd_config_path(&cmd).unwrap(), "/c.toml");
    match cmd {
        Command::Pull {
            delete,
            dry_run,
            force_local,
            force_remote,
            verbose,
            follow_symlinks,
            ..
        } => {
            assert!(delete && !dry_run && force_local && !force_remote);
            assert_eq!(verbose, 2);
            assert!(follow_symlinks);
        }
        other => panic!("expected Pull, got {other:?}"),
    }
    assert!(matches!(
        cli(Some(Commands::Push(args))).into_command(),
        Command::Push { .. }
    ));
    assert!(matches!(
        cli(Some(Commands::Status(StatusArgs {
            write_manifest: true
        })))
        .into_command(),
        Command::Status {
            verbose: 2,
            write_manifest: true,
            ..
        }
    ));
}

#[test]
fn every_message_gets_a_usage_line() {
    let usage = "Usage: vaultsync [OPTIONS]";
    let bare = ensure_usage("unexpected argument", usage);
    assert!(bare.starts_with("unexpected argument"));
    assert!(bare.lines().any(|l| l == usage), "{bare}");
    let has = "bad flag\n\n  USAGE: vaultsync status";
    assert_eq!(ensure_usage(has, usage), has);
}

#[test]
fn progress_shows_only_where_it_is_wanted() {
    for (mode, terminal, shown) in [
        (ProgressMode::Auto, true, ResolvedMode::Render),
        (ProgressMode::Auto, false, ResolvedMode::Quiet),
        (ProgressMode::Off, true, ResolvedMode::Quiet),
        (ProgressMode::Always, false, ResolvedMode::Render),
    ] {
        assert_eq!(resolve_progress_mode(mode, terminal), shown);
    }
    assert_eq!(progress_frame("Uploading", 3, 12), "\rUploading 3/12\x1b[K");
}

#[test]
fn an_empty_plan_is_clean() {
    assert!(is_clean(&Plan::default()));
}

#[test]
fn refused_commands_make_no_request() {
    let mut store = Double::new();
    store.no_list = true;
    store.on_head = Some(|_| panic!("no request expected"));
    for cmd in [
        Command::Status {
            vault: root(),
            json: true,
            config: None,
            verbose: 0,
            follow_symlinks: false,
            write_manifest: true,
        },
        Command::Version,
        Command::Help,
    ] {
        run(cmd, Vault::default(), &store);
    }
}

#[test]
fn second_status_is_served_from_the_cache() {
    let mut p = Program::new(Vault::with(&[("a.md", "hi", 5)]), Double::new());
    p.run(Command::push(root(), false), &ctx(InventoryMode::Auto));
    let fetched = p.store.fetched.get();
    let (code, _, err) = p.run(Command::status(root()), &ctx(InventoryMode::Manifest));
    assert_eq!(code, 0, "err: {err}");
    assert_eq!(p.store.fetched.get(), fetched, "nothing was fetched again");
}

#[test]
fn a_failed_commit_is_a_warning() {
    let mut store = Double::new();
    store.on_put = Some(|key, _| {
        if key == MANIFEST_KEY {
            Some(Error::Timeout("slow".to_string()))
        } else {
            None
        }
    });
    let mut p = Program::new(Vault::with(&[("a.md", "hi", 5)]), store);
    let (code, _, err) = p.run(Command::push(root(), false), &ctx(InventoryMode::Auto));
    assert_eq!(code, 0);
    assert!(
        err.contains("warning: manifest commit failed: request timed out: slow\n"),
        "{err}"
    );
}

/// A status that publishes a missing manifest.
fn publishing_status() -> Command {
    Command::Status {
        vault: root(),
        json: false,
        config: None,
        verbose: 0,
        follow_symlinks: false,
        write_manifest: true,
    }
}

/// Loses every conditional put of the manifest.
fn lose_races(store: &mut Double) {
    store.on_put = Some(|key, opts| {
        if key == MANIFEST_KEY && (opts.if_none_match_star || opts.if_match_etag.is_some()) {
            Some(Error::PreconditionFailed(format!("lost race on {key}")))
        } else {
            None
        }
    });
}

#[test]
fn a_cold_push_that_plans_nothing_leaves_a_manifest() {
    let store = Double::new();
    store.seed("a.md", b"hi", Some(5));
    let mut p = Program::new(Vault::with(&[("a.md", "hi", 5)]), store);
    let (code, _, err) = p.run(Command::push(root(), false), &ctx(InventoryMode::Auto));
    assert_eq!(code, 0, "err: {err}");
    assert!(err.contains("inventory: published manifest (1 entries)\n"), "err: {err}");
    assert_eq!(*p.store.log.borrow(), vec![format!("put {MANIFEST_KEY}")]);
    let m = p.manifest();
    assert_eq!(m.entries.len(), 1);
    assert_eq!(m.entries[0].key, "a.md");
    let (code, _, err) = p.run(Command::status(root()), &ctx(InventoryMode::Manifest));
    assert_eq!(code, 0, "err: {err}");
    assert!(err.contains("inventory: manifest (1 entries)"), "err: {err}");
}

#[test]
fn a_failed_transfer_leaves_the_baseline() {
    let mut store = Double::new();
    store.on_put = Some(|key, _| {
        if key == MANIFEST_KEY {
            None
        } else {
            Some(Error::Other(format!("injected put failure for {key}")))
        }
    });
    store.seed("b.md", b"b", Some(5));
    let mut p = Program::new(Vault::with(&[("a.md", "hi", 5)]), store);
    let (code, _, _) = p.run(Command::push(root(), false), &ctx(InventoryMode::Auto));
    assert_eq!(code, 1);
    let keys: Vec<String> = p.manifest().entries.into_iter().map(|e| e.key).collect();
    assert_eq!(keys, vec!["b.md"], "what was listed, without the failed upload");
}

#[test]
fn bootstrap_is_not_due_elsewhere() {
    let off = DispatchCtx {
        inventory_bootstrap: InventoryBootstrap::Off,
        ..ctx(InventoryMode::Auto)
    };
    let dry = Command::Push {
        vault: root(),
        delete: false,
        dry_run: true,
        force_local: false,
        force_remote: false,
        json: false,
        config: None,
        verbose: 0,
        follow_symlinks: false,
    };
    for (cmd, ctx) in [
        (Command::push(root(), false), off),
        (Command::push(root(), false), ctx(InventoryMode::ListHead)),
        (dry, ctx(InventoryMode::Auto)),
        (Command::pull(root(), false), ctx(InventoryMode::Auto)),
        (Command::status(root()), ctx(InventoryMode::Auto)),
        (publishing_status(), ctx(InventoryMode::ListHead)),
    ] {
        let mut p = Program::new(Vault::default(), Double::new());
        let (code, _, err) = p.run(cmd, &ctx);
        assert_eq!(code, 0, "err: {err}");
        assert!(p.store.log.borrow().is_empty(), "err: {err}");
    }
}

#[test]
fn a_warm_push_does_not_bootstrap() {
    let mut p = Program::new(Vault::with(&[("a.md", "hi", 5)]), Double::new());
    p.run(Command::push(root(), false), &ctx(InventoryMode::Auto));
    let puts = p.store.log.borrow().len();
    let (code, _, err) = p.run(Command::push(root(), false), &ctx(InventoryMode::Auto));
    assert_eq!(code, 0, "err: {err}");
    assert_eq!(p.store.log.borrow().len(), puts);
}

#[test]
fn a_lost_bootstrap_race_warns_and_the_push_goes_on() {
    let mut store = Double::new();
    lose_races(&mut store);
    let mut p = Program::new(Vault::with(&[("a.md", "hi", 5)]), store);
    let (code, _, err) = p.run(Command::push(root(), false), &ctx(InventoryMode::Auto));
    assert_eq!(code, 0, "err: {err}");
    assert!(
        err.contains("warning: inventory bootstrap aborted (another writer won the race)"),
        "err: {err}"
    );
    assert_eq!(p.store.body("a.md"), b"hi");
    assert!(p.store.stat(MANIFEST_KEY).is_err());
}

#[test]
fn a_failed_bootstrap_warns_and_the_push_goes_on() {
    let mut store = Double::new();
    store.seed(MANIFEST_KEY, b"not a manifest", None);
    store.on_get = Some(|key, _| Some(Err(Error::NotFound(key.to_string()))));
    let mut p = Program::new(Vault::with(&[("a.md", "hi", 5)]), store);
    let (code, _, err) = p.run(Command::push(root(), false), &ctx(InventoryMode::Auto));
    assert_eq!(code, 0, "err: {err}");
    assert!(
        err.contains("warning: inventory bootstrap failed: manifest vanished between HEAD and GET"),
        "err: {err}"
    );
    assert_eq!(p.store.body("a.md"), b"hi");
}

#[test]
fn status_publishes_a_manifest_when_it_is_asked_to() {
    let store = Double::new();
    store.seed("a.md", b"hi", Some(5));
    let mut p = Program::new(Vault::with(&[("a.md", "hi", 5)]), store);
    let (code, _, err) = p.run(publishing_status(), &ctx(InventoryMode::Auto));
    assert_eq!(code, 0, "err: {err}");
    assert!(err.contains("inventory: published manifest (1 entries)\n"), "err: {err}");
    assert_eq!(*p.store.log.borrow(), vec![format!("put {MANIFEST_KEY}")]);
    let (code, _, _) = p.run(publishing_status(), &ctx(InventoryMode::Auto));
    assert_eq!(code, 0);
    assert_eq!(p.store.log.borrow().len(), 1, "a usable manifest is left alone");
}

#[test]
fn status_fails_when_its_bootstrap_does() {
    let mut store = Double::new();
    lose_races(&mut store);
    let mut p = Program::new(Vault::default(), store);
    let (code, _, err) = p.run(publishing_status(), &ctx(InventoryMode::Auto));
    assert_eq!(code, 1, "err: {err}");
    assert!(err.contains("error: inventory bootstrap aborted"), "err: {err}");
}
