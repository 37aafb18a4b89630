//! The local walk and the guards around local files.

#![allow(dead_code)]

use std::collections::{BTreeMap, BTreeSet};
use vaultsync::entity::{ensure_valid_key, Entity};
use vaultsync::error::Error;
use vaultsync::local::{
    ensure_locality, is_reserved_vaultsync_key_name, is_vaultsync_control_plane_key, join_path,
    key_to_local_path, path_to_key, system_time_to_ms, Ancestor, LinkTarget, LocalFs, NodeKind,
    NodeStat, Opened, PathPart, WalkReport, WalkStep,
};
use vaultsync::IgnoreSet;

/// A vault held in memory: its nodes by path. Folders above a node need no
/// node of their own.
#[derive(Clone)]
enum Node {
    File(Vec<u8>, u64),
    Dir,
    Link(String),
    Special,
}

#[derive(Clone, Default)]
struct Vault {
    nodes: BTreeMap<String, Node>,
}

impl Vault {
    fn with(files: &[(&str, &str, u64)]) -> Self {
        let mut v = Vault::default();
        for (path, body, mtime) in files {
            v.write(path, body.as_bytes(), *mtime);
        }
        v
    }

    fn write(&mut self, path: &str, body: &[u8], mtime: u64) {
        self.nodes
            .insert(path.to_string(), Node::File(body.to_vec(), mtime));
    }

    fn link(&mut self, path: &str, target: &str) {
        self.nodes
            .insert(path.to_string(), Node::Link(target.to_string()));
    }

    /// The node at a path; `""` is the root.
    fn at(&self, path: &str) -> Option<Node> {
        let below = format!("{path}/");
        match self.nodes.get(path) {
            Some(n) => Some(n.clone()),
            None if path.is_empty() || self.nodes.keys().any(|k| k.starts_with(&below)) => {
                Some(Node::Dir)
            }
            None => None,
        }
    }

    /// The names in a directory.
    fn names(&self, dir: &str) -> BTreeSet<String> {
        let base = if dir.is_empty() { String::new() } else { format!("{dir}/") };
        self.nodes
            .keys()
            .filter_map(|k| k.strip_prefix(&base))
            .filter(|rest| !rest.is_empty())
            .map(|rest| rest.split('/').next().unwrap().to_string())
            .collect()
    }

    /// Walks the vault, doing what the walk says.
    fn walk(&self, fs: LocalFs) -> Result<LocalFs, Error> {
        let mut fs = fs;
        self.walk_dir(&mut fs, "", "")?;
        Ok(fs)
    }

    /// `seen` is the directory's path as the walk sees it, `real` where it is.
    fn walk_dir(&self, fs: &mut LocalFs, seen: &str, real: &str) -> Result<(), Error> {
        for name in self.names(real) {
            let path = if seen.is_empty() { name.clone() } else { format!("{seen}/{name}") };
            let mut place = if real.is_empty() { name.clone() } else { format!("{real}/{name}") };
            let parts: Vec<PathPart> = path
                .split('/')
                .map(|p| PathPart::Normal(p.to_string()))
                .collect();
            let shown = format!("{path:?}");
            let mut node = self.at(&place);
            let kind = match &node {
                Some(Node::File(..)) => NodeKind::File,
                Some(Node::Dir) => NodeKind::Dir,
                Some(Node::Link(_)) => NodeKind::Symlink,
                _ => NodeKind::Special,
            };
            let mut step = fs.visit(&parts, &shown, kind)?;
            if let (WalkStep::Resolve, Some(Node::Link(to))) = (&step, &node) {
                let target = match self.at(to) {
                    _ if to.starts_with('/') => LinkTarget::Outside,
                    None => LinkTarget::Missing,
                    Some(Node::Dir) => LinkTarget::Dir(format!("/vault/{to}")),
                    Some(Node::File(..)) => LinkTarget::File,
                    Some(_) => LinkTarget::Special,
                };
                step = fs.follow_link(&parts, &shown, &target)?;
                place = to.clone();
                node = self.at(&place);
            }
            if let WalkStep::Stat { key, folder } = step {
                let stat = match &node {
                    Some(Node::File(body, mtime)) => Some(NodeStat {
                        size: body.len() as u64,
                        mtime_ms: Some(*mtime),
                    }),
                    Some(_) => Some(NodeStat {
                        size: 4096,
                        mtime_ms: Some(1),
                    }),
                    None => None,
                };
                fs.record(&key, folder, stat);
                if folder {
                    self.walk_dir(fs, &path, &place)?;
                }
            }
        }
        Ok(())
    }

}

fn parts(path: &str) -> Vec<PathPart> {
    path.split('/')
        .map(|p| match p {
            "." | ".." => PathPart::Special,
            _ => PathPart::Normal(p.to_string()),
        })
        .collect()
}

fn key_of(path: &str) -> Result<String, Error> {
    path_to_key(&parts(path), &format!("{path:?}"))
}

fn keys(fs: &LocalFs) -> Vec<String> {
    fs.list().iter().map(|e| e.key.clone()).collect()
}

fn plain(vault: &Vault) -> Result<LocalFs, Error> {
    vault.walk(LocalFs::new("/vault"))
}

fn following(vault: &Vault) -> LocalFs {
    vault.walk(LocalFs::with_follow("/vault", true)).unwrap()
}

fn regular(size: u64, mtime_ms: Option<u64>) -> Opened {
    Opened::Node {
        regular: true,
        size,
        mtime_ms,
    }
}

#[test]
fn local_path_to_key_normalizes_and_validates() {
    assert_eq!(key_of("a/b.md").unwrap(), "a/b.md");
    assert!(key_of("foo/../bar.md").is_err());
}

#[test]
fn local_path_to_key_rejects_unix_backslash_name() {
    let err = key_of("a\\b.md").unwrap_err();
    assert!(matches!(err, Error::InvalidKey(_)));
    let msg = err.to_string();
    assert!(msg.contains("backslash"), "msg: {msg}");
}

#[test]
fn local_list_empty_dir() {
    let fs = plain(&Vault::default()).unwrap();
    assert_eq!(fs.list(), Vec::<Entity>::new());
}

#[test]
fn local_list_files_and_nested() {
    let fs = plain(&Vault::with(&[("a.md", "hi", 5), ("n/b.md", "yo", 5)])).unwrap();
    assert_eq!(keys(&fs), vec!["a.md", "n/", "n/b.md"]);
}

#[test]
fn local_keys_use_slash_not_backslash() {
    let fs = plain(&Vault::with(&[("a/b.txt", "x", 5)])).unwrap();
    for k in keys(&fs) {
        assert!(!k.contains('\\'), "key {k:?} has backslash");
    }
    assert!(keys(&fs).contains(&"a/b.txt".to_string()));
}

#[test]
fn local_mtime_and_size_populated() {
    let fs = plain(&Vault::with(&[("a.md", "12345", 77)])).unwrap();
    let ents = fs.list();
    let a = ents.iter().find(|e| e.key == "a.md").unwrap();
    assert_eq!(a.size, 5);
    assert_eq!(a.mtime_ms, Some(77));
}

#[test]
fn local_list_rejects_backslash_filename() {
    let res = plain(&Vault::with(&[("a\\b.md", "x", 5)]));
    assert!(matches!(res.unwrap_err(), Error::InvalidKey(_)));
}

#[test]
fn local_list_backslash_name_does_not_collide_with_nested_file() {
    let res = plain(&Vault::with(&[("a/b.md", "nested", 5), ("a\\b.md", "flat", 5)]));
    assert!(res.is_err());
}

#[test]
fn local_path_to_key_rejects_non_utf8_component() {
    let rel = vec![
        PathPart::Normal("a".to_string()),
        PathPart::NotUtf8("\"\\x80.md\"".to_string()),
    ];
    let err = path_to_key(&rel, "\"a/\\x80.md\"").unwrap_err();
    assert!(matches!(err, Error::InvalidKey(_)));
    let msg = err.to_string();
    assert!(msg.contains("UTF-8"), "msg: {msg}");
}

#[test]
fn local_skips_symlinks() {
    let mut vault = Vault::with(&[("real.txt", "r", 5)]);
    vault.link("link.txt", "/outside/secret.txt");
    let ks = keys(&plain(&vault).unwrap());
    assert!(ks.contains(&"real.txt".to_string()));
    assert!(!ks.iter().any(|k| k == "link.txt"), "symlink not skipped");
}

#[test]
fn local_skips_symlinked_directories() {
    let mut vault = Vault::with(&[("real.md", "r", 5), ("sub/deep.md", "d", 5)]);
    vault.link("linkdir", "sub");
    let ks = keys(&plain(&vault).unwrap());
    assert!(ks.contains(&"real.md".to_string()));
    assert!(
        !ks.iter()
            .any(|k| k == "linkdir" || k.starts_with("linkdir/")),
        "symlinked dir not skipped: {ks:?}"
    );
}

#[test]
fn walk_file_entity_missing_returns_none() {
    let mut fs = LocalFs::new("/vault");
    let step = fs
        .visit(&parts("gone.md"), "\"gone.md\"", NodeKind::File)
        .unwrap();
    assert_eq!(
        step,
        WalkStep::Stat {
            key: "gone.md".to_string(),
            folder: false
        }
    );
    fs.record("gone.md", false, None);
    assert!(fs.list().is_empty());
}

#[test]
fn walk_skips_vanished_subdir() {
    let mut fs = LocalFs::new("/vault");
    let step = fs.visit(&parts("sub"), "\"sub\"", NodeKind::Dir).unwrap();
    assert_eq!(
        step,
        WalkStep::Stat {
            key: "sub/".to_string(),
            folder: true
        }
    );
    fs.record("sub/", true, None);
    assert!(fs.list().is_empty());
}

#[test]
fn local_list_skips_special_file_with_backslash_name() {
    let mut vault = Vault::with(&[("real.md", "x", 5)]);
    vault.nodes.insert("a\\b.fifo".to_string(), Node::Special);
    assert_eq!(keys(&plain(&vault).unwrap()), vec!["real.md".to_string()]);
}

#[test]
fn system_time_to_ms_saturates_pre_epoch() {
    assert_eq!(system_time_to_ms(-1000), Some(0));
    assert_eq!(system_time_to_ms(1234), Some(1234));
}

#[test]
fn local_root_file_errors_clearly() {
    let msg = LocalFs::new("/tmp/root.md")
        .check_root(false)
        .unwrap_err()
        .to_string();
    assert!(msg.contains("vault root is not a directory"), "msg: {msg}");
    assert!(msg.contains("root.md"), "msg: {msg}");
}

#[test]
fn local_missing_root_errors() {
    let fs = LocalFs::new("/nonexistent/vaultsync-xyz");
    assert!(fs.check_root(false).is_err());
    assert!(fs.check_root(true).is_ok());
}

#[test]
fn key_to_local_path_joins_under_root() {
    let p = key_to_local_path("/tmp/vault", "notes/a.md").unwrap();
    assert_eq!(p, "/tmp/vault/notes/a.md");
}

#[test]
fn key_to_local_path_rejects_traversal() {
    for bad in ["../evil.md", "/abs.md", "a/\nb.md", "a/../b.md", ".."] {
        let err = key_to_local_path("/tmp/vault", bad).unwrap_err();
        assert!(matches!(err, Error::InvalidKey(_)), "key {bad:?}: {err:?}");
    }
}

#[test]
fn key_to_local_path_rejects_folder_key_for_file_ops() {
    let err = key_to_local_path("/tmp/vault", "notes/").unwrap_err();
    assert!(matches!(err, Error::InvalidKey(_)));
}

#[test]
fn local_open_rechecks_type_not_symlink() {
    let fs = LocalFs::new("/vault");
    let err = fs
        .open_verified("a.md", 1, None, 1000, &Opened::Symlink)
        .unwrap_err();
    assert!(
        err.to_string().contains("symlink"),
        "expected symlink refusal, got: {err:?}"
    );
}

#[test]
fn local_open_verified_rejects_size_mismatch() {
    let fs = LocalFs::new("/vault");
    let seen = regular(5, Some(7));
    assert!(fs.open_verified("a.md", 5, None, 1000, &seen).is_ok());
    assert!(
        fs.open_verified("a.md", 6, None, 1000, &seen).is_err(),
        "size mismatch not caught"
    );
    let dir = Opened::Node {
        regular: false,
        size: 5,
        mtime_ms: None,
    };
    let err = fs.open_verified("a.md", 5, None, 1000, &dir).unwrap_err();
    assert_eq!(
        err.to_string(),
        "open_verified: not a regular file: /vault/a.md"
    );
}

#[test]
fn local_open_verified_respects_custom_tolerance() {
    let base = 1_700_000_000_000u64;
    let fs = LocalFs::new("/vault");
    let seen = regular(5, Some(base));
    assert!(fs
        .open_verified("a.md", 5, Some(base + 3000), 5000, &seen)
        .is_ok());
    let err = fs
        .open_verified("a.md", 5, Some(base + 3000), 1000, &seen)
        .unwrap_err();
    assert!(err.to_string().contains("mtime changed"), "err: {err:?}");
}

#[test]
fn local_open_verified_missing_not_found() {
    let fs = LocalFs::new("/vault");
    assert!(matches!(
        fs.open_verified("gone.md", 1, None, 1000, &Opened::Missing)
            .unwrap_err(),
        Error::NotFound(_)
    ));
}

#[test]
fn local_write_atomic_tmp_rename() {
    let fs = LocalFs::new("/vault");
    let err = fs.check_written("a.md", 100, 4).unwrap_err();
    assert!(
        err.to_string().to_lowercase().contains("short"),
        "err: {err:?}"
    );
    assert!(fs.check_written("a.md", 4, 4).is_ok());
}

fn dirs(path: &str) -> Vec<String> {
    path.split('/')
        .filter(|p| !p.is_empty())
        .map(|p| p.to_string())
        .collect()
}

fn ancestor(path: &str, canonical: Option<&str>) -> Ancestor {
    Ancestor {
        shown: path.to_string(),
        canonical: canonical.map(dirs),
    }
}

#[test]
fn local_write_stays_under_root() {
    let root = dirs("/vault");
    let err = ensure_locality(
        &root,
        &vec![
            ancestor("/vault/sub/new", None),
            ancestor("/vault/sub", Some("/elsewhere")),
            ancestor("/vault", Some("/vault")),
        ],
    )
    .unwrap_err();
    assert!(
        err.to_string().contains("outside"),
        "expected locality refusal, got: {err:?}"
    );
    assert!(ensure_locality(
        &root,
        &vec![
            ancestor("/vault/sub/new", None),
            ancestor("/vault/sub", Some("/vault/real")),
        ],
    )
    .is_ok());
    assert!(
        ensure_locality(&root, &vec![ancestor("/vaults", Some("/vaults"))]).is_err(),
        "a name that starts alike is no child"
    );
}

#[test]
fn walk_symlink_skipped_counted_by_default() {
    let mut vault = Vault::with(&[("real.txt", "r", 5)]);
    vault.link("link.txt", "/outside/secret");
    let (ents, report) = plain(&vault).unwrap().list_report();
    let keys: Vec<String> = ents.iter().map(|e| e.key.clone()).collect();
    assert_eq!(keys, vec!["real.txt"], "symlink not skipped");
    assert_eq!(report.skipped_symlinks, 1, "report count");
    assert!(report.warnings.is_empty());
}

#[test]
fn walk_follow_symlinks_includes_in_vault_target() {
    let mut vault = Vault::with(&[("target/f.md", "x", 5)]);
    vault.link("lnk", "target");
    let fs = following(&vault);
    assert_eq!(keys(&fs), vec!["lnk/", "lnk/f.md", "target/", "target/f.md"]);
    assert_eq!(
        fs.report().warnings,
        vec!["symlink lnk/ aliases a directory inside the vault; its content is listed under both keys"]
    );
}

#[test]
fn walk_follow_symlinks_skips_escaping_target_with_warning() {
    let mut vault = Vault::default();
    vault.link("escape", "/outside/secret");
    let (ents, report) = following(&vault).list_report();
    assert!(ents.is_empty(), "escaping target emitted: {ents:?}");
    assert!(
        report
            .warnings
            .iter()
            .any(|w| w.contains("escape") && w.contains("vault root")),
        "warning missing: {:?}",
        report.warnings
    );
    assert_eq!(report.skipped_symlinks, 1);
}

#[test]
fn walk_follow_symlinks_loop_safe() {
    let mut vault = Vault::with(&[("a/leaf.md", "x", 5)]);
    vault.link("a/back", "a");
    let keys = keys(&following(&vault));
    assert!(keys.iter().any(|k| k == "a/leaf.md"));
    assert!(keys.iter().any(|k| k == "a/back/"));
    assert!(
        !keys.iter().any(|k| k == "a/back/back/"),
        "cycle not cut: {keys:?}"
    );
    assert!(keys.len() < 8, "unexpected expansion: {keys:?}");
}

#[test]
fn followed_files_are_reported_and_dangling_links_are_not() {
    let mut vault = Vault::with(&[("real.md", "r", 5)]);
    vault.link("link.md", "real.md");
    vault.link("dangling", "gone.md");
    let fs = following(&vault);
    assert_eq!(keys(&fs), vec!["link.md", "real.md"]);
    assert_eq!(
        fs.report(),
        WalkReport {
            followed_files: vec!["link.md".to_string()],
            ..WalkReport::default()
        }
    );
}

#[test]
fn reserved_and_ignored_names_are_counted_and_pruned() {
    let vault = Vault::with(&[
        (".vaultsync-check-1", "p", 5),
        (".vaultsync/cache/manifest-v1.json", "{}", 5),
        ("a/.b.vaultsync-tmp-1-2", "t", 5),
        ("keep.md", "k", 5),
        ("private/x/y.md", "s", 5),
        ("private/z.md", "s", 5),
    ]);
    let set = IgnoreSet::from_patterns(&["private/".to_string()]).unwrap();
    let fs = vault.walk(LocalFs::new("/vault").with_ignore(set)).unwrap();
    assert_eq!(keys(&fs), vec!["a/", "keep.md"]);
    let report = fs.report();
    assert_eq!(report.skipped_temp_files, 2);
    assert_eq!(report.skipped_ignored, 1, "a pruned folder counts once");
}

#[test]
fn temp_buffers_are_reserved_siblings() {
    let fs = LocalFs::new("/vault");
    assert_eq!(
        fs.tmp_path_for("n/a.md", 7, 3).unwrap(),
        "/vault/n/.a.md.vaultsync-tmp-7-3"
    );
    assert!(is_reserved_vaultsync_key_name(".a.md.vaultsync-tmp-7-3"));
    assert!(is_reserved_vaultsync_key_name(".vaultsync-check-1"));
    assert!(!is_reserved_vaultsync_key_name("a.vaultsync-tmp-7-3"));
    assert!(is_vaultsync_control_plane_key(".vaultsync/manifest/v1.json"));
    assert!(!is_vaultsync_control_plane_key(".vaultsync"));
    assert!(fs.tmp_path_for("n/", 7, 3).is_err());
}

#[test]
fn paths_join_like_paths() {
    assert_eq!(join_path("/a", "b"), "/a/b");
    assert_eq!(join_path("/a/", "b"), "/a/b");
    assert_eq!(join_path("", "b"), "b");
    assert_eq!(join_path("/a", "/b"), "/b");
}

#[test]
fn every_walked_key_is_valid() {
    let fs = plain(&Vault::with(&[("a b/c.md", "x", 5), (".obsidian/app.json", "y", 5)])).unwrap();
    for k in keys(&fs) {
        assert!(ensure_valid_key(&k).is_ok(), "{k}");
    }
    assert!(plain(&Vault::with(&[("a/ /c.md", "x", 5)])).is_err());
}

#[test]
fn only_listable_keys_are_recorded_and_the_last_row_of_a_key_counts() {
    let mut fs = LocalFs::new("/vault");
    let stat = |size| Some(NodeStat { size, mtime_ms: Some(1) });
    fs.record("b.md", false, stat(1));
    fs.record("a/", true, stat(4096));
    fs.record("c", true, stat(4096));
    fs.record("d/", false, stat(1));
    fs.record("../up.md", false, stat(1));
    fs.record("", false, stat(1));
    fs.record("gone.md", false, None);
    fs.record("b.md", false, stat(2));
    let rows: Vec<(String, u64)> = fs.list().into_iter().map(|e| (e.key, e.size)).collect();
    assert_eq!(rows, vec![("a/".to_string(), 0), ("b.md".to_string(), 2)]);
}
