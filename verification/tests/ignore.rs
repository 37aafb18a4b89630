//! Ignore patterns.

use vaultsync::IgnoreSet;

fn set(patterns: &[&str]) -> IgnoreSet {
    IgnoreSet::from_patterns(&patterns.iter().map(|s| s.to_string()).collect::<Vec<_>>()).unwrap()
}

#[test]
fn ignore_set_empty_patterns_matches_nothing() {
    let set = IgnoreSet::from_patterns(&[]).unwrap();
    assert!(!set.matches(""));
    assert!(!set.matches(".DS_Store"));
    assert!(!set.matches("notes/a.md"));
    assert!(!set.matches(".git/"));
}

#[test]
fn ignore_set_basename_ds_store() {
    let cases: &[(&[&str], &str, bool)] = &[
        (&[".DS_Store"], ".DS_Store", true),
        (&[".DS_Store"], "notes/.DS_Store", true),
        (&[".DS_Store"], "a/b/.DS_Store", true),
        (&[".DS_Store"], ".DS_Store/", true),
        (&[".DS_Store"], "DS_Store.bak", false),
        (&[".DS_Store"], "notes/DS_Store.bak", false),
        (&[".DS_Store"], ".ds_store", false),
        (&[".DS_Store"], "notes/.DS_Store.bak", false),
        (&[".DS_Store"], "not-.DS_Store", false),
        (&[".DS_Store"], "notes/.DS_Store/extra", false),
        (&[".DS_Store", "Thumbs.db"], "Thumbs.db", true),
        (&[".DS_Store", "Thumbs.db"], "notes/Thumbs.db", true),
        (&[".DS_Store", "Thumbs.db"], ".DS_Store", true),
        (&[".DS_Store", "Thumbs.db"], "notes/foo.md", false),
    ];
    for (patterns, key, expect) in cases {
        let set = set(patterns);
        assert_eq!(
            set.matches(key),
            *expect,
            "patterns {patterns:?} key {key:?}"
        );
    }
}

#[test]
fn ignore_set_dir_prefix_git() {
    let cases: &[(&[&str], &str, bool)] = &[
        (&[".git/"], ".git/", true),
        (&[".git/"], ".git/objects/aa", true),
        (&[".git/"], ".git/objects/aa/bb", true),
        (&[".git/"], ".gitignore", false),
        (&[".git/"], "git/", false),
        (&[".git/"], ".github/workflows/x", false),
        (&[".git/"], "foo.git/", false),
        (&[".trash/"], ".trash/", true),
        (&[".trash/"], ".trash/foo.md", true),
        (&[".trash/"], "not-trash.md", false),
        (&[".trash/"], "foo.trash", false),
        (&[".trash/"], ".trashfile", false),
        (&[".trash/"], "notes/.trash/", false),
    ];
    for (patterns, key, expect) in cases {
        let set = set(patterns);
        assert_eq!(
            set.matches(key),
            *expect,
            "patterns {patterns:?} key {key:?}"
        );
    }
}

#[test]
fn ignore_set_exact_workspace_json() {
    let cases: &[(&[&str], &str, bool)] = &[
        (
            &[".obsidian/workspace.json"],
            ".obsidian/workspace.json",
            true,
        ),
        (&[".obsidian/workspace.json"], ".obsidian/workspace", false),
        (
            &[".obsidian/workspace.json"],
            ".obsidian/workspace-mobile.json",
            false,
        ),
        (
            &[".obsidian/workspace.json"],
            ".obsidian/workspace.json/extra",
            false,
        ),
        (
            &[".obsidian/workspace.json"],
            ".obsidian/workspace.json/",
            false,
        ),
        (
            &[".obsidian/workspace.json"],
            "x/.obsidian/workspace.json",
            false,
        ),
        (&[".obsidian/workspace"], ".obsidian/workspace", true),
        (&[".obsidian/workspace"], ".obsidian/workspace.json", false),
    ];
    for (patterns, key, expect) in cases {
        let set = set(patterns);
        assert_eq!(
            set.matches(key),
            *expect,
            "patterns {patterns:?} key {key:?}"
        );
    }
}

#[test]
fn ignore_set_rejects_doublestar_negation_empty_abs() {
    let cases: &[(&str, &[&str])] = &[
        ("", &["empty"]),
        ("/abs", &["leading", "/"]),
        ("/.DS_Store", &["leading", "/"]),
        ("**", &["**"]),
        ("./**/x", &["**"]),
        ("a/**/b", &["**"]),
        ("!foo", &["!", "negation"]),
        ("foo!", &["!"]),
        ("a/!b", &["!"]),
        ("foo[bar]", &["class", "["]),
        ("foo\\bar", &["escape", "\\"]),
        ("foo?", &["?"]),
        ("a//b", &["empty"]),
        ("a//b/", &["empty"]),
        ("/", &["leading"]),
    ];
    for (pat, tokens) in cases {
        let err = IgnoreSet::from_patterns(&[pat.to_string()]).unwrap_err();
        let msg = err.to_string();
        let named = msg.contains(pat) || msg.contains(&pat.replace('\\', "\\\\"));
        assert!(named, "pattern {pat:?} not named in {msg:?}");
        for t in *tokens {
            assert!(msg.contains(t), "token {t:?} missing in {msg:?}");
        }
    }
}

#[test]
fn ignore_set_invalid_second_pattern_names_it() {
    let err =
        IgnoreSet::from_patterns(&[".DS_Store".to_string(), "a//b".to_string()]).unwrap_err();
    let msg = err.to_string();
    assert!(msg.contains("a//b"), "second pattern not named: {msg:?}");
}
