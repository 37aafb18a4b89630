//! Settings resolution.

use vaultsync::config::{
    default_search_paths, normalize_prefix, resolve_settings, EnvSnapshot, FileConfig,
    IgnoreConfig, InventoryBootstrap, InventoryConfig, InventoryMode, RetryConfig, RetrySettings,
    Settings, StoreConfig, TransferConfig, DEFAULT_RETRY_BASE_DELAY_MS, DEFAULT_RETRY_MAX_ATTEMPTS,
    DEFAULT_RETRY_MAX_DELAY_MS, OBSIDIAN_DEFAULT_IGNORE_PATTERNS,
};
use vaultsync::error::Error;

fn settings(cfg: &FileConfig) -> Result<Settings, Error> {
    resolve_settings(cfg, &EnvSnapshot::default())
}

fn text_of(t: &toml::Table, name: &str) -> Option<String> {
    t.get(name).map(|v| v.as_str().unwrap().to_string())
}

fn int_of(t: &toml::Table, name: &str) -> Option<u64> {
    t.get(name).map(|v| v.as_integer().unwrap() as u64)
}

fn section<'a>(t: &'a toml::Table, name: &str) -> Option<&'a toml::Table> {
    t.get(name).map(|v| v.as_table().unwrap())
}

/// The config that a TOML text states.
fn config(text: &str) -> FileConfig {
    let t = text.parse::<toml::Table>().unwrap();
    FileConfig {
        vault_root: text_of(&t, "vault_root"),
        store: section(&t, "store").map(|s| StoreConfig {
            store_type: text_of(s, "type"),
            bucket: text_of(s, "bucket"),
            region: text_of(s, "region"),
            endpoint: text_of(s, "endpoint"),
            prefix: text_of(s, "prefix"),
            path_style: s.get("path_style").map(|v| v.as_bool().unwrap()),
        }),
        ignore: section(&t, "ignore").map(|s| IgnoreConfig {
            profile: text_of(s, "profile"),
            patterns: match s.get("patterns") {
                Some(p) => p
                    .as_array()
                    .unwrap()
                    .iter()
                    .map(|v| v.as_str().unwrap().to_string())
                    .collect(),
                None => Vec::new(),
            },
        }),
        transfer: section(&t, "transfer").map(|s| TransferConfig {
            concurrency: int_of(s, "concurrency").map(|n| n as u32),
            mtime_tolerance_ms: int_of(s, "mtime_tolerance_ms"),
            retry: section(s, "retry").map(|r| RetryConfig {
                max_attempts: int_of(r, "max_attempts").map(|n| n as u32),
                base_delay_ms: int_of(r, "base_delay_ms"),
                max_delay_ms: int_of(r, "max_delay_ms"),
            }),
        }),
        inventory: section(&t, "inventory").map(|s| InventoryConfig {
            mode: text_of(s, "mode"),
            bootstrap: text_of(s, "bootstrap"),
        }),
    }
}

#[test]
fn resolve_absent_ignore_does_not_populate_user_field() {
    let cfg = FileConfig::default();
    let s = settings(&cfg).unwrap();
    assert!(s.ignore_patterns.is_empty(), "user field must stay empty");
    assert!(
        !s.resolved_ignore_patterns.is_empty(),
        "resolved field must carry the built-in default"
    );
    assert_eq!(
        s.resolved_ignore_patterns.len(),
        OBSIDIAN_DEFAULT_IGNORE_PATTERNS.len()
    );
}

#[test]
fn resolve_bad_pattern_errors() {
    let cases: &[(&[&str], &str)] = &[
        (&[""], "empty"),
        (&["/abs"], "leading"),
        (&["a/**/b"], "**"),
        (&["!foo"], "!"),
        (&["foo?"], "?"),
        (&["a//b"], "empty"),
    ];
    for (patterns, reason) in cases {
        let list = patterns
            .iter()
            .map(|p| format!("\"{p}\""))
            .collect::<Vec<_>>()
            .join(", ");
        let text = format!("[ignore]\nprofile = \"none\"\npatterns = [{list}]\n");
        let cfg = config(&text);
        let err = settings(&cfg).unwrap_err();
        let msg = err.to_string();
        let bad = patterns[0];
        assert!(
            msg.contains(&format!("{bad:?}")),
            "{bad:?} must be named in: {msg}"
        );
        assert!(
            msg.contains(reason),
            "{bad:?} must carry reason {reason:?}: {msg}"
        );
    }

    let text = "[ignore]\npatterns = [\"private/\", \"\"]\n";
    let cfg = config(text);
    let err = settings(&cfg).unwrap_err();
    let msg = err.to_string();
    assert!(
        msg.contains("\"\"") && msg.contains("empty"),
        "bad user pattern under default profile must fail naming it: {msg}"
    );

    let cfg = FileConfig::default();
    assert!(settings(&cfg).is_ok());
}

#[test]
fn resolve_unknown_profile_errors() {
    let cases: &[(&str, &str)] = &[
        ("git", "git"),
        ("", ""),
        ("Obsidian", "Obsidian"),
        ("none ", "none "),
        ("obsidian\\n", "obsidian\n"),
    ];
    for (toml_value, raw_value) in cases {
        let text = format!("[ignore]\nprofile = \"{toml_value}\"\n");
        let cfg = config(&text);
        let err = settings(&cfg).unwrap_err();
        let msg = err.to_string();
        assert!(
            msg.contains("ignore.profile"),
            "{raw_value:?} error must name ignore.profile: {msg}"
        );
        assert!(
            msg.contains("obsidian") && msg.contains("none"),
            "{raw_value:?} error must mention the allowed set obsidian|none: {msg}"
        );
        assert!(
            msg.contains(&format!("{raw_value:?}")),
            "{raw_value:?} error must name the raw value: {msg}"
        );
    }
}

#[test]
fn resolve_ignore_dedup_exact_string() {
    let text =
        "[ignore]\nprofile = \"obsidian\"\npatterns = [\".git/\", \"private/\", \".git/\"]\n";
    let cfg = config(text);
    let s = settings(&cfg).unwrap();
    let expected: Vec<String> = OBSIDIAN_DEFAULT_IGNORE_PATTERNS
        .iter()
        .map(|s| s.to_string())
        .chain(std::iter::once("private/".to_string()))
        .collect();
    assert_eq!(s.resolved_ignore_patterns, expected);

    let text = "[ignore]\nprofile = \"none\"\npatterns = [\"a/\", \"b/\", \"a/\"]\n";
    let cfg = config(text);
    let s = settings(&cfg).unwrap();
    assert_eq!(
        s.resolved_ignore_patterns,
        vec!["a/".to_string(), "b/".to_string()]
    );
}

#[test]
fn resolve_user_extends_obsidian() {
    let expected: Vec<String> = OBSIDIAN_DEFAULT_IGNORE_PATTERNS
        .iter()
        .map(|s| s.to_string())
        .chain(std::iter::once("private/".to_string()))
        .collect();

    let text = "[ignore]\npatterns = [\"private/\"]\n";
    let cfg = config(text);
    let s = settings(&cfg).unwrap();
    assert_eq!(s.ignore_patterns, vec!["private/".to_string()]);
    assert_eq!(s.resolved_ignore_patterns, expected);

    let text = "[ignore]\nprofile = \"obsidian\"\npatterns = [\"private/\"]\n";
    let cfg = config(text);
    let s = settings(&cfg).unwrap();
    assert_eq!(s.ignore_patterns, vec!["private/".to_string()]);
    assert_eq!(s.resolved_ignore_patterns, expected);
}

#[test]
fn resolve_profile_none_plus_user() {
    let text = "[ignore]\nprofile = \"none\"\npatterns = [\"private/\"]\n";
    let cfg = config(text);
    let s = settings(&cfg).unwrap();
    assert_eq!(s.ignore_patterns, vec!["private/".to_string()]);
    assert_eq!(s.resolved_ignore_patterns, vec!["private/".to_string()]);

    let text = "[ignore]\nprofile = \"none\"\n";
    let cfg = config(text);
    let s = settings(&cfg).unwrap();
    assert!(s.ignore_patterns.is_empty());
    assert!(s.resolved_ignore_patterns.is_empty());
}

#[test]
fn resolve_default_profile_is_obsidian() {
    let expected: Vec<String> = OBSIDIAN_DEFAULT_IGNORE_PATTERNS
        .iter()
        .map(|s| s.to_string())
        .collect();

    let cfg = FileConfig::default();
    let s = settings(&cfg).unwrap();
    assert!(
        s.ignore_patterns.is_empty(),
        "user field stays empty (W25-safe)"
    );
    assert_eq!(s.resolved_ignore_patterns, expected);

    let cfg = config("[ignore]\n");
    let s = settings(&cfg).unwrap();
    assert!(s.ignore_patterns.is_empty());
    assert_eq!(s.resolved_ignore_patterns, expected);
}

#[test]
fn resolve_settings_retry_defaults_sdk_standard() {
    let cfg = FileConfig::default();
    let s = settings(&cfg).unwrap();
    assert_eq!(
        s.retry,
        RetrySettings {
            max_attempts: DEFAULT_RETRY_MAX_ATTEMPTS,
            base_delay_ms: DEFAULT_RETRY_BASE_DELAY_MS,
            max_delay_ms: DEFAULT_RETRY_MAX_DELAY_MS,
        },
        "absent [transfer.retry] resolves to SDK standard defaults"
    );
}

#[test]
fn resolve_settings_retry_partial_fills_defaults() {
    let text = "[transfer.retry]\nmax_attempts = 5\n";
    let cfg = config(text);
    let s = settings(&cfg).unwrap();
    assert_eq!(s.retry.max_attempts, 5);
    assert_eq!(s.retry.base_delay_ms, DEFAULT_RETRY_BASE_DELAY_MS);
    assert_eq!(s.retry.max_delay_ms, DEFAULT_RETRY_MAX_DELAY_MS);
}

#[test]
fn resolve_settings_retry_full_override() {
    let text = "[transfer.retry]\nmax_attempts = 7\nbase_delay_ms = 50\nmax_delay_ms = 5000\n";
    let cfg = config(text);
    let s = settings(&cfg).unwrap();
    assert_eq!(s.retry.max_attempts, 7);
    assert_eq!(s.retry.base_delay_ms, 50);
    assert_eq!(s.retry.max_delay_ms, 5000);
}

#[test]
fn resolve_settings_retry_rejects_zero_max_attempts() {
    let text = "[transfer.retry]\nmax_attempts = 0\n";
    let cfg = config(text);
    let err = settings(&cfg).unwrap_err();
    let msg = err.to_string();
    assert!(
        msg.contains("transfer.retry.max_attempts"),
        "must name transfer.retry.max_attempts: {msg}"
    );
}

#[test]
fn resolve_settings_retry_allows_max_attempts_1() {
    let text = "[transfer.retry]\nmax_attempts = 1\n";
    let cfg = config(text);
    let s = settings(&cfg).unwrap();
    assert_eq!(s.retry.max_attempts, 1);
}

#[test]
fn resolve_settings_rejects_zero_concurrency() {
    let text = "[transfer]\nconcurrency = 0\n";
    let cfg = config(text);
    let err = settings(&cfg).unwrap_err();
    let msg = err.to_string();
    assert!(
        msg.contains("transfer.concurrency"),
        "must name transfer.concurrency: {msg}"
    );
}

#[test]
fn resolve_settings_rejects_concurrency_above_max() {
    let text = "[transfer]\nconcurrency = 257\n";
    let cfg = config(text);
    let err = settings(&cfg).unwrap_err();
    let msg = err.to_string();
    assert!(
        msg.contains("transfer.concurrency"),
        "must name transfer.concurrency: {msg}"
    );
    assert!(msg.contains("256"), "must name the cap value 256: {msg}");
}

#[test]
fn resolve_settings_allows_concurrency_at_max() {
    let text = "[transfer]\nconcurrency = 256\n";
    let cfg = config(text);
    let s = settings(&cfg).unwrap();
    assert_eq!(s.concurrency, 256);
}

#[test]
fn resolve_settings_allows_concurrency_1() {
    let text = "[transfer]\nconcurrency = 1\n";
    let cfg = config(text);
    let s = settings(&cfg).unwrap();
    assert_eq!(s.concurrency, 1);
}

#[test]
fn resolve_settings_retry_rejects_base_above_max() {
    let text = "[transfer.retry]\nbase_delay_ms = 5000\nmax_delay_ms = 1000\n";
    let cfg = config(text);
    let err = settings(&cfg).unwrap_err();
    let msg = err.to_string();
    assert!(
        msg.contains("transfer.retry.base_delay_ms")
            && msg.contains("transfer.retry.max_delay_ms"),
        "must name both keys: {msg}"
    );
}

#[test]
fn resolve_settings_retry_rejects_lone_delay_against_default_counterpart() {
    let text = "[transfer.retry]\nmax_delay_ms = 500\n";
    let cfg = config(text);
    let err = settings(&cfg).unwrap_err();
    let msg = err.to_string();
    assert!(
        msg.contains("transfer.retry.base_delay_ms")
            && msg.contains("transfer.retry.max_delay_ms"),
        "lone max_delay_ms = 500 must fail naming both keys against default base: {msg}"
    );

    let text = "[transfer.retry]\nbase_delay_ms = 30000\n";
    let cfg = config(text);
    let err = settings(&cfg).unwrap_err();
    let msg = err.to_string();
    assert!(
        msg.contains("transfer.retry.base_delay_ms")
            && msg.contains("transfer.retry.max_delay_ms"),
        "lone base_delay_ms = 30000 must fail naming both keys against default max: {msg}"
    );
}

#[test]
fn resolve_settings_retry_rejects_zero_base_delay() {
    let text = "[transfer.retry]\nmax_attempts = 5\nbase_delay_ms = 0\nmax_delay_ms = 20000\n";
    let cfg = config(text);
    let err = settings(&cfg).unwrap_err();
    let msg = err.to_string();
    assert!(
        msg.contains("transfer.retry.base_delay_ms") && msg.contains(">= 1"),
        "must name base_delay_ms with a non-zero reason: {msg}"
    );
}

#[test]
fn resolve_settings_retry_rejects_zero_max_delay() {
    let text = "[transfer.retry]\nmax_attempts = 5\nmax_delay_ms = 0\n";
    let cfg = config(text);
    let err = settings(&cfg).unwrap_err();
    let msg = err.to_string();
    assert!(
        msg.contains("transfer.retry.max_delay_ms") && msg.contains(">= 1"),
        "must name max_delay_ms with a non-zero reason: {msg}"
    );

    let text = "[transfer.retry]\nmax_attempts = 5\nbase_delay_ms = 0\nmax_delay_ms = 0\n";
    let cfg = config(text);
    let err = settings(&cfg).unwrap_err();
    let msg = err.to_string();
    assert!(
        msg.contains("transfer.retry.base_delay_ms") && msg.contains(">= 1"),
        "must name base_delay_ms first for the both-zero case: {msg}"
    );
}

#[test]
fn resolve_settings_retry_allows_equal_base_and_max() {
    let text = "[transfer.retry]\nmax_attempts = 5\nbase_delay_ms = 500\nmax_delay_ms = 500\n";
    let cfg = config(text);
    let s = settings(&cfg).unwrap();
    assert_eq!(s.retry.base_delay_ms, 500);
    assert_eq!(s.retry.max_delay_ms, 500);
}

#[test]
fn config_parse_minimal() {
    let text = "[store]\nbucket = \"b\"\nregion = \"eu-west-1\"\n";
    let cfg = config(text);
    let s = settings(&cfg).unwrap();
    assert_eq!(s.store.bucket, "b");
    assert_eq!(s.store.region.as_deref(), Some("eu-west-1"));
    assert_eq!(s.store.prefix, "");
    assert!(!s.store.path_style);
    assert_eq!(s.mtime_tolerance_ms, 1000, "tolerance default");
    assert_eq!(s.concurrency, 4, "concurrency default");
    assert_eq!(s.vault_root, ".", "no vault_root -> .");
}

#[test]
fn config_rejects_unknown_store_type() {
    let text = "[store]\ntype = \"azure\"\nbucket = \"b\"\n";
    let cfg = config(text);
    let err = settings(&cfg).unwrap_err();
    assert!(err.to_string().contains("azure"), "err: {err:?}");
}

#[test]
fn config_requires_bucket() {
    let text = "[store]\nregion = \"us-east-1\"\n";
    let cfg = config(text);
    let err = settings(&cfg).unwrap_err();
    assert!(
        err.to_string().to_lowercase().contains("bucket"),
        "err: {err:?}"
    );
}

#[test]
fn resolve_store_rejects_whitespace_only_bucket() {
    for bad in ["", "   "] {
        let text = format!("[store]\nbucket = \"{bad}\"\n");
        let cfg = config(&text);
        let err = settings(&cfg).unwrap_err();
        assert!(
            err.to_string().contains("store.bucket") && err.to_string().contains("empty"),
            "{bad:?} must error naming store.bucket as empty: {err:?}"
        );
    }
    let cfg = config("[store]\nbucket = \"b \"\n");
    let s = settings(&cfg).unwrap();
    assert_eq!(s.store.bucket, "b ", "no silent trimming of real values");
}

#[test]
fn config_prefix_normalized_trailing_slash() {
    assert_eq!(normalize_prefix("notes"), "notes/");
    assert_eq!(normalize_prefix("notes/"), "notes/");
    assert_eq!(normalize_prefix(""), "");
    assert_eq!(normalize_prefix("a/b/"), "a/b/");
    assert_eq!(normalize_prefix("a/b"), "a/b/");
}

#[test]
fn config_mtime_tolerance_default_1000() {
    let cfg = FileConfig::default();
    let s = settings(&cfg).unwrap();
    assert_eq!(s.mtime_tolerance_ms, 1000);
}

#[test]
fn resolve_settings_empty_config_region_is_unset() {
    for bad in ["", "   "] {
        let text = format!("[store]\nbucket = \"b\"\nregion = \"{bad}\"\n");
        let cfg = config(&text);
        let s = settings(&cfg).unwrap();
        assert_eq!(
            s.store.region, None,
            "region {bad:?} must resolve to None (unset)"
        );
    }
    let cfg = config("[store]\nbucket = \"b\"\nregion = \"us-east-1\"\n");
    assert_eq!(
        settings(&cfg).unwrap().store.region.as_deref(),
        Some("us-east-1")
    );
    let cfg = config("[store]\nbucket = \"b\"\nregion = \"   \"\n");
    let env = EnvSnapshot {
        aws_region: Some("eu-west-3".to_string()),
    };
    let s = resolve_settings(&cfg, &env).unwrap();
    assert_eq!(s.store.region.as_deref(), Some("eu-west-3"));
}

#[test]
fn resolve_settings_whitespace_config_endpoint_is_unset() {
    for bad in ["", "  "] {
        let text = format!("[store]\nbucket = \"b\"\nendpoint = \"{bad}\"\n");
        let cfg = config(&text);
        let s = settings(&cfg).unwrap();
        assert_eq!(
            s.store.endpoint, None,
            "endpoint {bad:?} must resolve to None (unset)"
        );
    }
    let cfg = config("[store]\nbucket = \"b\"\nendpoint = \"https://minio.local\"\n");
    assert_eq!(
        settings(&cfg).unwrap().store.endpoint.as_deref(),
        Some("https://minio.local")
    );
}

#[test]
fn resolve_settings_env_overrides_config_region() {
    let text = "[store]\nbucket = \"b\"\nregion = \"us-east-1\"\n";
    let cfg = config(text);
    let no_env = resolve_settings(&cfg, &EnvSnapshot::default()).unwrap();
    assert_eq!(no_env.store.region.as_deref(), Some("us-east-1"));
    let env = EnvSnapshot {
        aws_region: Some("eu-west-3".to_string()),
    };
    let with_env = resolve_settings(&cfg, &env).unwrap();
    assert_eq!(
        with_env.store.region.as_deref(),
        Some("eu-west-3"),
        "env overrides config region"
    );
}

#[test]
fn resolve_settings_empty_env_region_falls_back() {
    let text = "[store]\nbucket = \"b\"\nregion = \"eu-west-3\"\n";
    let cfg = config(text);
    let empty_env = EnvSnapshot {
        aws_region: Some(String::new()),
    };
    let with_config = resolve_settings(&cfg, &empty_env).unwrap();
    assert_eq!(
        with_config.store.region.as_deref(),
        Some("eu-west-3"),
        "empty env region must fall back to the config region"
    );
    let ws_env = EnvSnapshot {
        aws_region: Some("   ".to_string()),
    };
    let with_config_ws = resolve_settings(&cfg, &ws_env).unwrap();
    assert_eq!(with_config_ws.store.region.as_deref(), Some("eu-west-3"));
    let no_cfg = config("[store]\nbucket = \"b\"\n");
    let no_region = resolve_settings(&no_cfg, &empty_env).unwrap();
    assert_eq!(no_region.store.region, None);
}

#[test]
fn region_unconfigured_is_none() {
    let text = "[store]\nbucket = \"b\"\n";
    let cfg = config(text);
    let s = settings(&cfg).unwrap();
    assert_eq!(s.store.region, None);
}

#[test]
fn config_prefix_with_empty_segment_rejected() {
    for bad in ["a//b", "/a"] {
        let text = format!("[store]\nbucket = \"b\"\nprefix = \"{bad}\"\n");
        let cfg = config(&text);
        let err = settings(&cfg).unwrap_err();
        let msg = err.to_string();
        assert!(msg.contains("prefix"), "prefix {bad:?}: {msg}");
    }
    let text = "[store]\nbucket = \"b\"\nprefix = \"a/\"\n";
    let cfg = config(text);
    assert_eq!(settings(&cfg).unwrap().store.prefix, "a/");
}

#[test]
fn config_prefix_validated_against_ensure_valid_key() {
    for bad in ["a/ /b", "a/\\u0007b"] {
        let text = format!("[store]\nbucket = \"b\"\nprefix = \"{bad}\"\n");
        let cfg = config(&text);
        let err = settings(&cfg).unwrap_err();
        assert!(
            err.to_string().contains("store.prefix"),
            "prefix {bad:?} must error naming store.prefix: {err:?}"
        );
    }
    for bad in ["a//b", "/a"] {
        let text = format!("[store]\nbucket = \"b\"\nprefix = \"{bad}\"\n");
        let cfg = config(&text);
        let err = settings(&cfg).unwrap_err();
        assert!(err.to_string().contains("prefix"), "prefix {bad:?}: {err:?}");
    }
    for good in ["notes", "a/b/", "tagebuch/", ""] {
        let text = format!("[store]\nbucket = \"b\"\nprefix = \"{good}\"\n");
        let cfg = config(&text);
        let s = settings(&cfg).unwrap();
        assert!(
            s.store.prefix.is_empty() || s.store.prefix.ends_with('/'),
            "prefix {good:?} resolved to {:?}",
            s.store.prefix
        );
    }
}

#[test]
fn search_paths_prefer_the_working_directory() {
    assert_eq!(
        default_search_paths("/work", Some("/home/me")),
        vec!["/work/.vaultsync.toml", "/home/me/.config/vaultsync/config.toml"]
    );
    assert_eq!(default_search_paths("/work", None), vec!["/work/.vaultsync.toml"]);
}

#[test]
fn inventory_mode_resolves_by_name() {
    assert_eq!(
        settings(&FileConfig::default()).unwrap().inventory_mode,
        InventoryMode::Auto
    );
    for (name, mode) in [
        ("auto", InventoryMode::Auto),
        ("manifest", InventoryMode::Manifest),
        ("list_head", InventoryMode::ListHead),
    ] {
        let cfg = config(&format!("[inventory]\nmode = \"{name}\"\n"));
        assert_eq!(settings(&cfg).unwrap().inventory_mode, mode);
    }
    let err = settings(&config("[inventory]\nmode = \"fast\"\n")).unwrap_err();
    let msg = err.to_string();
    assert!(msg.contains("inventory.mode") && msg.contains("\"fast\""), "{msg}");
}

#[test]
fn inventory_bootstrap_resolves_by_name() {
    assert_eq!(
        settings(&FileConfig::default()).unwrap().inventory_bootstrap,
        InventoryBootstrap::PushEnsure
    );
    for (name, bootstrap) in [
        ("push-ensure", InventoryBootstrap::PushEnsure),
        ("off", InventoryBootstrap::Off),
    ] {
        let cfg = config(&format!("[inventory]\nbootstrap = \"{name}\"\n"));
        assert_eq!(settings(&cfg).unwrap().inventory_bootstrap, bootstrap);
    }
    let err = settings(&config("[inventory]\nbootstrap = \"pull\"\n")).unwrap_err();
    assert_eq!(
        err.to_string(),
        "inventory.bootstrap: unknown value \"pull\" (allowed: \"push-ensure\" | \"off\")"
    );
}

#[test]
fn normalized_prefix_is_a_fixed_point() {
    for p in ["", "a", "a/", "a/b", "\u{e4}"] {
        let once = normalize_prefix(p);
        assert_eq!(normalize_prefix(&once), once);
    }
}
