//! Settings resolution: config and environment merged into runtime settings.
//!
//! The config file never carries secrets: credentials always come from the
//! provider's default chain.

use vstd::prelude::*;
use crate::entity;
use crate::entity::ensure_valid_key;
use crate::error::{Error, ErrorView};
use crate::ignore;
use crate::ignore::IgnoreSet;
use crate::local;
use crate::local::{clone_strings, join_path};
use crate::text;
use crate::text::{cat3, cat5, debug_string, decimal, ends_with_slash, same_text, text_among, text_blank};

verus! {

pub const DEFAULT_MTIME_TOLERANCE_MS: u64 = 1000;

pub const DEFAULT_CONCURRENCY: u32 = 4;

/// The ceiling on `[transfer].concurrency`. A larger value is a config
/// mistake, not a tuning choice, and is rejected rather than clamped.
pub const MAX_CONCURRENCY: u32 = 256;

pub const DEFAULT_RETRY_MAX_ATTEMPTS: u32 = 3;

pub const DEFAULT_RETRY_BASE_DELAY_MS: u64 = 1000;

pub const DEFAULT_RETRY_MAX_DELAY_MS: u64 = 20000;

/// Built-in Obsidian default ignore profile: vault-relative patterns. It is
/// the default; `profile = "none"` disables it. User patterns extend it.
pub const OBSIDIAN_DEFAULT_IGNORE_PATTERNS: [&'static str; 6] = [
    ".git/",
    ".trash/",
    ".DS_Store",
    ".obsidian/workspace",
    ".obsidian/workspace.json",
    ".obsidian/workspace-mobile.json",
];

/// The patterns of the built-in profile.
pub open spec fn obsidian_patterns() -> Seq<Seq<char>> {
    seq![
        ".git/"@,
        ".trash/"@,
        ".DS_Store"@,
        ".obsidian/workspace"@,
        ".obsidian/workspace.json"@,
        ".obsidian/workspace-mobile.json"@,
    ]
}

/// The patterns of the built-in profile.
pub fn obsidian_default_ignore_patterns() -> (r: Vec<String>)
    ensures
        text::texts(r@) == obsidian_patterns(),
{
    let mut v: Vec<String> = Vec::new();
    v.push(OBSIDIAN_DEFAULT_IGNORE_PATTERNS[0].to_owned());
    v.push(OBSIDIAN_DEFAULT_IGNORE_PATTERNS[1].to_owned());
    v.push(OBSIDIAN_DEFAULT_IGNORE_PATTERNS[2].to_owned());
    v.push(OBSIDIAN_DEFAULT_IGNORE_PATTERNS[3].to_owned());
    v.push(OBSIDIAN_DEFAULT_IGNORE_PATTERNS[4].to_owned());
    v.push(OBSIDIAN_DEFAULT_IGNORE_PATTERNS[5].to_owned());
    assert(text::texts(v@) =~= obsidian_patterns());
    v
}

/// How the remote inventory is read.
#[derive(Debug, Clone, Copy, PartialEq, Eq, Structural)]
pub enum InventoryMode {
    /// A valid manifest wins, else live list+head with a warning.
    Auto,
    /// A missing or corrupt manifest is an error.
    Manifest,
    /// Never read the manifest.
    ListHead,
}

/// Whether a push publishes a baseline manifest before its transfers.
#[derive(Debug, Clone, Copy, PartialEq, Eq, Structural)]
pub enum InventoryBootstrap {
    /// A push that found no usable manifest publishes one, or adopts one that
    /// has appeared since.
    PushEnsure,
    /// A push writes the manifest only after successful mutations.
    Off,
}

/// The config file. All sections are optional; defaults apply at resolution.
#[derive(Debug)]
pub struct FileConfig {
    pub vault_root: Option<String>,
    pub store: Option<StoreConfig>,
    pub ignore: Option<IgnoreConfig>,
    pub transfer: Option<TransferConfig>,
    pub inventory: Option<InventoryConfig>,
}

impl Default for FileConfig {
    fn default() -> (r: Self)
        ensures
            r == (FileConfig {
                vault_root: None,
                store: None,
                ignore: None,
                transfer: None,
                inventory: None,
            }),
    {
        FileConfig { vault_root: None, store: None, ignore: None, transfer: None, inventory: None }
    }
}

/// `[store]` section. `type` must be `"s3"`; `bucket` is required when the
/// section is present. Credentials are never configured here.
#[derive(Debug)]
pub struct StoreConfig {
    pub store_type: Option<String>,
    pub bucket: Option<String>,
    pub region: Option<String>,
    pub endpoint: Option<String>,
    pub prefix: Option<String>,
    pub path_style: Option<bool>,
}

impl Default for StoreConfig {
    fn default() -> (r: Self)
        ensures
            r == (StoreConfig {
                store_type: None,
                bucket: None,
                region: None,
                endpoint: None,
                prefix: None,
                path_style: None,
            }),
    {
        StoreConfig {
            store_type: None,
            bucket: None,
            region: None,
            endpoint: None,
            prefix: None,
            path_style: None,
        }
    }
}

/// `[ignore]` section. `profile` selects the built-in ignore set; `patterns`
/// extend it.
#[derive(Debug)]
pub struct IgnoreConfig {
    pub profile: Option<String>,
    pub patterns: Vec<String>,
}

impl Default for IgnoreConfig {
    fn default() -> (r: Self)
        ensures
            r.profile is None,
            r.patterns@.len() == 0,
    {
        IgnoreConfig { profile: None, patterns: Vec::new() }
    }
}

/// `[transfer]` section.
#[derive(Debug, Clone, Copy)]
pub struct TransferConfig {
    pub concurrency: Option<u32>,
    pub mtime_tolerance_ms: Option<u64>,
    pub retry: Option<RetryConfig>,
}

impl Default for TransferConfig {
    fn default() -> (r: Self)
        ensures
            r == (TransferConfig { concurrency: None, mtime_tolerance_ms: None, retry: None }),
    {
        TransferConfig { concurrency: None, mtime_tolerance_ms: None, retry: None }
    }
}

/// `[transfer.retry]` section. An absent field resolves to its default.
#[derive(Debug, Clone, Copy)]
pub struct RetryConfig {
    pub max_attempts: Option<u32>,
    pub base_delay_ms: Option<u64>,
    pub max_delay_ms: Option<u64>,
}

impl Default for RetryConfig {
    fn default() -> (r: Self)
        ensures
            r == (RetryConfig { max_attempts: None, base_delay_ms: None, max_delay_ms: None }),
    {
        RetryConfig { max_attempts: None, base_delay_ms: None, max_delay_ms: None }
    }
}

/// `[inventory]` section. `mode` is `"auto"` (the default), `"manifest"` or
/// `"list_head"`; `bootstrap` is `"push-ensure"` (the default) or `"off"`.
#[derive(Debug)]
pub struct InventoryConfig {
    pub mode: Option<String>,
    pub bootstrap: Option<String>,
}

/// Fully resolved runtime settings.
#[derive(Debug, PartialEq)]
pub struct Settings {
    pub vault_root: String,
    pub store: StoreSettings,
    pub mtime_tolerance_ms: u64,
    pub concurrency: u32,
    /// Resolved `[transfer.retry]` policy.
    pub retry: RetrySettings,
    /// The user's own `[ignore].patterns` only.
    pub ignore_patterns: Vec<String>,
    /// The active profile's built-ins first, then the user patterns, each
    /// pattern once.
    pub resolved_ignore_patterns: Vec<String>,
    pub inventory_mode: InventoryMode,
    pub inventory_bootstrap: InventoryBootstrap,
}

/// Resolved retry policy.
#[derive(Debug, Clone, Copy, PartialEq, Eq, Structural)]
pub struct RetrySettings {
    /// Total attempts including the initial one (1 = retries disabled).
    pub max_attempts: u32,
    pub base_delay_ms: u64,
    pub max_delay_ms: u64,
}

impl Default for RetrySettings {
    fn default() -> (r: Self)
        ensures
            r == default_retry(),
    {
        RetrySettings {
            max_attempts: DEFAULT_RETRY_MAX_ATTEMPTS,
            base_delay_ms: DEFAULT_RETRY_BASE_DELAY_MS,
            max_delay_ms: DEFAULT_RETRY_MAX_DELAY_MS,
        }
    }
}

/// The retry policy without a config.
pub open spec fn default_retry() -> RetrySettings {
    RetrySettings {
        max_attempts: DEFAULT_RETRY_MAX_ATTEMPTS,
        base_delay_ms: DEFAULT_RETRY_BASE_DELAY_MS,
        max_delay_ms: DEFAULT_RETRY_MAX_DELAY_MS,
    }
}

/// Resolved store connection settings.
#[derive(Debug, PartialEq)]
pub struct StoreSettings {
    /// Empty only when no `[store]` section was present.
    pub bucket: String,
    /// Region override; `None` lets the provider's default chain decide.
    pub region: Option<String>,
    pub endpoint: Option<String>,
    /// Vault-relative prefix with a trailing `/` (`""` when none).
    pub prefix: String,
    pub path_style: bool,
}

/// The mathematical view of a [`StoreSettings`].
pub struct StoreView {
    pub bucket: Seq<char>,
    pub region: Option<Seq<char>>,
    pub endpoint: Option<Seq<char>>,
    pub prefix: Seq<char>,
    pub path_style: bool,
}

impl View for StoreSettings {
    type V = StoreView;

    open spec fn view(&self) -> StoreView {
        StoreView {
            bucket: self.bucket@,
            region: text::opt_text(self.region),
            endpoint: text::opt_text(self.endpoint),
            prefix: self.prefix@,
            path_style: self.path_style,
        }
    }
}

/// The mathematical view of a [`Settings`].
pub struct SettingsView {
    pub vault_root: Seq<char>,
    pub store: StoreView,
    pub mtime_tolerance_ms: u64,
    pub concurrency: u32,
    pub retry: RetrySettings,
    pub ignore_patterns: Seq<Seq<char>>,
    pub resolved_ignore_patterns: Seq<Seq<char>>,
    pub inventory_mode: InventoryMode,
    pub inventory_bootstrap: InventoryBootstrap,
}

impl View for Settings {
    type V = SettingsView;

    open spec fn view(&self) -> SettingsView {
        SettingsView {
            vault_root: self.vault_root@,
            store: self.store@,
            mtime_tolerance_ms: self.mtime_tolerance_ms,
            concurrency: self.concurrency,
            retry: self.retry,
            ignore_patterns: text::texts(self.ignore_patterns@),
            resolved_ignore_patterns: text::texts(self.resolved_ignore_patterns@),
            inventory_mode: self.inventory_mode,
            inventory_bootstrap: self.inventory_bootstrap,
        }
    }
}

/// The view of a resolution result.
pub open spec fn settings_result(r: Result<Settings, Error>) -> Result<SettingsView, ErrorView> {
    match r {
        Ok(s) => Ok(s@),
        Err(e) => Err(e@),
    }
}

/// Snapshot of the relevant environment variables.
#[derive(Debug)]
pub struct EnvSnapshot {
    pub aws_region: Option<String>,
}

impl Default for EnvSnapshot {
    fn default() -> (r: Self)
        ensures
            r.aws_region is None,
    {
        EnvSnapshot { aws_region: None }
    }
}

/// The default search order: `./.vaultsync.toml`, then
/// `~/.config/vaultsync/config.toml`.
pub fn default_search_paths(cwd: &str, home: Option<&str>) -> (r: Vec<String>)
    ensures
        text::texts(r@) == (match home {
            Some(h) => seq![
                local::joined(cwd@, ".vaultsync.toml"@),
                local::joined(h@, ".config/vaultsync/config.toml"@),
            ],
            None => seq![local::joined(cwd@, ".vaultsync.toml"@)],
        }),
{
    let mut v: Vec<String> = Vec::new();
    v.push(join_path(cwd, ".vaultsync.toml"));
    if let Some(h) = home {
        v.push(join_path(h, ".config/vaultsync/config.toml"));
    }
    assert(text::texts(v@) =~= (match home {
        Some(h) => seq![
            local::joined(cwd@, ".vaultsync.toml"@),
            local::joined(h@, ".config/vaultsync/config.toml"@),
        ],
        None => seq![local::joined(cwd@, ".vaultsync.toml"@)],
    }));
    v
}

/// A blank text counts as unset.
pub open spec fn nonblank_text(o: Option<Seq<char>>) -> Option<Seq<char>> {
    match o {
        Some(s) => if text::is_blank(s) {
            None
        } else {
            Some(s)
        },
        None => None,
    }
}

/// A copy of the text, unless it is blank.
fn nonblank(o: &Option<String>) -> (r: Option<String>)
    ensures
        text::opt_text(r) == nonblank_text(text::opt_text(*o)),
{
    match o {
        Some(s) => {
            if text_blank(s.as_str()) {
                None
            } else {
                Some(s.clone())
            }
        },
        None => None,
    }
}

/// A prefix with a trailing `/`, or none at all.
pub open spec fn normal_prefix(p: Seq<char>) -> Seq<char> {
    if p.len() == 0 || text::ends_with_char(p, '/') {
        p
    } else {
        p.push('/')
    }
}

/// Normalizing a prefix twice is normalizing it once.
pub proof fn law_prefix_normalizes_once(p: Seq<char>)
    ensures
        normal_prefix(normal_prefix(p)) == normal_prefix(p),
{
}

/// Normalize a configured prefix to a trailing `/` (`"notes"` -> `"notes/"`),
/// leaving an empty prefix as `""`.
pub fn normalize_prefix(prefix: &str) -> (r: String)
    ensures
        r@ == normal_prefix(prefix@),
{
    let mut out = prefix.to_owned();
    if !prefix.is_empty() && !ends_with_slash(prefix) {
        out.push('/');
    }
    out
}

/// The settings of a store without a `[store]` section.
pub open spec fn offline_store() -> StoreView {
    StoreView {
        bucket: ""@,
        region: None,
        endpoint: None,
        prefix: ""@,
        path_style: false,
    }
}

/// The resolution of a `[store]` section.
pub open spec fn store_resolution(
    store: Option<StoreConfig>,
    env_region: Option<Seq<char>>,
) -> Result<StoreView, ErrorView> {
    match store {
        None => Ok(offline_store()),
        Some(s) => {
            let t = match s.store_type {
                Some(t) => t@,
                None => "s3"@,
            };
            let prefix = match s.prefix {
                Some(p) => p@,
                None => ""@,
            };
            if t != "s3"@ {
                Err(
                    ErrorView::Other(
                        "unsupported store type: "@ + text::debug_text(t)
                            + " (only \"s3\" is supported)"@,
                    ),
                )
            } else if s.bucket is None {
                Err(ErrorView::Other("store.bucket is required"@))
            } else if text::is_blank(s.bucket->0@) {
                Err(ErrorView::Other("store.bucket must not be empty or whitespace-only"@))
            } else if normal_prefix(prefix).len() > 0 && entity::key_check(
                normal_prefix(prefix),
            ) is Err {
                Err(
                    ErrorView::Other(
                        "store.prefix is not a valid key prefix: "@ + text::debug_text(prefix)
                            + " ("@ + entity::key_check(normal_prefix(prefix))->Err_0.text() + ")"@,
                    ),
                )
            } else {
                Ok(
                    StoreView {
                        bucket: s.bucket->0@,
                        region: match nonblank_text(env_region) {
                            Some(r) => Some(r),
                            None => nonblank_text(text::opt_text(s.region)),
                        },
                        endpoint: nonblank_text(text::opt_text(s.endpoint)),
                        prefix: normal_prefix(prefix),
                        path_style: s.path_style == Some(true),
                    },
                )
            }
        },
    }
}

/// Resolve the `[store]` section. The environment's region overrides the
/// configured one; blank values count as unset, except that the bucket must
/// not be blank.
fn resolve_store(store: &Option<StoreConfig>, env: &EnvSnapshot) -> (r: Result<
    StoreSettings,
    Error,
>)
    ensures
        match r {
            Ok(s) => store_resolution(*store, text::opt_text(env.aws_region)) == Ok::<
                StoreView,
                ErrorView,
            >(s@),
            Err(e) => store_resolution(*store, text::opt_text(env.aws_region)) == Err::<
                StoreView,
                ErrorView,
            >(e@),
        },
{
    let s = match store {
        None => {
            return Ok(
                StoreSettings {
                    bucket: "".to_owned(),
                    region: None,
                    endpoint: None,
                    prefix: "".to_owned(),
                    path_style: false,
                },
            );
        },
        Some(s) => s,
    };
    if let Some(t) = &s.store_type {
        if !same_text(t.as_str(), "s3") {
            let d = debug_string(t.as_str());
            return Err(
                Error::Other(
                    cat3("unsupported store type: ", d.as_str(), " (only \"s3\" is supported)"),
                ),
            );
        }
    }
    let bucket = match &s.bucket {
        None => return Err(Error::Other("store.bucket is required".to_owned())),
        Some(b) => b.clone(),
    };
    if text_blank(bucket.as_str()) {
        return Err(
            Error::Other("store.bucket must not be empty or whitespace-only".to_owned()),
        );
    }
    let env_region = nonblank(&env.aws_region);
    let region = match env_region {
        Some(r) => Some(r),
        None => nonblank(&s.region),
    };
    let prefix = match &s.prefix {
        Some(p) => p.as_str(),
        None => "",
    };
    let normalized = normalize_prefix(prefix);
    if !normalized.as_str().is_empty() {
        if let Err(e) = ensure_valid_key(normalized.as_str()) {
            let d = debug_string(prefix);
            let shown = e.to_string();
            return Err(
                Error::Other(
                    cat5(
                        "store.prefix is not a valid key prefix: ",
                        d.as_str(),
                        " (",
                        shown.as_str(),
                        ")",
                    ),
                ),
            );
        }
    }
    let path_style = match s.path_style {
        Some(b) => b,
        None => false,
    };
    Ok(
        StoreSettings {
            bucket,
            region,
            endpoint: nonblank(&s.endpoint),
            prefix: normalized,
            path_style,
        },
    )
}

/// The patterns extended by those of `user` that are not there yet.
pub open spec fn extended(base: Seq<Seq<char>>, user: Seq<Seq<char>>) -> Seq<Seq<char>>
    decreases user.len(),
{
    if user.len() == 0 {
        base
    } else {
        let init = extended(base, user.drop_last());
        if init.contains(user.last()) {
            init
        } else {
            init.push(user.last())
        }
    }
}

/// The built-in patterns of a profile.
pub open spec fn profile_patterns(profile: Option<Seq<char>>) -> Seq<Seq<char>> {
    if profile == Some("none"@) {
        Seq::<Seq<char>>::empty()
    } else {
        obsidian_patterns()
    }
}

/// The user patterns of an `[ignore]` section.
pub open spec fn user_patterns(ignore: Option<IgnoreConfig>) -> Seq<Seq<char>> {
    match ignore {
        Some(i) => text::texts(i.patterns@),
        None => Seq::<Seq<char>>::empty(),
    }
}

/// The profile of an `[ignore]` section.
pub open spec fn profile_of(ignore: Option<IgnoreConfig>) -> Option<Seq<char>> {
    match ignore {
        Some(i) => text::opt_text(i.profile),
        None => None,
    }
}

/// The resolution of an `[ignore]` section: all patterns in force.
pub open spec fn ignore_resolution(ignore: Option<IgnoreConfig>) -> Result<
    Seq<Seq<char>>,
    ErrorView,
> {
    let profile = profile_of(ignore);
    let all = extended(profile_patterns(profile), user_patterns(ignore));
    if profile is Some && profile->0 != "obsidian"@ && profile->0 != "none"@ {
        Err(
            ErrorView::Other(
                "ignore.profile: unknown profile "@ + text::debug_text(profile->0)
                    + " (allowed: \"obsidian\" | \"none\")"@,
            ),
        )
    } else {
        match ignore::first_pattern_error(all) {
            Some(e) => Err(e),
            None => Ok(all),
        }
    }
}

/// The strings of `base`, then those of `user` that are not there yet.
fn extend_patterns(base: Vec<String>, user: &Vec<String>) -> (r: Vec<String>)
    ensures
        text::texts(r@) == extended(text::texts(base@), text::texts(user@)),
{
    let ghost all = text::texts(user@);
    let ghost start = text::texts(base@);
    let mut out = base;
    let mut i: usize = 0;
    assert(all.take(0) =~= Seq::<Seq<char>>::empty());
    while i < user.len()
        invariant
            i <= user@.len(),
            all == text::texts(user@),
            text::texts(out@) == extended(start, all.take(i as int)),
        decreases user@.len() - i,
    {
        assert(all.take(i + 1).drop_last() =~= all.take(i as int));
        assert(all.take(i + 1).last() == user@[i as int]@);
        let ghost prev = text::texts(out@);
        if !text_among(&out, user[i].as_str()) {
            out.push(user[i].clone());
            assert(text::texts(out@) =~= prev.push(user@[i as int]@));
        }
        i = i + 1;
    }
    assert(all.take(i as int) =~= all);
    out
}

/// Resolve `[ignore]` into the user patterns and all patterns in force. The
/// built-in set is the default; user patterns extend it; unknown profiles and
/// invalid patterns are errors.
fn resolve_ignore(ignore: &Option<IgnoreConfig>) -> (r: Result<(Vec<String>, Vec<String>), Error>)
    ensures
        match r {
            Ok((user, all)) => text::texts(user@) == user_patterns(*ignore) && ignore_resolution(
                *ignore,
            ) == Ok::<Seq<Seq<char>>, ErrorView>(text::texts(all@)),
            Err(e) => ignore_resolution(*ignore) == Err::<Seq<Seq<char>>, ErrorView>(e@),
        },
{
    let mut user: Vec<String> = Vec::new();
    assert(text::texts(user@) =~= Seq::<Seq<char>>::empty());
    let mut built_in = true;
    if let Some(i) = ignore {
        user = clone_strings(&i.patterns);
        if let Some(p) = &i.profile {
            if same_text(p.as_str(), "none") {
                built_in = false;
            } else if !same_text(p.as_str(), "obsidian") {
                let d = debug_string(p.as_str());
                return Err(
                    Error::Other(
                        cat3(
                            "ignore.profile: unknown profile ",
                            d.as_str(),
                            " (allowed: \"obsidian\" | \"none\")",
                        ),
                    ),
                );
            }
        }
    }
    let base = if built_in {
        obsidian_default_ignore_patterns()
    } else {
        Vec::new()
    };
    assert(text::texts(base@) =~= profile_patterns(profile_of(*ignore)));
    let all = extend_patterns(base, &user);
    if let Err(e) = IgnoreSet::from_patterns(all.as_slice()) {
        return Err(e);
    }
    Ok((user, all))
}

/// The retry policy that a config asks for, before it is checked.
pub open spec fn wanted_retry(transfer: Option<TransferConfig>) -> RetrySettings {
    let r = match transfer {
        Some(t) => t.retry,
        None => None,
    };
    match r {
        None => default_retry(),
        Some(r) => RetrySettings {
            max_attempts: match r.max_attempts {
                Some(n) => n,
                None => DEFAULT_RETRY_MAX_ATTEMPTS,
            },
            base_delay_ms: match r.base_delay_ms {
                Some(n) => n,
                None => DEFAULT_RETRY_BASE_DELAY_MS,
            },
            max_delay_ms: match r.max_delay_ms {
                Some(n) => n,
                None => DEFAULT_RETRY_MAX_DELAY_MS,
            },
        },
    }
}

/// The resolution of `[transfer.retry]`.
pub open spec fn retry_resolution(transfer: Option<TransferConfig>) -> Result<
    RetrySettings,
    ErrorView,
> {
    let w = wanted_retry(transfer);
    if w.max_attempts == 0 {
        Err(
            ErrorView::Other(
                "transfer.retry.max_attempts must be >= 1 (1 disables retries), got 0"@,
            ),
        )
    } else if w.base_delay_ms == 0 {
        Err(
            ErrorView::Other(
                "transfer.retry.base_delay_ms must be >= 1 (the SDK requires a non-zero initial backoff), got 0"@,
            ),
        )
    } else if w.max_delay_ms == 0 {
        Err(
            ErrorView::Other(
                "transfer.retry.max_delay_ms must be >= 1 (the SDK requires a non-zero max backoff), got 0"@,
            ),
        )
    } else if w.base_delay_ms > w.max_delay_ms {
        Err(
            ErrorView::Other(
                "transfer.retry.base_delay_ms ("@ + text::dec(w.base_delay_ms as nat)
                    + ") must not exceed transfer.retry.max_delay_ms ("@ + text::dec(
                    w.max_delay_ms as nat,
                ) + ")"@,
            ),
        )
    } else {
        Ok(w)
    }
}

/// Resolve and validate `[transfer.retry]`; each absent field falls back to
/// its own default.
fn resolve_retry(transfer: &Option<TransferConfig>) -> (r: Result<RetrySettings, Error>)
    ensures
        match r {
            Ok(s) => retry_resolution(*transfer) == Ok::<RetrySettings, ErrorView>(s),
            Err(e) => retry_resolution(*transfer) == Err::<RetrySettings, ErrorView>(e@),
        },
{
    let mut w = RetrySettings::default();
    if let Some(t) = transfer {
        if let Some(r) = t.retry {
            if let Some(n) = r.max_attempts {
                w.max_attempts = n;
            }
            if let Some(n) = r.base_delay_ms {
                w.base_delay_ms = n;
            }
            if let Some(n) = r.max_delay_ms {
                w.max_delay_ms = n;
            }
        }
    }
    assert(w == wanted_retry(*transfer));
    if w.max_attempts == 0 {
        return Err(
            Error::Other(
                "transfer.retry.max_attempts must be >= 1 (1 disables retries), got 0".to_owned(),
            ),
        );
    }
    if w.base_delay_ms == 0 {
        return Err(
            Error::Other(
                "transfer.retry.base_delay_ms must be >= 1 (the SDK requires a non-zero initial backoff), got 0".to_owned(),
            ),
        );
    }
    if w.max_delay_ms == 0 {
        return Err(
            Error::Other(
                "transfer.retry.max_delay_ms must be >= 1 (the SDK requires a non-zero max backoff), got 0".to_owned(),
            ),
        );
    }
    if w.base_delay_ms > w.max_delay_ms {
        return Err(
            Error::Other(
                cat5(
                    "transfer.retry.base_delay_ms (",
                    decimal(w.base_delay_ms).as_str(),
                    ") must not exceed transfer.retry.max_delay_ms (",
                    decimal(w.max_delay_ms).as_str(),
                    ")",
                ),
            ),
        );
    }
    Ok(w)
}

/// The resolution of `[inventory].mode`.
pub open spec fn mode_resolution(inventory: Option<InventoryConfig>) -> Result<
    InventoryMode,
    ErrorView,
> {
    let mode = match inventory {
        Some(i) => text::opt_text(i.mode),
        None => None,
    };
    match mode {
        None => Ok(InventoryMode::Auto),
        Some(m) => if m == "auto"@ {
            Ok(InventoryMode::Auto)
        } else if m == "manifest"@ {
            Ok(InventoryMode::Manifest)
        } else if m == "list_head"@ {
            Ok(InventoryMode::ListHead)
        } else {
            Err(
                ErrorView::Other(
                    "inventory.mode: unknown mode "@ + text::debug_text(m)
                        + " (allowed: \"auto\" | \"manifest\" | \"list_head\")"@,
                ),
            )
        },
    }
}

/// Resolve `[inventory].mode`; `auto` is the default.
fn resolve_inventory_mode(inventory: &Option<InventoryConfig>) -> (r: Result<InventoryMode, Error>)
    ensures
        match r {
            Ok(m) => mode_resolution(*inventory) == Ok::<InventoryMode, ErrorView>(m),
            Err(e) => mode_resolution(*inventory) == Err::<InventoryMode, ErrorView>(e@),
        },
{
    if let Some(i) = inventory {
        if let Some(m) = &i.mode {
            if same_text(m.as_str(), "auto") {
                return Ok(InventoryMode::Auto);
            }
            if same_text(m.as_str(), "manifest") {
                return Ok(InventoryMode::Manifest);
            }
            if same_text(m.as_str(), "list_head") {
                return Ok(InventoryMode::ListHead);
            }
            let d = debug_string(m.as_str());
            return Err(
                Error::Other(
                    cat3(
                        "inventory.mode: unknown mode ",
                        d.as_str(),
                        " (allowed: \"auto\" | \"manifest\" | \"list_head\")",
                    ),
                ),
            );
        }
    }
    Ok(InventoryMode::Auto)
}

/// The resolution of `[inventory].bootstrap`.
pub open spec fn bootstrap_resolution(inventory: Option<InventoryConfig>) -> Result<
    InventoryBootstrap,
    ErrorView,
> {
    let bootstrap = match inventory {
        Some(i) => text::opt_text(i.bootstrap),
        None => None,
    };
    match bootstrap {
        None => Ok(InventoryBootstrap::PushEnsure),
        Some(b) => if b == "push-ensure"@ {
            Ok(InventoryBootstrap::PushEnsure)
        } else if b == "off"@ {
            Ok(InventoryBootstrap::Off)
        } else {
            Err(
                ErrorView::Other(
                    "inventory.bootstrap: unknown value "@ + text::debug_text(b)
                        + " (allowed: \"push-ensure\" | \"off\")"@,
                ),
            )
        },
    }
}

/// Resolve `[inventory].bootstrap`; `push-ensure` is the default.
fn resolve_inventory_bootstrap(inventory: &Option<InventoryConfig>) -> (r: Result<
    InventoryBootstrap,
    Error,
>)
    ensures
        match r {
            Ok(b) => bootstrap_resolution(*inventory) == Ok::<InventoryBootstrap, ErrorView>(b),
            Err(e) => bootstrap_resolution(*inventory) == Err::<InventoryBootstrap, ErrorView>(e@),
        },
{
    if let Some(i) = inventory {
        if let Some(b) = &i.bootstrap {
            if same_text(b.as_str(), "push-ensure") {
                return Ok(InventoryBootstrap::PushEnsure);
            }
            if same_text(b.as_str(), "off") {
                return Ok(InventoryBootstrap::Off);
            }
            let d = debug_string(b.as_str());
            return Err(
                Error::Other(
                    cat3(
                        "inventory.bootstrap: unknown value ",
                        d.as_str(),
                        " (allowed: \"push-ensure\" | \"off\")",
                    ),
                ),
            );
        }
    }
    Ok(InventoryBootstrap::PushEnsure)
}

/// The concurrency that a config asks for, before it is checked.
pub open spec fn wanted_concurrency(transfer: Option<TransferConfig>) -> u32 {
    match transfer {
        Some(t) => match t.concurrency {
            Some(n) => n,
            None => DEFAULT_CONCURRENCY,
        },
        None => DEFAULT_CONCURRENCY,
    }
}

/// What is wrong with a concurrency, if anything.
pub open spec fn concurrency_fault(n: u32) -> Option<ErrorView> {
    if n == 0 {
        Some(ErrorView::Other("transfer.concurrency must be >= 1 (1 = sequential), got 0"@))
    } else if n > MAX_CONCURRENCY {
        Some(
            ErrorView::Other(
                "transfer.concurrency must be <= 256 (got "@ + text::dec(n as nat)
                    + "); values above the cap are OS-thread cost for zero S3 throughput gain"@,
            ),
        )
    } else {
        None
    }
}

/// The resolution of a config in an environment.
pub open spec fn resolution(cfg: FileConfig, env: EnvSnapshot) -> Result<SettingsView, ErrorView> {
    let store = store_resolution(cfg.store, text::opt_text(env.aws_region));
    let concurrency = wanted_concurrency(cfg.transfer);
    let patterns = ignore_resolution(cfg.ignore);
    let retry = retry_resolution(cfg.transfer);
    let mode = mode_resolution(cfg.inventory);
    let bootstrap = bootstrap_resolution(cfg.inventory);
    if store is Err {
        Err(store->Err_0)
    } else if concurrency_fault(concurrency) is Some {
        Err(concurrency_fault(concurrency)->0)
    } else if patterns is Err {
        Err(patterns->Err_0)
    } else if retry is Err {
        Err(retry->Err_0)
    } else if mode is Err {
        Err(mode->Err_0)
    } else if bootstrap is Err {
        Err(bootstrap->Err_0)
    } else {
        Ok(
            SettingsView {
                vault_root: match cfg.vault_root {
                    Some(v) => v@,
                    None => "."@,
                },
                store: store->Ok_0,
                mtime_tolerance_ms: match cfg.transfer {
                    Some(t) => match t.mtime_tolerance_ms {
                        Some(n) => n,
                        None => DEFAULT_MTIME_TOLERANCE_MS,
                    },
                    None => DEFAULT_MTIME_TOLERANCE_MS,
                },
                concurrency,
                retry: retry->Ok_0,
                ignore_patterns: user_patterns(cfg.ignore),
                resolved_ignore_patterns: patterns->Ok_0,
                inventory_mode: mode->Ok_0,
                inventory_bootstrap: bootstrap->Ok_0,
            },
        )
    }
}

/// Merge config and environment into [`Settings`]. Pure.
pub fn resolve_settings(cfg: &FileConfig, env: &EnvSnapshot) -> (r: Result<Settings, Error>)
    ensures
        settings_result(r) == resolution(*cfg, *env),
{
    let vault_root = match &cfg.vault_root {
        Some(v) => v.clone(),
        None => ".".to_owned(),
    };
    let store = match resolve_store(&cfg.store, env) {
        Ok(s) => s,
        Err(e) => return Err(e),
    };
    let mut mtime_tolerance_ms: u64 = DEFAULT_MTIME_TOLERANCE_MS;
    let mut concurrency: u32 = DEFAULT_CONCURRENCY;
    if let Some(t) = &cfg.transfer {
        if let Some(n) = t.mtime_tolerance_ms {
            mtime_tolerance_ms = n;
        }
        if let Some(n) = t.concurrency {
            concurrency = n;
        }
    }
    if concurrency == 0 {
        return Err(
            Error::Other("transfer.concurrency must be >= 1 (1 = sequential), got 0".to_owned()),
        );
    }
    if concurrency > MAX_CONCURRENCY {
        return Err(
            Error::Other(
                cat3(
                    "transfer.concurrency must be <= 256 (got ",
                    decimal(concurrency as u64).as_str(),
                    "); values above the cap are OS-thread cost for zero S3 throughput gain",
                ),
            ),
        );
    }
    let (ignore_patterns, resolved_ignore_patterns) = match resolve_ignore(&cfg.ignore) {
        Ok(p) => p,
        Err(e) => return Err(e),
    };
    let retry = match resolve_retry(&cfg.transfer) {
        Ok(r) => r,
        Err(e) => return Err(e),
    };
    let inventory_mode = match resolve_inventory_mode(&cfg.inventory) {
        Ok(m) => m,
        Err(e) => return Err(e),
    };
    let inventory_bootstrap = match resolve_inventory_bootstrap(&cfg.inventory) {
        Ok(b) => b,
        Err(e) => return Err(e),
    };
    Ok(
        Settings {
            vault_root,
            store,
            mtime_tolerance_ms,
            concurrency,
            retry,
            ignore_patterns,
            resolved_ignore_patterns,
            inventory_mode,
            inventory_bootstrap,
        },
    )
}

/// Whether the result of resolving a config is sound: a store has a bucket and
/// a valid prefix, the knobs are in range, and the patterns are valid and
/// distinct.
pub open spec fn sound_settings(s: SettingsView) -> bool {
    &&& 1 <= s.concurrency <= MAX_CONCURRENCY
    &&& s.retry.max_attempts >= 1
    &&& 1 <= s.retry.base_delay_ms <= s.retry.max_delay_ms
    &&& s.store.prefix.len() > 0 ==> entity::valid_key(s.store.prefix) && text::ends_with_char(
        s.store.prefix,
        '/',
    )
    &&& ignore::first_pattern_error(s.resolved_ignore_patterns) is None
    &&& s.resolved_ignore_patterns.no_duplicates()
}

proof fn lemma_extended(base: Seq<Seq<char>>, user: Seq<Seq<char>>)
    requires
        base.no_duplicates(),
    ensures
        extended(base, user).no_duplicates(),
        extended(base, user).len() >= base.len(),
        extended(base, user).take(base.len() as int) == base,
        forall|k: Seq<char>| #[trigger]
            extended(base, user).contains(k) == (base.contains(k) || user.contains(k)),
    decreases user.len(),
{
    if user.len() == 0 {
        assert(base.take(base.len() as int) =~= base);
    } else {
        let u = user.drop_last();
        let x = user.last();
        lemma_extended(base, u);
        let init = extended(base, u);
        let all = extended(base, user);
        assert(all.take(base.len() as int) =~= base);
        assert forall|k: Seq<char>| #[trigger] all.contains(k) == (base.contains(k)
            || user.contains(k)) by {
            assert(init.contains(k) == (base.contains(k) || u.contains(k)));
            if u.contains(k) {
                let j = choose|j: int| 0 <= j < u.len() && u[j] == k;
                assert(user[j] == k);
            }
            if user.contains(k) {
                let j = choose|j: int| 0 <= j < user.len() && user[j] == k;
                if j < u.len() {
                    assert(u[j] == k);
                }
            }
            if init.contains(k) {
                let j = choose|j: int| 0 <= j < init.len() && init[j] == k;
                assert(all[j] == k);
            }
            if all.contains(k) {
                let j = choose|j: int| 0 <= j < all.len() && all[j] == k;
                if j < init.len() {
                    assert(init[j] == k);
                }
            }
            if k == x {
                assert(user[user.len() - 1] == k);
                if !init.contains(x) {
                    assert(all[all.len() - 1] == k);
                }
            }
        }
    }
}

proof fn lemma_obsidian_distinct()
    ensures
        obsidian_patterns().no_duplicates(),
{
    reveal_strlit(".git/");
    reveal_strlit(".trash/");
    reveal_strlit(".DS_Store");
    reveal_strlit(".obsidian/workspace");
    reveal_strlit(".obsidian/workspace.json");
    reveal_strlit(".obsidian/workspace-mobile.json");
    assert(".git/"@.len() == 5);
    assert(".trash/"@.len() == 7);
    assert(".DS_Store"@.len() == 9);
    assert(".obsidian/workspace"@.len() == 19);
    assert(".obsidian/workspace.json"@.len() == 24);
    assert(".obsidian/workspace-mobile.json"@.len() == 31);
}

/// What [`resolve_settings`] accepts is sound.
pub proof fn law_resolution_is_sound(cfg: FileConfig, env: EnvSnapshot)
    ensures
        resolution(cfg, env) matches Ok(s) ==> sound_settings(s),
{
    reveal_strlit("");
    lemma_obsidian_distinct();
    lemma_extended(profile_patterns(profile_of(cfg.ignore)), user_patterns(cfg.ignore));
}

/// User patterns extend the active profile, and never replace it: every
/// built-in and every user pattern is in force, the built-ins come first, and
/// nothing else is in force. The profile `none` has no built-ins.
pub proof fn law_patterns_extend_the_profile(cfg: FileConfig, env: EnvSnapshot)
    ensures
        resolution(cfg, env) matches Ok(s) ==> {
            let built_in = profile_patterns(profile_of(cfg.ignore));
            &&& s.resolved_ignore_patterns.take(built_in.len() as int) == built_in
            &&& forall|p: Seq<char>| #[trigger]
                s.resolved_ignore_patterns.contains(p) == (built_in.contains(p) || user_patterns(
                    cfg.ignore,
                ).contains(p))
        },
{
    lemma_obsidian_distinct();
    lemma_extended(profile_patterns(profile_of(cfg.ignore)), user_patterns(cfg.ignore));
}

/// Whether a text is empty or all white space.
pub open spec fn all_white(s: Seq<char>) -> bool {
    forall|i: int| 0 <= i < s.len() ==> text::is_whitespace(#[trigger] s[i])
}

/// Every value of a `[store]` section is in the settings. A blank region or
/// endpoint counts as none, a region in the environment comes before the
/// configured one, and a prefix ends with `/`. Without the section there is no
/// bucket, and nothing else is set.
pub proof fn law_store_settings_are_the_configured_ones(cfg: FileConfig, env: EnvSnapshot)
    requires
        resolution(cfg, env) is Ok,
    ensures
        ({
            let s = resolution(cfg, env)->Ok_0.store;
            match cfg.store {
                None => s.bucket.len() == 0 && s.region is None && s.endpoint is None
                    && s.prefix.len() == 0 && !s.path_style,
                Some(c) => {
                    &&& c.bucket is Some
                    &&& s.bucket == c.bucket->0@
                    &&& c.path_style matches Some(b) ==> s.path_style == b
                    &&& c.path_style is None ==> !s.path_style
                    &&& c.endpoint matches Some(e) ==> s.endpoint == if all_white(e@) {
                        None
                    } else {
                        Some(e@)
                    }
                    &&& c.endpoint is None ==> s.endpoint is None
                    &&& env.aws_region matches Some(r) ==> !all_white(r@) ==> s.region == Some(r@)
                    &&& (env.aws_region is None || all_white(env.aws_region->0@)) ==> (
                    c.region matches Some(r) ==> s.region == if all_white(r@) {
                        None
                    } else {
                        Some(r@)
                    })
                    &&& (env.aws_region is None || all_white(env.aws_region->0@))
                        && c.region is None ==> s.region is None
                    &&& c.prefix is None ==> s.prefix.len() == 0
                    &&& c.prefix matches Some(p) ==> p@.len() == 0 ==> s.prefix.len() == 0
                    &&& c.prefix matches Some(p) ==> p@.len() > 0 ==> s.prefix == if p@[p@.len()
                        - 1] == '/' {
                        p@
                    } else {
                        p@.push('/')
                    }
                },
            }
        }),
{
    reveal_strlit("");
}

/// Every value of the other sections is in the settings; what is not configured
/// has its default.
pub proof fn law_other_settings_are_the_configured_ones(cfg: FileConfig, env: EnvSnapshot)
    requires
        resolution(cfg, env) is Ok,
    ensures
        ({
            let s = resolution(cfg, env)->Ok_0;
            &&& cfg.vault_root matches Some(v) ==> s.vault_root == v@
            &&& cfg.vault_root is None ==> s.vault_root == "."@
            &&& cfg.transfer is None ==> s.mtime_tolerance_ms == 1000 && s.concurrency == 4
                && s.retry.max_attempts == 3 && s.retry.base_delay_ms == 1000
                && s.retry.max_delay_ms == 20000
            &&& cfg.transfer matches Some(t) ==> {
                &&& t.mtime_tolerance_ms matches Some(n) ==> s.mtime_tolerance_ms == n
                &&& t.mtime_tolerance_ms is None ==> s.mtime_tolerance_ms == 1000
                &&& t.concurrency matches Some(n) ==> s.concurrency == n
                &&& t.concurrency is None ==> s.concurrency == 4
                &&& t.retry is None ==> s.retry.max_attempts == 3 && s.retry.base_delay_ms == 1000
                    && s.retry.max_delay_ms == 20000
                &&& t.retry matches Some(r) ==> {
                    &&& r.max_attempts matches Some(n) ==> s.retry.max_attempts == n
                    &&& r.max_attempts is None ==> s.retry.max_attempts == 3
                    &&& r.base_delay_ms matches Some(n) ==> s.retry.base_delay_ms == n
                    &&& r.base_delay_ms is None ==> s.retry.base_delay_ms == 1000
                    &&& r.max_delay_ms matches Some(n) ==> s.retry.max_delay_ms == n
                    &&& r.max_delay_ms is None ==> s.retry.max_delay_ms == 20000
                }
            }
            &&& cfg.ignore matches Some(i) ==> s.ignore_patterns == text::texts(i.patterns@)
            &&& cfg.ignore is None ==> s.ignore_patterns.len() == 0
            &&& cfg.inventory is None ==> s.inventory_mode == InventoryMode::Auto
                && s.inventory_bootstrap == InventoryBootstrap::PushEnsure
            &&& cfg.inventory matches Some(i) ==> {
                &&& i.mode is None ==> s.inventory_mode == InventoryMode::Auto
                &&& i.mode matches Some(m) ==> m@ == match s.inventory_mode {
                    InventoryMode::Auto => "auto"@,
                    InventoryMode::Manifest => "manifest"@,
                    InventoryMode::ListHead => "list_head"@,
                }
                &&& i.bootstrap is None ==> s.inventory_bootstrap == InventoryBootstrap::PushEnsure
                &&& i.bootstrap matches Some(b) ==> b@ == match s.inventory_bootstrap {
                    InventoryBootstrap::PushEnsure => "push-ensure"@,
                    InventoryBootstrap::Off => "off"@,
                }
            }
        }),
{
}

/// The six patterns of the built-in profile.
pub open spec fn is_built_in(p: Seq<char>) -> bool {
    ||| p == ".git/"@
    ||| p == ".trash/"@
    ||| p == ".DS_Store"@
    ||| p == ".obsidian/workspace"@
    ||| p == ".obsidian/workspace.json"@
    ||| p == ".obsidian/workspace-mobile.json"@
}

/// In force are the patterns of the user and, unless the profile is `none`, the
/// six built-in ones; nothing else, and nothing twice.
pub proof fn law_patterns_in_force(cfg: FileConfig, env: EnvSnapshot, p: Seq<char>)
    requires
        resolution(cfg, env) is Ok,
    ensures
        ({
            let all = resolution(cfg, env)->Ok_0.resolved_ignore_patterns;
            let off = cfg.ignore matches Some(i) && i.profile matches Some(n) && n@ == "none"@;
            let of_user = cfg.ignore matches Some(i) && exists|j: int|
                0 <= j < i.patterns@.len() && (#[trigger] i.patterns@[j])@ == p;
            &&& all.contains(p) == (of_user || (!off && is_built_in(p)))
            &&& forall|j: int, k: int| 0 <= j < k < all.len() ==> all[j] != all[k]
        }),
{
    lemma_obsidian_distinct();
    let base = profile_patterns(profile_of(cfg.ignore));
    let user = user_patterns(cfg.ignore);
    lemma_extended(base, user);
    let o = obsidian_patterns();
    assert(o[0] == ".git/"@ && o[1] == ".trash/"@ && o[2] == ".DS_Store"@ && o[3]
        == ".obsidian/workspace"@ && o[4] == ".obsidian/workspace.json"@ && o[5]
        == ".obsidian/workspace-mobile.json"@);
    assert(o.contains(p) == is_built_in(p)) by {
        if is_built_in(p) {
            assert(p == o[0] || p == o[1] || p == o[2] || p == o[3] || p == o[4] || p == o[5]);
        }
    }
    if let Some(i) = cfg.ignore {
        if user.contains(p) {
            let j = choose|j: int| 0 <= j < user.len() && user[j] == p;
            assert(i.patterns@[j]@ == p);
        }
        if exists|j: int| 0 <= j < i.patterns@.len() && (#[trigger] i.patterns@[j])@ == p {
            let j = choose|j: int| 0 <= j < i.patterns@.len() && (#[trigger] i.patterns@[j])@ == p;
            assert(user[j] == p);
        }
    }
}

/// Whether a `[store]` section can be used: an S3 store with a bucket and, if
/// there is a prefix, one that is a valid folder key.
pub open spec fn usable_store(c: StoreConfig) -> bool {
    &&& c.store_type matches Some(t) ==> t@ == "s3"@
    &&& c.bucket is Some
    &&& !all_white(c.bucket->0@)
    &&& c.prefix matches Some(p) ==> p@.len() > 0 ==> entity::valid_key(
        if p@[p@.len() - 1] == '/' {
            p@
        } else {
            p@.push('/')
        },
    )
}

/// Whether the knobs of a `[transfer]` section are in range.
pub open spec fn usable_transfer(t: TransferConfig) -> bool {
    let attempts = match t.retry {
        Some(r) => r.max_attempts,
        None => None,
    };
    let base = match t.retry {
        Some(r) => r.base_delay_ms,
        None => None,
    };
    let most = match t.retry {
        Some(r) => r.max_delay_ms,
        None => None,
    };
    &&& t.concurrency matches Some(n) ==> 1 <= n <= 256
    &&& attempts matches Some(n) ==> n >= 1
    &&& base matches Some(n) ==> 1 <= n && n <= (match most {
        Some(m) => m,
        None => 20000,
    })
    &&& most matches Some(n) ==> 1 <= n && (base is None ==> 1000 <= n)
}

/// Whether an `[ignore]` section names a known profile and valid patterns.
pub open spec fn usable_ignore(i: IgnoreConfig) -> bool {
    &&& i.profile matches Some(p) ==> p@ == "obsidian"@ || p@ == "none"@
    &&& forall|j: int|
        0 <= j < i.patterns@.len() ==> ignore::pattern_fault((#[trigger] i.patterns@[j])@) is None
}

/// Whether an `[inventory]` section names a known mode and bootstrap.
pub open spec fn usable_inventory(i: InventoryConfig) -> bool {
    &&& i.mode matches Some(m) ==> m@ == "auto"@ || m@ == "manifest"@ || m@ == "list_head"@
    &&& i.bootstrap matches Some(b) ==> b@ == "push-ensure"@ || b@ == "off"@
}

/// A config is accepted if and only if each of its sections can be used.
pub proof fn law_usable_configs_are_accepted(cfg: FileConfig, env: EnvSnapshot)
    ensures
        resolution(cfg, env) is Ok <==> {
            &&& cfg.store matches Some(c) ==> usable_store(c)
            &&& cfg.transfer matches Some(t) ==> usable_transfer(t)
            &&& cfg.ignore matches Some(i) ==> usable_ignore(i)
            &&& cfg.inventory matches Some(i) ==> usable_inventory(i)
        },
{
    reveal_strlit("");
    lemma_store_accepted(cfg, env);
    lemma_retry_accepted(cfg);
    lemma_ignore_accepted(cfg);
}

proof fn lemma_store_accepted(cfg: FileConfig, env: EnvSnapshot)
    ensures
        store_resolution(cfg.store, text::opt_text(env.aws_region)) is Ok <==> (
        cfg.store matches Some(c) ==> usable_store(c)),
{
    reveal_strlit("");
}

proof fn lemma_retry_accepted(cfg: FileConfig)
    ensures
        (retry_resolution(cfg.transfer) is Ok && concurrency_fault(
            wanted_concurrency(cfg.transfer),
        ) is None) <==> (cfg.transfer matches Some(t) ==> usable_transfer(t)),
{
}

proof fn lemma_ignore_accepted(cfg: FileConfig)
    ensures
        ignore_resolution(cfg.ignore) is Ok <==> (cfg.ignore matches Some(i) ==> usable_ignore(i)),
{
    let profile = profile_of(cfg.ignore);
    let base = profile_patterns(profile);
    let user = user_patterns(cfg.ignore);
    let all = extended(base, user);
    lemma_obsidian_distinct();
    lemma_extended(base, user);
    ignore::law_patterns_are_checked_one_by_one(all);
    assert forall|p: Seq<char>| #[trigger] base.contains(p) implies ignore::pattern_fault(
        p,
    ) is None by {
        let j = choose|j: int| 0 <= j < base.len() && base[j] == p;
        lemma_built_in_accepted(j);
    }
    if let Some(i) = cfg.ignore {
        if usable_ignore(i) {
            assert forall|j: int| 0 <= j < all.len() implies ignore::pattern_fault(
                #[trigger] all[j],
            ) is None by {
                assert(all.contains(all[j]));
                if !base.contains(all[j]) {
                    let k = choose|k: int| 0 <= k < user.len() && user[k] == all[j];
                    assert(i.patterns@[k]@ == all[j]);
                }
            }
        }
        if ignore::first_pattern_error(all) is None {
            assert forall|j: int| 0 <= j < i.patterns@.len() implies ignore::pattern_fault(
                (#[trigger] i.patterns@[j])@,
            ) is None by {
                assert(user[j] == i.patterns@[j]@);
                assert(user.contains(user[j]));
                assert(all.contains(user[j]));
                let k = choose|k: int| 0 <= k < all.len() && all[k] == user[j];
                assert(ignore::pattern_fault(all[k]) is None);
            }
        }
    } else {
        assert forall|j: int| 0 <= j < all.len() implies ignore::pattern_fault(
            #[trigger] all[j],
        ) is None by {
            assert(all.contains(all[j]));
        }
    }
}

proof fn lemma_built_in_accepted(j: int)
    requires
        0 <= j < 6,
    ensures
        ignore::pattern_fault(obsidian_patterns()[j]) is None,
{
    let p = obsidian_patterns()[j];
    reveal_strlit(".git/");
    reveal_strlit(".trash/");
    reveal_strlit(".DS_Store");
    reveal_strlit(".obsidian/workspace");
    reveal_strlit(".obsidian/workspace.json");
    reveal_strlit(".obsidian/workspace-mobile.json");
    ignore::law_accepted_patterns(p);
}

/// The places that a config file is looked for in: the working directory first,
/// then the home directory, if there is one.
pub proof fn law_search_paths(cwd: &str, home: Option<&str>, r: Vec<String>)
    requires
        call_ensures(default_search_paths, (cwd, home), r),
    ensures
        r@.len() == if home is Some {
            2int
        } else {
            1
        },
        cwd@.len() > 0 && cwd@[cwd@.len() - 1] != '/' ==> r@[0]@ == cwd@ + "/.vaultsync.toml"@,
        home is Some && home->0@.len() > 0 && home->0@[home->0@.len() - 1] != '/' ==> r@[1]@
            == home->0@ + "/.config/vaultsync/config.toml"@,
{
    let t = text::texts(r@);
    reveal_strlit(".vaultsync.toml");
    reveal_strlit("/.vaultsync.toml");
    reveal_strlit(".config/vaultsync/config.toml");
    reveal_strlit("/.config/vaultsync/config.toml");
    assert(t.len() == r@.len());
    assert(t[0] == r@[0]@);
    assert(cwd@.push('/') + ".vaultsync.toml"@ =~= cwd@ + "/.vaultsync.toml"@);
    if let Some(h) = home {
        assert(t[1] == r@[1]@);
        assert(h@.push('/') + ".config/vaultsync/config.toml"@ =~= h@
            + "/.config/vaultsync/config.toml"@);
    }
}

/// The settings of a store hold what was configured: the bucket, the endpoint and
/// the path style as they stand.
pub proof fn law_resolved_settings_hold_the_store(
    cfg: &FileConfig,
    env: &EnvSnapshot,
    r: Result<Settings, Error>,
    c: StoreConfig,
)
    requires
        call_ensures(resolve_settings, (cfg, env), r),
        r is Ok,
        cfg.store == Some(c),
    ensures
        c.bucket is Some,
        r->Ok_0.store.bucket@ == c.bucket->0@,
        c.path_style is Some ==> r->Ok_0.store.path_style == c.path_style->0,
        c.path_style is None ==> !r->Ok_0.store.path_style,
        c.endpoint is Some && !all_white(c.endpoint->0@) ==> r->Ok_0.store.endpoint is Some
            && r->Ok_0.store.endpoint->0@ == c.endpoint->0@,
        c.endpoint is None || all_white(c.endpoint->0@) ==> r->Ok_0.store.endpoint is None,
        env.aws_region is Some && !all_white(env.aws_region->0@) ==> r->Ok_0.store.region is Some
            && r->Ok_0.store.region->0@ == env.aws_region->0@,
{
    law_store_settings_are_the_configured_ones(*cfg, *env);
    assert(settings_result(r) is Ok);
    assert(settings_result(r)->Ok_0 == r->Ok_0@);
    assert(r->Ok_0@.store == r->Ok_0.store@);
}

} // verus!
