//! Inventory facade: the single reader of the remote file set for plan build
//! (warm manifest or live list+head) and the only writer of the remote
//! manifest (commit, bootstrap and repair).
//!
//! The local cache of the manifest is optional and derived: it comes in as a
//! [`CacheSnapshot`], and what is to become of it goes out as a
//! [`CacheUpdate`]. It is never authority.

use vstd::prelude::*;
use crate::config::InventoryMode;
use crate::entity;
use crate::entity::{clone_opt_string, Entity, EntityView};
use crate::error::{Error, ErrorView};
use crate::local;
use crate::local::{join_path, MANIFEST_KEY};
use crate::manifest;
use crate::manifest::{
    clone_entities, file_entities_to_manifest, manifest_to_file_entities, parse_manifest_bytes,
    serialize_manifest, sort_entities, synthesize_folders, ManifestV1, ManifestView,
    MANIFEST_MAX_BYTES,
};
use crate::store;
use crate::store::mock;
use crate::store::mock::body_fingerprint;
use crate::store::{
    GetOpts, GetOutcome, GetOutcomeView, ListingView, ObjectStore, PutOpts, PutOptsView, Session,
    StoreEvent,
};
use crate::text;
use crate::text::{cat2, cat3, decimal, same_text, text_before};
use crate::{partition_reserved_remote_keys, reserved_drops_warning};

verus! {

broadcast use crate::store::group_runs;

/// Where the remote file set came from.
#[derive(Debug, PartialEq, Eq)]
pub enum InventorySource {
    /// A valid remote manifest was parsed and used as the planning authority.
    /// `remote_etag` is the manifest object's etag.
    Manifest { remote_etag: Option<String> },
    /// Live list+head: the manifest was absent, corrupt, or the mode forced it.
    LiveListHead,
}

/// The planning base that a commit needs: the full remote file set (before
/// ignoring, without reserved keys) plus source metadata.
#[derive(Debug)]
pub struct InventoryBase {
    pub source: InventorySource,
    /// Full remote file entities (no folder views).
    pub file_entities: Vec<Entity>,
    /// Etag of the manifest object when the source was the manifest.
    pub manifest_etag: Option<String>,
}

/// A loaded remote inventory in planner input shape.
#[derive(Debug)]
pub struct RemoteInventory {
    /// Files and folder views.
    pub entities: Vec<Entity>,
    /// The base snapshot for a later manifest commit.
    pub base: InventoryBase,
    /// Advisory warnings (store listing drops, reserved leftovers).
    pub warnings: Vec<String>,
}

/// The mathematical view of an [`InventorySource`].
pub enum SourceView {
    Manifest { remote_etag: Option<Seq<char>> },
    LiveListHead,
}

/// The mathematical view of an [`InventoryBase`].
pub struct BaseView {
    pub source: SourceView,
    pub file_entities: Seq<EntityView>,
    pub manifest_etag: Option<Seq<char>>,
}

/// The mathematical view of a [`RemoteInventory`].
pub struct RemoteView {
    pub entities: Seq<EntityView>,
    pub base: BaseView,
    pub warnings: Seq<Seq<char>>,
}

impl View for InventorySource {
    type V = SourceView;

    open spec fn view(&self) -> SourceView {
        match *self {
            InventorySource::Manifest { remote_etag } => SourceView::Manifest {
                remote_etag: text::opt_text(remote_etag),
            },
            InventorySource::LiveListHead => SourceView::LiveListHead,
        }
    }
}

impl View for InventoryBase {
    type V = BaseView;

    open spec fn view(&self) -> BaseView {
        BaseView {
            source: self.source@,
            file_entities: entity::entities(self.file_entities@),
            manifest_etag: text::opt_text(self.manifest_etag),
        }
    }
}

impl View for RemoteInventory {
    type V = RemoteView;

    open spec fn view(&self) -> RemoteView {
        RemoteView {
            entities: entity::entities(self.entities@),
            base: self.base@,
            warnings: text::texts(self.warnings@),
        }
    }
}

/// The view of a load result.
pub open spec fn remote_result(r: Result<RemoteInventory, Error>) -> Result<
    RemoteView,
    ErrorView,
> {
    match r {
        Ok(inv) => Ok(inv@),
        Err(e) => Err(e@),
    }
}

/// Local cache paths of the manifest mirror.
#[derive(Debug)]
pub struct CachePaths {
    pub body: String,
    pub meta: String,
}

impl CachePaths {
    /// The cache files under `<vault_root>/.vaultsync/cache/`.
    pub fn new(vault_root: &str) -> (r: Self)
        ensures
            r.body@ == local::joined(
                local::joined(vault_root@, ".vaultsync/cache"@),
                "manifest-v1.json"@,
            ),
            r.meta@ == local::joined(
                local::joined(vault_root@, ".vaultsync/cache"@),
                "manifest-v1.meta.json"@,
            ),
    {
        let dir = join_path(vault_root, ".vaultsync/cache");
        CachePaths {
            body: join_path(dir.as_str(), "manifest-v1.json"),
            meta: join_path(dir.as_str(), "manifest-v1.meta.json"),
        }
    }
}

/// Cache metadata: the remote etag the cached body was fetched under (used for
/// the conditional get), when it was fetched, the source key, and the body's
/// fingerprint, which proves that a cached body belongs with its meta.
#[derive(Debug, PartialEq)]
pub struct CacheMeta {
    pub remote_etag: Option<String>,
    pub fetched_at_ms: u64,
    pub source_key: String,
    /// FNV-1a 64-bit of the cached body bytes, hex (16 chars).
    pub body_fnv: String,
}

/// The mathematical view of a [`CacheMeta`].
pub struct CacheMetaView {
    pub remote_etag: Option<Seq<char>>,
    pub fetched_at_ms: u64,
    pub source_key: Seq<char>,
    pub body_fnv: Seq<char>,
}

impl View for CacheMeta {
    type V = CacheMetaView;

    open spec fn view(&self) -> CacheMetaView {
        CacheMetaView {
            remote_etag: text::opt_text(self.remote_etag),
            fetched_at_ms: self.fetched_at_ms,
            source_key: self.source_key@,
            body_fnv: self.body_fnv@,
        }
    }
}

/// What the cache files hold: the meta when it is readable and well-formed,
/// and the body when it is readable.
#[derive(Debug)]
pub struct CacheSnapshot {
    pub meta: Option<CacheMeta>,
    pub body: Option<Vec<u8>>,
}

/// The mathematical view of a [`CacheSnapshot`].
pub struct CacheView {
    pub meta: Option<CacheMetaView>,
    pub body: Option<Seq<u8>>,
}

impl View for CacheSnapshot {
    type V = CacheView;

    open spec fn view(&self) -> CacheView {
        CacheView {
            meta: match self.meta {
                Some(m) => Some(m@),
                None => None,
            },
            body: match self.body {
                Some(b) => Some(b@),
                None => None,
            },
        }
    }
}

/// The view of an optional snapshot.
pub open spec fn opt_cache(o: Option<&CacheSnapshot>) -> Option<CacheView> {
    match o {
        Some(c) => Some(c@),
        None => None,
    }
}

/// What is to become of the cache files.
#[derive(Debug)]
pub enum CacheUpdate {
    /// Leave them as they are.
    Keep,
    /// Remove both.
    Invalidate,
    /// Write both.
    Fill { body: Vec<u8>, meta: CacheMeta },
}

/// The mathematical view of a [`CacheUpdate`].
pub enum CacheUpdateView {
    Keep,
    Invalidate,
    Fill { body: Seq<u8>, meta: CacheMetaView },
}

impl View for CacheUpdate {
    type V = CacheUpdateView;

    open spec fn view(&self) -> CacheUpdateView {
        match *self {
            CacheUpdate::Keep => CacheUpdateView::Keep,
            CacheUpdate::Invalidate => CacheUpdateView::Invalidate,
            CacheUpdate::Fill { body, meta } => CacheUpdateView::Fill { body: body@, meta: meta@ },
        }
    }
}

/// The update that mirrors a body known under an etag.
pub open spec fn filled(body: Seq<u8>, etag: Option<Seq<char>>, now_ms: u64) -> CacheUpdateView {
    CacheUpdateView::Fill {
        body,
        meta: CacheMetaView {
            remote_etag: etag,
            fetched_at_ms: now_ms,
            source_key: MANIFEST_KEY@,
            body_fnv: mock::fingerprint(body),
        },
    }
}

/// The update that mirrors a body known under an etag.
fn fill_cache(body: Vec<u8>, remote_etag: Option<String>, now_ms: u64) -> (r: CacheUpdate)
    ensures
        r@ == filled(body@, text::opt_text(remote_etag), now_ms),
{
    let body_fnv = body_fingerprint(body.as_slice());
    CacheUpdate::Fill {
        body,
        meta: CacheMeta {
            remote_etag,
            fetched_at_ms: now_ms,
            source_key: MANIFEST_KEY.to_owned(),
            body_fnv,
        },
    }
}

/// Inventory knobs: the resolved mode and the vault root (`Some` enables the
/// local cache).
#[derive(Debug)]
pub struct InventoryOpts {
    pub mode: InventoryMode,
    pub vault_root: Option<String>,
}

impl InventoryOpts {
    /// Always live list+head, no cache.
    pub fn list_head() -> (r: Self)
        ensures
            r.mode == InventoryMode::ListHead,
            r.vault_root is None,
    {
        InventoryOpts { mode: InventoryMode::ListHead, vault_root: None }
    }
}

impl Default for InventoryOpts {
    /// `auto`, no cache.
    fn default() -> (r: Self)
        ensures
            r.mode == InventoryMode::Auto,
            r.vault_root is None,
    {
        InventoryOpts { mode: InventoryMode::Auto, vault_root: None }
    }
}

/// The predicate "has a key": the exact-prefix folder marker has none.
pub open spec fn keyed() -> spec_fn(EntityView) -> bool {
    |e: EntityView| e.key.len() > 0
}

/// The predicate "is a file".
pub open spec fn is_file() -> spec_fn(EntityView) -> bool {
    |e: EntityView| !e.folder()
}

/// The inventory that a listing gives: without empty and reserved keys.
pub open spec fn cold_inventory(l: ListingView) -> RemoteView {
    let named = crate::select(l.entities, keyed());
    let kept = crate::select(named, crate::unreserved());
    let dropped = crate::select(named, crate::reserved());
    RemoteView {
        entities: kept,
        base: BaseView {
            source: SourceView::LiveListHead,
            file_entities: crate::select(kept, is_file()),
            manifest_etag: None,
        },
        warnings: if dropped.len() > 0 {
            l.warnings.push(crate::drops_warning(dropped))
        } else {
            l.warnings
        },
    }
}

/// What a cold load returns for the answer to its one request.
pub open spec fn cold_result(reply: Result<ListingView, ErrorView>) -> Result<
    RemoteView,
    ErrorView,
> {
    match reply {
        Ok(l) => Ok(cold_inventory(l)),
        Err(e) => Err(e),
    }
}

/// Whether an event lists the whole store.
pub open spec fn lists_all(e: StoreEvent) -> bool {
    e matches StoreEvent::List { prefix, reply } && prefix == ""@
}

/// The answer to a list request.
pub open spec fn list_reply(e: StoreEvent) -> Result<ListingView, ErrorView> {
    match e {
        StoreEvent::List { prefix, reply } => reply,
        _ => Err(ErrorView::Other(""@)),
    }
}

/// The entities with a key.
pub fn drop_unnamed(v: &Vec<Entity>) -> (r: Vec<Entity>)
    ensures
        entity::entities(r@) == crate::select(entity::entities(v@), keyed()),
{
    let ghost all = entity::entities(v@);
    let mut out: Vec<Entity> = Vec::new();
    let mut i: usize = 0;
    assert(entity::entities(out@) =~= all.take(0));
    while i < v.len()
        invariant
            i <= v@.len(),
            all == entity::entities(v@),
            entity::entities(out@) == crate::select(all.take(i as int), keyed()),
        decreases v@.len() - i,
    {
        assert(all.take(i + 1).drop_last() =~= all.take(i as int));
        assert(all.take(i + 1).last() == v@[i as int]@);
        let ghost prev = entity::entities(out@);
        if !v[i].key.as_str().is_empty() {
            out.push(v[i].clone());
            assert(entity::entities(out@) =~= prev.push(v@[i as int]@));
        }
        i = i + 1;
    }
    assert(all.take(i as int) =~= all);
    out
}

/// The entities that are files.
fn only_files(v: &Vec<Entity>) -> (r: Vec<Entity>)
    ensures
        entity::entities(r@) == crate::select(entity::entities(v@), is_file()),
{
    let ghost all = entity::entities(v@);
    let mut out: Vec<Entity> = Vec::new();
    let mut i: usize = 0;
    assert(entity::entities(out@) =~= all.take(0));
    while i < v.len()
        invariant
            i <= v@.len(),
            all == entity::entities(v@),
            entity::entities(out@) == crate::select(all.take(i as int), is_file()),
        decreases v@.len() - i,
    {
        assert(all.take(i + 1).drop_last() =~= all.take(i as int));
        assert(all.take(i + 1).last() == v@[i as int]@);
        let ghost prev = entity::entities(out@);
        if !v[i].is_folder() {
            out.push(v[i].clone());
            assert(entity::entities(out@) =~= prev.push(v@[i as int]@));
        }
        i = i + 1;
    }
    assert(all.take(i as int) =~= all);
    out
}

/// The cold path: one listing of the whole store, with the empty-key drop and
/// the reserved partition. Folder views stay in `entities`; `file_entities`
/// carries files only. An error of the listing fails the load.
pub fn live_list_head<S: ObjectStore>(store: &mut Session<S>) -> (r: Result<RemoteInventory, Error>)
    ensures
        store::runs(*old(store), *final(store)),
        final(store).trace().len() == old(store).trace().len() + 1,
        final(store).trace().drop_last() == old(store).trace(),
        lists_all(final(store).trace().last()),
        remote_result(r) == cold_result(list_reply(final(store).trace().last())),
{
    let ghost start = store.trace();
    let listing = store.list("");
    assert(store.trace().drop_last() =~= start);
    match listing {
        Ok(l) => {
            let named = drop_unnamed(&l.entities);
            let (kept, dropped) = partition_reserved_remote_keys(named);
            let mut warnings = l.warnings;
            let ghost w = text::texts(warnings@);
            if dropped.len() > 0 {
                warnings.push(reserved_drops_warning(dropped.as_slice()));
                assert(text::texts(warnings@) =~= w.push(
                    crate::drops_warning(entity::entities(dropped@)),
                ));
            }
            let file_entities = only_files(&kept);
            Ok(
                RemoteInventory {
                    entities: kept,
                    base: InventoryBase {
                        source: InventorySource::LiveListHead,
                        file_entities,
                        manifest_etag: None,
                    },
                    warnings,
                },
            )
        },
        Err(e) => Err(e),
    }
}

/// The inventory that a manifest gives.
pub open spec fn warm_inventory(m: ManifestView, etag: Option<Seq<char>>) -> RemoteView {
    let files = manifest::by_key(m.entries);
    RemoteView {
        entities: manifest::by_key(files + manifest::folder_views(files)),
        base: BaseView {
            source: SourceView::Manifest { remote_etag: etag },
            file_entities: files,
            manifest_etag: etag,
        },
        warnings: Seq::<Seq<char>>::empty(),
    }
}

/// Build the planner-input inventory from a parsed manifest.
fn manifest_inventory(m: &ManifestV1, remote_etag: Option<String>) -> (r: Result<
    RemoteInventory,
    Error,
>)
    ensures
        remote_result(r) == Ok::<RemoteView, ErrorView>(
            warm_inventory(m@, text::opt_text(remote_etag)),
        ),
{
    let file_entities = match manifest_to_file_entities(m) {
        Ok(v) => v,
        Err(e) => return Err(e),
    };
    let mut folders = synthesize_folders(file_entities.as_slice());
    let ghost d = entity::entities(folders@);
    let mut all = clone_entities(file_entities.as_slice());
    let ghost f = entity::entities(all@);
    all.append(&mut folders);
    assert(entity::entities(all@) =~= f + d);
    let entities = sort_entities(all);
    let warnings: Vec<String> = Vec::new();
    assert(text::texts(warnings@) =~= Seq::<Seq<char>>::empty());
    Ok(
        RemoteInventory {
            base: InventoryBase {
                source: InventorySource::Manifest { remote_etag: clone_opt_string(&remote_etag) },
                file_entities,
                manifest_etag: remote_etag,
            },
            entities,
            warnings,
        },
    )
}

/// Result of a warm manifest fetch attempt: absent, present but above the cap
/// (with a message), or fetched.
#[derive(Debug)]
pub enum WarmFetch {
    Absent,
    OverCap(String),
    Body(Entity, Vec<u8>),
}

/// The mathematical view of a [`WarmFetch`].
pub enum FetchView {
    Absent,
    OverCap(Seq<char>),
    Body(EntityView, Seq<u8>),
}

/// The view of a fetch result.
pub open spec fn fetch_result(r: Result<WarmFetch, Error>) -> Result<FetchView, ErrorView> {
    match r {
        Ok(WarmFetch::Absent) => Ok(FetchView::Absent),
        Ok(WarmFetch::OverCap(m)) => Ok(FetchView::OverCap(m@)),
        Ok(WarmFetch::Body(e, b)) => Ok(FetchView::Body(e@, b@)),
        Err(e) => Err(e@),
    }
}

/// Whether an event asks for the metadata of the manifest.
pub open spec fn heads_manifest(e: StoreEvent) -> bool {
    e matches StoreEvent::Head { key, reply } && key == MANIFEST_KEY@
}

/// The answer to a head request.
pub open spec fn head_reply(e: StoreEvent) -> Result<EntityView, ErrorView> {
    match e {
        StoreEvent::Head { key, reply } => reply,
        _ => Err(ErrorView::Other(""@)),
    }
}

/// Whether an event gets the manifest through a writer with the given cap.
pub open spec fn gets_manifest(e: StoreEvent, with_cap: u64) -> bool {
    e matches StoreEvent::Get { key, cap, reply, body, tripped } && key == MANIFEST_KEY@ && cap
        == with_cap
}

/// The requests of a warm fetch: head first, and get only what the head says
/// is there and within the cap.
pub open spec fn fetch_requests(t: Seq<StoreEvent>, cap: u64) -> bool {
    &&& t.len() >= 1
    &&& heads_manifest(t[0])
    &&& match head_reply(t[0]) {
        Ok(h) => if h.size > cap {
            t.len() == 1
        } else {
            t.len() == 2 && gets_manifest(t[1], cap)
        },
        Err(_) => t.len() == 1,
    }
}

/// What a warm fetch returns for the answers to its requests.
pub open spec fn fetched(t: Seq<StoreEvent>, cap: u64) -> Result<FetchView, ErrorView> {
    match head_reply(t[0]) {
        Err(ErrorView::NotFound(_)) => Ok(FetchView::Absent),
        Err(e) => Err(e),
        Ok(h) => if h.size > cap {
            Ok(
                FetchView::OverCap(
                    "manifest object is "@ + text::dec(h.size as nat) + " bytes, above the "@
                        + text::dec(cap as nat)
                        + " byte soft cap; refusing to download (run vaultsync repair to rebuild it)"@,
                ),
            )
        } else {
            match t[1] {
                StoreEvent::Get { key, cap: _, reply, body, tripped } => match reply {
                    Ok(e) => Ok(FetchView::Body(e, body)),
                    Err(ErrorView::NotFound(_)) => Ok(FetchView::Absent),
                    Err(e) => if tripped {
                        Ok(
                            FetchView::OverCap(
                                "manifest body exceeded the "@ + text::dec(cap as nat)
                                    + " byte soft cap while streaming; refusing to use it (run vaultsync repair to rebuild it)"@,
                            ),
                        )
                    } else {
                        Err(e)
                    },
                },
                _ => Err(ErrorView::Other(""@)),
            }
        },
    }
}

/// Warm manifest fetch: head first - refuse when the reported size already
/// exceeds `cap` (zero body bytes) - then get through a capped writer, so that
/// a lying or changing object cannot force an unbounded buffer.
pub fn head_then_get_manifest<S: ObjectStore>(store: &mut Session<S>, cap: u64) -> (r: Result<
    WarmFetch,
    Error,
>)
    ensures
        store::runs(*old(store), *final(store)),
        store::extends(final(store).trace(), old(store).trace()),
        fetch_requests(store::since(final(store).trace(), old(store).trace()), cap),
        fetch_result(r) == fetched(store::since(final(store).trace(), old(store).trace()), cap),
{
    let ghost start = store.trace();
    let head = store.head(MANIFEST_KEY);
    proof {
        assert(store::since(store.trace(), start) =~= seq![store.trace().last()]);
        assert(store.trace().take(start.len() as int) =~= start);
    }
    let h = match head {
        Ok(h) => h,
        Err(Error::NotFound(_)) => return Ok(WarmFetch::Absent),
        Err(e) => return Err(e),
    };
    if h.size > cap {
        let mut m = "manifest object is ".to_owned();
        m.append(decimal(h.size).as_str());
        m.append(" bytes, above the ");
        m.append(decimal(cap).as_str());
        m.append(" byte soft cap; refusing to download (run vaultsync repair to rebuild it)");
        return Ok(WarmFetch::OverCap(m));
    }
    let ghost first = store.trace().last();
    let (reply, writer) = store.get_to(MANIFEST_KEY, cap);
    proof {
        assert(store::since(store.trace(), start) =~= seq![first, store.trace().last()]);
        assert(store.trace().take(start.len() as int) =~= start);
    }
    match reply {
        Ok(e) => Ok(WarmFetch::Body(e, writer.into_bytes())),
        Err(Error::NotFound(_)) => Ok(WarmFetch::Absent),
        Err(e) => {
            if writer.is_tripped() {
                Ok(
                    WarmFetch::OverCap(
                        cat3(
                            "manifest body exceeded the ",
                            decimal(cap).as_str(),
                            " byte soft cap while streaming; refusing to use it (run vaultsync repair to rebuild it)",
                        ),
                    ),
                )
            } else {
                Err(e)
            }
        },
    }
}

/// Outcome of a warm manifest attempt: a valid manifest, no object, or an
/// object that is not usable (with the detail).
enum ManifestWarm {
    Loaded(RemoteInventory),
    Missing,
    Invalid(String),
}

/// The mathematical view of a warm attempt's outcome.
pub enum WarmView {
    Loaded(RemoteView),
    Missing,
    Invalid(Seq<char>),
}

spec fn warm_reply(r: Result<ManifestWarm, Error>) -> Result<WarmView, ErrorView> {
    match r {
        Ok(ManifestWarm::Loaded(inv)) => Ok(WarmView::Loaded(inv@)),
        Ok(ManifestWarm::Missing) => Ok(WarmView::Missing),
        Ok(ManifestWarm::Invalid(m)) => Ok(WarmView::Invalid(m@)),
        Err(e) => Err(e@),
    }
}

/// The body that an event brought to be parsed, if it did.
pub open spec fn served(e: StoreEvent) -> Option<Seq<u8>> {
    match e {
        StoreEvent::Get { reply, body, tripped, .. } => if reply is Ok && !tripped {
            Some(body)
        } else {
            None
        },
        StoreEvent::GetWith { reply, body, tripped, .. } => match reply {
            Ok(GetOutcomeView::Body(_)) => if tripped {
                None
            } else {
                Some(body)
            },
            _ => None,
        },
        _ => None,
    }
}

/// Whether every body that was brought is read back as the manifest it was
/// written for.
pub open spec fn bodies_read_back(t: Seq<StoreEvent>) -> bool {
    forall|i: int|
        0 <= i < t.len() ==> (served(#[trigger] t[i]) matches Some(b) ==> manifest::reads_back(b))
}

/// What a fetched body gives.
pub open spec fn warm_of_body(body: Seq<u8>, etag: Option<Seq<char>>) -> Result<
    WarmView,
    ErrorView,
> {
    match manifest::parsed(body, MANIFEST_MAX_BYTES) {
        Ok(m) => Ok(WarmView::Loaded(warm_inventory(m, etag))),
        Err(e) => Ok(WarmView::Invalid(e.text())),
    }
}

/// What a fetch gives.
pub open spec fn fresh_warm(f: Result<FetchView, ErrorView>) -> Result<WarmView, ErrorView> {
    match f {
        Ok(FetchView::Body(e, b)) => warm_of_body(b, e.etag),
        Ok(FetchView::Absent) => Ok(WarmView::Missing),
        Ok(FetchView::OverCap(m)) => Ok(WarmView::Invalid(m)),
        Err(e) => Err(e),
    }
}

/// What a fetch means for the cache, if it was to become `before` otherwise.
pub open spec fn fresh_update(
    f: Result<FetchView, ErrorView>,
    before: CacheUpdateView,
    now_ms: u64,
) -> CacheUpdateView {
    match f {
        Ok(FetchView::Body(e, b)) => body_update(b, e.etag, now_ms),
        Ok(_) => CacheUpdateView::Invalidate,
        Err(_) => before,
    }
}

/// What a fetched body means for the cache.
pub open spec fn body_update(body: Seq<u8>, etag: Option<Seq<char>>, now_ms: u64) -> CacheUpdateView {
    if manifest::parsed(body, MANIFEST_MAX_BYTES) is Ok {
        filled(body, etag, now_ms)
    } else {
        CacheUpdateView::Invalidate
    }
}

/// The etag to ask about, if the cache knows one.
pub open spec fn known_etag(cache: Option<CacheView>) -> Option<Seq<char>> {
    match cache {
        Some(c) => match c.meta {
            Some(m) => m.remote_etag,
            None => None,
        },
        None => None,
    }
}

/// The manifest that the cache holds, if its body is sound and belongs with
/// its meta.
pub open spec fn cached_manifest(c: CacheView) -> Option<ManifestView> {
    match (c.meta, c.body) {
        (Some(meta), Some(body)) => match manifest::parsed(body, MANIFEST_MAX_BYTES) {
            Ok(m) => if mock::fingerprint(body) == meta.body_fnv {
                Some(m)
            } else {
                None
            },
            Err(_) => None,
        },
        _ => None,
    }
}

/// Whether an event asks for the manifest unless it has the given etag.
pub open spec fn asks_manifest(e: StoreEvent, known: Seq<char>) -> bool {
    e matches StoreEvent::GetWith { key, cap, etag, reply, body, tripped } && key == MANIFEST_KEY@
        && cap == MANIFEST_MAX_BYTES && etag == Some(known)
}

/// Whether an event was answered "not modified".
pub open spec fn not_modified(e: StoreEvent) -> bool {
    e matches StoreEvent::GetWith { key, cap, etag, reply, body, tripped } && reply matches Ok(
        GetOutcomeView::NotModified(_),
    )
}

/// The requests of a warm attempt: a conditional get if the cache knows an
/// etag, and a fresh fetch if it does not, or if the cached body turns out
/// unusable.
pub open spec fn warm_requests(t: Seq<StoreEvent>, cache: Option<CacheView>) -> bool {
    match known_etag(cache) {
        None => fetch_requests(t, MANIFEST_MAX_BYTES),
        Some(etag) => {
            &&& t.len() >= 1
            &&& asks_manifest(t[0], etag)
            &&& if not_modified(t[0]) && cached_manifest(cache->0) is None {
                fetch_requests(t.skip(1), MANIFEST_MAX_BYTES)
            } else {
                t.len() == 1
            }
        },
    }
}

/// The message for a body that exceeded the cap.
pub open spec fn over_cap_text() -> Seq<char> {
    "manifest body exceeded the "@ + text::dec(MANIFEST_MAX_BYTES as nat)
        + " byte soft cap while streaming"@
}

/// What a warm attempt gives for the answers to its requests.
pub open spec fn warm_result(t: Seq<StoreEvent>, cache: Option<CacheView>) -> Result<
    WarmView,
    ErrorView,
> {
    match known_etag(cache) {
        None => fresh_warm(fetched(t, MANIFEST_MAX_BYTES)),
        Some(known) => match t[0] {
            StoreEvent::GetWith { key, cap, etag, reply, body, tripped } => match reply {
                Ok(GetOutcomeView::NotModified(_)) => match cached_manifest(cache->0) {
                    Some(m) => Ok(WarmView::Loaded(warm_inventory(m, Some(known)))),
                    None => fresh_warm(fetched(t.skip(1), MANIFEST_MAX_BYTES)),
                },
                Ok(GetOutcomeView::Body(e)) => if tripped {
                    Ok(WarmView::Invalid(over_cap_text()))
                } else {
                    warm_of_body(body, e.etag)
                },
                Err(ErrorView::NotFound(_)) => Ok(WarmView::Missing),
                Err(e) => if tripped {
                    Ok(WarmView::Invalid(over_cap_text()))
                } else {
                    Err(e)
                },
            },
            _ => Err(ErrorView::Other(""@)),
        },
    }
}

/// What a warm attempt means for the cache.
pub open spec fn warm_update(
    t: Seq<StoreEvent>,
    cache: Option<CacheView>,
    now_ms: u64,
) -> CacheUpdateView {
    match cache {
        None => CacheUpdateView::Keep,
        Some(c) => match known_etag(cache) {
            None => fresh_update(fetched(t, MANIFEST_MAX_BYTES), CacheUpdateView::Keep, now_ms),
            Some(known) => match t[0] {
                StoreEvent::GetWith { key, cap, etag, reply, body, tripped } => match reply {
                    Ok(GetOutcomeView::NotModified(_)) => if cached_manifest(c) is Some {
                        CacheUpdateView::Keep
                    } else {
                        fresh_update(
                            fetched(t.skip(1), MANIFEST_MAX_BYTES),
                            if c.body is Some {
                                CacheUpdateView::Invalidate
                            } else {
                                CacheUpdateView::Keep
                            },
                            now_ms,
                        )
                    },
                    Ok(GetOutcomeView::Body(e)) => if tripped {
                        CacheUpdateView::Invalidate
                    } else {
                        body_update(body, e.etag, now_ms)
                    },
                    Err(ErrorView::NotFound(_)) => CacheUpdateView::Invalidate,
                    Err(_) => if tripped {
                        CacheUpdateView::Invalidate
                    } else {
                        CacheUpdateView::Keep
                    },
                },
                _ => CacheUpdateView::Keep,
            },
        },
    }
}

/// Serves a fetched body: parsed, it becomes the inventory and the cache.
fn serve_body(body: Vec<u8>, etag: Option<String>, now_ms: u64) -> (r: (
    Result<ManifestWarm, Error>,
    CacheUpdate,
))
    ensures
        warm_reply(r.0) == warm_of_body(body@, text::opt_text(etag)),
        r.1@ == body_update(body@, text::opt_text(etag), now_ms),
        manifest::reads_back(body@),
{
    match parse_manifest_bytes(body.as_slice()) {
        Ok(m) => match manifest_inventory(&m, clone_opt_string(&etag)) {
            Ok(inv) => (Ok(ManifestWarm::Loaded(inv)), fill_cache(body, etag, now_ms)),
            Err(e) => (Err(e), CacheUpdate::Invalidate),
        },
        Err(e) => (Ok(ManifestWarm::Invalid(e.to_string())), CacheUpdate::Invalidate),
    }
}

/// Unconditional warm fetch: what it gives, and what it means for a cache that
/// was to become `before`.
fn try_load_manifest_fresh<S: ObjectStore>(
    store: &mut Session<S>,
    before: CacheUpdate,
    now_ms: u64,
) -> (r: (Result<ManifestWarm, Error>, CacheUpdate))
    ensures
        store::runs(*old(store), *final(store)),
        store::extends(final(store).trace(), old(store).trace()),
        fetch_requests(store::since(final(store).trace(), old(store).trace()), MANIFEST_MAX_BYTES),
        ({
            let f = fetched(store::since(final(store).trace(), old(store).trace()), MANIFEST_MAX_BYTES);
            &&& warm_reply(r.0) == fresh_warm(f)
            &&& r.1@ == fresh_update(f, before@, now_ms)
            &&& bodies_read_back(store::since(final(store).trace(), old(store).trace()))
        }),
{
    match head_then_get_manifest(store, MANIFEST_MAX_BYTES) {
        Ok(WarmFetch::Body(e, buf)) => serve_body(buf, e.etag, now_ms),
        Ok(WarmFetch::Absent) => (Ok(ManifestWarm::Missing), CacheUpdate::Invalidate),
        Ok(WarmFetch::OverCap(m)) => (Ok(ManifestWarm::Invalid(m)), CacheUpdate::Invalidate),
        Err(e) => (Err(e), before),
    }
}

/// The message for a body that exceeded the cap.
fn over_cap_message() -> (r: String)
    ensures
        r@ == over_cap_text(),
{
    cat3(
        "manifest body exceeded the ",
        decimal(MANIFEST_MAX_BYTES).as_str(),
        " byte soft cap while streaming",
    )
}

/// The manifest that the cache holds, if its body is sound and belongs with
/// its meta.
fn read_cache_body(c: &CacheSnapshot) -> (r: Option<ManifestV1>)
    ensures
        match r {
            Some(m) => cached_manifest(c@) == Some(m@),
            None => cached_manifest(c@) is None,
        },
{
    match (&c.meta, &c.body) {
        (Some(meta), Some(body)) => match parse_manifest_bytes(body.as_slice()) {
            Ok(m) => {
                let own = body_fingerprint(body.as_slice());
                if same_text(own.as_str(), meta.body_fnv.as_str()) {
                    Some(m)
                } else {
                    None
                }
            },
            Err(_) => None,
        },
        _ => None,
    }
}

/// Cache-aware warm fetch: with a cached remote etag, issue a conditional get.
/// "Not modified" plans from the cached body; a fetched body refreshes the
/// cache; a missing object invalidates it. Any other fetch error fails - the
/// cache is never authority - and a corrupt or mismatched cached body is
/// invalidated and fetched anew.
fn try_load_manifest_cached<S: ObjectStore>(
    store: &mut Session<S>,
    cache: &CacheSnapshot,
    now_ms: u64,
) -> (r: (Result<ManifestWarm, Error>, CacheUpdate))
    ensures
        store::runs(*old(store), *final(store)),
        store::extends(final(store).trace(), old(store).trace()),
        ({
            let t = store::since(final(store).trace(), old(store).trace());
            &&& warm_requests(t, Some(cache@))
            &&& warm_reply(r.0) == warm_result(t, Some(cache@))
            &&& r.1@ == warm_update(t, Some(cache@), now_ms)
            &&& bodies_read_back(t)
        }),
{
    let ghost start = store.trace();
    let known = match &cache.meta {
        Some(m) => clone_opt_string(&m.remote_etag),
        None => None,
    };
    if let Some(etag) = known {
        let opts = GetOpts { if_none_match_etag: Some(etag.clone()) };
        let (reply, writer) = store.get_to_with(MANIFEST_KEY, MANIFEST_MAX_BYTES, &opts);
        let ghost first = store.trace().last();
        let ghost middle = store.trace();
        proof {
            assert(store::since(middle, start) =~= seq![first]);
            assert(middle.take(start.len() as int) =~= start);
        }
        match reply {
            Ok(GetOutcome::NotModified(_)) => {
                if let Some(m) = read_cache_body(cache) {
                    return match manifest_inventory(&m, Some(etag)) {
                        Ok(inv) => (Ok(ManifestWarm::Loaded(inv)), CacheUpdate::Keep),
                        Err(e) => (Err(e), CacheUpdate::Keep),
                    };
                }
                let before = if cache.body.is_some() {
                    CacheUpdate::Invalidate
                } else {
                    CacheUpdate::Keep
                };
                let r = try_load_manifest_fresh(store, before, now_ms);
                proof {
                    let now = store.trace();
                    let t = store::since(now, start);
                    assert(t.skip(1) =~= store::since(now, middle));
                    assert(now[start.len() as int] == now.take(middle.len() as int)[start.len() as int]);
                    assert(t[0] == first);
                    assert(now.take(start.len() as int) =~= now.take(middle.len() as int).take(
                        start.len() as int,
                    ));
                }
                return r;
            },
            Ok(GetOutcome::Body(e)) => {
                if writer.is_tripped() {
                    return (
                        Ok(ManifestWarm::Invalid(over_cap_message())),
                        CacheUpdate::Invalidate,
                    );
                }
                return serve_body(writer.into_bytes(), e.etag, now_ms);
            },
            Err(Error::NotFound(_)) => {
                return (Ok(ManifestWarm::Missing), CacheUpdate::Invalidate);
            },
            Err(e) => {
                if writer.is_tripped() {
                    return (
                        Ok(ManifestWarm::Invalid(over_cap_message())),
                        CacheUpdate::Invalidate,
                    );
                }
                return (Err(e), CacheUpdate::Keep);
            },
        }
    }
    try_load_manifest_fresh(store, CacheUpdate::Keep, now_ms)
}

/// Warm attempt: fetch and parse the remote manifest. A fetch error other than
/// "not found" fails the attempt.
fn try_load_manifest<S: ObjectStore>(
    store: &mut Session<S>,
    cache: Option<&CacheSnapshot>,
    now_ms: u64,
) -> (r: (Result<ManifestWarm, Error>, CacheUpdate))
    ensures
        store::runs(*old(store), *final(store)),
        store::extends(final(store).trace(), old(store).trace()),
        ({
            let t = store::since(final(store).trace(), old(store).trace());
            let c = match cache {
                Some(c) => Some(c@),
                None => None,
            };
            &&& warm_requests(t, c)
            &&& warm_reply(r.0) == warm_result(t, c)
            &&& r.1@ == warm_update(t, c, now_ms)
            &&& bodies_read_back(t)
        }),
{
    match cache {
        Some(c) => try_load_manifest_cached(store, c, now_ms),
        None => {
            let (r, _) = try_load_manifest_fresh(store, CacheUpdate::Keep, now_ms);
            (r, CacheUpdate::Keep)
        },
    }
}

/// The requests of a warm attempt are never listings.
pub proof fn lemma_warm_never_lists(t: Seq<StoreEvent>, cache: Option<CacheView>)
    requires
        warm_requests(t, cache),
    ensures
        t.len() > 0,
        forall|i: int| 0 <= i < t.len() ==> !(#[trigger] t[i] is List),
{
    match known_etag(cache) {
        None => {},
        Some(etag) => {
            if not_modified(t[0]) && cached_manifest(cache->0) is None {
                assert forall|i: int| 0 <= i < t.len() implies !(#[trigger] t[i] is List) by {
                    if i > 0 {
                        assert(t[i] == t.skip(1)[i - 1]);
                    }
                }
            }
        },
    }
}

/// The requests of a load without the fallback listing at its end.
pub open spec fn warm_part(t: Seq<StoreEvent>) -> Seq<StoreEvent> {
    if t.len() > 0 && t.last() is List {
        t.drop_last()
    } else {
        t
    }
}

/// Whether `auto` falls back to a listing.
pub open spec fn falls_back(w: Result<WarmView, ErrorView>) -> bool {
    w matches Ok(WarmView::Missing) || w matches Ok(WarmView::Invalid(_))
}

/// The requests of a load.
pub open spec fn load_requests(
    t: Seq<StoreEvent>,
    mode: InventoryMode,
    cache: Option<CacheView>,
) -> bool {
    match mode {
        InventoryMode::ListHead => t.len() == 1 && lists_all(t[0]),
        InventoryMode::Manifest => warm_requests(t, cache),
        InventoryMode::Auto => {
            let w = warm_part(t);
            &&& warm_requests(w, cache)
            &&& falls_back(warm_result(w, cache)) == (t.len() == w.len() + 1)
            &&& t.len() == w.len() + 1 ==> lists_all(t.last())
        },
    }
}

/// A load result with one more warning.
pub open spec fn with_warning(r: Result<RemoteView, ErrorView>, w: Seq<char>) -> Result<
    RemoteView,
    ErrorView,
> {
    match r {
        Ok(inv) => Ok(RemoteView { warnings: inv.warnings.push(w), ..inv }),
        Err(e) => Err(e),
    }
}

/// What a load returns for the answers to its requests.
pub open spec fn load_result(
    t: Seq<StoreEvent>,
    mode: InventoryMode,
    cache: Option<CacheView>,
) -> Result<RemoteView, ErrorView> {
    match mode {
        InventoryMode::ListHead => cold_result(list_reply(t[0])),
        InventoryMode::Manifest => match warm_result(t, cache) {
            Ok(WarmView::Loaded(inv)) => Ok(inv),
            Ok(WarmView::Missing) => Err(
                ErrorView::Other(
                    "inventory.mode=manifest requires a valid remote manifest (none present); run vaultsync repair to create one"@,
                ),
            ),
            Ok(WarmView::Invalid(detail)) => Err(
                ErrorView::Other(
                    "inventory.mode=manifest requires a valid remote manifest, but the object is invalid: "@
                        + detail + "; run vaultsync repair to rebuild it"@,
                ),
            ),
            Err(e) => Err(e),
        },
        InventoryMode::Auto => match warm_result(warm_part(t), cache) {
            Ok(WarmView::Loaded(inv)) => Ok(inv),
            Ok(WarmView::Missing) => with_warning(
                cold_result(list_reply(t.last())),
                "inventory manifest missing; falling back to list+head (next push will create one)"@,
            ),
            Ok(WarmView::Invalid(detail)) => with_warning(
                cold_result(list_reply(t.last())),
                "inventory manifest invalid: "@ + detail
                    + "; falling back to list+head (push will try to replace a present corrupt object, or run vaultsync repair)"@,
            ),
            Err(e) => Err(e),
        },
    }
}

/// How many requests a load of the mode `auto` makes when more requests may
/// follow: up to its listing, if it makes one.
pub open spec fn load_len(t: Seq<StoreEvent>) -> int
    decreases t.len(),
{
    if t.len() == 0 {
        0
    } else if t[0] is List {
        1
    } else {
        1 + load_len(t.skip(1))
    }
}

/// The requests of a load when a bootstrap may follow.
pub open spec fn load_part(t: Seq<StoreEvent>, mode: InventoryMode) -> Seq<StoreEvent> {
    if mode == InventoryMode::Auto {
        t.take(load_len(t))
    } else {
        t
    }
}

/// The requests after a load.
pub open spec fn after_load(t: Seq<StoreEvent>, mode: InventoryMode) -> Seq<StoreEvent> {
    t.skip(load_part(t, mode).len() as int)
}

/// A load makes no more requests than there are.
pub proof fn lemma_load_len_in_range(t: Seq<StoreEvent>)
    ensures
        0 <= load_len(t) <= t.len(),
    decreases t.len(),
{
    if t.len() > 0 && !(t[0] is List) {
        lemma_load_len_in_range(t.skip(1));
    }
}

/// The requests of a load end with its listing, or with the requests.
proof fn lemma_load_len(u: Seq<StoreEvent>, v: Seq<StoreEvent>)
    requires
        u.len() > 0,
        forall|i: int| 0 <= i < u.len() - 1 ==> !(#[trigger] u[i] is List),
        u.last() is List || v.len() == 0,
    ensures
        load_len(u + v) == u.len(),
    decreases u.len(),
{
    let t = u + v;
    assert(t[0] == u[0]);
    if u.len() == 1 {
        if !(u[0] is List) {
            assert(t.skip(1) =~= Seq::<StoreEvent>::empty());
            assert(load_len(t.skip(1)) == 0);
        }
    } else {
        assert(!(u[0] is List));
        assert(t.skip(1) =~= u.skip(1) + v);
        assert(u.skip(1).last() == u.last());
        assert forall|i: int| 0 <= i < u.skip(1).len() - 1 implies !(#[trigger] u.skip(1)[i] is List) by {
            assert(u.skip(1)[i] == u[i + 1]);
        }
        lemma_load_len(u.skip(1), v);
    }
}

/// The requests of a load and of what follows it fall apart again, if only a
/// cold load of the mode `auto` is followed by more.
pub proof fn lemma_load_parts(
    u: Seq<StoreEvent>,
    v: Seq<StoreEvent>,
    mode: InventoryMode,
    cache: Option<CacheView>,
)
    requires
        load_requests(u, mode, cache),
        v.len() == 0 || (mode == InventoryMode::Auto && load_result(u, mode, cache) is Ok
            && load_result(u, mode, cache)->Ok_0.base.source is LiveListHead),
    ensures
        load_part(u + v, mode) == u,
        after_load(u + v, mode) == v,
{
    if mode == InventoryMode::Auto {
        let w = warm_part(u);
        lemma_warm_never_lists(w, cache);
        assert forall|i: int| 0 <= i < u.len() - 1 implies !(#[trigger] u[i] is List) by {
            assert(w[i] == u[i]);
        }
        lemma_load_len(u, v);
        assert((u + v).take(u.len() as int) =~= u);
    } else {
        assert(u + v =~= u);
    }
    assert((u + v).skip(u.len() as int) =~= v);
}

/// What becomes of the cache when one update follows another.
pub open spec fn then_update(first: CacheUpdateView, second: CacheUpdateView) -> CacheUpdateView {
    if second is Keep {
        first
    } else {
        second
    }
}

/// What becomes of the cache when one update follows another.
pub fn update_after(first: CacheUpdate, second: CacheUpdate) -> (r: CacheUpdate)
    ensures
        r@ == then_update(first@, second@),
{
    match second {
        CacheUpdate::Keep => first,
        _ => second,
    }
}

/// What a load means for the cache.
pub open spec fn load_update(
    t: Seq<StoreEvent>,
    mode: InventoryMode,
    cache: Option<CacheView>,
    now_ms: u64,
) -> CacheUpdateView {
    match mode {
        InventoryMode::ListHead => CacheUpdateView::Keep,
        _ => warm_update(warm_part(t), cache, now_ms),
    }
}

/// The cold load of a fallback, with a warning that says why.
fn fall_back<S: ObjectStore>(store: &mut Session<S>, warning: String) -> (r: Result<
    RemoteInventory,
    Error,
>)
    ensures
        store::runs(*old(store), *final(store)),
        final(store).trace().len() == old(store).trace().len() + 1,
        final(store).trace().drop_last() == old(store).trace(),
        lists_all(final(store).trace().last()),
        remote_result(r) == with_warning(
            cold_result(list_reply(final(store).trace().last())),
            warning@,
        ),
{
    match live_list_head(store) {
        Ok(inv) => {
            let mut warnings = inv.warnings;
            let ghost w = text::texts(warnings@);
            warnings.push(warning);
            assert(text::texts(warnings@) =~= w.push(warning@));
            Ok(RemoteInventory { entities: inv.entities, base: inv.base, warnings })
        },
        Err(e) => Err(e),
    }
}

/// The load of the mode `manifest`.
fn load_strict<S: ObjectStore>(
    store: &mut Session<S>,
    cache: Option<&CacheSnapshot>,
    now_ms: u64,
) -> (r: (Result<RemoteInventory, Error>, CacheUpdate))
    ensures
        store::runs(*old(store), *final(store)),
        store::extends(final(store).trace(), old(store).trace()),
        ({
            let t = store::since(final(store).trace(), old(store).trace());
            let c = opt_cache(cache);
            &&& load_requests(t, InventoryMode::Manifest, c)
            &&& remote_result(r.0) == load_result(t, InventoryMode::Manifest, c)
            &&& r.1@ == load_update(t, InventoryMode::Manifest, c, now_ms)
            &&& bodies_read_back(t)
        }),
{
    let ghost start = store.trace();
    let (warm, update) = try_load_manifest(store, cache, now_ms);
    proof {
        lemma_warm_never_lists(store::since(store.trace(), start), opt_cache(cache));
    }
    let r = match warm {
        Ok(ManifestWarm::Loaded(inv)) => Ok(inv),
        Ok(ManifestWarm::Missing) => Err(
            Error::Other(
                "inventory.mode=manifest requires a valid remote manifest (none present); run vaultsync repair to create one".to_owned(),
            ),
        ),
        Ok(ManifestWarm::Invalid(detail)) => Err(
            Error::Other(
                cat3(
                    "inventory.mode=manifest requires a valid remote manifest, but the object is invalid: ",
                    detail.as_str(),
                    "; run vaultsync repair to rebuild it",
                ),
            ),
        ),
        Err(e) => Err(e),
    };
    (r, update)
}

/// The load of the mode `auto`.
fn load_auto<S: ObjectStore>(
    store: &mut Session<S>,
    cache: Option<&CacheSnapshot>,
    now_ms: u64,
) -> (r: (Result<RemoteInventory, Error>, CacheUpdate))
    ensures
        store::runs(*old(store), *final(store)),
        store::extends(final(store).trace(), old(store).trace()),
        ({
            let t = store::since(final(store).trace(), old(store).trace());
            let c = opt_cache(cache);
            &&& load_requests(t, InventoryMode::Auto, c)
            &&& remote_result(r.0) == load_result(t, InventoryMode::Auto, c)
            &&& r.1@ == load_update(t, InventoryMode::Auto, c, now_ms)
            &&& bodies_read_back(t)
        }),
{
    let ghost start = store.trace();
    let (warm, update) = try_load_manifest(store, cache, now_ms);
    let ghost middle = store.trace();
    proof {
        lemma_warm_never_lists(store::since(middle, start), opt_cache(cache));
    }
    let warning = match warm {
        Ok(ManifestWarm::Loaded(inv)) => return (Ok(inv), update),
        Err(e) => return (Err(e), update),
        Ok(ManifestWarm::Missing) =>
            "inventory manifest missing; falling back to list+head (next push will create one)".to_owned(),
        Ok(ManifestWarm::Invalid(detail)) => cat3(
            "inventory manifest invalid: ",
            detail.as_str(),
            "; falling back to list+head (push will try to replace a present corrupt object, or run vaultsync repair)",
        ),
    };
    let r = fall_back(store, warning);
    proof {
        lemma_then_list(start, middle, store.trace());
    }
    (r, update)
}

/// Load the remote inventory for plan build.
///
/// `mode` selects warm vs cold. `auto` takes a valid manifest, and falls back
/// to a listing with a warning when there is none or it is unusable; strict
/// `manifest` mode fails instead. A store error other than "not found" always
/// fails the load. Reading is free of side effects on the store.
pub fn load_remote_inventory<S: ObjectStore>(
    store: &mut Session<S>,
    mode: InventoryMode,
    cache: Option<&CacheSnapshot>,
    now_ms: u64,
) -> (r: (Result<RemoteInventory, Error>, CacheUpdate))
    ensures
        store::runs(*old(store), *final(store)),
        store::extends(final(store).trace(), old(store).trace()),
        ({
            let t = store::since(final(store).trace(), old(store).trace());
            let c = opt_cache(cache);
            &&& load_requests(t, mode, c)
            &&& remote_result(r.0) == load_result(t, mode, c)
            &&& r.1@ == load_update(t, mode, c, now_ms)
            &&& bodies_read_back(t)
        }),
{
    let ghost start = store.trace();
    match mode {
        InventoryMode::Manifest => load_strict(store, cache, now_ms),
        InventoryMode::Auto => load_auto(store, cache, now_ms),
        InventoryMode::ListHead => {
            let r = live_list_head(store);
            proof {
                assert(store::since(store.trace(), start) =~= seq![store.trace().last()]);
                assert(store.trace().take(start.len() as int) =~= start);
            }
            (r, CacheUpdate::Keep)
        },
    }
}

/// A listing after a warm attempt leaves the attempt's part as it was.
proof fn lemma_then_list(start: Seq<StoreEvent>, middle: Seq<StoreEvent>, now: Seq<StoreEvent>)
    requires
        store::extends(middle, start),
        now.len() == middle.len() + 1,
        now.drop_last() == middle,
        lists_all(now.last()),
        bodies_read_back(store::since(middle, start)),
    ensures
        store::extends(now, start),
        store::since(now, start).len() == store::since(middle, start).len() + 1,
        store::since(now, start).last() == now.last(),
        warm_part(store::since(now, start)) == store::since(middle, start),
        bodies_read_back(store::since(now, start)),
{
    let t = store::since(now, start);
    let w = store::since(middle, start);
    assert(now.take(start.len() as int) =~= middle.take(start.len() as int));
    assert(t.drop_last() =~= w);
    assert forall|i: int| 0 <= i < t.len() && served(#[trigger] t[i]) is Some implies
        manifest::reads_back(served(t[i])->0) by {
        if i < w.len() {
            assert(w[i] == t[i]);
        }
    }
}

/// A successful remote mutation to fold into the manifest commit. Only
/// successes are listed: a failed upload or delete must never change its key.
#[derive(Debug, PartialEq)]
pub enum CommitMutation {
    /// An upload that succeeded, with the entity that the put answered.
    Upload(Entity),
    /// A remote delete that succeeded (key only).
    DeleteRemote(String),
}

/// The mathematical view of a [`CommitMutation`].
pub enum MutationView {
    Upload(EntityView),
    DeleteRemote(Seq<char>),
}

impl View for CommitMutation {
    type V = MutationView;

    open spec fn view(&self) -> MutationView {
        match *self {
            CommitMutation::Upload(e) => MutationView::Upload(e@),
            CommitMutation::DeleteRemote(k) => MutationView::DeleteRemote(k@),
        }
    }
}

/// The views of a sequence of mutations.
pub open spec fn mutations(v: Seq<CommitMutation>) -> Seq<MutationView> {
    Seq::new(v.len(), |i: int| v[i]@)
}

/// Outcome of a manifest commit.
#[derive(Debug, PartialEq, Eq)]
pub enum CommitOutcome {
    /// The manifest was written; `etag` is the new object's etag when known.
    Written { etag: Option<String>, entry_count: usize },
    /// No successful remote mutation: nothing to commit.
    SkippedNoMutations,
    /// The conditional put lost its race: the manifest was not overwritten.
    PreconditionFailed,
}

/// The mathematical view of a [`CommitOutcome`] and of an [`EnsureOutcome`].
pub enum OutcomeView {
    Written { etag: Option<Seq<char>>, entry_count: usize },
    Adopted { etag: Option<Seq<char>>, entry_count: usize },
    SkippedNoMutations,
    PreconditionFailed,
}

impl View for CommitOutcome {
    type V = OutcomeView;

    open spec fn view(&self) -> OutcomeView {
        match *self {
            CommitOutcome::Written { etag, entry_count } => OutcomeView::Written {
                etag: text::opt_text(etag),
                entry_count,
            },
            CommitOutcome::SkippedNoMutations => OutcomeView::SkippedNoMutations,
            CommitOutcome::PreconditionFailed => OutcomeView::PreconditionFailed,
        }
    }
}

/// Puts an entity into entities ordered by key, in place of one with its key.
pub open spec fn upsert(s: Seq<EntityView>, e: EntityView) -> Seq<EntityView>
    decreases s.len(),
{
    if s.len() == 0 {
        seq![e]
    } else if text::before(e.key, s.last().key) {
        upsert(s.drop_last(), e).push(s.last())
    } else if s.last().key == e.key {
        s.drop_last().push(e)
    } else {
        s.push(e)
    }
}

/// The entities but the one with the given key.
pub open spec fn without(s: Seq<EntityView>, key: Seq<char>) -> Seq<EntityView>
    decreases s.len(),
{
    if s.len() == 0 {
        s
    } else if s.last().key == key {
        without(s.drop_last(), key)
    } else {
        without(s.drop_last(), key).push(s.last())
    }
}

/// The entities by ascending key, the last one with each key.
pub open spec fn gathered(s: Seq<EntityView>) -> Seq<EntityView>
    decreases s.len(),
{
    if s.len() == 0 {
        s
    } else {
        upsert(gathered(s.drop_last()), s.last())
    }
}

/// The base file set with the mutations folded in, one after the other.
pub open spec fn applied(base: Seq<EntityView>, m: Seq<MutationView>) -> Seq<EntityView>
    decreases m.len(),
{
    if m.len() == 0 {
        gathered(base)
    } else {
        match m.last() {
            MutationView::Upload(e) => upsert(applied(base, m.drop_last()), e),
            MutationView::DeleteRemote(k) => without(applied(base, m.drop_last()), k),
        }
    }
}

/// Puts an entity into entities ordered by key.
fn upsert_entity(v: Vec<Entity>, e: Entity) -> (r: Vec<Entity>)
    ensures
        entity::entities(r@) == upsert(entity::entities(v@), e@),
{
    let ghost all = entity::entities(v@);
    let n: usize = v.len();
    let mut i: usize = n;
    assert(all.take(n as int) =~= all);
    assert(all.skip(n as int) =~= Seq::<EntityView>::empty());
    assert(upsert(all, e@) + Seq::<EntityView>::empty() =~= upsert(all, e@));
    while i > 0 && text_before(e.key.as_str(), v[i - 1].key.as_str())
        invariant
            i <= n,
            n == v@.len(),
            all == entity::entities(v@),
            upsert(all, e@) == upsert(all.take(i as int), e@) + all.skip(i as int),
        decreases i,
    {
        proof {
            let part = all.take(i as int);
            assert(part.last() == all[i - 1]);
            assert(part.drop_last() =~= all.take(i - 1));
            assert(upsert(part.drop_last(), e@).push(part.last()) + all.skip(i as int) =~= upsert(
                part.drop_last(),
                e@,
            ) + (seq![part.last()] + all.skip(i as int)));
            assert(seq![part.last()] + all.skip(i as int) =~= all.skip(i - 1));
        }
        i = i - 1;
    }
    let mut out = v;
    let ghost part = all.take(i as int);
    if i > 0 && same_text(out[i - 1].key.as_str(), e.key.as_str()) {
        proof {
            assert(part.last() == all[i - 1]);
            assert(part.drop_last() =~= all.take(i - 1));
        }
        out.set(i - 1, e);
        assert(entity::entities(out@) =~= all.take(i - 1).push(e@) + all.skip(i as int));
    } else {
        proof {
            if i > 0 {
                assert(part.last() == all[i - 1]);
                assert(upsert(part, e@) == part.push(e@));
            } else {
                assert(upsert(part, e@) =~= part.push(e@));
            }
        }
        out.insert(i, e);
        assert(entity::entities(out@) =~= part.push(e@) + all.skip(i as int));
    }
    out
}

/// The entities but those with the given key.
fn remove_key(v: &Vec<Entity>, key: &str) -> (r: Vec<Entity>)
    ensures
        entity::entities(r@) == without(entity::entities(v@), key@),
{
    let ghost all = entity::entities(v@);
    let mut out: Vec<Entity> = Vec::new();
    let mut i: usize = 0;
    assert(entity::entities(out@) =~= all.take(0));
    while i < v.len()
        invariant
            i <= v@.len(),
            all == entity::entities(v@),
            entity::entities(out@) == without(all.take(i as int), key@),
        decreases v@.len() - i,
    {
        assert(all.take(i + 1).drop_last() =~= all.take(i as int));
        assert(all.take(i + 1).last() == v@[i as int]@);
        let ghost prev = entity::entities(out@);
        if !same_text(v[i].key.as_str(), key) {
            out.push(v[i].clone());
            assert(entity::entities(out@) =~= prev.push(v@[i as int]@));
        }
        i = i + 1;
    }
    assert(all.take(i as int) =~= all);
    out
}

/// Fold successful mutations into the base file set: uploads replace or add
/// their entity; deletes remove; anything else keeps its base entry. Output is
/// sorted by key with no duplicates.
pub fn apply_commit_mutations(base_files: &[Entity], successes: &[CommitMutation]) -> (r: Vec<
    Entity,
>)
    ensures
        entity::entities(r@) == applied(entity::entities(base_files@), mutations(successes@)),
{
    let ghost base = entity::entities(base_files@);
    let ghost all = mutations(successes@);
    let mut out: Vec<Entity> = Vec::new();
    let mut i: usize = 0;
    assert(base.take(0) =~= Seq::<EntityView>::empty());
    assert(entity::entities(out@) =~= Seq::<EntityView>::empty());
    while i < base_files.len()
        invariant
            i <= base_files@.len(),
            base == entity::entities(base_files@),
            entity::entities(out@) == gathered(base.take(i as int)),
        decreases base_files@.len() - i,
    {
        assert(base.take(i + 1).drop_last() =~= base.take(i as int));
        assert(base.take(i + 1).last() == base_files@[i as int]@);
        out = upsert_entity(out, base_files[i].clone());
        i = i + 1;
    }
    assert(base.take(i as int) =~= base);
    let mut j: usize = 0;
    assert(all.take(0) =~= Seq::<MutationView>::empty());
    while j < successes.len()
        invariant
            j <= successes@.len(),
            all == mutations(successes@),
            entity::entities(out@) == applied(base, all.take(j as int)),
        decreases successes@.len() - j,
    {
        assert(all.take(j + 1).drop_last() =~= all.take(j as int));
        assert(all.take(j + 1).last() == successes@[j as int]@);
        match &successes[j] {
            CommitMutation::Upload(e) => {
                out = upsert_entity(out, e.clone());
            },
            CommitMutation::DeleteRemote(k) => {
                out = remove_key(&out, k.as_str());
            },
        }
        j = j + 1;
    }
    assert(all.take(j as int) =~= all);
    out
}

/// Condition of a manifest put.
#[derive(Debug)]
pub enum WriteCond {
    /// Succeed only if the current object has this etag.
    IfMatch(String),
    /// Succeed only if there is no object yet.
    IfNoneMatchStar,
    /// Unconditional put (stores without etags, or `repair --force`).
    Force,
}

/// The mathematical view of a [`WriteCond`].
pub enum CondView {
    IfMatch(Seq<char>),
    IfNoneMatchStar,
    Force,
}

impl View for WriteCond {
    type V = CondView;

    open spec fn view(&self) -> CondView {
        match *self {
            WriteCond::IfMatch(e) => CondView::IfMatch(e@),
            WriteCond::IfNoneMatchStar => CondView::IfNoneMatchStar,
            WriteCond::Force => CondView::Force,
        }
    }
}

/// The put options that a condition stands for.
pub open spec fn put_opts(cond: CondView) -> PutOptsView {
    match cond {
        CondView::IfMatch(e) => PutOptsView {
            if_match_etag: Some(e),
            if_none_match_star: false,
            mtime_ms: None,
        },
        CondView::IfNoneMatchStar => PutOptsView {
            if_match_etag: None,
            if_none_match_star: true,
            mtime_ms: None,
        },
        CondView::Force => PutOptsView {
            if_match_etag: None,
            if_none_match_star: false,
            mtime_ms: None,
        },
    }
}

/// Outcome of [`write_manifest_body`]: a written object, or a lost race.
#[derive(Debug, PartialEq, Eq)]
pub enum WriteBodyOutcome {
    Written { etag: Option<String> },
    PreconditionFailed,
}

/// Whether an event puts the given manifest body under the given condition.
pub open spec fn puts_manifest(e: StoreEvent, with_body: Seq<u8>, cond: CondView) -> bool {
    e matches StoreEvent::PutWith { key, body, opts, reply } && key == MANIFEST_KEY@ && body
        == with_body && opts == put_opts(cond)
}

/// The answer to an unconditional put request.
pub open spec fn plain_put_reply(e: StoreEvent) -> Result<EntityView, ErrorView> {
    match e {
        StoreEvent::Put { reply, .. } => reply,
        _ => Err(ErrorView::Other(""@)),
    }
}

/// The answer to a conditional put.
pub open spec fn put_reply(e: StoreEvent) -> Result<EntityView, ErrorView> {
    match e {
        StoreEvent::PutWith { key, body, opts, reply } => reply,
        _ => Err(ErrorView::Other(""@)),
    }
}

/// What a manifest put means for the cache: a successful write is mirrored.
pub open spec fn put_update(
    reply: Result<EntityView, ErrorView>,
    body: Seq<u8>,
    now_ms: u64,
) -> CacheUpdateView {
    match reply {
        Ok(e) => filled(body, e.etag, now_ms),
        Err(_) => CacheUpdateView::Keep,
    }
}

/// Shared lowest-layer manifest writer: one conditional put, no retry, no
/// other request. A successful write refreshes the local mirror.
pub fn write_manifest_body<S: ObjectStore>(
    store: &mut Session<S>,
    body: &Vec<u8>,
    cond: WriteCond,
    now_ms: u64,
) -> (r: (Result<WriteBodyOutcome, Error>, CacheUpdate))
    ensures
        store::runs(*old(store), *final(store)),
        final(store).trace().len() == old(store).trace().len() + 1,
        final(store).trace().drop_last() == old(store).trace(),
        puts_manifest(final(store).trace().last(), body@, cond@),
        ({
            let reply = put_reply(final(store).trace().last());
            &&& r.1@ == put_update(reply, body@, now_ms)
            &&& match reply {
                Ok(e) => r.0 matches Ok(WriteBodyOutcome::Written { etag }) && text::opt_text(etag)
                    == e.etag,
                Err(ErrorView::PreconditionFailed(_)) => r.0 matches Ok(
                    WriteBodyOutcome::PreconditionFailed,
                ),
                Err(e) => r.0 matches Err(x) && x@ == e,
            }
        }),
{
    let ghost start = store.trace();
    let opts = match cond {
        WriteCond::IfMatch(etag) => PutOpts {
            if_match_etag: Some(etag),
            if_none_match_star: false,
            mtime_ms: None,
        },
        WriteCond::IfNoneMatchStar => PutOpts {
            if_match_etag: None,
            if_none_match_star: true,
            mtime_ms: None,
        },
        WriteCond::Force => PutOpts {
            if_match_etag: None,
            if_none_match_star: false,
            mtime_ms: None,
        },
    };
    let reply = store.put_from_with(MANIFEST_KEY, body.as_slice(), &opts);
    assert(store.trace().drop_last() =~= start);
    match reply {
        Ok(e) => {
            let mut copy: Vec<u8> = Vec::new();
            copy.extend_from_slice(body.as_slice());
            assert(copy@ =~= body@);
            let update = fill_cache(copy, clone_opt_string(&e.etag), now_ms);
            (Ok(WriteBodyOutcome::Written { etag: e.etag }), update)
        },
        Err(Error::PreconditionFailed(_)) => (
            Ok(WriteBodyOutcome::PreconditionFailed),
            CacheUpdate::Keep,
        ),
        Err(e) => (Err(e), CacheUpdate::Keep),
    }
}

/// The condition for a present object: on its etag, if it has one.
pub open spec fn present_cond(etag: Option<Seq<char>>) -> CondView {
    match etag {
        Some(e) => CondView::IfMatch(e),
        None => CondView::Force,
    }
}

/// Map an optional live object etag to a write condition: a known etag =>
/// If-Match; a present object without etag => unconditional.
fn cond_from_etag(etag: Option<String>) -> (r: WriteCond)
    ensures
        r@ == present_cond(text::opt_text(etag)),
{
    match etag {
        Some(e) => WriteCond::IfMatch(e),
        None => WriteCond::Force,
    }
}

/// The generator text of written manifests.
pub open spec fn generator() -> Seq<char> {
    "vaultsync "@ + "0.1.0"@
}

/// The manifest body for a file set, or the error of the first file that may
/// not be stored.
pub open spec fn body_for(files: Seq<EntityView>, now_ms: u64) -> Result<Seq<u8>, ErrorView> {
    match manifest::manifest_of(files, now_ms, Some(generator()), None) {
        Ok(m) => Ok(manifest::body(m)),
        Err(e) => Err(e),
    }
}

/// The manifest body for a file set.
fn build_body(files: &[Entity], now_ms: u64) -> (r: Result<Vec<u8>, Error>)
    ensures
        match r {
            Ok(b) => body_for(entity::entities(files@), now_ms) == Ok::<_, ErrorView>(b@),
            Err(e) => body_for(entity::entities(files@), now_ms) == Err::<Seq<u8>, _>(e@),
        },
{
    let by = cat2("vaultsync ", crate::version());
    match file_entities_to_manifest(files, now_ms, Some(by), None) {
        Ok(m) => serialize_manifest(&m),
        Err(e) => Err(e),
    }
}

/// The requests of one publication of a file set: one put, unless some file
/// may not be stored.
#[verifier::opaque]
pub open spec fn publish_requests(
    t: Seq<StoreEvent>,
    files: Seq<EntityView>,
    cond: CondView,
    now_ms: u64,
) -> bool {
    match body_for(files, now_ms) {
        Ok(b) => t.len() == 1 && puts_manifest(t[0], b, cond),
        Err(_) => t.len() == 0,
    }
}

/// What a publication returns for the answer to its request.
#[verifier::opaque]
pub open spec fn publish_result(t: Seq<StoreEvent>, files: Seq<EntityView>, now_ms: u64) -> Result<
    OutcomeView,
    ErrorView,
> {
    match body_for(files, now_ms) {
        Err(e) => Err(e),
        Ok(b) => match put_reply(t[0]) {
            Ok(e) => Ok(
                OutcomeView::Written { etag: e.etag, entry_count: files.len() as usize },
            ),
            Err(ErrorView::PreconditionFailed(_)) => Ok(OutcomeView::PreconditionFailed),
            Err(e) => Err(e),
        },
    }
}

/// What a publication means for the cache.
#[verifier::opaque]
pub open spec fn publish_update(t: Seq<StoreEvent>, files: Seq<EntityView>, now_ms: u64) -> CacheUpdateView {
    match body_for(files, now_ms) {
        Err(_) => CacheUpdateView::Keep,
        Ok(b) => put_update(put_reply(t[0]), b, now_ms),
    }
}

/// Outcome of a publication.
enum Published {
    Written { etag: Option<String>, entry_count: usize },
    PreconditionFailed,
}

spec fn published(r: Result<Published, Error>) -> Result<OutcomeView, ErrorView> {
    match r {
        Ok(Published::Written { etag, entry_count }) => Ok(
            OutcomeView::Written { etag: text::opt_text(etag), entry_count },
        ),
        Ok(Published::PreconditionFailed) => Ok(OutcomeView::PreconditionFailed),
        Err(e) => Err(e@),
    }
}

/// Publishes a file set: serializes it and puts it under a condition.
fn publish<S: ObjectStore>(store: &mut Session<S>, files: &[Entity], cond: WriteCond, now_ms: u64) -> (r:
    (Result<Published, Error>, CacheUpdate))
    ensures
        store::runs(*old(store), *final(store)),
        store::extends(final(store).trace(), old(store).trace()),
        ({
            let t = store::since(final(store).trace(), old(store).trace());
            let f = entity::entities(files@);
            &&& bodies_read_back(t)
            &&& publish_requests(t, f, cond@, now_ms)
            &&& published(r.0) == publish_result(t, f, now_ms)
            &&& r.1@ == publish_update(t, f, now_ms)
        }),
{
    let ghost start = store.trace();
    proof {
        reveal(publish_requests);
        reveal(publish_result);
        reveal(publish_update);
        assert(store::since(start, start) =~= Seq::<StoreEvent>::empty());
        assert(start.take(start.len() as int) =~= start);
    }
    let body = match build_body(files, now_ms) {
        Ok(b) => b,
        Err(e) => return (Err(e), CacheUpdate::Keep),
    };
    let (outcome, update) = write_manifest_body(store, &body, cond, now_ms);
    proof {
        assert(store::since(store.trace(), start) =~= seq![store.trace().last()]);
        assert(store.trace().take(start.len() as int) =~= store.trace().drop_last());
    }
    match outcome {
        Ok(WriteBodyOutcome::Written { etag }) => (
            Ok(Published::Written { etag, entry_count: files.len() }),
            update,
        ),
        Ok(WriteBodyOutcome::PreconditionFailed) => (Ok(Published::PreconditionFailed), update),
        Err(e) => (Err(e), update),
    }
}

/// What to do with the live manifest object of a cold base.
#[allow(inconsistent_fields)]
#[derive(Debug)]
pub enum ColdPlan {
    /// Absent: create it.
    Create { files: Vec<Entity> },
    /// Present without etag: unconditional put.
    ForcePut { files: Vec<Entity> },
    /// Present with etag: replace exactly that object.
    Overwrite { files: Vec<Entity>, etag: String },
    /// Present, with etag and valid: adopt it, with its files, without writing.
    Adopt { files: Vec<Entity>, etag: Option<String>, entry_count: usize },
}

/// The mathematical view of a [`ColdPlan`].
pub enum ColdView {
    Write { files: Seq<EntityView>, cond: CondView },
    Adopt { files: Seq<EntityView>, etag: Option<Seq<char>>, entry_count: usize },
}

impl View for ColdPlan {
    type V = ColdView;

    open spec fn view(&self) -> ColdView {
        match *self {
            ColdPlan::Create { files } => ColdView::Write {
                files: entity::entities(files@),
                cond: CondView::IfNoneMatchStar,
            },
            ColdPlan::ForcePut { files } => ColdView::Write {
                files: entity::entities(files@),
                cond: CondView::Force,
            },
            ColdPlan::Overwrite { files, etag } => ColdView::Write {
                files: entity::entities(files@),
                cond: CondView::IfMatch(etag@),
            },
            ColdPlan::Adopt { files, etag, entry_count } => ColdView::Adopt {
                files: entity::entities(files@),
                etag: text::opt_text(etag),
                entry_count,
            },
        }
    }
}

/// The file set to write: the base, with the successes folded in if there are
/// any to fold.
pub open spec fn own_files(base: Seq<EntityView>, successes: Option<Seq<MutationView>>) -> Seq<
    EntityView,
> {
    match successes {
        Some(m) => applied(base, m),
        None => base,
    }
}

/// How many requests a resolution makes: it gets the object only if the head
/// names its etag.
pub open spec fn resolve_len(t: Seq<StoreEvent>) -> int {
    if t.len() > 0 && head_reply(t[0]) is Ok && head_reply(t[0])->Ok_0.etag is Some {
        2
    } else {
        1
    }
}

/// The requests of a resolution.
pub open spec fn resolve_requests(t: Seq<StoreEvent>) -> bool {
    &&& t.len() == resolve_len(t)
    &&& heads_manifest(t[0])
    &&& t.len() == 2 ==> gets_manifest(t[1], MANIFEST_MAX_BYTES)
}

/// What a resolution returns for the answers to its requests.
#[verifier::opaque]
pub open spec fn resolved(
    t: Seq<StoreEvent>,
    base: Seq<EntityView>,
    successes: Option<Seq<MutationView>>,
) -> Result<ColdView, ErrorView> {
    match head_reply(t[0]) {
        Err(ErrorView::NotFound(_)) => Ok(
            ColdView::Write {
                files: own_files(base, successes),
                cond: CondView::IfNoneMatchStar,
            },
        ),
        Err(e) => Err(e),
        Ok(h) => match h.etag {
            None => Ok(
                ColdView::Write { files: own_files(base, successes), cond: CondView::Force },
            ),
            Some(live) => match t[1] {
                StoreEvent::Get { key, cap, reply, body, tripped } => match reply {
                    Ok(_) => match manifest::parsed(body, MANIFEST_MAX_BYTES) {
                        Ok(m) => if tripped {
                            Ok(
                                ColdView::Write {
                                    files: own_files(base, successes),
                                    cond: CondView::IfMatch(live),
                                },
                            )
                        } else {
                            match successes {
                                None => Ok(
                                    ColdView::Adopt {
                                        files: manifest::by_key(m.entries),
                                        etag: Some(live),
                                        entry_count: m.entries.len() as usize,
                                    },
                                ),
                                Some(mut_list) => Ok(
                                    ColdView::Write {
                                        files: applied(manifest::by_key(m.entries), mut_list),
                                        cond: CondView::IfMatch(live),
                                    },
                                ),
                            }
                        },
                        Err(_) => Ok(
                            ColdView::Write {
                                files: own_files(base, successes),
                                cond: CondView::IfMatch(live),
                            },
                        ),
                    },
                    Err(ErrorView::NotFound(_)) => Err(
                        ErrorView::Other(
                            "manifest vanished between HEAD and GET during conditional resolve (another writer removed it); please retry"@,
                        ),
                    ),
                    Err(e) => Err(e),
                },
                _ => Err(ErrorView::Other(""@)),
            },
        },
    }
}

/// The view of a resolution result.
pub open spec fn cold_view(r: Result<ColdPlan, Error>) -> Result<ColdView, ErrorView> {
    match r {
        Ok(p) => Ok(p@),
        Err(e) => Err(e@),
    }
}

/// The file set to write from the base.
fn own_file_set(base: &[Entity], successes: Option<&[CommitMutation]>) -> (r: Vec<Entity>)
    ensures
        entity::entities(r@) == own_files(
            entity::entities(base@),
            match successes {
                Some(m) => Some(mutations(m@)),
                None => None,
            },
        ),
{
    match successes {
        Some(m) => apply_commit_mutations(base, m),
        None => clone_entities(base),
    }
}

/// Resolves what to do with the live manifest object when the base is cold: a
/// missing one is created, one without etag is put unconditionally, and one
/// with an etag is validated before it is ever replaced.
///
/// - Without `successes`, write paths use the base verbatim, and a valid
///   manifest is adopted (no put).
/// - With `successes`, they are folded onto the base, or onto the entries of a
///   valid manifest that another writer published, so that the other writer's
///   untouched keys survive.
///
/// A failing get is an error.
pub fn resolve_cold_put_plan<S: ObjectStore>(
    store: &mut Session<S>,
    base_files: &[Entity],
    successes: Option<&[CommitMutation]>,
) -> (r: Result<ColdPlan, Error>)
    ensures
        store::runs(*old(store), *final(store)),
        store::extends(final(store).trace(), old(store).trace()),
        ({
            let t = store::since(final(store).trace(), old(store).trace());
            &&& bodies_read_back(t)
            &&& resolve_requests(t)
            &&& cold_view(r) == resolved(
                t,
                entity::entities(base_files@),
                match successes {
                    Some(m) => Some(mutations(m@)),
                    None => None,
                },
            )
        }),
{
    let ghost start = store.trace();
    let head = store.head(MANIFEST_KEY);
    proof {
        reveal(resolved);
        assert(store::since(store.trace(), start) =~= seq![store.trace().last()]);
        assert(store.trace().take(start.len() as int) =~= start);
    }
    let h = match head {
        Ok(h) => h,
        Err(Error::NotFound(_)) => {
            return Ok(ColdPlan::Create { files: own_file_set(base_files, successes) });
        },
        Err(e) => return Err(e),
    };
    let live = match h.etag {
        Some(live) => live,
        None => {
            return Ok(ColdPlan::ForcePut { files: own_file_set(base_files, successes) });
        },
    };
    let ghost first = store.trace().last();
    let (reply, writer) = store.get_to(MANIFEST_KEY, MANIFEST_MAX_BYTES);
    proof {
        assert(store::since(store.trace(), start) =~= seq![first, store.trace().last()]);
        assert(store.trace().take(start.len() as int) =~= start);
    }
    match reply {
        Ok(_) => {
            if writer.is_tripped() {
                return Ok(
                    ColdPlan::Overwrite { files: own_file_set(base_files, successes), etag: live },
                );
            }
            match parse_manifest_bytes(writer.bytes().as_slice()) {
                Ok(their) => match manifest_to_file_entities(&their) {
                    Ok(files) => match successes {
                        None => Ok(
                            ColdPlan::Adopt {
                                files,
                                etag: Some(live),
                                entry_count: their.entries.len(),
                            },
                        ),
                        Some(m) => Ok(
                            ColdPlan::Overwrite {
                                files: apply_commit_mutations(files.as_slice(), m),
                                etag: live,
                            },
                        ),
                    },
                    Err(e) => Err(e),
                },
                Err(_) => Ok(
                    ColdPlan::Overwrite { files: own_file_set(base_files, successes), etag: live },
                ),
            }
        },
        Err(Error::NotFound(_)) => Err(
            Error::Other(
                "manifest vanished between HEAD and GET during conditional resolve (another writer removed it); please retry".to_owned(),
            ),
        ),
        Err(e) => Err(e),
    }
}

/// The requests of a commit: none without mutations; one put on the etag of a
/// warm base; for a cold base a resolution, then one put under the condition
/// that it found.
pub open spec fn commit_requests(
    t: Seq<StoreEvent>,
    base: BaseView,
    m: Seq<MutationView>,
    now_ms: u64,
) -> bool {
    if m.len() == 0 {
        t.len() == 0
    } else {
        match base.manifest_etag {
            Some(e) => publish_requests(
                t,
                applied(base.file_entities, m),
                CondView::IfMatch(e),
                now_ms,
            ),
            None => {
                let n = resolve_len(t);
                &&& t.len() >= n
                &&& resolve_requests(t.take(n))
                &&& match resolved(t.take(n), base.file_entities, Some(m)) {
                    Ok(ColdView::Write { files, cond }) => publish_requests(
                        t.skip(n),
                        files,
                        cond,
                        now_ms,
                    ),
                    _ => t.len() == n,
                }
            },
        }
    }
}

/// What a commit returns for the answers to its requests.
pub open spec fn commit_result(
    t: Seq<StoreEvent>,
    base: BaseView,
    m: Seq<MutationView>,
    now_ms: u64,
) -> Result<OutcomeView, ErrorView> {
    if m.len() == 0 {
        Ok(OutcomeView::SkippedNoMutations)
    } else {
        match base.manifest_etag {
            Some(_) => publish_result(t, applied(base.file_entities, m), now_ms),
            None => {
                let n = resolve_len(t);
                match resolved(t.take(n), base.file_entities, Some(m)) {
                    Ok(ColdView::Write { files, cond }) => publish_result(
                        t.skip(n),
                        files,
                        now_ms,
                    ),
                    Ok(ColdView::Adopt { etag, entry_count, .. }) => Ok(
                        OutcomeView::Adopted { etag, entry_count },
                    ),
                    Err(e) => Err(e),
                }
            },
        }
    }
}

/// What a commit means for the cache.
pub open spec fn commit_update(
    t: Seq<StoreEvent>,
    base: BaseView,
    m: Seq<MutationView>,
    now_ms: u64,
) -> CacheUpdateView {
    if m.len() == 0 {
        CacheUpdateView::Keep
    } else {
        match base.manifest_etag {
            Some(_) => publish_update(t, applied(base.file_entities, m), now_ms),
            None => {
                let n = resolve_len(t);
                match resolved(t.take(n), base.file_entities, Some(m)) {
                    Ok(ColdView::Write { files, cond }) => publish_update(
                        t.skip(n),
                        files,
                        now_ms,
                    ),
                    _ => CacheUpdateView::Keep,
                }
            },
        }
    }
}

/// The view of a commit result.
pub open spec fn commit_view(r: Result<CommitOutcome, Error>) -> Result<OutcomeView, ErrorView> {
    match r {
        Ok(o) => Ok(o@),
        Err(e) => Err(e@),
    }
}

/// The outcome of a publication as that of a commit.
fn as_commit(r: Result<Published, Error>) -> (c: Result<CommitOutcome, Error>)
    ensures
        commit_view(c) == published(r),
{
    match r {
        Ok(Published::Written { etag, entry_count }) => Ok(
            CommitOutcome::Written { etag, entry_count },
        ),
        Ok(Published::PreconditionFailed) => Ok(CommitOutcome::PreconditionFailed),
        Err(e) => Err(e),
    }
}

/// With mutations to fold, a resolution never adopts.
pub proof fn lemma_never_adopts(t: Seq<StoreEvent>, base: Seq<EntityView>, m: Seq<MutationView>)
    ensures
        !(resolved(t, base, Some(m)) is Ok && resolved(t, base, Some(m))->Ok_0 is Adopt),
{
    reveal(resolved);
}

/// The requests of a resolution and of what comes after it fall apart again.
proof fn lemma_two_parts(start: Seq<StoreEvent>, middle: Seq<StoreEvent>, now: Seq<StoreEvent>)
    requires
        store::extends(middle, start),
        store::extends(now, middle),
        resolve_requests(store::since(middle, start)),
    ensures
        store::extends(now, start),
        ({
            let t = store::since(now, start);
            let n = store::since(middle, start).len() as int;
            &&& resolve_len(t) == n
            &&& t.len() >= n
            &&& t.take(n) == store::since(middle, start)
            &&& t.skip(n) == store::since(now, middle)
            &&& bodies_read_back(store::since(middle, start)) && bodies_read_back(
                store::since(now, middle),
            ) ==> bodies_read_back(t)
        }),
{
    let t = store::since(now, start);
    let n = store::since(middle, start).len() as int;
    assert(now.take(start.len() as int) =~= now.take(middle.len() as int).take(
        start.len() as int,
    ));
    assert forall|i: int| 0 <= i < middle.len() implies now[i] == middle[i] by {
        assert(now.take(middle.len() as int)[i] == now[i]);
    }
    assert(t.take(n) =~= store::since(middle, start));
    assert(t.skip(n) =~= store::since(now, middle));
    assert(t[0] == t.take(n)[0]);
    if bodies_read_back(t.take(n)) && bodies_read_back(t.skip(n)) {
        assert forall|i: int| 0 <= i < t.len() && served(#[trigger] t[i]) is Some implies
            manifest::reads_back(served(t[i])->0) by {
            if i < n {
                assert(t.take(n)[i] == t[i]);
            } else {
                assert(t.skip(n)[i - n] == t[i]);
            }
        }
    }
}

/// Commit a new manifest after a mutating push: bodies are already live; this
/// writes the manifest last with a conditional put. A warm base is replaced
/// on its own etag. A cold base resolves the condition against the live object
/// ([`resolve_cold_put_plan`]). A lost race answers
/// [`CommitOutcome::PreconditionFailed`] and never clobbers the other writer's
/// manifest. Zero successes skip the write entirely.
pub fn commit_manifest<S: ObjectStore>(
    store: &mut Session<S>,
    base: &InventoryBase,
    successes: &[CommitMutation],
    now_ms: u64,
) -> (r: (Result<CommitOutcome, Error>, CacheUpdate))
    ensures
        store::runs(*old(store), *final(store)),
        store::extends(final(store).trace(), old(store).trace()),
        ({
            let t = store::since(final(store).trace(), old(store).trace());
            let m = mutations(successes@);
            &&& bodies_read_back(t)
            &&& commit_requests(t, base@, m, now_ms)
            &&& commit_view(r.0) == commit_result(t, base@, m, now_ms)
            &&& r.1@ == commit_update(t, base@, m, now_ms)
        }),
{
    let ghost start = store.trace();
    let ghost m = mutations(successes@);
    assert(store::since(start, start) =~= Seq::<StoreEvent>::empty());
    assert(start.take(start.len() as int) =~= start);
    if successes.len() == 0 {
        return (Ok(CommitOutcome::SkippedNoMutations), CacheUpdate::Keep);
    }
    if let Some(e) = &base.manifest_etag {
        let files = apply_commit_mutations(base.file_entities.as_slice(), successes);
        let (outcome, update) = publish(
            store,
            files.as_slice(),
            WriteCond::IfMatch(e.clone()),
            now_ms,
        );
        return (as_commit(outcome), update);
    }
    let resolution = resolve_cold_put_plan(store, base.file_entities.as_slice(), Some(successes));
    let ghost middle = store.trace();
    proof {
        assert(middle.take(middle.len() as int) =~= middle);
        lemma_two_parts(start, middle, middle);
        assert(store::since(middle, middle) =~= Seq::<StoreEvent>::empty());
    }
    let (files, cond) = match resolution {
        Ok(ColdPlan::Create { files }) => (files, WriteCond::IfNoneMatchStar),
        Ok(ColdPlan::ForcePut { files }) => (files, WriteCond::Force),
        Ok(ColdPlan::Overwrite { files, etag }) => (files, WriteCond::IfMatch(etag)),
        Ok(ColdPlan::Adopt { .. }) => {
            // With mutations to commit nothing is ever adopted.
            proof {
                lemma_never_adopts(store::since(middle, start), base@.file_entities, m);
                assert(false);
            }
            return (Ok(CommitOutcome::PreconditionFailed), CacheUpdate::Keep);
        },
        Err(e) => return (Err(e), CacheUpdate::Keep),
    };
    let (outcome, update) = publish(store, files.as_slice(), cond, now_ms);
    proof {
        lemma_two_parts(start, middle, store.trace());
    }
    (as_commit(outcome), update)
}

/// Outcome of an inventory bootstrap: published, adopted a valid manifest that
/// was already there, or lost the race to another writer.
#[derive(Debug, PartialEq, Eq)]
pub enum EnsureOutcome {
    Written { etag: Option<String>, entry_count: usize },
    Adopted { etag: Option<String>, entry_count: usize },
    PreconditionFailed,
}

impl View for EnsureOutcome {
    type V = OutcomeView;

    open spec fn view(&self) -> OutcomeView {
        match *self {
            EnsureOutcome::Written { etag, entry_count } => OutcomeView::Written {
                etag: text::opt_text(etag),
                entry_count,
            },
            EnsureOutcome::Adopted { etag, entry_count } => OutcomeView::Adopted {
                etag: text::opt_text(etag),
                entry_count,
            },
            EnsureOutcome::PreconditionFailed => OutcomeView::PreconditionFailed,
        }
    }
}

/// The requests of a bootstrap.
pub open spec fn ensure_requests(t: Seq<StoreEvent>, files: Seq<EntityView>, now_ms: u64) -> bool {
    let n = resolve_len(t);
    &&& t.len() >= n
    &&& resolve_requests(t.take(n))
    &&& match resolved(t.take(n), files, None) {
        Ok(ColdView::Write { files: own, cond }) => publish_requests(t.skip(n), own, cond, now_ms),
        _ => t.len() == n,
    }
}

/// What a bootstrap returns for the answers to its requests.
pub open spec fn ensure_result(t: Seq<StoreEvent>, files: Seq<EntityView>, now_ms: u64) -> Result<
    OutcomeView,
    ErrorView,
> {
    let n = resolve_len(t);
    match resolved(t.take(n), files, None) {
        Ok(ColdView::Write { files: own, cond }) => publish_result(t.skip(n), own, now_ms),
        Ok(ColdView::Adopt { etag, entry_count, .. }) => Ok(
            OutcomeView::Adopted { etag, entry_count },
        ),
        Err(e) => Err(e),
    }
}

/// What a bootstrap means for the cache: only a write is mirrored.
pub open spec fn ensure_update(t: Seq<StoreEvent>, files: Seq<EntityView>, now_ms: u64) -> CacheUpdateView {
    let n = resolve_len(t);
    match resolved(t.take(n), files, None) {
        Ok(ColdView::Write { files: own, cond }) => publish_update(t.skip(n), own, now_ms),
        _ => CacheUpdateView::Keep,
    }
}

/// The view of a bootstrap result.
pub open spec fn ensure_view(r: Result<EnsureOutcome, Error>) -> Result<OutcomeView, ErrorView> {
    match r {
        Ok(o) => Ok(o@),
        Err(e) => Err(e@),
    }
}

/// Shared write arm of the bootstrap: publish the files under a condition.
fn write_bootstrap<S: ObjectStore>(
    store: &mut Session<S>,
    files: &[Entity],
    cond: WriteCond,
    now_ms: u64,
) -> (r: (Result<EnsureOutcome, Error>, CacheUpdate))
    ensures
        store::runs(*old(store), *final(store)),
        store::extends(final(store).trace(), old(store).trace()),
        ({
            let t = store::since(final(store).trace(), old(store).trace());
            let f = entity::entities(files@);
            &&& bodies_read_back(t)
            &&& publish_requests(t, f, cond@, now_ms)
            &&& ensure_view(r.0) == publish_result(t, f, now_ms)
            &&& r.1@ == publish_update(t, f, now_ms)
        }),
{
    let (outcome, update) = publish(store, files, cond, now_ms);
    let r = match outcome {
        Ok(Published::Written { etag, entry_count }) => Ok(
            EnsureOutcome::Written { etag, entry_count },
        ),
        Ok(Published::PreconditionFailed) => Ok(EnsureOutcome::PreconditionFailed),
        Err(e) => Err(e),
    };
    (r, update)
}

/// The base after a bootstrap: what was published or adopted, with its etag, or
/// the base as it was.
pub open spec fn ensured_base(t: Seq<StoreEvent>, base: BaseView, now_ms: u64) -> BaseView {
    match resolved(t.take(resolve_len(t)), base.file_entities, None) {
        Ok(ColdView::Adopt { files, etag, .. }) => BaseView {
            source: SourceView::Manifest { remote_etag: etag },
            file_entities: files,
            manifest_etag: etag,
        },
        _ => match ensure_result(t, base.file_entities, now_ms) {
            Ok(OutcomeView::Written { etag, .. }) => if etag is Some {
                BaseView {
                    source: SourceView::Manifest { remote_etag: etag },
                    file_entities: base.file_entities,
                    manifest_etag: etag,
                }
            } else {
                base
            },
            _ => base,
        },
    }
}

/// The base that was published, if its etag is known.
fn published_base(base: &InventoryBase, etag: &Option<String>) -> (r: Option<InventoryBase>)
    ensures
        match r {
            Some(b) => etag is Some && b@ == (BaseView {
                source: SourceView::Manifest { remote_etag: text::opt_text(*etag) },
                file_entities: base@.file_entities,
                manifest_etag: text::opt_text(*etag),
            }),
            None => etag is None,
        },
{
    match etag {
        Some(_) => Some(
            InventoryBase {
                source: InventorySource::Manifest { remote_etag: clone_opt_string(etag) },
                file_entities: clone_entities(base.file_entities.as_slice()),
                manifest_etag: clone_opt_string(etag),
            },
        ),
        None => None,
    }
}

/// Publish (or adopt) the remote manifest from a cold inventory base, and say
/// what to go on with: the base that was published or adopted, or `None` if
/// that is the base as it was. The caller decides when a bootstrap is due. It
/// never lists again and never claims uploads in flight: it publishes the
/// snapshot of the base, or adopts a valid live manifest without writing.
pub fn ensure_remote_manifest<S: ObjectStore>(
    store: &mut Session<S>,
    base: &InventoryBase,
    now_ms: u64,
) -> (r: (Result<EnsureOutcome, Error>, Option<InventoryBase>, CacheUpdate))
    ensures
        store::runs(*old(store), *final(store)),
        store::extends(final(store).trace(), old(store).trace()),
        ({
            let t = store::since(final(store).trace(), old(store).trace());
            let f = base@.file_entities;
            &&& bodies_read_back(t)
            &&& ensure_requests(t, f, now_ms)
            &&& ensure_view(r.0) == ensure_result(t, f, now_ms)
            &&& ensured_base(t, base@, now_ms) == (match r.1 {
                Some(b) => b@,
                None => base@,
            })
            &&& r.2@ == ensure_update(t, f, now_ms)
        }),
{
    let ghost start = store.trace();
    let resolution = resolve_cold_put_plan(store, base.file_entities.as_slice(), None);
    let ghost middle = store.trace();
    proof {
        assert(middle.take(middle.len() as int) =~= middle);
        lemma_two_parts(start, middle, middle);
        assert(store::since(middle, middle) =~= Seq::<StoreEvent>::empty());
    }
    let (outcome, update) = match resolution {
        Ok(ColdPlan::Adopt { files, etag, entry_count }) => {
            let adopted = InventoryBase {
                source: InventorySource::Manifest { remote_etag: clone_opt_string(&etag) },
                file_entities: files,
                manifest_etag: clone_opt_string(&etag),
            };
            return (
                Ok(EnsureOutcome::Adopted { etag, entry_count }),
                Some(adopted),
                CacheUpdate::Keep,
            );
        },
        Ok(ColdPlan::Create { files }) => write_bootstrap(
            store,
            files.as_slice(),
            WriteCond::IfNoneMatchStar,
            now_ms,
        ),
        Ok(ColdPlan::ForcePut { files }) => write_bootstrap(
            store,
            files.as_slice(),
            WriteCond::Force,
            now_ms,
        ),
        Ok(ColdPlan::Overwrite { files, etag }) => write_bootstrap(
            store,
            files.as_slice(),
            WriteCond::IfMatch(etag),
            now_ms,
        ),
        Err(e) => return (Err(e), None, CacheUpdate::Keep),
    };
    proof {
        lemma_two_parts(start, middle, store.trace());
    }
    let now = match &outcome {
        Ok(EnsureOutcome::Written { etag, .. }) => published_base(base, etag),
        _ => None,
    };
    (outcome, now, update)
}

/// Repair options.
#[derive(Debug, Clone, Copy)]
pub struct RepairOpts {
    /// Overwrite the manifest unconditionally.
    pub force: bool,
    /// Compute the body and report the entry count but write nothing.
    pub dry_run: bool,
}

/// Report of a repair run.
#[derive(Debug)]
pub struct RepairReport {
    /// Number of file entities listed (without reserved keys).
    pub listed: usize,
    /// Whether the manifest object was written this run.
    pub written: bool,
    /// True when `dry_run` was set.
    pub dry_run: bool,
    /// The manifest object's etag after the run, when it is known.
    pub etag: Option<String>,
    /// Advisory warnings from the listing.
    pub warnings: Vec<String>,
}

/// The mathematical view of a [`RepairReport`].
pub struct RepairView {
    pub listed: usize,
    pub written: bool,
    pub dry_run: bool,
    pub etag: Option<Seq<char>>,
    pub warnings: Seq<Seq<char>>,
}

impl View for RepairReport {
    type V = RepairView;

    open spec fn view(&self) -> RepairView {
        RepairView {
            listed: self.listed,
            written: self.written,
            dry_run: self.dry_run,
            etag: text::opt_text(self.etag),
            warnings: text::texts(self.warnings@),
        }
    }
}

/// The view of a repair result.
pub open spec fn repair_view(r: Result<RepairReport, Error>) -> Result<RepairView, ErrorView> {
    match r {
        Ok(o) => Ok(o@),
        Err(e) => Err(e@),
    }
}

/// Whether a put lost its race.
pub open spec fn lost_race(e: StoreEvent) -> bool {
    put_reply(e) matches Err(ErrorView::PreconditionFailed(_))
}

/// The requests that write a rebuilt body: one unconditional put if forced;
/// else a head, then a put on what it found, and once more of both if the
/// first put lost its race.
pub open spec fn rewrite_requests(t: Seq<StoreEvent>, body: Seq<u8>, force: bool) -> bool {
    if force {
        t.len() == 1 && puts_manifest(t[0], body, CondView::Force)
    } else {
        &&& t.len() >= 1
        &&& heads_manifest(t[0])
        &&& match head_reply(t[0]) {
            Ok(cur) => {
                &&& t.len() >= 2
                &&& puts_manifest(t[1], body, present_cond(cur.etag))
                &&& if lost_race(t[1]) {
                    &&& t.len() >= 3
                    &&& heads_manifest(t[2])
                    &&& match head_reply(t[2]) {
                        Ok(again) => t.len() == 4 && puts_manifest(
                            t[3],
                            body,
                            present_cond(again.etag),
                        ),
                        Err(_) => t.len() == 3,
                    }
                } else {
                    t.len() == 2
                }
            },
            Err(ErrorView::NotFound(_)) => t.len() == 2 && puts_manifest(
                t[1],
                body,
                CondView::IfNoneMatchStar,
            ),
            Err(_) => t.len() == 1,
        }
    }
}

/// The etag of a put's answer, or its error; a lost race has its own message.
pub open spec fn put_etag(e: StoreEvent, lost: Seq<char>) -> Result<Option<Seq<char>>, ErrorView> {
    match put_reply(e) {
        Ok(written) => Ok(written.etag),
        Err(ErrorView::PreconditionFailed(_)) => Err(ErrorView::PreconditionFailed(lost)),
        Err(x) => Err(x),
    }
}

/// What writing a rebuilt body gives: the new etag.
pub open spec fn rewritten(t: Seq<StoreEvent>, force: bool) -> Result<Option<Seq<char>>, ErrorView> {
    if force {
        put_etag(t[0], "unconditional put of "@ + MANIFEST_KEY@ + " refused"@)
    } else {
        match head_reply(t[0]) {
            Ok(_) => if lost_race(t[1]) {
                match head_reply(t[2]) {
                    Ok(_) => put_etag(
                        t[3],
                        "lost race twice on "@ + MANIFEST_KEY@ + " (repair retried once)"@,
                    ),
                    Err(e) => Err(e),
                }
            } else {
                put_etag(t[1], ""@)
            },
            Err(ErrorView::NotFound(_)) => put_etag(
                t[1],
                "lost race creating "@ + MANIFEST_KEY@ + " via repair"@,
            ),
            Err(e) => Err(e),
        }
    }
}

/// What writing a rebuilt body means for the cache.
pub open spec fn rewrite_update(
    t: Seq<StoreEvent>,
    body: Seq<u8>,
    force: bool,
    now_ms: u64,
) -> CacheUpdateView {
    match rewritten(t, force) {
        Ok(etag) => filled(body, etag, now_ms),
        Err(_) => CacheUpdateView::Keep,
    }
}

spec fn etag_view(r: Result<Option<String>, Error>) -> Result<Option<Seq<char>>, ErrorView> {
    match r {
        Ok(e) => Ok(text::opt_text(e)),
        Err(e) => Err(e@),
    }
}

/// Writes a rebuilt body.
fn rewrite_manifest<S: ObjectStore>(
    store: &mut Session<S>,
    body: &Vec<u8>,
    force: bool,
    now_ms: u64,
) -> (r: (Result<Option<String>, Error>, CacheUpdate))
    ensures
        store::runs(*old(store), *final(store)),
        store::extends(final(store).trace(), old(store).trace()),
        ({
            let t = store::since(final(store).trace(), old(store).trace());
            &&& rewrite_requests(t, body@, force)
            &&& etag_view(r.0) == rewritten(t, force)
            &&& r.1@ == rewrite_update(t, body@, force, now_ms)
        }),
{
    let ghost start = store.trace();
    let ghost n = start.len() as int;
    if force {
        let (outcome, update) = write_manifest_body(store, body, WriteCond::Force, now_ms);
        proof {
            assert(store::since(store.trace(), start) =~= seq![store.trace().last()]);
            assert(store.trace().take(n) =~= store.trace().drop_last());
        }
        return match outcome {
            Ok(WriteBodyOutcome::Written { etag }) => (Ok(etag), update),
            Ok(WriteBodyOutcome::PreconditionFailed) => (
                Err(
                    Error::PreconditionFailed(
                        cat3("unconditional put of ", MANIFEST_KEY, " refused"),
                    ),
                ),
                update,
            ),
            Err(e) => (Err(e), update),
        };
    }
    let head = store.head(MANIFEST_KEY);
    let ghost e0 = store.trace().last();
    let ghost t1 = store.trace();
    proof {
        assert(store::since(t1, start) =~= seq![e0]);
        assert(t1.take(n) =~= start);
    }
    let cur = match head {
        Ok(cur) => cur,
        Err(Error::NotFound(_)) => {
            let (outcome, update) = write_manifest_body(
                store,
                body,
                WriteCond::IfNoneMatchStar,
                now_ms,
            );
            proof {
                let now = store.trace();
                assert(now.drop_last()[n] == e0);
                assert(store::since(now, start) =~= seq![e0, now.last()]);
                assert(now.take(n) =~= now.drop_last().take(n));
            }
            return match outcome {
                Ok(WriteBodyOutcome::Written { etag }) => (Ok(etag), update),
                Ok(WriteBodyOutcome::PreconditionFailed) => (
                    Err(
                        Error::PreconditionFailed(
                            cat3("lost race creating ", MANIFEST_KEY, " via repair"),
                        ),
                    ),
                    update,
                ),
                Err(e) => (Err(e), update),
            };
        },
        Err(e) => return (Err(e), CacheUpdate::Keep),
    };
    let (outcome, update) = write_manifest_body(store, body, cond_from_etag(cur.etag), now_ms);
    let ghost e1 = store.trace().last();
    let ghost t2 = store.trace();
    proof {
        assert(t2.drop_last()[n] == e0);
        assert(store::since(t2, start) =~= seq![e0, e1]);
        assert(t2.take(n) =~= t2.drop_last().take(n));
    }
    match outcome {
        Ok(WriteBodyOutcome::Written { etag }) => return (Ok(etag), update),
        Ok(WriteBodyOutcome::PreconditionFailed) => {},
        Err(e) => return (Err(e), update),
    }
    // Lost the race: retry once against a fresh head.
    let head = store.head(MANIFEST_KEY);
    let ghost e2 = store.trace().last();
    let ghost t3 = store.trace();
    proof {
        assert(t3.drop_last() =~= t2);
        assert(t3[n] == t2[n] && t3[n + 1] == t2[n + 1]);
        assert(store::since(t3, start) =~= seq![e0, e1, e2]);
        assert(t3.take(n) =~= t2.take(n));
    }
    let again = match head {
        Ok(again) => again,
        Err(e) => return (Err(e), CacheUpdate::Keep),
    };
    let (outcome, update) = write_manifest_body(store, body, cond_from_etag(again.etag), now_ms);
    proof {
        let t4 = store.trace();
        assert(t4.drop_last()[n] == e0 && t4.drop_last()[n + 1] == e1 && t4.drop_last()[n + 2]
            == e2);
        assert(store::since(t4, start) =~= seq![e0, e1, e2, t4.last()]);
        assert(t4.take(n) =~= t4.drop_last().take(n));
    }
    match outcome {
        Ok(WriteBodyOutcome::Written { etag }) => (Ok(etag), update),
        Ok(WriteBodyOutcome::PreconditionFailed) => (
            Err(
                Error::PreconditionFailed(
                    cat3("lost race twice on ", MANIFEST_KEY, " (repair retried once)"),
                ),
            ),
            update,
        ),
        Err(e) => (Err(e), update),
    }
}

/// The requests of a repair: one listing, then the rewrite, unless the listing
/// fails, a listed file may not be stored, or the run is dry.
pub open spec fn repair_requests(t: Seq<StoreEvent>, opts: RepairOpts, now_ms: u64) -> bool {
    &&& t.len() >= 1
    &&& lists_all(t[0])
    &&& match cold_result(list_reply(t[0])) {
        Err(_) => t.len() == 1,
        Ok(inv) => match body_for(inv.base.file_entities, now_ms) {
            Err(_) => t.len() == 1,
            Ok(b) => if opts.dry_run {
                t.len() == 1
            } else {
                rewrite_requests(t.skip(1), b, opts.force)
            },
        },
    }
}

/// What a repair returns for the answers to its requests.
pub open spec fn repair_result(t: Seq<StoreEvent>, opts: RepairOpts, now_ms: u64) -> Result<
    RepairView,
    ErrorView,
> {
    match cold_result(list_reply(t[0])) {
        Err(e) => Err(e),
        Ok(inv) => match body_for(inv.base.file_entities, now_ms) {
            Err(e) => Err(e),
            Ok(b) => if opts.dry_run {
                Ok(
                    RepairView {
                        listed: inv.base.file_entities.len() as usize,
                        written: false,
                        dry_run: true,
                        etag: None,
                        warnings: inv.warnings,
                    },
                )
            } else {
                match rewritten(t.skip(1), opts.force) {
                    Ok(etag) => Ok(
                        RepairView {
                            listed: inv.base.file_entities.len() as usize,
                            written: true,
                            dry_run: false,
                            etag,
                            warnings: inv.warnings,
                        },
                    ),
                    Err(e) => Err(e),
                }
            },
        },
    }
}

/// What a repair means for the cache.
pub open spec fn repair_update(t: Seq<StoreEvent>, opts: RepairOpts, now_ms: u64) -> CacheUpdateView {
    match cold_result(list_reply(t[0])) {
        Err(_) => CacheUpdateView::Keep,
        Ok(inv) => match body_for(inv.base.file_entities, now_ms) {
            Err(_) => CacheUpdateView::Keep,
            Ok(b) => if opts.dry_run {
                CacheUpdateView::Keep
            } else {
                rewrite_update(t.skip(1), b, opts.force, now_ms)
            },
        },
    }
}

/// Rebuild the remote manifest from a live listing: reserved keys are
/// stripped, and the body is written conditionally - on the current manifest's
/// etag when one exists (retry once on a lost race), If-None-Match: * when
/// creating, unconditionally under `force`. Never touches file bodies.
/// `dry_run` computes the body but writes nothing.
pub fn repair_manifest<S: ObjectStore>(store: &mut Session<S>, opts: &RepairOpts, now_ms: u64) -> (r:
    (Result<RepairReport, Error>, CacheUpdate))
    ensures
        store::runs(*old(store), *final(store)),
        store::extends(final(store).trace(), old(store).trace()),
        ({
            let t = store::since(final(store).trace(), old(store).trace());
            &&& repair_requests(t, *opts, now_ms)
            &&& repair_view(r.0) == repair_result(t, *opts, now_ms)
            &&& r.1@ == repair_update(t, *opts, now_ms)
        }),
{
    let ghost start = store.trace();
    let ghost n = start.len() as int;
    let inv = live_list_head(store);
    let ghost t1 = store.trace();
    let ghost e0 = t1.last();
    proof {
        assert(store::since(t1, start) =~= seq![e0]);
        assert(t1.take(n) =~= t1.drop_last());
    }
    let inv = match inv {
        Ok(inv) => inv,
        Err(e) => return (Err(e), CacheUpdate::Keep),
    };
    let listed: usize = inv.base.file_entities.len();
    let body = match build_body(inv.base.file_entities.as_slice(), now_ms) {
        Ok(b) => b,
        Err(e) => return (Err(e), CacheUpdate::Keep),
    };
    if opts.dry_run {
        return (
            Ok(
                RepairReport {
                    listed,
                    written: false,
                    dry_run: true,
                    etag: None,
                    warnings: inv.warnings,
                },
            ),
            CacheUpdate::Keep,
        );
    }
    let (outcome, update) = rewrite_manifest(store, &body, opts.force, now_ms);
    proof {
        let now = store.trace();
        let t = store::since(now, start);
        assert(now.take(t1.len() as int)[n] == now[n]);
        assert(t[0] == e0);
        assert(t.skip(1) =~= store::since(now, t1));
        assert(now.take(n) =~= now.take(t1.len() as int).take(n));
    }
    match outcome {
        Ok(etag) => (
            Ok(
                RepairReport {
                    listed,
                    written: true,
                    dry_run: false,
                    etag,
                    warnings: inv.warnings,
                },
            ),
            update,
        ),
        Err(e) => (Err(e), update),
    }
}

} // verus!
