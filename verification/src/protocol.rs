//! What the inventory protocols ask of a store, and what they make of its
//! replies: each law speaks of the requests themselves.

use vstd::prelude::*;
use crate::config::InventoryMode;
use crate::entity;
use crate::entity::{Entity, EntityView};
use crate::error::ErrorView;
use crate::inventory;
use crate::inventory::{
    BaseView, CacheUpdateView, CacheView, CondView, MutationView, OutcomeView, RemoteView,
    RepairOpts, RepairView, SourceView, WarmView,
};
use crate::laws;
use crate::manifest;
use crate::manifest::ManifestView;
use crate::sort;
use crate::store::mock;
use crate::store::{GetOutcomeView, ListingView, StoreEvent};
use crate::text;

verus! {

/// Whether an event puts a body at the manifest's key: under the given etag, if
/// there is one, or only where there is no manifest yet, or without a condition.
pub open spec fn puts(
    e: StoreEvent,
    with_body: Seq<u8>,
    if_match: Option<Seq<char>>,
    if_absent: bool,
) -> bool {
    &&& e matches StoreEvent::PutWith { key, body, opts, reply }
    &&& key == ".vaultsync/manifest/v1.json"@
    &&& body == with_body
    &&& opts.if_match_etag == if_match
    &&& opts.if_none_match_star == if_absent
    &&& opts.mtime_ms is None
}

/// What comes of a put of a manifest body: its etag, or a lost race, or the error
/// of the store. The cache mirrors what was put, and is left alone otherwise.
pub open spec fn comes_of_put(
    e: StoreEvent,
    body: Seq<u8>,
    entries: nat,
    now_ms: u64,
    result: Result<OutcomeView, ErrorView>,
    update: CacheUpdateView,
) -> bool {
    match e->PutWith_reply {
        Ok(x) => {
            &&& result == Ok::<_, ErrorView>(
                OutcomeView::Written { etag: x.etag, entry_count: entries as usize },
            )
            &&& mirrors(update, body, x.etag, now_ms)
        },
        Err(x) => {
            &&& update is Keep
            &&& result == if x is PreconditionFailed {
                Ok(OutcomeView::PreconditionFailed)
            } else {
                Err(x)
            }
        },
    }
}

/// Whether an update makes the cache a mirror of a body under an etag.
pub open spec fn mirrors(
    u: CacheUpdateView,
    with_body: Seq<u8>,
    etag: Option<Seq<char>>,
    now_ms: u64,
) -> bool {
    &&& u matches CacheUpdateView::Fill { body, meta }
    &&& body == with_body
    &&& meta.remote_etag == etag
    &&& meta.fetched_at_ms == now_ms
    &&& meta.source_key == ".vaultsync/manifest/v1.json"@
    &&& meta.body_fnv == mock::fingerprint(with_body)
}

/// Whether an event asks for the metadata of the manifest.
pub open spec fn heads(e: StoreEvent) -> bool {
    e matches StoreEvent::Head { key, .. } && key == ".vaultsync/manifest/v1.json"@
}

/// Whether an event gets the manifest, of 64 MiB at the most.
pub open spec fn gets(e: StoreEvent) -> bool {
    e matches StoreEvent::Get { key, cap, .. } && key == ".vaultsync/manifest/v1.json"@ && cap
        == 67_108_864
}

/// A commit on a known etag is one put of the base with the mutations folded in,
/// on that etag. Files that no manifest can hold make it fail without a request.
pub proof fn law_commit_on_a_known_etag(
    t: Seq<StoreEvent>,
    base: BaseView,
    m: Seq<MutationView>,
    now_ms: u64,
    known: Seq<char>,
)
    requires
        inventory::commit_requests(t, base, m, now_ms),
        m.len() > 0,
        base.manifest_etag == Some(known),
    ensures
        ({
            let files = inventory::applied(base.file_entities, m);
            let r = inventory::commit_result(t, base, m, now_ms);
            let u = inventory::commit_update(t, base, m, now_ms);
            match inventory::body_for(files, now_ms) {
                Err(e) => t.len() == 0 && r == Err::<OutcomeView, ErrorView>(e) && u is Keep,
                Ok(b) => t.len() == 1 && puts(t[0], b, Some(known), false) && comes_of_put(
                    t[0],
                    b,
                    files.len(),
                    now_ms,
                    r,
                    u,
                ),
            }
        }),
{
    reveal(inventory::publish_requests);
    reveal(inventory::publish_result);
    reveal(inventory::publish_update);
}

/// A commit without mutations does nothing.
pub proof fn law_commit_of_nothing(t: Seq<StoreEvent>, base: BaseView, now_ms: u64)
    requires
        inventory::commit_requests(t, base, Seq::<MutationView>::empty(), now_ms),
    ensures
        t.len() == 0,
        inventory::commit_result(t, base, Seq::<MutationView>::empty(), now_ms) == Ok::<
            _,
            ErrorView,
        >(OutcomeView::SkippedNoMutations),
        inventory::commit_update(t, base, Seq::<MutationView>::empty(), now_ms) is Keep,
{
}

/// What is put where no etag is known, and how: `theirs` are the files if a valid
/// manifest is there, `ours` otherwise.
pub open spec fn puts_after_a_look(
    t: Seq<StoreEvent>,
    theirs: Seq<EntityView>,
    ours: Seq<EntityView>,
    now_ms: u64,
    result: Result<OutcomeView, ErrorView>,
    update: CacheUpdateView,
) -> bool {
    &&& t.len() >= 1
    &&& heads(t[0])
    &&& match t[0]->Head_reply {
        Err(e) => if e is NotFound {
            publishes(t, 1, ours, None, true, now_ms, result, update)
        } else {
            t.len() == 1 && result == Err::<OutcomeView, ErrorView>(e) && update is Keep
        },
        Ok(h) => match h.etag {
            None => publishes(t, 1, ours, None, false, now_ms, result, update),
            Some(live) => {
                &&& t.len() >= 2
                &&& gets(t[1])
                &&& match t[1]->Get_reply {
                    Err(e) => t.len() == 2 && result is Err && update is Keep && result->Err_0
                        == if e is NotFound {
                        ErrorView::Other(
                            "manifest vanished between HEAD and GET during conditional resolve (another writer removed it); please retry"@,
                        )
                    } else {
                        e
                    },
                    Ok(_) => if !t[1]->Get_tripped && manifest::parsed(
                        t[1]->Get_body,
                        67_108_864,
                    ) is Ok {
                        publishes(t, 2, theirs, Some(live), false, now_ms, result, update)
                    } else {
                        publishes(t, 2, ours, Some(live), false, now_ms, result, update)
                    },
                }
            },
        },
    }
}

/// Whether request `n` is the put of the manifest of files, the last one; or
/// there is none because no manifest can hold the files.
pub open spec fn publishes(
    t: Seq<StoreEvent>,
    n: int,
    files: Seq<EntityView>,
    if_match: Option<Seq<char>>,
    if_absent: bool,
    now_ms: u64,
    result: Result<OutcomeView, ErrorView>,
    update: CacheUpdateView,
) -> bool {
    match inventory::body_for(files, now_ms) {
        Err(e) => t.len() == n && result == Err::<OutcomeView, ErrorView>(e) && update is Keep,
        Ok(b) => t.len() == n + 1 && puts(t[n], b, if_match, if_absent) && comes_of_put(
            t[n],
            b,
            files.len(),
            now_ms,
            result,
            update,
        ),
    }
}

/// A commit without a known etag looks first. Where there is no manifest it
/// creates one, only if there still is none. Where there is a valid one it folds
/// the mutations onto its entries, and a broken one it replaces by the base with
/// the mutations; both on the etag that it saw. It gives up if the store fails to
/// answer, or loses the manifest in between.
pub proof fn law_commit_looks_first(
    t: Seq<StoreEvent>,
    base: BaseView,
    m: Seq<MutationView>,
    now_ms: u64,
)
    requires
        inventory::commit_requests(t, base, m, now_ms),
        m.len() > 0,
        base.manifest_etag is None,
    ensures
        puts_after_a_look(
            t,
            inventory::applied(
                manifest::by_key(manifest::parsed(t[1]->Get_body, 67_108_864)->Ok_0.entries),
                m,
            ),
            inventory::applied(base.file_entities, m),
            now_ms,
            inventory::commit_result(t, base, m, now_ms),
            inventory::commit_update(t, base, m, now_ms),
        ),
{
    reveal(inventory::publish_requests);
    reveal(inventory::publish_result);
    reveal(inventory::publish_update);
    reveal(inventory::resolved);
    let n = inventory::resolve_len(t);
    let head = t.take(n);
    assert(head[0] == t[0]);
    if n == 2 {
        assert(head[1] == t[1]);
    }
    if t.len() > n {
        assert(t.skip(n)[0] == t[n]);
    }
}

/// A bootstrap looks first, as a commit does, but changes nothing where a valid
/// manifest is: it adopts its entries. Otherwise it puts the files that it was
/// given.
pub proof fn law_bootstrap_looks_first(t: Seq<StoreEvent>, base: BaseView, now_ms: u64)
    requires
        inventory::ensure_requests(t, base.file_entities, now_ms),
    ensures
        ({
            let r = inventory::ensure_result(t, base.file_entities, now_ms);
            let u = inventory::ensure_update(t, base.file_entities, now_ms);
            let b = inventory::ensured_base(t, base, now_ms);
            if t.len() >= 2 && heads(t[0]) && t[0]->Head_reply is Ok
                && t[0]->Head_reply->Ok_0.etag is Some && t[1] is Get && t[1]->Get_reply is Ok
                && !t[1]->Get_tripped && manifest::parsed(t[1]->Get_body, 67_108_864) is Ok {
                let found = manifest::parsed(t[1]->Get_body, 67_108_864)->Ok_0;
                let live = t[0]->Head_reply->Ok_0.etag;
                &&& t.len() == 2
                &&& r == Ok::<_, ErrorView>(
                    OutcomeView::Adopted {
                        etag: live,
                        entry_count: found.entries.len() as usize,
                    },
                )
                &&& u is Keep
                &&& b.manifest_etag == live
                &&& b.source == (SourceView::Manifest { remote_etag: live })
                &&& b.file_entities == manifest::by_key(found.entries)
            } else {
                &&& puts_after_a_look(t, base.file_entities, base.file_entities, now_ms, r, u)
                &&& b.file_entities == base.file_entities
                &&& b.manifest_etag == match r {
                    Ok(OutcomeView::Written { etag, .. }) => if etag is Some {
                        etag
                    } else {
                        base.manifest_etag
                    },
                    _ => base.manifest_etag,
                }
                &&& b.source == match r {
                    Ok(OutcomeView::Written { etag, .. }) => if etag is Some {
                        SourceView::Manifest { remote_etag: etag }
                    } else {
                        base.source
                    },
                    _ => base.source,
                }
            }
        }),
{
    reveal(inventory::publish_requests);
    reveal(inventory::publish_result);
    reveal(inventory::publish_update);
    reveal(inventory::resolved);
    let n = inventory::resolve_len(t);
    let head = t.take(n);
    assert(head[0] == t[0]);
    if n == 2 {
        assert(head[1] == t[1]);
    }
    if t.len() > n {
        assert(t.skip(n)[0] == t[n]);
    }
}

/// The manifest that is put for files has them by ascending key, their number,
/// the time, the name of the program and no prefix. It can be made if and only if
/// no file is a folder, has an invalid or reserved key, or the key of another.
pub proof fn law_published_manifest(files: Seq<EntityView>, now_ms: u64)
    requires
        files.len() <= usize::MAX,
    ensures
        inventory::body_for(files, now_ms) is Ok <==> {
            &&& forall|i: int|
                0 <= i < files.len() ==> {
                    &&& entity::valid_key((#[trigger] files[i]).key)
                    &&& files[i].key[files[i].key.len() - 1] != '/'
                    &&& !(files[i].key.len() >= 11 && files[i].key.take(11) == ".vaultsync/"@)
                }
            &&& forall|i: int, j: int|
                0 <= i < j < files.len() ==> (#[trigger] files[i]).key != (#[trigger] files[j]).key
        },
        inventory::body_for(files, now_ms) matches Ok(b) ==> exists|m: ManifestView|
            {
                &&& b == #[trigger] manifest::body(m)
                &&& m.schema == "vaultsync.manifest.v1"@
                &&& m.created_ms == now_ms
                &&& m.generator == Some("vaultsync "@ + "0.1.0"@)
                &&& m.prefix is None
                &&& m.entry_count == files.len()
                &&& m.entries == manifest::by_key(files)
                &&& manifest::sound(m)
            },
{
    manifest::lemma_storable(files, 0);
    manifest::lemma_manifest_of_sound(files, now_ms, Some(inventory::generator()), None);
    lemma_storable_files(files);
    if inventory::body_for(files, now_ms) is Ok {
        let m = manifest::manifest_of(files, now_ms, Some(inventory::generator()), None)->Ok_0;
        assert(inventory::body_for(files, now_ms)->Ok_0 == manifest::body(m));
    }
}

proof fn lemma_storable_files(files: Seq<EntityView>)
    ensures
        manifest::storable(files) <==> {
            &&& forall|i: int|
                0 <= i < files.len() ==> {
                    &&& entity::valid_key((#[trigger] files[i]).key)
                    &&& files[i].key[files[i].key.len() - 1] != '/'
                    &&& !(files[i].key.len() >= 11 && files[i].key.take(11) == ".vaultsync/"@)
                }
            &&& forall|i: int, j: int|
                0 <= i < j < files.len() ==> (#[trigger] files[i]).key != (#[trigger] files[j]).key
        },
{
    reveal_strlit(".vaultsync/");
    assert(".vaultsync/"@.len() == 11);
    if manifest::storable(files) {
        assert forall|i: int| 0 <= i < files.len() implies {
            &&& entity::valid_key((#[trigger] files[i]).key)
            &&& files[i].key[files[i].key.len() - 1] != '/'
            &&& !(files[i].key.len() >= 11 && files[i].key.take(11) == ".vaultsync/"@)
        } by {
            assert(manifest::row_fault(files, i) is None);
        }
        assert forall|i: int, j: int| 0 <= i < j < files.len() implies (#[trigger] files[i]).key != (
        #[trigger] files[j]).key by {
            assert(manifest::row_fault(files, j) is None);
            if files[i].key == files[j].key {
                assert(manifest::repeats(files, j));
            }
        }
    }
    if (forall|i: int|
        0 <= i < files.len() ==> {
            &&& entity::valid_key((#[trigger] files[i]).key)
            &&& files[i].key[files[i].key.len() - 1] != '/'
            &&& !(files[i].key.len() >= 11 && files[i].key.take(11) == ".vaultsync/"@)
        }) && (forall|i: int, j: int|
        0 <= i < j < files.len() ==> (#[trigger] files[i]).key != (#[trigger] files[j]).key) {
        assert forall|i: int| 0 <= i < files.len() implies manifest::row_fault(files, i) is None by {
            assert(entity::valid_key(files[i].key));
            if manifest::repeats(files, i) {
                let j = choose|j: int| 0 <= j < i && (#[trigger] files[j]).key == files[i].key;
                assert(files[j].key != files[i].key);
            }
        }
    }
}

/// A body that is parsed as a manifest has the known schema, as many entries as it
/// says, by ascending key, each under a valid file key outside the control plane,
/// and none twice.
pub proof fn law_parsed_manifests_are_sound(bytes: Seq<u8>, cap: u64)
    requires
        bytes.len() <= cap ==> manifest::decode_body(bytes) is Ok ==> manifest::decode_body(
            bytes,
        )->Ok_0.entries.len() <= usize::MAX,
    ensures
        bytes.len() > cap ==> manifest::parsed(bytes, cap) is Err,
        manifest::parsed(bytes, cap) matches Ok(m) ==> {
            &&& m.schema == "vaultsync.manifest.v1"@
            &&& m.entry_count == m.entries.len()
            &&& sort::in_order::<Entity>(m.entries)
            &&& forall|i: int|
                0 <= i < m.entries.len() ==> {
                    &&& entity::valid_key((#[trigger] m.entries[i]).key)
                    &&& m.entries[i].key[m.entries[i].key.len() - 1] != '/'
                    &&& !(m.entries[i].key.len() >= 11 && m.entries[i].key.take(11)
                        == ".vaultsync/"@)
                }
            &&& forall|i: int, j: int|
                0 <= i < j < m.entries.len() ==> (#[trigger] m.entries[i]).key != (
                #[trigger] m.entries[j]).key
        },
{
    if let Ok(m) = manifest::parsed(bytes, cap) {
        let d = manifest::decode_body(bytes)->Ok_0;
        manifest::lemma_storable(d.entries, 0);
        manifest::lemma_sorted_storable(d.entries);
        sort::lemma_sorted_in_order::<Entity>(d.entries);
        lemma_storable_files(m.entries);
    }
}

/// A decoded body is parsed if and only if it is sound: nothing that may be
/// stored is refused.
pub proof fn law_sound_manifests_are_parsed(bytes: Seq<u8>, cap: u64)
    requires
        bytes.len() <= cap,
        manifest::decode_body(bytes) is Ok,
    ensures
        ({
            let d = manifest::decode_body(bytes)->Ok_0;
            &&& manifest::parsed(bytes, cap) is Ok <==> {
                &&& d.schema == "vaultsync.manifest.v1"@
                &&& d.entry_count == d.entries.len()
                &&& forall|i: int|
                    0 <= i < d.entries.len() ==> {
                        &&& entity::valid_key((#[trigger] d.entries[i]).key)
                        &&& d.entries[i].key[d.entries[i].key.len() - 1] != '/'
                        &&& !(d.entries[i].key.len() >= 11 && d.entries[i].key.take(11)
                            == ".vaultsync/"@)
                    }
                &&& forall|i: int, j: int|
                    0 <= i < j < d.entries.len() ==> (#[trigger] d.entries[i]).key != (
                    #[trigger] d.entries[j]).key
            }
            &&& manifest::parsed(bytes, cap) matches Ok(m) ==> m.created_ms == d.created_ms
                && m.generator == d.generator && m.prefix == d.prefix && m.entries
                == manifest::by_key(d.entries)
        }),
{
    let d = manifest::decode_body(bytes)->Ok_0;
    manifest::lemma_storable(d.entries, 0);
    lemma_storable_files(d.entries);
}

/// A listing is taken without the entities that have no key or a reserved one;
/// the files among the rest are the base. What was reserved is warned of once,
/// after the warnings of the store.
pub proof fn law_listing_is_screened(l: ListingView, e: EntityView)
    ensures
        ({
            let inv = inventory::cold_inventory(l);
            &&& inv.entities.contains(e) == (l.entities.contains(e) && e.key.len() > 0
                && !crate::reserved_key(e.key))
            &&& inv.base.file_entities.contains(e) == (l.entities.contains(e) && e.key.len() > 0
                && !crate::reserved_key(e.key) && e.key[e.key.len() - 1] != '/')
            &&& inv.base.source is LiveListHead
            &&& inv.base.manifest_etag is None
            &&& inv.warnings.len() == l.warnings.len() || inv.warnings.len() == l.warnings.len() + 1
            &&& inv.warnings.take(l.warnings.len() as int) == l.warnings
            &&& l.entities.contains(e) && e.key.len() > 0 && crate::reserved_key(e.key)
                ==> inv.warnings.len() == l.warnings.len() + 1
        }),
{
    let named = crate::select(l.entities, inventory::keyed());
    let kept = crate::select(named, crate::unreserved());
    let dropped = crate::select(named, crate::reserved());
    let inv = inventory::cold_inventory(l);
    laws::lemma_selected(l.entities, inventory::keyed(), e);
    laws::lemma_selected(named, crate::unreserved(), e);
    laws::lemma_selected(named, crate::reserved(), e);
    laws::lemma_selected(kept, inventory::is_file(), e);
    assert(inv.warnings.take(l.warnings.len() as int) =~= l.warnings);
    if dropped.contains(e) {
        let i = choose|i: int| 0 <= i < dropped.len() && dropped[i] == e;
        assert(dropped.len() > 0);
    }
}

/// A key is reserved if and only if it lies in `.vaultsync/`, or its last segment,
/// without the `/` of a folder, is a reserved name.
pub proof fn law_reserved_keys(dir: Seq<char>, name: Seq<char>)
    requires
        name.len() > 0,
        forall|i: int| 0 <= i < name.len() ==> #[trigger] name[i] != '/',
    ensures
        crate::reserved_key(name) == crate::local::reserved_name(name),
        crate::local::reserved_name(name) ==> crate::reserved_key(name) && crate::reserved_key(
            name.push('/'),
        ) && crate::reserved_key(dir.push('/') + name) && crate::reserved_key(
            (dir.push('/') + name).push('/'),
        ),
        !crate::local::reserved_name(name) ==> {
            let key = dir.push('/') + name;
            crate::reserved_key(key) == (key.len() >= 11 && key.take(11) == ".vaultsync/"@)
        },
{
    reveal_strlit(".vaultsync/");
    assert(".vaultsync/"@.len() == 11);
    let deep = dir.push('/') + name;
    if name.len() >= 11 {
        assert(name.take(11)[10] == name[10]);
        assert(".vaultsync/"@[10] == '/');
    }
    text::lemma_one_segment(name);
    text::lemma_segments_concat(dir, name);
    text::lemma_segments_nonempty(dir);
    assert(text::segments(deep).last() == name);
    assert(name.push('/').drop_last() =~= name);
    assert(deep.push('/').drop_last() =~= deep);
    assert(name[name.len() - 1] != '/');
    assert(deep.last() == name[name.len() - 1]);
}

/// The requests of a load before its listing.
spec fn first_part(t: Seq<StoreEvent>, mode: InventoryMode) -> Seq<StoreEvent> {
    match mode {
        InventoryMode::Auto => inventory::warm_part(t),
        _ => t,
    }
}

proof fn lemma_load(t: Seq<StoreEvent>, mode: InventoryMode, cache: Option<CacheView>)
    requires
        mode == InventoryMode::Auto || mode == InventoryMode::Manifest,
        inventory::load_requests(t, mode, cache),
    ensures
        ({
            let w = first_part(t, mode);
            let r = inventory::load_result(t, mode, cache);
            &&& inventory::warm_requests(w, cache)
            &&& w.len() <= t.len()
            &&& forall|i: int| 0 <= i < w.len() ==> #[trigger] w[i] == t[i]
            &&& match inventory::warm_result(w, cache) {
                Ok(WarmView::Loaded(inv)) => t.len() == w.len() && r == Ok::<RemoteView, ErrorView>(
                    inv,
                ),
                Ok(WarmView::Missing) => unusable(
                    t,
                    w.len() as int,
                    mode == InventoryMode::Auto,
                    None,
                    r,
                ),
                Ok(WarmView::Invalid(detail)) => unusable(
                    t,
                    w.len() as int,
                    mode == InventoryMode::Auto,
                    Some(detail),
                    r,
                ),
                Err(e) => t.len() == w.len() && r == Err::<RemoteView, ErrorView>(e),
            }
        }),
{
    reveal_strlit("");
    let w = first_part(t, mode);
    let r = inventory::load_result(t, mode, cache);
    if mode == InventoryMode::Auto && t.len() == w.len() + 1 {
        assert(t[w.len() as int] == t.last());
        if let Ok(l) = t.last()->List_reply {
            assert(r->Ok_0.warnings.drop_last() =~= inventory::cold_inventory(l).warnings);
        }
    }
}

/// What a load without a cache asks and serves. It asks for the metadata of the
/// manifest, and for its body if that is there and not too large. A valid body
/// gives the manifest's files and their folders, with its etag. Without a usable
/// manifest the mode `manifest` fails, and `auto` goes on to a listing. Any other
/// error of the store is the error of the load.
pub proof fn law_load_reads_the_manifest_first(t: Seq<StoreEvent>, mode: InventoryMode)
    requires
        mode == InventoryMode::Auto || mode == InventoryMode::Manifest,
        inventory::load_requests(t, mode, None),
    ensures
        t.len() >= 1,
        heads(t[0]),
        ({
            let r = inventory::load_result(t, mode, None);
            let auto = mode == InventoryMode::Auto;
            match t[0]->Head_reply {
                Err(e) => if e is NotFound {
                    unusable(t, 1, auto, None, r)
                } else {
                    t.len() == 1 && r == Err::<RemoteView, ErrorView>(e)
                },
                Ok(h) => if h.size > 67_108_864 {
                    unusable(t, 1, auto, Some(too_large(h.size)), r)
                } else {
                    &&& t.len() >= 2
                    &&& gets(t[1])
                    &&& match t[1]->Get_reply {
                        Ok(x) => match manifest::parsed(t[1]->Get_body, 67_108_864) {
                            Ok(m) => t.len() == 2 && r == Ok::<RemoteView, ErrorView>(
                                inventory::warm_inventory(m, x.etag),
                            ),
                            Err(fault) => unusable(t, 2, auto, Some(fault.text()), r),
                        },
                        Err(e) => if e is NotFound {
                            unusable(t, 2, auto, None, r)
                        } else if t[1]->Get_tripped {
                            unusable(t, 2, auto, Some(grew_too_large()), r)
                        } else {
                            t.len() == 2 && r == Err::<RemoteView, ErrorView>(e)
                        },
                    }
                },
            }
        }),
{
    let w = first_part(t, mode);
    lemma_load(t, mode, None);
    assert(w[0] == t[0]);
    if w.len() > 1 {
        assert(w[1] == t[1]);
    }
}

/// What is wrong with a manifest object that is too large to be got.
pub open spec fn too_large(size: u64) -> Seq<char> {
    "manifest object is "@ + text::dec(size as nat) + " bytes, above the "@ + text::dec(67_108_864)
        + " byte soft cap; refusing to download (run vaultsync repair to rebuild it)"@
}

/// What is wrong with a manifest body that grew too large while it was got.
pub open spec fn grew_too_large() -> Seq<char> {
    "manifest body exceeded the "@ + text::dec(67_108_864)
        + " byte soft cap while streaming; refusing to use it (run vaultsync repair to rebuild it)"@
}

/// What happens after `n` requests that found no manifest, or one of which
/// something is wrong: `auto` lists everything, and adds a warning to what the
/// listing gives; the mode `manifest` fails.
pub open spec fn unusable(
    t: Seq<StoreEvent>,
    n: int,
    auto: bool,
    wrong: Option<Seq<char>>,
    r: Result<RemoteView, ErrorView>,
) -> bool {
    if auto {
        &&& t.len() == n + 1
        &&& t[n] is List
        &&& t[n]->List_prefix.len() == 0
        &&& match t[n]->List_reply {
            Err(e) => r == Err::<RemoteView, ErrorView>(e),
            Ok(l) => {
                let cold = inventory::cold_inventory(l);
                &&& r is Ok
                &&& r->Ok_0.entities == cold.entities
                &&& r->Ok_0.base == cold.base
                &&& r->Ok_0.warnings.len() == cold.warnings.len() + 1
                &&& r->Ok_0.warnings.drop_last() == cold.warnings
                &&& r->Ok_0.warnings.last() == match wrong {
                    None => "inventory manifest missing; falling back to list+head (next push will create one)"@,
                    Some(detail) => "inventory manifest invalid: "@ + detail
                        + "; falling back to list+head (push will try to replace a present corrupt object, or run vaultsync repair)"@,
                }
            },
        }
    } else {
        &&& t.len() == n
        &&& r is Err
        &&& r->Err_0 == ErrorView::Other(
            match wrong {
                None => "inventory.mode=manifest requires a valid remote manifest (none present); run vaultsync repair to create one"@,
                Some(detail) => "inventory.mode=manifest requires a valid remote manifest, but the object is invalid: "@
                    + detail + "; run vaultsync repair to rebuild it"@,
            },
        )
    }
}

/// What a manifest serves: its entries are the base, under its etag; the planner
/// gets them with their folders, and no warning.
pub proof fn law_warm_inventory(m: ManifestView, etag: Option<Seq<char>>, e: EntityView)
    ensures
        ({
            let inv = inventory::warm_inventory(m, etag);
            &&& inv.base.file_entities.contains(e) == m.entries.contains(e)
            &&& inv.base.file_entities.len() == m.entries.len()
            &&& inv.base.manifest_etag == etag
            &&& inv.base.source == (SourceView::Manifest { remote_etag: etag })
            &&& inv.warnings.len() == 0
            &&& inv.entities.contains(e) == (m.entries.contains(e) || (exists|i: int, cut: int|
                {
                    &&& 0 <= i < m.entries.len()
                    &&& 0 < cut <= m.entries[i].key.len()
                    &&& m.entries[i].key[cut - 1] == '/'
                    &&& e.key == #[trigger] m.entries[i].key.take(cut)
                } && e.size == 0 && e.mtime_ms is None && e.etag is None))
            &&& sort::in_order::<Entity>(inv.entities)
        }),
{
    let files = manifest::by_key(m.entries);
    let folders = manifest::folder_views(files);
    let both = files + folders;
    let inv = inventory::warm_inventory(m, etag);
    sort::lemma_sorted_contains::<Entity>(m.entries, e);
    sort::lemma_sorted_permutes::<Entity>(m.entries);
    sort::lemma_sorted_contains::<Entity>(both, e);
    sort::lemma_sorted_in_order::<Entity>(both);
    manifest::lemma_folder_views(files);
    let names = crate::plan::keys_of(folders);
    let plain = e.size == 0 && e.mtime_ms is None && e.etag is None;
    let above = exists|i: int, cut: int|
        0 <= i < m.entries.len() && 0 < cut <= m.entries[i].key.len() && m.entries[i].key[cut - 1]
            == '/' && e.key == #[trigger] m.entries[i].key.take(cut);
    if both.contains(e) {
        let x = choose|x: int| 0 <= x < both.len() && both[x] == e;
        if x < files.len() {
            assert(files[x] == e);
            assert(files.contains(e));
        } else {
            let y = x - files.len();
            assert(folders[y] == e);
            assert(names[y] == e.key);
            assert(names.contains(e.key));
            assert(manifest::is_ancestor(files, e.key));
            let z = choose|z: int|
                0 <= z < files.len() && manifest::parents((#[trigger] files[z]).key).contains(
                    e.key,
                );
            assert(files.contains(files[z]));
            sort::lemma_sorted_contains::<Entity>(m.entries, files[z]);
            let i = choose|i: int| 0 <= i < m.entries.len() && m.entries[i] == files[z];
            lemma_parent_is_prefix(files[z].key, e.key);
            assert(e.key == m.entries[i].key.take(e.key.len() as int));
            assert(above && plain);
        }
    }
    if files.contains(e) {
        let x = choose|x: int| 0 <= x < files.len() && files[x] == e;
        assert(both[x] == e);
    }
    if above && plain {
        let (i, cut) = choose|i: int, cut: int|
            0 <= i < m.entries.len() && 0 < cut <= m.entries[i].key.len() && m.entries[i].key[cut
                - 1] == '/' && e.key == #[trigger] m.entries[i].key.take(cut);
        assert(m.entries.contains(m.entries[i]));
        sort::lemma_sorted_contains::<Entity>(m.entries, m.entries[i]);
        let z = choose|z: int| 0 <= z < files.len() && files[z] == m.entries[i];
        crate::exec::lemma_prefix_is_parent(m.entries[i].key, cut);
        assert(manifest::parents(files[z].key).contains(e.key));
        assert(manifest::is_ancestor(files, e.key));
        assert(names.contains(e.key));
        let y = choose|y: int| 0 <= y < names.len() && names[y] == e.key;
        assert(folders[y] == entity::folder_view(folders[y].key));
        assert(folders[y] == e);
        assert(both[files.len() + y] == e);
    }
}

proof fn lemma_parent_is_prefix(key: Seq<char>, p: Seq<char>)
    requires
        manifest::parents(key).contains(p),
    ensures
        0 < p.len() <= key.len(),
        key[p.len() - 1] == '/',
        p == key.take(p.len() as int),
    decreases key.len(),
{
    let all = manifest::parents(key);
    let x = choose|x: int| 0 <= x < all.len() && all[x] == p;
    if key.len() > 0 {
        let d = key.drop_last();
        let init = manifest::parents(d);
        if key.last() == '/' && x == init.len() {
            assert(key.take(key.len() as int) =~= key);
        } else {
            assert(init[x] == p);
            lemma_parent_is_prefix(d, p);
            assert(d.take(p.len() as int) =~= key.take(p.len() as int));
        }
    }
}

/// The cache is used if and only if its meta and body belong together and the
/// body is a manifest. With a known etag the store is asked once whether the
/// manifest changed; what it sends in that case is served, and what it does not
/// have is missing.
pub proof fn law_load_with_a_cache(
    t: Seq<StoreEvent>,
    mode: InventoryMode,
    c: CacheView,
    known: Seq<char>,
)
    requires
        mode == InventoryMode::Auto || mode == InventoryMode::Manifest,
        inventory::load_requests(t, mode, Some(c)),
        c.meta is Some,
        c.meta->0.remote_etag == Some(known),
    ensures
        t.len() >= 1,
        t[0] is GetWith,
        t[0]->GetWith_key == ".vaultsync/manifest/v1.json"@,
        t[0]->GetWith_etag == Some(known),
        t[0]->GetWith_cap == 67_108_864,
        ({
            let r = inventory::load_result(t, mode, Some(c));
            let auto = mode == InventoryMode::Auto;
            let over = "manifest body exceeded the "@ + text::dec(67_108_864)
                + " byte soft cap while streaming"@;
            match t[0]->GetWith_reply {
                Ok(GetOutcomeView::NotModified(_)) => if c.body is Some && mock::fingerprint(
                    c.body->0,
                ) == c.meta->0.body_fnv && manifest::parsed(c.body->0, 67_108_864) is Ok {
                    t.len() == 1 && r == Ok::<RemoteView, ErrorView>(
                        inventory::warm_inventory(
                            manifest::parsed(c.body->0, 67_108_864)->Ok_0,
                            Some(known),
                        ),
                    )
                } else {
                    t.len() >= 2 && heads(t[1])
                },
                Ok(GetOutcomeView::Body(x)) => if t[0]->GetWith_tripped {
                    unusable(t, 1, auto, Some(over), r)
                } else {
                    match manifest::parsed(t[0]->GetWith_body, 67_108_864) {
                        Ok(m) => t.len() == 1 && r == Ok::<RemoteView, ErrorView>(
                            inventory::warm_inventory(m, x.etag),
                        ),
                        Err(fault) => unusable(t, 1, auto, Some(fault.text()), r),
                    }
                },
                Err(e) => if e is NotFound {
                    unusable(t, 1, auto, None, r)
                } else if t[0]->GetWith_tripped {
                    unusable(t, 1, auto, Some(over), r)
                } else {
                    t.len() == 1 && r == Err::<RemoteView, ErrorView>(e)
                },
            }
        }),
{
    let w = first_part(t, mode);
    lemma_load(t, mode, Some(c));
    assert(w[0] == t[0]);
    if w.len() > 1 {
        assert(w[1] == t[1]);
        assert(w.skip(1)[0] == t[1]);
    }
}

/// What a load makes of the cache files, if there are any to make something of.
/// A valid body that the store sent is mirrored with its etag, and one that is
/// missing, broken or too large takes the mirror away. A store that fails to
/// answer leaves it alone, and so does one that says nothing changed while the
/// mirror is whole. The mode `list_head` never touches it.
pub proof fn law_cache_follows_the_store(
    t: Seq<StoreEvent>,
    mode: InventoryMode,
    cache: Option<CacheView>,
    now_ms: u64,
)
    requires
        inventory::load_requests(t, mode, cache),
    ensures
        ({
            let u = inventory::load_update(t, mode, cache, now_ms);
            let known = match cache {
                Some(c) => match c.meta {
                    Some(m) => m.remote_etag,
                    None => None,
                },
                None => None,
            };
            &&& mode == InventoryMode::ListHead || cache is None ==> u is Keep
            &&& mode != InventoryMode::ListHead && cache is Some && known is None ==> {
                match t[0]->Head_reply {
                    Err(e) => if e is NotFound {
                        u is Invalidate
                    } else {
                        u is Keep
                    },
                    Ok(h) => if h.size > 67_108_864 {
                        u is Invalidate
                    } else {
                        match t[1]->Get_reply {
                            Ok(x) => if manifest::parsed(t[1]->Get_body, 67_108_864) is Ok {
                                mirrors(u, t[1]->Get_body, x.etag, now_ms)
                            } else {
                                u is Invalidate
                            },
                            Err(e) => if e is NotFound || t[1]->Get_tripped {
                                u is Invalidate
                            } else {
                                u is Keep
                            },
                        }
                    },
                }
            }
            &&& mode != InventoryMode::ListHead && cache is Some && known is Some ==> {
                match t[0]->GetWith_reply {
                    Ok(GetOutcomeView::NotModified(_)) => cache->0.body is Some
                        && mock::fingerprint(cache->0.body->0) == cache->0.meta->0.body_fnv
                        && manifest::parsed(cache->0.body->0, 67_108_864) is Ok ==> u is Keep,
                    Ok(GetOutcomeView::Body(x)) => if !t[0]->GetWith_tripped && manifest::parsed(
                        t[0]->GetWith_body,
                        67_108_864,
                    ) is Ok {
                        mirrors(u, t[0]->GetWith_body, x.etag, now_ms)
                    } else {
                        u is Invalidate
                    },
                    Err(e) => if e is NotFound || t[0]->GetWith_tripped {
                        u is Invalidate
                    } else {
                        u is Keep
                    },
                }
            }
        }),
{
    if mode != InventoryMode::ListHead {
        let w = first_part(t, mode);
        lemma_load(t, mode, cache);
        assert(w[0] == t[0]);
        if w.len() > 1 {
            assert(w[1] == t[1]);
        }
        assert(inventory::warm_part(w) =~= w) by {
            inventory::lemma_warm_never_lists(w, cache);
        }
        assert(inventory::warm_part(t) =~= w);
    }
}

/// A repair lists everything and puts the manifest of the files that it found. A
/// forced one puts it without a condition. Another one puts it on the etag of the
/// manifest that is there, or only if there is none; if it loses the race for a
/// manifest that is there it looks and puts once more, and no more than that. A
/// dry run stops after the listing, and so does one whose files no manifest can
/// hold.
pub proof fn law_repair_requests(t: Seq<StoreEvent>, opts: RepairOpts, now_ms: u64)
    requires
        inventory::repair_requests(t, opts, now_ms),
    ensures
        t.len() >= 1,
        t[0] is List,
        t[0]->List_prefix.len() == 0,
        ({
            let r = inventory::repair_result(t, opts, now_ms);
            match t[0]->List_reply {
                Err(e) => t.len() == 1 && r is Err && r->Err_0 == e,
                Ok(l) => {
                    let inv = inventory::cold_inventory(l);
                    match inventory::body_for(inv.base.file_entities, now_ms) {
                        Err(e) => t.len() == 1 && r is Err && r->Err_0 == e,
                        Ok(b) => {
                            &&& opts.dry_run ==> t.len() == 1 && r is Ok
                            &&& r matches Ok(x) ==> x.listed
                                == inv.base.file_entities.len() as usize && x.written
                                == !opts.dry_run && x.dry_run == opts.dry_run && x.warnings
                                == inv.warnings
                            &&& !opts.dry_run && opts.force ==> t.len() == 2 && puts(
                                t[1],
                                b,
                                None,
                                false,
                            ) && ends_with_put(r, t[1])
                            &&& !opts.dry_run && !opts.force ==> {
                                &&& t.len() >= 2
                                &&& heads(t[1])
                                &&& match t[1]->Head_reply {
                                    Err(e) => if e is NotFound {
                                        t.len() == 3 && puts(t[2], b, None, true) && ends_with_put(
                                            r,
                                            t[2],
                                        )
                                    } else {
                                        t.len() == 2 && r is Err && r->Err_0 == e
                                    },
                                    Ok(h) => {
                                        &&& t.len() >= 3
                                        &&& puts(t[2], b, h.etag, false)
                                        &&& if t[2]->PutWith_reply is Err
                                            && t[2]->PutWith_reply->Err_0 is PreconditionFailed {
                                            &&& t.len() >= 4
                                            &&& heads(t[3])
                                            &&& match t[3]->Head_reply {
                                                Err(e) => t.len() == 4 && r is Err && r->Err_0
                                                    == e,
                                                Ok(again) => t.len() == 5 && puts(
                                                    t[4],
                                                    b,
                                                    again.etag,
                                                    false,
                                                ) && ends_with_put(r, t[4]),
                                            }
                                        } else {
                                            t.len() == 3 && ends_with_put(r, t[2])
                                        }
                                    },
                                }
                            }
                        },
                    }
                },
            }
        }),
{
    reveal_strlit("");
    let rest = t.skip(1);
    if t.len() > 1 {
        assert(rest[0] == t[1]);
    }
    if t.len() > 2 {
        assert(rest[1] == t[2]);
    }
    if t.len() > 3 {
        assert(rest[2] == t[3]);
    }
    if t.len() > 4 {
        assert(rest[3] == t[4]);
    }
}

/// Whether a repair came about exactly if its last put did, with the etag that
/// the store answered with; a lost race stays one.
pub open spec fn ends_with_put(r: Result<RepairView, ErrorView>, e: StoreEvent) -> bool {
    match e->PutWith_reply {
        Ok(x) => r is Ok && r->Ok_0.etag == x.etag,
        Err(x) => r is Err && (x is PreconditionFailed ==> r->Err_0 is PreconditionFailed) && (!(
        x is PreconditionFailed) ==> r->Err_0 == x),
    }
}

/// A repair that wrote makes the cache a mirror of what it wrote; one that did
/// not leaves the cache alone.
pub proof fn law_repair_fills_the_cache(t: Seq<StoreEvent>, opts: RepairOpts, now_ms: u64)
    requires
        inventory::repair_requests(t, opts, now_ms),
    ensures
        ({
            let r = inventory::repair_result(t, opts, now_ms);
            let u = inventory::repair_update(t, opts, now_ms);
            match r {
                Err(_) => u is Keep,
                Ok(x) => if opts.dry_run {
                    u is Keep && x.etag is None
                } else {
                    &&& t.last() is PutWith
                    &&& mirrors(u, t.last()->PutWith_body, x.etag, now_ms)
                },
            }
        }),
{
    reveal_strlit("");
    let rest = t.skip(1);
    if t.len() > 1 {
        assert(rest[0] == t[1]);
    }
    if t.len() > 2 {
        assert(rest[1] == t[2]);
    }
    if t.len() > 3 {
        assert(rest[2] == t[3]);
    }
    if t.len() > 4 {
        assert(rest[3] == t[4]);
    }
}

/// A cache that the store confirms but that holds no usable body is no mirror: the
/// manifest is fetched anew, and the cache takes what came.
pub proof fn law_broken_cache_is_refetched(
    t: Seq<StoreEvent>,
    mode: InventoryMode,
    c: CacheView,
    now_ms: u64,
)
    requires
        mode == InventoryMode::Auto || mode == InventoryMode::Manifest,
        inventory::load_requests(t, mode, Some(c)),
        c.meta is Some,
        c.meta->0.remote_etag is Some,
        t[0]->GetWith_reply matches Ok(GetOutcomeView::NotModified(_)),
        c.body is None || mock::fingerprint(c.body->0) != c.meta->0.body_fnv || manifest::parsed(
            c.body->0,
            67_108_864,
        ) is Err,
    ensures
        t.len() >= 2,
        heads(t[1]),
        ({
            let r = inventory::load_result(t, mode, Some(c));
            let u = inventory::load_update(t, mode, Some(c), now_ms);
            let auto = mode == InventoryMode::Auto;
            let dropped = if c.body is Some {
                u is Invalidate
            } else {
                u is Keep
            };
            match t[1]->Head_reply {
                Err(e) => if e is NotFound {
                    unusable(t, 2, auto, None, r) && u is Invalidate
                } else {
                    t.len() == 2 && r == Err::<RemoteView, ErrorView>(e) && dropped
                },
                Ok(h) => if h.size > 67_108_864 {
                    unusable(t, 2, auto, Some(too_large(h.size)), r) && u is Invalidate
                } else {
                    &&& t.len() >= 3
                    &&& gets(t[2])
                    &&& match t[2]->Get_reply {
                        Ok(x) => if manifest::parsed(t[2]->Get_body, 67_108_864) is Ok {
                            &&& t.len() == 3
                            &&& r == Ok::<RemoteView, ErrorView>(
                                inventory::warm_inventory(
                                    manifest::parsed(t[2]->Get_body, 67_108_864)->Ok_0,
                                    x.etag,
                                ),
                            )
                            &&& mirrors(u, t[2]->Get_body, x.etag, now_ms)
                        } else {
                            unusable(
                                t,
                                3,
                                auto,
                                Some(manifest::parsed(t[2]->Get_body, 67_108_864)->Err_0.text()),
                                r,
                            ) && u is Invalidate
                        },
                        Err(e) => if e is NotFound {
                            unusable(t, 3, auto, None, r) && u is Invalidate
                        } else if t[2]->Get_tripped {
                            unusable(t, 3, auto, Some(grew_too_large()), r) && u is Invalidate
                        } else {
                            t.len() == 3 && r == Err::<RemoteView, ErrorView>(e) && dropped
                        },
                    }
                },
            }
        }),
{
    let w = first_part(t, mode);
    lemma_load(t, mode, Some(c));
    assert(w[0] == t[0]);
    assert(w.skip(1)[0] == t[1]);
    if w.len() > 2 {
        assert(w.skip(1)[1] == t[2]);
    }
    assert(inventory::warm_part(w) =~= w) by {
        inventory::lemma_warm_never_lists(w, Some(c));
    }
    assert(inventory::warm_part(t) =~= w);
}

} // verus!
