//! What holds of the parts together: planning, the inventory and commit
//! protocols, and dispatch.

use vstd::prelude::*;
use crate::cli;
use crate::cli::{Command, DispatchCtx, DispatchView, Inputs, PendingView};
use crate::config::{InventoryBootstrap, InventoryMode};
use crate::entity;
use crate::entity::EntityView;
use crate::error::ErrorView;
use crate::exec;
use crate::ignore;
use crate::inventory;
use crate::inventory::{
    BaseView, CacheView, ColdView, CondView, MutationView, OutcomeView, RemoteView, RepairOpts,
};
use crate::local;
use crate::local::MANIFEST_KEY;
use crate::manifest;
use crate::manifest::{ManifestView, MANIFEST_MAX_BYTES};
use crate::plan;
use crate::plan::reason;
use crate::plan::{ActionKind, ActionView, Mode, PlanOpts};
use crate::sort;
use crate::store::{ListingView, StoreEvent};
use crate::text;

verus! {

/// Whether no request may change the store.
pub open spec fn reads_only(t: Seq<StoreEvent>) -> bool {
    forall|i: int| 0 <= i < t.len() ==> !(#[trigger] t[i]).mutates()
}

/// Loading the inventory never changes the store.
pub proof fn law_load_only_reads(
    t: Seq<StoreEvent>,
    mode: InventoryMode,
    cache: Option<CacheView>,
)
    requires
        inventory::load_requests(t, mode, cache),
    ensures
        reads_only(t),
{
    let w = match mode {
        InventoryMode::Auto => inventory::warm_part(t),
        _ => t,
    };
    assert forall|i: int| 0 <= i < t.len() implies !(#[trigger] t[i]).mutates() by {
        if mode != InventoryMode::ListHead && i < w.len() {
            assert(t[i] == w[i]);
            match inventory::known_etag(cache) {
                None => {},
                Some(etag) => {
                    if i >= 1 {
                        assert(w.skip(1)[i - 1] == w[i]);
                    }
                },
            }
        }
    }
}

/// The mode `list_head` never reads the manifest: it makes one request, a
/// listing. The mode `manifest` never lists.
pub proof fn law_modes_are_strict(
    t: Seq<StoreEvent>,
    mode: InventoryMode,
    cache: Option<CacheView>,
)
    requires
        inventory::load_requests(t, mode, cache),
    ensures
        mode == InventoryMode::ListHead ==> t.len() == 1 && t[0] is List,
        mode == InventoryMode::Manifest ==> forall|i: int|
            0 <= i < t.len() ==> !((#[trigger] t[i]) is List),
{
    if mode == InventoryMode::Manifest {
        assert forall|i: int| 0 <= i < t.len() implies !((#[trigger] t[i]) is List) by {
            match inventory::known_etag(cache) {
                None => {},
                Some(etag) => {
                    if i >= 1 {
                        assert(t.skip(1)[i - 1] == t[i]);
                    }
                },
            }
        }
    }
}

/// Whether a store failed to answer about the manifest: any error but "not
/// found", that the cap did not cause.
pub open spec fn fails(e: StoreEvent) -> Option<ErrorView> {
    match e {
        StoreEvent::Head { reply, .. } => match reply {
            Err(e) => if e is NotFound {
                None
            } else {
                Some(e)
            },
            Ok(_) => None,
        },
        StoreEvent::GetWith { reply, tripped, .. } => match reply {
            Err(e) => if e is NotFound || tripped {
                None
            } else {
                Some(e)
            },
            Ok(_) => None,
        },
        _ => None,
    }
}

/// A load fails closed, and the cache is never authority: whatever the cache
/// holds, if the store fails to answer about the manifest, the load fails with
/// that error.
pub proof fn law_cache_is_never_authority(
    t: Seq<StoreEvent>,
    mode: InventoryMode,
    cache: Option<CacheView>,
)
    requires
        mode != InventoryMode::ListHead,
        inventory::load_requests(t, mode, cache),
        fails(t[0]) is Some,
    ensures
        inventory::load_result(t, mode, cache) == Err::<RemoteView, ErrorView>(fails(t[0])->0),
{
    let w = match mode {
        InventoryMode::Auto => inventory::warm_part(t),
        _ => t,
    };
    assert(w[0] == t[0]);
}

/// A warm load with a usable cache costs one request: the store is asked
/// whether the manifest changed, and says that it did not.
pub proof fn law_unchanged_manifest_costs_one_request(
    t: Seq<StoreEvent>,
    mode: InventoryMode,
    cache: Option<CacheView>,
)
    requires
        mode != InventoryMode::ListHead,
        inventory::load_requests(t, mode, cache),
        inventory::known_etag(cache) is Some,
        inventory::cached_manifest(cache->0) is Some,
        inventory::not_modified(t[0]),
    ensures
        t.len() == 1,
        inventory::load_result(t, mode, cache) == Ok::<RemoteView, ErrorView>(
            inventory::warm_inventory(
                inventory::cached_manifest(cache->0)->0,
                inventory::known_etag(cache),
            ),
        ),
{
    let w = match mode {
        InventoryMode::Auto => inventory::warm_part(t),
        _ => t,
    };
    assert(w[0] == t[0]);
}

/// What a publication wrote, a later load serves: if the store answers with
/// the body that was published for `files`, the load is warm, and its file set
/// is exactly those files, by ascending key. (`bodies_read_back` is what every
/// load ensures of the bodies that it parsed.)
pub proof fn law_published_files_are_served(
    t: Seq<StoreEvent>,
    mode: InventoryMode,
    files: Seq<EntityView>,
    body: Seq<u8>,
    created_ms: u64,
)
    requires
        mode != InventoryMode::ListHead,
        inventory::load_requests(t, mode, None),
        inventory::bodies_read_back(t),
        files.len() <= usize::MAX,
        inventory::body_for(files, created_ms) == Ok::<Seq<u8>, ErrorView>(body),
        body.len() <= MANIFEST_MAX_BYTES,
        t.len() > 1,
        inventory::served(t[1]) == Some(body),
    ensures
        ({
            let r = inventory::load_result(t, mode, None);
            &&& r matches Ok(inv)
            &&& inv.base.file_entities == manifest::by_key(files)
            &&& inv.base.source is Manifest
            &&& inv.entities == manifest::by_key(
                manifest::by_key(files) + manifest::folder_views(manifest::by_key(files)),
            )
        }),
{
    manifest::lemma_manifest_of_sound(files, created_ms, Some(inventory::generator()), None);
    let m = manifest::manifest_of(files, created_ms, Some(inventory::generator()), None)->Ok_0;
    assert(body == manifest::body(m));
    assert(manifest::reads_back(body));
    sort::lemma_sorted_in_order::<entity::Entity>(files);
    sort::lemma_sorted_fixed::<entity::Entity>(manifest::by_key(files));
    let w = match mode {
        InventoryMode::Auto => inventory::warm_part(t),
        _ => t,
    };
    assert(w[0] == t[0]);
    assert(w.len() >= 2) by {
        if mode == InventoryMode::Auto && t.len() == 2 {
            assert(!(t[1] is List));
        }
    }
    assert(w[1] == t[1]);
}

proof fn lemma_select_all(s: Seq<EntityView>, p: spec_fn(EntityView) -> bool)
    requires
        forall|i: int| 0 <= i < s.len() ==> p(#[trigger] s[i]),
    ensures
        crate::select(s, p) == s,
    decreases s.len(),
{
    if s.len() > 0 {
        let d = s.drop_last();
        assert forall|i: int| 0 <= i < d.len() implies p(#[trigger] d[i]) by {
            assert(d[i] == s[i]);
        }
        lemma_select_all(d, p);
        assert(p(s[s.len() - 1]));
        assert(s =~= d.push(s.last()));
    }
}

/// Where nothing satisfies the predicate, nothing is selected.
pub proof fn lemma_select_none(s: Seq<EntityView>, p: spec_fn(EntityView) -> bool)
    requires
        forall|i: int| 0 <= i < s.len() ==> !p(#[trigger] s[i]),
    ensures
        crate::select(s, p).len() == 0,
    decreases s.len(),
{
    if s.len() > 0 {
        let d = s.drop_last();
        assert forall|i: int| 0 <= i < d.len() implies !p(#[trigger] d[i]) by {
            assert(d[i] == s[i]);
        }
        lemma_select_none(d, p);
        assert(!p(s[s.len() - 1]));
    }
}

/// Selected entities satisfy the predicate and come from the sequence.
pub proof fn lemma_selected(s: Seq<EntityView>, p: spec_fn(EntityView) -> bool, e: EntityView)
    ensures
        crate::select(s, p).contains(e) == (s.contains(e) && p(e)),
    decreases s.len(),
{
    if s.len() > 0 {
        let d = s.drop_last();
        let init = crate::select(d, p);
        let all = crate::select(s, p);
        lemma_selected(d, p, e);
        if all.contains(e) {
            let i = choose|i: int| 0 <= i < all.len() && all[i] == e;
            if i < init.len() {
                assert(init[i] == e);
                let j = choose|j: int| 0 <= j < d.len() && d[j] == e;
                assert(s[j] == e);
            } else {
                assert(s[s.len() - 1] == e);
            }
        }
        if s.contains(e) && p(e) {
            let j = choose|j: int| 0 <= j < s.len() && s[j] == e;
            if j < d.len() {
                assert(d[j] == e);
                let i = choose|i: int| 0 <= i < init.len() && init[i] == e;
                assert(all[i] == e);
            } else {
                assert(all[all.len() - 1] == e);
            }
        }
    }
}

/// Warm and cold planning see the same entities: the inventory of a manifest
/// has the entities of the inventory of a listing of its files with their
/// ancestor folders. (A folder whose own name is reserved is dropped from a
/// listing but not from a manifest; so is a key that is reserved.)
pub proof fn law_warm_equals_cold(m: ManifestView, etag: Option<Seq<char>>, l: ListingView)
    requires
        ({
            let files = manifest::by_key(m.entries);
            let all = manifest::by_key(files + manifest::folder_views(files));
            &&& l.entities == all
            &&& forall|i: int|
                0 <= i < all.len() ==> (#[trigger] all[i]).key.len() > 0 && !crate::reserved_key(
                    all[i].key,
                )
        }),
    ensures
        inventory::cold_inventory(l).entities == inventory::warm_inventory(m, etag).entities,
        inventory::cold_inventory(l).warnings == l.warnings,
{
    let all = l.entities;
    lemma_select_all(all, inventory::keyed());
    lemma_select_all(all, crate::unreserved());
    lemma_select_none(all, crate::reserved());
}

/// The key of a mutation.
pub open spec fn mutated_key(m: MutationView) -> Seq<char> {
    match m {
        MutationView::Upload(e) => e.key,
        MutationView::DeleteRemote(k) => k,
    }
}

/// The last mutation of a key, if there is one.
pub open spec fn last_mutation(m: Seq<MutationView>, key: Seq<char>) -> Option<MutationView>
    decreases m.len(),
{
    if m.len() == 0 {
        None
    } else if mutated_key(m.last()) == key {
        Some(m.last())
    } else {
        last_mutation(m.drop_last(), key)
    }
}

proof fn lemma_find_push(s: Seq<EntityView>, e: EntityView, key: Seq<char>)
    ensures
        plan::find(s.push(e), key) == (if e.key == key {
            Some(e)
        } else {
            plan::find(s, key)
        }),
{
    assert(s.push(e).drop_last() =~= s);
}

proof fn lemma_ascending_init(s: Seq<EntityView>)
    requires
        s.len() > 0,
        plan::ascending(plan::keys_of(s)),
    ensures
        plan::ascending(plan::keys_of(s.drop_last())),
        forall|i: int|
            0 <= i < s.len() - 1 ==> text::before((#[trigger] s[i]).key, s.last().key),
{
    let keys = plan::keys_of(s);
    let d = plan::keys_of(s.drop_last());
    assert forall|i: int, j: int| 0 <= i < j < d.len() implies text::before(
        #[trigger] d[i],
        #[trigger] d[j],
    ) by {
        assert(d[i] == keys[i] && d[j] == keys[j]);
    }
    assert forall|i: int| 0 <= i < s.len() - 1 implies text::before(
        (#[trigger] s[i]).key,
        s.last().key,
    ) by {
        assert(text::before(keys[i], keys[s.len() - 1]));
    }
}

proof fn lemma_ascending_push(s: Seq<EntityView>, e: EntityView)
    requires
        plan::ascending(plan::keys_of(s)),
        forall|i: int| 0 <= i < s.len() ==> text::before((#[trigger] s[i]).key, e.key),
    ensures
        plan::ascending(plan::keys_of(s.push(e))),
{
    let keys = plan::keys_of(s);
    let all = plan::keys_of(s.push(e));
    assert forall|i: int, j: int| 0 <= i < j < all.len() implies text::before(
        #[trigger] all[i],
        #[trigger] all[j],
    ) by {
        assert(all[i] == keys[i]);
        assert(s[i].key == keys[i]);
        if j < keys.len() {
            assert(all[j] == keys[j]);
        }
    }
}

/// What putting an entity into ordered entities makes of them.
pub proof fn lemma_upsert(s: Seq<EntityView>, e: EntityView)
    requires
        plan::ascending(plan::keys_of(s)),
    ensures
        plan::ascending(plan::keys_of(inventory::upsert(s, e))),
        forall|x: EntityView| #[trigger]
            inventory::upsert(s, e).contains(x) ==> x == e || s.contains(x),
        forall|k: Seq<char>| #[trigger]
            plan::find(inventory::upsert(s, e), k) == (if k == e.key {
                Some(e)
            } else {
                plan::find(s, k)
            }),
    decreases s.len(),
{
    let r = inventory::upsert(s, e);
    if s.len() == 0 {
        assert(r =~= s.push(e));
        lemma_ascending_push(s, e);
        assert forall|k: Seq<char>| #[trigger] plan::find(r, k) == (if k == e.key {
            Some(e)
        } else {
            plan::find(s, k)
        }) by {
            lemma_find_push(s, e, k);
        }
    } else {
        let d = s.drop_last();
        let l = s.last();
        lemma_ascending_init(s);
        assert(s =~= d.push(l));
        if text::before(e.key, l.key) {
            lemma_upsert(d, e);
            let p = inventory::upsert(d, e);
            text::lemma_before_irreflexive(l.key);
            assert forall|i: int| 0 <= i < p.len() implies text::before(
                (#[trigger] p[i]).key,
                l.key,
            ) by {
                assert(p.contains(p[i]));
                if p[i] != e {
                    let j = choose|j: int| 0 <= j < d.len() && d[j] == p[i];
                    assert(s[j] == p[i]);
                }
            }
            lemma_ascending_push(p, l);
            assert forall|k: Seq<char>| #[trigger] plan::find(r, k) == (if k == e.key {
                Some(e)
            } else {
                plan::find(s, k)
            }) by {
                lemma_find_push(p, l, k);
                lemma_find_push(d, l, k);
            }
            assert forall|x: EntityView| #[trigger] r.contains(x) implies x == e || s.contains(
                x,
            ) by {
                let i = choose|i: int| 0 <= i < r.len() && r[i] == x;
                if i < p.len() {
                    assert(p.contains(p[i]));
                    if x != e {
                        let j = choose|j: int| 0 <= j < d.len() && d[j] == x;
                        assert(s[j] == x);
                    }
                } else {
                    assert(s[s.len() - 1] == x);
                }
            }
        } else if l.key == e.key {
            assert forall|i: int| 0 <= i < d.len() implies text::before(
                (#[trigger] d[i]).key,
                e.key,
            ) by {
                assert(s[i] == d[i]);
            }
            lemma_ascending_push(d, e);
            assert forall|k: Seq<char>| #[trigger] plan::find(r, k) == (if k == e.key {
                Some(e)
            } else {
                plan::find(s, k)
            }) by {
                lemma_find_push(d, e, k);
                lemma_find_push(d, l, k);
            }
            assert forall|x: EntityView| #[trigger] r.contains(x) implies x == e || s.contains(
                x,
            ) by {
                let i = choose|i: int| 0 <= i < r.len() && r[i] == x;
                if i < d.len() {
                    assert(s[i] == x);
                }
            }
        } else {
            text::lemma_before_total(l.key, e.key);
            assert forall|i: int| 0 <= i < s.len() implies text::before(
                (#[trigger] s[i]).key,
                e.key,
            ) by {
                if i < s.len() - 1 {
                    text::lemma_before_transitive(s[i].key, l.key, e.key);
                }
            }
            lemma_ascending_push(s, e);
            assert forall|k: Seq<char>| #[trigger] plan::find(r, k) == (if k == e.key {
                Some(e)
            } else {
                plan::find(s, k)
            }) by {
                lemma_find_push(s, e, k);
            }
        }
    }
}

proof fn lemma_without(s: Seq<EntityView>, key: Seq<char>)
    requires
        plan::ascending(plan::keys_of(s)),
    ensures
        plan::ascending(plan::keys_of(inventory::without(s, key))),
        forall|x: EntityView| #[trigger]
            inventory::without(s, key).contains(x) ==> s.contains(x),
        forall|k: Seq<char>| #[trigger]
            plan::find(inventory::without(s, key), k) == (if k == key {
                None
            } else {
                plan::find(s, k)
            }),
    decreases s.len(),
{
    let r = inventory::without(s, key);
    if s.len() > 0 {
        let d = s.drop_last();
        let l = s.last();
        lemma_ascending_init(s);
        lemma_without(d, key);
        let p = inventory::without(d, key);
        assert(s =~= d.push(l));
        assert forall|x: EntityView| #[trigger] r.contains(x) implies s.contains(x) by {
            let i = choose|i: int| 0 <= i < r.len() && r[i] == x;
            if i < p.len() {
                assert(p.contains(p[i]));
                let j = choose|j: int| 0 <= j < d.len() && d[j] == x;
                assert(s[j] == x);
            } else {
                assert(s[s.len() - 1] == x);
            }
        }
        if l.key != key {
            assert forall|i: int| 0 <= i < p.len() implies text::before(
                (#[trigger] p[i]).key,
                l.key,
            ) by {
                assert(p.contains(p[i]));
                let j = choose|j: int| 0 <= j < d.len() && d[j] == p[i];
                assert(s[j] == p[i]);
            }
            lemma_ascending_push(p, l);
        }
        assert forall|k: Seq<char>| #[trigger] plan::find(r, k) == (if k == key {
            None
        } else {
            plan::find(s, k)
        }) by {
            lemma_find_push(d, l, k);
            lemma_find_push(p, l, k);
        }
    }
}

proof fn lemma_gathered(s: Seq<EntityView>)
    ensures
        plan::ascending(plan::keys_of(inventory::gathered(s))),
        forall|k: Seq<char>| #[trigger]
            plan::find(inventory::gathered(s), k) == plan::find(s, k),
    decreases s.len(),
{
    if s.len() > 0 {
        lemma_gathered(s.drop_last());
        lemma_upsert(inventory::gathered(s.drop_last()), s.last());
    }
}

/// What a commit makes of the base: keys ascend, so none occurs twice; an
/// uploaded key has the uploaded entity, a deleted key is gone, and every
/// other key keeps its base entry. Of several mutations of a key the last
/// counts.
pub proof fn law_commit_folds_mutations(base: Seq<EntityView>, m: Seq<MutationView>)
    ensures
        plan::ascending(plan::keys_of(inventory::applied(base, m))),
        forall|k: Seq<char>| #[trigger]
            plan::find(inventory::applied(base, m), k) == (match last_mutation(m, k) {
                Some(MutationView::Upload(e)) => Some(e),
                Some(MutationView::DeleteRemote(_)) => None,
                None => plan::find(base, k),
            }),
    decreases m.len(),
{
    if m.len() == 0 {
        lemma_gathered(base);
    } else {
        let prev = inventory::applied(base, m.drop_last());
        law_commit_folds_mutations(base, m.drop_last());
        match m.last() {
            MutationView::Upload(e) => {
                lemma_upsert(prev, e);
            },
            MutationView::DeleteRemote(k) => {
                lemma_without(prev, k);
            },
        }
    }
}

/// Whether a request may change nothing but the manifest.
pub open spec fn only_manifest(e: StoreEvent) -> bool {
    e.mutates() ==> (e matches StoreEvent::PutWith { key, .. } && key == MANIFEST_KEY@)
}

proof fn lemma_publish_shape(
    t: Seq<StoreEvent>,
    files: Seq<EntityView>,
    cond: CondView,
    now_ms: u64,
)
    requires
        inventory::publish_requests(t, files, cond, now_ms),
    ensures
        t.len() <= 1,
        t.len() == 1 ==> (t[0] matches StoreEvent::PutWith { key, opts, .. } && key == MANIFEST_KEY@
            && opts == inventory::put_opts(cond)),
{
    reveal(inventory::publish_requests);
}

/// A commit puts nothing but the manifest, at most once, as its last request:
/// file bodies are never touched. Without mutations it makes no request.
pub proof fn law_commit_puts_only_the_manifest(
    t: Seq<StoreEvent>,
    base: BaseView,
    m: Seq<MutationView>,
    now_ms: u64,
)
    requires
        inventory::commit_requests(t, base, m, now_ms),
    ensures
        m.len() == 0 ==> t.len() == 0,
        forall|i: int|
            0 <= i < t.len() ==> only_manifest(#[trigger] t[i]) && (t[i].mutates() ==> i
                == t.len() - 1),
{
    if m.len() > 0 {
        match base.manifest_etag {
            Some(e) => {
                lemma_publish_shape(
                    t,
                    inventory::applied(base.file_entities, m),
                    CondView::IfMatch(e),
                    now_ms,
                );
            },
            None => {
                let n = inventory::resolve_len(t);
                let head = t.take(n);
                assert(head[0] == t[0]);
                if n == 2 {
                    assert(head[1] == t[1]);
                }
                match inventory::resolved(head, base.file_entities, Some(m)) {
                    Ok(ColdView::Write { files, cond }) => {
                        lemma_publish_shape(t.skip(n), files, cond, now_ms);
                        assert forall|i: int| 0 <= i < t.len() implies only_manifest(
                            #[trigger] t[i],
                        ) && (t[i].mutates() ==> i == t.len() - 1) by {
                            if i >= n {
                                assert(t.skip(n)[i - n] == t[i]);
                            }
                        }
                    },
                    _ => {},
                }
            },
        }
    }
}

/// A commit never overwrites a manifest blindly: its put is conditional on the
/// etag it has seen, or on there being none yet - except that a store that
/// reports a manifest without an etag gets an unconditional put.
pub proof fn law_commit_is_conditional(
    t: Seq<StoreEvent>,
    base: BaseView,
    m: Seq<MutationView>,
    now_ms: u64,
)
    requires
        inventory::commit_requests(t, base, m, now_ms),
        t.len() > 0,
        t.last() is PutWith,
    ensures
        ({
            let opts = t.last()->PutWith_opts;
            ||| opts.if_match_etag is Some
            ||| opts.if_none_match_star
            ||| base.manifest_etag is None && inventory::head_reply(t[0]) is Ok
                && inventory::head_reply(t[0])->Ok_0.etag is None
        }),
{
    match base.manifest_etag {
        Some(e) => {
            lemma_publish_shape(
                t,
                inventory::applied(base.file_entities, m),
                CondView::IfMatch(e),
                now_ms,
            );
        },
        None => {
            reveal(inventory::resolved);
            let n = inventory::resolve_len(t);
            let head = t.take(n);
            assert(head[0] == t[0]);
            if n == 2 {
                assert(head[1] == t[1]);
            }
            match inventory::resolved(head, base.file_entities, Some(m)) {
                Ok(ColdView::Write { files, cond }) => {
                    lemma_publish_shape(t.skip(n), files, cond, now_ms);
                    if t.len() > n {
                        assert(t.skip(n)[0] == t.last());
                    } else {
                        assert(t.last() == head[n - 1]);
                    }
                },
                _ => {
                    assert(t.last() == head[n - 1]);
                },
            }
        },
    }
}

/// A lost race is reported as such, and leaves the cache alone: the put that
/// lost it was the last request.
pub proof fn law_lost_race_never_clobbers(
    t: Seq<StoreEvent>,
    base: BaseView,
    m: Seq<MutationView>,
    now_ms: u64,
)
    requires
        inventory::commit_requests(t, base, m, now_ms),
        t.len() > 0,
        t.last() is PutWith,
        inventory::put_reply(t.last()) matches Err(ErrorView::PreconditionFailed(_)),
    ensures
        inventory::commit_result(t, base, m, now_ms) == Ok::<OutcomeView, ErrorView>(
            OutcomeView::PreconditionFailed,
        ),
        inventory::commit_update(t, base, m, now_ms) is Keep,
{
    reveal(inventory::publish_requests);
    reveal(inventory::publish_result);
    reveal(inventory::publish_update);
    match base.manifest_etag {
        Some(e) => {},
        None => {
            let n = inventory::resolve_len(t);
            let head = t.take(n);
            assert(head[0] == t[0]);
            if n == 2 {
                assert(head[1] == t[1]);
            }
            match inventory::resolved(head, base.file_entities, Some(m)) {
                Ok(ColdView::Write { files, cond }) => {
                    if t.len() > n {
                        assert(t.skip(n)[0] == t.last());
                    } else {
                        assert(t.last() == head[n - 1]);
                    }
                },
                _ => {
                    assert(t.last() == head[n - 1]);
                },
            }
        },
    }
}

/// Another writer's keys survive a cold commit: if a valid manifest appeared in
/// the meantime, the mutations are folded onto its entries, not onto the base.
pub proof fn law_cold_commit_keeps_other_writers_keys(
    t: Seq<StoreEvent>,
    base: Seq<EntityView>,
    m: Seq<MutationView>,
    theirs: ManifestView,
    key: Seq<char>,
)
    requires
        inventory::resolve_requests(t),
        t.len() == 2,
        inventory::head_reply(t[0]) is Ok,
        t[1] matches StoreEvent::Get { reply, body, tripped, .. } && reply is Ok && !tripped
            && manifest::parsed(body, MANIFEST_MAX_BYTES) == Ok::<ManifestView, ErrorView>(theirs),
        last_mutation(m, key) is None,
    ensures
        inventory::resolved(t, base, Some(m)) matches Ok(ColdView::Write { files, cond })
            && plan::find(files, key) == plan::find(manifest::by_key(theirs.entries), key) && cond
            is IfMatch,
{
    reveal(inventory::resolved);
    law_commit_folds_mutations(manifest::by_key(theirs.entries), m);
}

/// A bootstrap that finds a valid manifest adopts it: it changes nothing.
pub proof fn law_bootstrap_adopts(
    t: Seq<StoreEvent>,
    files: Seq<EntityView>,
    now_ms: u64,
)
    requires
        inventory::ensure_requests(t, files, now_ms),
        inventory::ensure_result(t, files, now_ms) matches Ok(OutcomeView::Adopted { .. }),
    ensures
        reads_only(t),
{
    reveal(inventory::publish_result);
    let n = inventory::resolve_len(t);
    let head = t.take(n);
    assert(head[0] == t[0]);
    if n == 2 {
        assert(head[1] == t[1]);
    }
    assert forall|i: int| 0 <= i < t.len() implies !(#[trigger] t[i]).mutates() by {
        if i < n {
            assert(head[i] == t[i]);
        }
    }
}

/// A repair puts nothing but the manifest, and a dry run changes nothing.
pub proof fn law_repair_puts_only_the_manifest(t: Seq<StoreEvent>, opts: RepairOpts, now_ms: u64)
    requires
        inventory::repair_requests(t, opts, now_ms),
    ensures
        forall|i: int| 0 <= i < t.len() ==> only_manifest(#[trigger] t[i]),
        opts.dry_run ==> reads_only(t),
{
    assert forall|i: int| 0 <= i < t.len() implies only_manifest(#[trigger] t[i]) by {
        if i >= 1 {
            assert(t.skip(1)[i - 1] == t[i]);
        }
    }
}

/// Every planned action on a remote object is on a key that is valid, not
/// reserved and not ignored. So an ignored or reserved remote key is never
/// downloaded and, under `--delete`, never deleted.
pub proof fn law_remote_keys_are_screened(
    local: Seq<EntityView>,
    followed: Seq<Seq<char>>,
    inv: RemoteView,
    mode: Mode,
    opts: PlanOpts,
    patterns: Seq<Seq<char>>,
    i: int,
)
    requires
        crate::report_of(local, followed, inv, mode, opts, patterns) is Ok,
        0 <= i < crate::report_of(local, followed, inv, mode, opts, patterns)->Ok_0.actions.len(),
    ensures
        ({
            let a = crate::report_of(local, followed, inv, mode, opts, patterns)->Ok_0.actions[i];
            a.remote is Some || a.kind == ActionKind::Download || a.kind
                == ActionKind::DeleteRemote ==> {
                &&& entity::valid_key(a.key)
                &&& !crate::reserved_key(a.key)
                &&& !ignore::ignored(patterns, a.key)
            }
        }),
{
    let remote = crate::planner_input(inv.entities, patterns);
    let full = plan::full_plan(local, remote, mode, opts);
    plan::laws::lemma_full_plan(local, remote, mode, opts);
    let a = full[i];
    assert(a == plan::planned(local, remote, mode, opts, a.key));
    plan::laws::law_actions_carry_files(full, local, remote, mode, opts, i);
    if a.remote is Some {
        plan::lemma_find(remote, a.key);
        let e = a.remote->0;
        let named = crate::select(inv.entities, inventory::keyed());
        let kept = crate::select(named, crate::unreserved());
        lemma_selected(kept, crate::kept_by(patterns), e);
        lemma_selected(named, crate::unreserved(), e);
        assert(remote.contains(e));
        let x = choose|x: int| 0 <= x < remote.len() && remote[x] == e;
        lemma_valid_keys(remote, x);
    }
}

/// Ignored and reserved files are never touched: in no mode and under no option,
/// `--delete` among them, is one uploaded, downloaded, or deleted on either
/// side. (A walk lists no such file: see
/// [`crate::local::law_walk_stays_screened`].)
pub proof fn law_ignored_files_are_never_touched(
    w: local::WalkView,
    inv: RemoteView,
    mode: Mode,
    opts: PlanOpts,
    i: int,
)
    requires
        local::listing_screened(w),
        ({
            let r = crate::report_of(
                manifest::by_key(w.found),
                w.report.followed_files,
                inv,
                mode,
                opts,
                w.ignore,
            );
            &&& r is Ok
            &&& 0 <= i < r->Ok_0.actions.len()
            &&& exec::is_transfer(r->Ok_0.actions[i].kind) || exec::is_delete(
                r->Ok_0.actions[i].kind,
            )
        }),
    ensures
        ({
            let r = crate::report_of(
                manifest::by_key(w.found),
                w.report.followed_files,
                inv,
                mode,
                opts,
                w.ignore,
            );
            let key = r->Ok_0.actions[i].key;
            !ignore::ignored(w.ignore, key) && !crate::reserved_key(key)
        }),
{
    let local = manifest::by_key(w.found);
    let followed = w.report.followed_files;
    let remote = crate::planner_input(inv.entities, w.ignore);
    let full = plan::full_plan(local, remote, mode, opts);
    plan::laws::lemma_full_plan(local, remote, mode, opts);
    let a = full[i];
    assert(a == plan::planned(local, remote, mode, opts, a.key));
    law_rules_only_take_away(local, followed, remote, mode, opts, i);
    plan::laws::law_actions_carry_files(full, local, remote, mode, opts, i);
    if a.remote is Some {
        law_remote_keys_are_screened(local, followed, inv, mode, opts, w.ignore, i);
    } else {
        plan::lemma_find(local, a.key);
        let e = a.local->0;
        sort::lemma_sorted_contains::<entity::Entity>(w.found, e);
        let x = choose|x: int| 0 <= x < w.found.len() && w.found[x] == e;
        assert(w.found[x].key == a.key);
    }
}

proof fn lemma_valid_keys(s: Seq<EntityView>, i: int)
    requires
        crate::first_key_error(s) is None,
        0 <= i < s.len(),
    ensures
        entity::valid_key(s[i].key),
    decreases s.len(),
{
    if i < s.len() - 1 {
        lemma_valid_keys(s.drop_last(), i);
        assert(s.drop_last()[i] == s[i]);
    }
}

/// Keys that differ in case alone are conflicts, both of them, in every mode
/// and under every option: neither is ever transferred or deleted.
pub proof fn law_case_collisions_are_conflicts(
    local: Seq<EntityView>,
    followed: Seq<Seq<char>>,
    remote: Seq<EntityView>,
    mode: Mode,
    opts: PlanOpts,
    i: int,
)
    requires
        0 <= i < crate::ruled_plan(local, followed, remote, mode, opts).len(),
        plan::case_collided(
            local,
            remote,
            crate::ruled_plan(local, followed, remote, mode, opts)[i].key,
        ),
    ensures
        crate::ruled_plan(local, followed, remote, mode, opts)[i].kind == ActionKind::Conflict,
{
    let full = plan::full_plan(local, remote, mode, opts);
    plan::laws::lemma_full_plan(local, remote, mode, opts);
    let a = full[i];
    assert(a == plan::planned(local, remote, mode, opts, a.key));
    if a.reason == reason::PATH_COLLISION@ {
        lemma_path_collision_reason(a, local, remote, mode, opts);
    }
}

/// The planner gives the reason of a path collision to conflicts alone.
pub proof fn lemma_path_collision_reason(
    a: ActionView,
    local: Seq<EntityView>,
    remote: Seq<EntityView>,
    mode: Mode,
    opts: PlanOpts,
)
    requires
        a == plan::planned(local, remote, mode, opts, a.key),
        a.reason == reason::PATH_COLLISION@,
    ensures
        a.kind == ActionKind::Conflict,
{
    reveal_strlit("equal");
    reveal_strlit("local_only");
    reveal_strlit("remote_only");
    reveal_strlit("local_newer");
    reveal_strlit("remote_newer");
    reveal_strlit("equal_unknown_mtime");
    reveal_strlit("path_collision");
    reveal_strlit("folder");
    reveal_strlit("force_local");
    reveal_strlit("force_remote");
    assert(reason::PATH_COLLISION@.len() == 14);
    assert(reason::EQUAL@.len() == 5);
    assert(reason::LOCAL_ONLY@.len() == 10);
    assert(reason::REMOTE_ONLY@.len() == 11);
    assert(reason::LOCAL_NEWER@.len() == 11);
    assert(reason::REMOTE_NEWER@.len() == 12);
    assert(reason::EQUAL_UNKNOWN_MTIME@.len() == 19);
    assert(reason::FOLDER@.len() == 6);
    assert(reason::FORCE_LOCAL@.len() == 11);
    assert(reason::FORCE_REMOTE@.len() == 12);
}

/// A followed file symlink is inventory only: in a mutating mode it is never
/// uploaded, downloaded, or deleted on either side.
pub proof fn law_followed_symlinks_stay(
    local: Seq<EntityView>,
    followed: Seq<Seq<char>>,
    remote: Seq<EntityView>,
    mode: Mode,
    opts: PlanOpts,
    i: int,
)
    requires
        mode != Mode::Status,
        0 <= i < crate::ruled_plan(local, followed, remote, mode, opts).len(),
        ({
            let key = crate::ruled_plan(local, followed, remote, mode, opts)[i].key;
            followed.contains(key) && plan::has_key(local, key)
        }),
    ensures
        ({
            let kind = crate::ruled_plan(local, followed, remote, mode, opts)[i].kind;
            kind == ActionKind::Skip || kind == ActionKind::Conflict
        }),
{
    let full = plan::full_plan(local, remote, mode, opts);
    plan::laws::lemma_full_plan(local, remote, mode, opts);
    let a = full[i];
    assert(a == plan::planned(local, remote, mode, opts, a.key));
    plan::lemma_find(local, a.key);
}

/// The rules on top of the planner only ever take actions away: an action of
/// the final plan is that of the planner, or a conflict or a skip in its
/// place. So all that holds of the planner's transfers and deletes holds of
/// the final ones.
pub proof fn law_rules_only_take_away(
    local: Seq<EntityView>,
    followed: Seq<Seq<char>>,
    remote: Seq<EntityView>,
    mode: Mode,
    opts: PlanOpts,
    i: int,
)
    requires
        0 <= i < crate::ruled_plan(local, followed, remote, mode, opts).len(),
    ensures
        ({
            let full = plan::full_plan(local, remote, mode, opts);
            let a = crate::ruled_plan(local, followed, remote, mode, opts)[i];
            &&& a.key == full[i].key
            &&& a == full[i] || a.kind == ActionKind::Conflict || a.kind == ActionKind::Skip
        }),
{
}

/// Whether an event is a put of the manifest.
pub open spec fn is_manifest_put(e: StoreEvent) -> bool {
    e is PutWith && e->PutWith_key == MANIFEST_KEY@
}

/// A bootstrap changes nothing but the manifest, by one put, its last request.
/// It succeeds if and only if that put did, or a valid manifest was there to be
/// adopted; what it published is the body of the given files.
pub proof fn law_bootstrap_publishes(t: Seq<StoreEvent>, files: Seq<EntityView>, now_ms: u64)
    requires
        inventory::ensure_requests(t, files, now_ms),
    ensures
        forall|i: int|
            0 <= i < t.len() && (#[trigger] t[i]).mutates() ==> i == t.len() - 1
                && is_manifest_put(t[i]),
        inventory::ensure_result(t, files, now_ms) matches Ok(OutcomeView::Written { etag, .. })
            ==> {
            let e = t.last();
            &&& is_manifest_put(e)
            &&& inventory::body_for(files, now_ms) == Ok::<_, ErrorView>(e->PutWith_body)
            &&& inventory::put_reply(e) is Ok
            &&& inventory::put_reply(e)->Ok_0.etag == etag
        },
        inventory::ensure_result(t, files, now_ms) matches Ok(OutcomeView::Adopted { .. })
            ==> reads_only(t),
{
    reveal(inventory::publish_requests);
    reveal(inventory::publish_result);
    reveal(inventory::resolved);
    let n = inventory::resolve_len(t);
    let head = t.take(n);
    let rest = t.skip(n);
    assert(head[0] == t[0]);
    if n == 2 {
        assert(head[1] == t[1]);
    }
    assert forall|i: int| 0 <= i < t.len() && (#[trigger] t[i]).mutates() implies i == t.len() - 1
        && is_manifest_put(t[i]) by {
        if i < n {
            assert(head[i] == t[i]);
        } else {
            assert(rest[i - n] == t[i]);
        }
    }
    if rest.len() == 1 {
        assert(rest[0] == t.last());
    }
}

/// Commands that plan only read the store before their transfers, except that a
/// push under `push-ensure`, and a status that was asked to, publish a baseline
/// manifest when the mode is `auto` and no usable manifest was found: one put,
/// of the manifest alone, as the last request. With `--json` no request is made.
pub proof fn law_planning_commands_only_read(
    cmd: Command,
    t: Seq<StoreEvent>,
    ctx: DispatchCtx,
    inputs: Inputs,
)
    requires
        cmd is Status || cmd is Push || cmd is Pull,
        cli::dispatch_requests(cmd, t, ctx, inputs),
    ensures
        forall|i: int|
            0 <= i < t.len() && (#[trigger] t[i]).mutates() ==> {
                &&& i == t.len() - 1
                &&& is_manifest_put(t[i])
                &&& ctx.inventory_mode == InventoryMode::Auto
                &&& outcome(cmd, t, ctx, inputs) matches Some(Ok(report))
                &&& report.inventory_base.source is LiveListHead
            },
        cmd is Pull ==> reads_only(t),
        cmd matches Command::Status { write_manifest, .. } ==> !write_manifest ==> reads_only(t),
        cmd matches Command::Push { dry_run, .. } ==> (dry_run || ctx.inventory_bootstrap
            == InventoryBootstrap::Off) ==> reads_only(t),
        cli::wants_json(cmd) ==> t.len() == 0,
{
    if !cli::wants_json(cmd) && cli::walked(inputs) is Ok {
        let local = cli::walked(inputs)->Ok_0;
        let flags = cli::plan_flags(cmd, ctx.tolerance_ms)->0;
        let mode = ctx.inventory_mode;
        let cache = cli::cached(inputs);
        let loaded = inventory::load_part(t, mode);
        let rest = inventory::after_load(t, mode);
        assert(cli::plan_requests(t, local, flags, ctx, cache, inputs.now_ms));
        law_load_only_reads(loaded, mode, cache);
        inventory::lemma_load_len_in_range(t);
        let p = cli::planned(t, local, flags, ctx, cache);
        if p is Ok && cli::bootstraps(flags, ctx, p->Ok_0.inventory_base) {
            law_bootstrap_publishes(rest, p->Ok_0.inventory_base.file_entities, inputs.now_ms);
        }
        assert forall|i: int| 0 <= i < t.len() && (#[trigger] t[i]).mutates() implies {
            &&& i == t.len() - 1
            &&& is_manifest_put(t[i])
            &&& p is Ok
            &&& cli::bootstraps(flags, ctx, p->Ok_0.inventory_base)
        } by {
            if i < loaded.len() {
                assert(loaded[i] == t[i]);
            } else {
                assert(rest[i - loaded.len()] == t[i]);
            }
        }
    }
}

/// The plan that a planning command comes to, or what stopped it: a failed
/// walk, a failed load, or an invalid remote key. `None` if the command is
/// refused before it plans.
pub open spec fn outcome(
    cmd: Command,
    t: Seq<StoreEvent>,
    ctx: DispatchCtx,
    inputs: Inputs,
) -> Option<Result<crate::PlanReportView, ErrorView>> {
    let flags = cli::plan_flags(cmd, ctx.tolerance_ms)->0;
    if cli::wants_json(cmd) {
        None
    } else {
        match cli::walked(inputs) {
            Err(e) => Some(Err(e)),
            Ok(local) => Some(cli::planned(t, local, flags, ctx, cli::cached(inputs))),
        }
    }
}

/// Whether a planning command bootstraps the inventory from its plan.
pub open spec fn bootstraps_from(
    cmd: Command,
    ctx: DispatchCtx,
    report: crate::PlanReportView,
) -> bool {
    cli::bootstraps(cli::plan_flags(cmd, ctx.tolerance_ms)->0, ctx, report.inventory_base)
}

/// What the bootstrap of a planning command gave.
pub open spec fn bootstrapped(
    t: Seq<StoreEvent>,
    ctx: DispatchCtx,
    inputs: Inputs,
    report: crate::PlanReportView,
) -> Result<OutcomeView, ErrorView> {
    inventory::ensure_result(
        inventory::after_load(t, ctx.inventory_mode),
        report.inventory_base.file_entities,
        inputs.now_ms,
    )
}

/// A status and a dry run end without transfers. Their exit code is 1 if and
/// only if no plan came about, or a bootstrap that was asked for left no
/// manifest in place; else it is 0 if and only if the plan is clean; else 2.
pub proof fn law_dry_runs_end(
    cmd: Command,
    t: Seq<StoreEvent>,
    ctx: DispatchCtx,
    inputs: Inputs,
    out: Seq<char>,
    err: Seq<char>,
)
    requires
        cmd is Status || (cmd matches Command::Push { dry_run, .. } && dry_run) || (
        cmd matches Command::Pull { dry_run, .. } && dry_run),
    ensures
        ({
            let shown = cli::dispatched(cmd, t, ctx, inputs, out, err);
            let o = outcome(cmd, t, ctx, inputs);
            &&& shown.dispatch matches DispatchView::Exit(code)
            &&& code == (match o {
                Some(Ok(report)) => if bootstraps_from(cmd, ctx, report) && !cli::secured(
                    bootstrapped(t, ctx, inputs, report),
                ) {
                    1int
                } else if cli::clean(report.stats) {
                    0
                } else {
                    2
                },
                _ => 1,
            })
        }),
{
    if !cli::wants_json(cmd) && cli::walked(inputs) is Ok {
        let local = cli::walked(inputs)->Ok_0;
        let flags = cli::plan_flags(cmd, ctx.tolerance_ms)->0;
        let cache = cli::cached(inputs);
        lemma_planning_dispatch(cmd, t, ctx, inputs, out, err);
        lemma_plan_exit(out, err, t, local, flags, ctx, cache, inputs.now_ms, inputs.terminal);
    }
}

/// The exit code of planning without transfers.
proof fn lemma_plan_exit(
    out: Seq<char>,
    err: Seq<char>,
    t: Seq<StoreEvent>,
    local: local::WalkView,
    flags: cli::PlanFlags,
    ctx: DispatchCtx,
    cache: Option<CacheView>,
    now_ms: u64,
    terminal: bool,
)
    requires
        flags.dry_run,
    ensures
        cli::plan_shown(out, err, t, local, flags, ctx, cache, now_ms, terminal).dispatch
            == DispatchView::Exit(
            match cli::planned(t, local, flags, ctx, cache) {
                Err(_) => 1i32,
                Ok(report) => if cli::bootstraps(flags, ctx, report.inventory_base)
                    && !cli::secured(
                    inventory::ensure_result(
                        inventory::after_load(t, ctx.inventory_mode),
                        report.inventory_base.file_entities,
                        now_ms,
                    ),
                ) {
                    1
                } else if cli::clean(report.stats) {
                    0
                } else {
                    2
                },
            },
        ),
{
    reveal(cli::plan_shown);
}

/// A push that found no usable manifest secures one before its transfers, under
/// the mode `auto` and `push-ensure`: whatever is planned, it publishes the
/// files that it listed, or adopts a valid manifest that has appeared since, or
/// says why neither came about. Its transfers then go on from what was
/// published or adopted.
pub proof fn law_cold_push_bootstraps(
    cmd: Command,
    t: Seq<StoreEvent>,
    ctx: DispatchCtx,
    inputs: Inputs,
    out: Seq<char>,
    err: Seq<char>,
)
    requires
        cmd matches Command::Push { dry_run, .. } && !dry_run,
        ctx.inventory_mode == InventoryMode::Auto,
        ctx.inventory_bootstrap == InventoryBootstrap::PushEnsure,
        cli::dispatch_requests(cmd, t, ctx, inputs),
        outcome(cmd, t, ctx, inputs) matches Some(Ok(report))
            && report.inventory_base.source is LiveListHead,
    ensures
        ({
            let report = outcome(cmd, t, ctx, inputs)->0->Ok_0;
            let base = report.inventory_base;
            let rest = inventory::after_load(t, ctx.inventory_mode);
            let shown = cli::dispatched(cmd, t, ctx, inputs, out, err);
            &&& inventory::ensure_requests(rest, base.file_entities, inputs.now_ms)
            &&& shown.dispatch matches DispatchView::Transfer(p)
            &&& p.inventory_base == inventory::ensured_base(rest, base, inputs.now_ms)
            &&& bootstrapped(t, ctx, inputs, report) matches Ok(OutcomeView::Written { .. }) ==> {
                &&& is_manifest_put(rest.last())
                &&& inventory::body_for(base.file_entities, inputs.now_ms) == Ok::<_, ErrorView>(
                    rest.last()->PutWith_body,
                )
                &&& p.inventory_base.file_entities == base.file_entities
            }
        }),
{
    let local = cli::walked(inputs)->Ok_0;
    let flags = cli::plan_flags(cmd, ctx.tolerance_ms)->0;
    let cache = cli::cached(inputs);
    lemma_planning_dispatch(cmd, t, ctx, inputs, out, err);
    lemma_plan_transfer(out, err, t, local, flags, ctx, cache, inputs.now_ms, inputs.terminal);
    lemma_cold_plan(t, local, flags, ctx, cache, inputs.now_ms);
}

/// Dispatch of a command that plans, once the vault is walked.
pub proof fn lemma_planning_dispatch(
    cmd: Command,
    t: Seq<StoreEvent>,
    ctx: DispatchCtx,
    inputs: Inputs,
    out: Seq<char>,
    err: Seq<char>,
)
    requires
        cmd is Status || cmd is Push || cmd is Pull,
        !cli::wants_json(cmd),
        cli::walked(inputs) is Ok,
    ensures
        cli::dispatch_requests(cmd, t, ctx, inputs) == cli::plan_requests(
            t,
            cli::walked(inputs)->Ok_0,
            cli::plan_flags(cmd, ctx.tolerance_ms)->0,
            ctx,
            cli::cached(inputs),
            inputs.now_ms,
        ),
        cli::dispatched(cmd, t, ctx, inputs, out, err) == cli::plan_shown(
            out,
            err,
            t,
            cli::walked(inputs)->Ok_0,
            cli::plan_flags(cmd, ctx.tolerance_ms)->0,
            ctx,
            cli::cached(inputs),
            inputs.now_ms,
            inputs.terminal,
        ),
{
}

/// The requests of a bootstrap that is due.
proof fn lemma_cold_plan(
    t: Seq<StoreEvent>,
    local: local::WalkView,
    flags: cli::PlanFlags,
    ctx: DispatchCtx,
    cache: Option<CacheView>,
    now_ms: u64,
)
    requires
        cli::plan_requests(t, local, flags, ctx, cache, now_ms),
        cli::planned(t, local, flags, ctx, cache) is Ok,
        cli::bootstraps(
            flags,
            ctx,
            cli::planned(t, local, flags, ctx, cache)->Ok_0.inventory_base,
        ),
    ensures
        ({
            let base = cli::planned(t, local, flags, ctx, cache)->Ok_0.inventory_base;
            let rest = inventory::after_load(t, ctx.inventory_mode);
            &&& inventory::ensure_requests(rest, base.file_entities, now_ms)
            &&& inventory::ensure_result(rest, base.file_entities, now_ms) matches Ok(
                OutcomeView::Written { .. },
            ) ==> {
                &&& is_manifest_put(rest.last())
                &&& inventory::body_for(base.file_entities, now_ms) == Ok::<_, ErrorView>(
                    rest.last()->PutWith_body,
                )
                &&& inventory::ensured_base(rest, base, now_ms).file_entities
                    == base.file_entities
            }
        }),
{
    let base = cli::planned(t, local, flags, ctx, cache)->Ok_0.inventory_base;
    let rest = inventory::after_load(t, ctx.inventory_mode);
    law_bootstrap_publishes(rest, base.file_entities, now_ms);
    if inventory::ensure_result(rest, base.file_entities, now_ms) matches Ok(
        OutcomeView::Written { .. },
    ) {
        lemma_written_base(rest, base, now_ms);
    }
}

/// A bootstrap that published the files of its base goes on with them.
proof fn lemma_written_base(t: Seq<StoreEvent>, base: BaseView, now_ms: u64)
    requires
        inventory::ensure_result(t, base.file_entities, now_ms) matches Ok(
            OutcomeView::Written { .. },
        ),
    ensures
        inventory::ensured_base(t, base, now_ms).file_entities == base.file_entities,
{
}

/// The base with which transfers go on.
proof fn lemma_plan_transfer(
    out: Seq<char>,
    err: Seq<char>,
    t: Seq<StoreEvent>,
    local: local::WalkView,
    flags: cli::PlanFlags,
    ctx: DispatchCtx,
    cache: Option<CacheView>,
    now_ms: u64,
    terminal: bool,
)
    requires
        !flags.dry_run,
        cli::planned(t, local, flags, ctx, cache) is Ok,
        cli::bootstraps(
            flags,
            ctx,
            cli::planned(t, local, flags, ctx, cache)->Ok_0.inventory_base,
        ),
    ensures
        ({
            let shown = cli::plan_shown(out, err, t, local, flags, ctx, cache, now_ms, terminal);
            &&& shown.dispatch matches DispatchView::Transfer(p)
            &&& p.inventory_base == inventory::ensured_base(
                inventory::after_load(t, ctx.inventory_mode),
                cli::planned(t, local, flags, ctx, cache)->Ok_0.inventory_base,
                now_ms,
            )
        }),
{
    reveal(cli::plan_shown);
}

/// A pull never writes the manifest, nor anything else after its transfers.
pub proof fn law_pull_never_commits(
    p: PendingView,
    o: Seq<exec::StepView>,
    t: Seq<StoreEvent>,
    now_ms: u64,
)
    requires
        p.mode == Mode::Pull,
        inventory::commit_requests(t, p.inventory_base, cli::committed(p, o), now_ms),
    ensures
        t.len() == 0,
{
}

/// After its transfers, a push that mutated nothing writes nothing: the
/// manifest of its baseline stands (see [`law_cold_push_bootstraps`]).
pub proof fn law_idle_push_never_commits(
    p: PendingView,
    o: Seq<exec::StepView>,
    t: Seq<StoreEvent>,
    now_ms: u64,
)
    requires
        cli::transfer_report(p, o).mutations.len() == 0,
        inventory::commit_requests(t, p.inventory_base, cli::committed(p, o), now_ms),
    ensures
        t.len() == 0,
{
}

/// The exit code of a transfer says how it went: 1 if and only if a key
/// failed; 2 if and only if none did and the plan holds a conflict; else 0. A
/// failed or lost commit does not change it.
pub proof fn law_exit_codes(p: PendingView, o: Seq<exec::StepView>)
    ensures
        (cli::exit_code(p, o) == 1) == (cli::transfer_report(p, o).failed.len() > 0),
        (cli::exit_code(p, o) == 2) == (cli::transfer_report(p, o).failed.len() == 0
            && cli::has_conflict(p.actions)),
        0 <= cli::exit_code(p, o) <= 2,
{
}

/// A check touches nothing but its probe, and leaves nothing behind: once the
/// probe was put, the last request deletes it, whatever the read-back gave. It
/// succeeds if and only if every request did and the probe was read back whole.
pub proof fn law_check_cleans_up(t: Seq<StoreEvent>, key: Seq<char>)
    requires
        crate::check_requests(t, key),
    ensures
        forall|i: int|
            0 <= i < t.len() ==> match #[trigger] t[i] {
                StoreEvent::Put { key: k, .. } => k == key,
                StoreEvent::Get { key: k, .. } => k == key,
                StoreEvent::Delete { key: k, .. } => k == key,
                _ => false,
            },
        inventory::plain_put_reply(t[0]) is Ok ==> t.last() is Delete,
        crate::check_result(t, key) is Ok <==> inventory::plain_put_reply(t[0]) is Ok
            && crate::read_back_fault(t[1]) is None && crate::delete_reply(t[2]) is Ok,
{
}

/// A probe key is valid and reserved, so it is never planned.
pub proof fn law_probe_keys_are_reserved(pid: nat, n: nat, nanos: nat)
    ensures
        entity::valid_key(crate::probe_text(pid, n, nanos)),
        crate::reserved_key(crate::probe_text(pid, n, nanos)),
{
    let k = crate::probe_text(pid, n, nanos);
    let p = ".vaultsync-check-"@;
    reveal_strlit(".vaultsync-check-");
    reveal_strlit("-");
    text::lemma_dec_chars(pid);
    text::lemma_dec_chars(n);
    text::lemma_dec_chars(nanos);
    assert(k.take(p.len() as int) =~= p);
    assert forall|i: int| 0 <= i < k.len() implies #[trigger] k[i] != '/' && k[i] != '\\'
        && !text::is_control(k[i]) by {
        let a = p.len();
        let b = a + text::dec(pid).len();
        let c = b + 1 + text::dec(n).len();
        if i < a {
            assert(k[i] == p[i]);
        } else if a <= i < b {
            assert(k[i] == text::dec(pid)[i - a]);
        } else if b < i < c {
            assert(k[i] == text::dec(n)[i - b - 1]);
        } else if i > c {
            assert(k[i] == text::dec(nanos)[i - c - 1]);
        }
    }
    text::lemma_one_segment(k);
    assert(text::strip_slash(k) == k);
    assert(k[0] == '.' && k[1] == 'v');
    assert(!text::is_blank(k)) by {
        assert(!text::is_whitespace(k[1]));
    }
    assert(entity::first_fault(seq![k], 1) is None);
    assert(entity::segment_fault(k) is None);
}

/// Probe keys of different turns of the counter differ.
pub proof fn law_probe_keys_differ(pid: nat, n: nat, m: nat, nanos: nat, other_nanos: nat)
    requires
        n != m,
    ensures
        crate::probe_text(pid, n, nanos) != crate::probe_text(pid, m, other_nanos),
{
    let a = crate::probe_text(pid, n, nanos);
    let b = crate::probe_text(pid, m, other_nanos);
    reveal_strlit("-");
    text::lemma_dec_chars(n);
    text::lemma_dec_chars(m);
    text::lemma_dec_injective(n, m);
    if a == b {
        let front = (".vaultsync-check-"@ + text::dec(pid) + "-"@).len() as int;
        let x = text::dec(n);
        let y = text::dec(m);
        assert(a[front + x.len()] == '-');
        assert(b[front + y.len()] == '-');
        if x.len() < y.len() {
            assert(b[front + x.len()] == y[x.len() as int]);
        } else if y.len() < x.len() {
            assert(a[front + y.len()] == x[y.len() as int]);
        } else {
            assert forall|i: int| 0 <= i < x.len() implies x[i] == y[i] by {
                assert(a[front + i] == x[i]);
                assert(b[front + i] == y[i]);
            }
            assert(x =~= y);
        }
    }
}

} // verus!
