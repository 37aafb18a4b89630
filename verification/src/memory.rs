//! What the protocols come to over an in-memory store: each law speaks of the
//! objects before the requests, and of those after them.
//!
//! That the replies of a session over a [`crate::store::mock::MemoryStore`] are
//! the ones spoken of here is
//! [`law_memory_session`](crate::store::mock::law_memory_session).

use vstd::prelude::*;
use crate::cli;
use crate::cli::{Command, DispatchCtx, Inputs};
use crate::config::{InventoryBootstrap, InventoryMode};
use crate::entity;
use crate::entity::{Entity, EntityView};
use crate::error::ErrorView;
use crate::exec;
use crate::inventory;
use crate::inventory::{
    BaseView, CacheView, ColdView, CondView, MutationView, OutcomeView, RemoteView, RepairOpts, RepairView,
    SourceView, WarmView,
};
use crate::laws;
use crate::local::MANIFEST_KEY;
use crate::manifest;
use crate::manifest::{ManifestView, MANIFEST_MAX_BYTES};
use crate::plan;
use crate::plan::ActionView;
use crate::sort;
use crate::sort::Keyed;
use crate::store::mock;
use crate::store::mock::ObjectView;
use crate::store::{ListingView, StoreEvent};
use crate::text;

verus! {

/// The objects of an in-memory store.
pub type Objects = Map<Seq<char>, ObjectView>;

/// Whether the store holds a manifest, as it is written, within the cap.
pub open spec fn holds_manifest(objects: Objects, m: ManifestView) -> bool {
    &&& objects.contains_key(MANIFEST_KEY@)
    &&& objects[MANIFEST_KEY@].body == manifest::body(m)
    &&& manifest::sound(m)
    &&& manifest::body(m).len() <= MANIFEST_MAX_BYTES
}

/// The etag of the manifest that the store holds.
pub open spec fn manifest_etag(objects: Objects) -> Seq<char> {
    mock::fingerprint(objects[MANIFEST_KEY@].body)
}

/// Requests that change nothing leave the objects as they are.
pub proof fn lemma_reads_leave(objects: Objects, t: Seq<StoreEvent>)
    requires
        laws::reads_only(t),
    ensures
        mock::effects(objects, t) == objects,
    decreases t.len(),
{
    if t.len() > 0 {
        let d = t.drop_last();
        assert forall|i: int| 0 <= i < d.len() implies !(#[trigger] d[i]).mutates() by {
            assert(d[i] == t[i]);
        }
        lemma_reads_leave(objects, d);
        assert(t.last() == t[t.len() - 1]);
    }
}

/// After requests that changed nothing, a reply is that of the objects before.
proof fn lemma_reply_after_reads(objects: Objects, t: Seq<StoreEvent>, i: int)
    requires
        mock::replies_all(objects, t),
        0 <= i < t.len(),
        forall|j: int| 0 <= j < i ==> !(#[trigger] t[j]).mutates(),
    ensures
        mock::replies(objects, t[i]),
        mock::effects(objects, t.take(i)) == objects,
        mock::effects(objects, t.take(i + 1)) == mock::effect(objects, t[i]),
{
    let p = t.take(i);
    assert forall|j: int| 0 <= j < p.len() implies !(#[trigger] p[j]).mutates() by {
        assert(p[j] == t[j]);
    }
    lemma_reads_leave(objects, p);
    assert(mock::replies(mock::effects(objects, t.take(i)), t[i]));
    assert(t.take(i + 1).drop_last() =~= p);
    assert(t.take(i + 1).last() == t[i]);
}

/// The requests of a fetch and what it brings.
proof fn lemma_fetch(objects: Objects, t: Seq<StoreEvent>, m: ManifestView)
    requires
        mock::replies_all(objects, t),
        t.len() >= 1,
        inventory::fetch_requests(t, MANIFEST_MAX_BYTES),
        holds_manifest(objects, m),
    ensures
        t.len() == 2,
        laws::reads_only(t),
        inventory::served(t[1]) == Some(manifest::body(m)),
        inventory::fetched(t, MANIFEST_MAX_BYTES) == Ok::<_, ErrorView>(
            inventory::FetchView::Body(
                mock::object_entity(MANIFEST_KEY@, objects[MANIFEST_KEY@]),
                manifest::body(m),
            ),
        ),
{
    lemma_reply_after_reads(objects, t, 0);
    lemma_reply_after_reads(objects, t, 1);
    assert(Seq::<u8>::empty() + manifest::body(m) =~= manifest::body(m));
}

/// A load of a store that holds a manifest is warm: it serves the entries of the
/// manifest and their folders, with the manifest's etag and without a warning,
/// lists nothing, and changes nothing. (`bodies_read_back` is what every load
/// ensures of the bodies that it parsed.)
pub proof fn law_memory_load_is_warm(
    objects: Objects,
    t: Seq<StoreEvent>,
    mode: InventoryMode,
    m: ManifestView,
)
    requires
        mode != InventoryMode::ListHead,
        mock::replies_all(objects, t),
        inventory::load_requests(t, mode, None),
        inventory::bodies_read_back(t),
        holds_manifest(objects, m),
    ensures
        inventory::load_result(t, mode, None) == Ok::<RemoteView, ErrorView>(
            inventory::warm_inventory(manifest::normal(m), Some(manifest_etag(objects))),
        ),
        manifest::by_key(manifest::normal(m).entries) == manifest::by_key(m.entries),
        forall|i: int| 0 <= i < t.len() ==> !(#[trigger] t[i] is List),
        mock::effects(objects, t) == objects,
{
    let w = match mode {
        InventoryMode::Auto => inventory::warm_part(t),
        _ => t,
    };
    assert forall|i: int| 0 <= i < w.len() implies mock::replies(
        mock::effects(objects, w.take(i)),
        #[trigger] w[i],
    ) by {
        assert(w[i] == t[i]);
        assert(w.take(i) =~= t.take(i));
    }
    lemma_fetch(objects, w, m);
    assert(w[1] == t[1]);
    assert(manifest::reads_back(manifest::body(m)));
    assert(w == t);
    laws::law_load_only_reads(t, mode, None);
    lemma_reads_leave(objects, t);
    sort::lemma_sorted_in_order::<Entity>(m.entries);
    sort::lemma_sorted_fixed::<Entity>(manifest::by_key(m.entries));
}

/// A commit on a stale etag is refused, and changes nothing.
pub proof fn law_memory_stale_commit_is_refused(
    objects: Objects,
    t: Seq<StoreEvent>,
    base: BaseView,
    m: Seq<MutationView>,
    now_ms: u64,
)
    requires
        mock::replies_all(objects, t),
        inventory::commit_requests(t, base, m, now_ms),
        m.len() > 0,
        base.manifest_etag is Some,
        !mock::unchanged(objects, MANIFEST_KEY@, base.manifest_etag),
        inventory::body_for(inventory::applied(base.file_entities, m), now_ms) is Ok,
    ensures
        inventory::commit_result(t, base, m, now_ms) == Ok::<_, ErrorView>(
            OutcomeView::PreconditionFailed,
        ),
        inventory::commit_update(t, base, m, now_ms) is Keep,
        mock::effects(objects, t) == objects,
{
    reveal(inventory::publish_requests);
    reveal(inventory::publish_result);
    reveal(inventory::publish_update);
    lemma_reply_after_reads(objects, t, 0);
    assert(t.take(1) =~= t);
}

/// A commit on the current etag puts the manifest of the base with the
/// mutations folded in.
pub proof fn law_memory_commit_is_stored(
    objects: Objects,
    t: Seq<StoreEvent>,
    base: BaseView,
    m: Seq<MutationView>,
    now_ms: u64,
)
    requires
        mock::replies_all(objects, t),
        inventory::commit_requests(t, base, m, now_ms),
        m.len() > 0,
        base.manifest_etag is Some,
        mock::unchanged(objects, MANIFEST_KEY@, base.manifest_etag),
        inventory::body_for(inventory::applied(base.file_entities, m), now_ms) is Ok,
    ensures
        ({
            let files = inventory::applied(base.file_entities, m);
            let body = inventory::body_for(files, now_ms)->Ok_0;
            &&& inventory::commit_result(t, base, m, now_ms) == Ok::<_, ErrorView>(
                OutcomeView::Written {
                    etag: Some(mock::fingerprint(body)),
                    entry_count: files.len() as usize,
                },
            )
            &&& mock::effects(objects, t) == objects.insert(
                MANIFEST_KEY@,
                ObjectView { body, mtime_ms: None },
            )
        }),
{
    reveal(inventory::publish_requests);
    reveal(inventory::publish_result);
    lemma_reply_after_reads(objects, t, 0);
    assert(t.take(1) =~= t);
}

/// The requests of a resolution over a store that holds a manifest.
proof fn lemma_resolution(
    objects: Objects,
    t: Seq<StoreEvent>,
    files: Seq<EntityView>,
    successes: Option<Seq<MutationView>>,
    m: ManifestView,
)
    requires
        mock::replies_all(objects, t),
        t.len() >= inventory::resolve_len(t),
        inventory::resolve_requests(t.take(inventory::resolve_len(t))),
        inventory::bodies_read_back(t),
        holds_manifest(objects, m),
    ensures
        inventory::resolve_len(t) == 2,
        laws::reads_only(t.take(2)),
        inventory::resolved(t.take(2), files, successes) == Ok::<_, ErrorView>(
            match successes {
                None => ColdView::Adopt {
                    files: manifest::by_key(m.entries),
                    etag: Some(manifest_etag(objects)),
                    entry_count: m.entries.len() as usize,
                },
                Some(s) => ColdView::Write {
                    files: inventory::applied(manifest::by_key(m.entries), s),
                    cond: CondView::IfMatch(manifest_etag(objects)),
                },
            },
        ),
{
    reveal(inventory::resolved);
    let n = inventory::resolve_len(t);
    let head = t.take(n);
    assert(head[0] == t[0]);
    lemma_reply_after_reads(objects, t, 0);
    assert(n == 2);
    assert(head[1] == t[1]);
    lemma_reply_after_reads(objects, t, 1);
    assert(Seq::<u8>::empty() + manifest::body(m) =~= manifest::body(m));
    assert(inventory::served(t[1]) == Some(manifest::body(m)));
    assert(manifest::reads_back(manifest::body(m)));
    sort::lemma_sorted_permutes::<Entity>(m.entries);
    sort::lemma_sorted_in_order::<Entity>(m.entries);
    sort::lemma_sorted_fixed::<Entity>(manifest::by_key(m.entries));
}

/// A cold commit keeps the other writer's keys: over a store that holds a valid
/// manifest, the mutations are folded onto its entries, and the result is put.
pub proof fn law_memory_cold_commit_merges(
    objects: Objects,
    t: Seq<StoreEvent>,
    base: BaseView,
    s: Seq<MutationView>,
    now_ms: u64,
    m: ManifestView,
)
    requires
        mock::replies_all(objects, t),
        inventory::commit_requests(t, base, s, now_ms),
        inventory::bodies_read_back(t),
        s.len() > 0,
        base.manifest_etag is None,
        holds_manifest(objects, m),
        inventory::body_for(
            inventory::applied(manifest::by_key(m.entries), s),
            now_ms,
        ) is Ok,
    ensures
        ({
            let files = inventory::applied(manifest::by_key(m.entries), s);
            let body = inventory::body_for(files, now_ms)->Ok_0;
            &&& inventory::commit_result(t, base, s, now_ms) == Ok::<_, ErrorView>(
                OutcomeView::Written {
                    etag: Some(mock::fingerprint(body)),
                    entry_count: files.len() as usize,
                },
            )
            &&& mock::effects(objects, t) == objects.insert(
                MANIFEST_KEY@,
                ObjectView { body, mtime_ms: None },
            )
        }),
{
    reveal(inventory::publish_requests);
    reveal(inventory::publish_result);
    lemma_resolution(objects, t, base.file_entities, Some(s), m);
    assert(t.skip(2)[0] == t[2]);
    assert(t.take(2)[0] == t[0] && t.take(2)[1] == t[1]);
    lemma_reply_after_reads(objects, t, 2);
    assert(t.take(3) =~= t);
}

/// A bootstrap of a store that holds a valid manifest adopts it: it puts
/// nothing, and goes on with the manifest's entries.
pub proof fn law_memory_bootstrap_adopts(
    objects: Objects,
    t: Seq<StoreEvent>,
    base: BaseView,
    now_ms: u64,
    m: ManifestView,
)
    requires
        mock::replies_all(objects, t),
        inventory::ensure_requests(t, base.file_entities, now_ms),
        inventory::bodies_read_back(t),
        holds_manifest(objects, m),
    ensures
        inventory::ensure_result(t, base.file_entities, now_ms) == Ok::<_, ErrorView>(
            OutcomeView::Adopted {
                etag: Some(manifest_etag(objects)),
                entry_count: m.entries.len() as usize,
            },
        ),
        inventory::ensured_base(t, base, now_ms) == (BaseView {
            source: SourceView::Manifest { remote_etag: Some(manifest_etag(objects)) },
            file_entities: manifest::by_key(m.entries),
            manifest_etag: Some(manifest_etag(objects)),
        }),
        laws::reads_only(t),
        mock::effects(objects, t) == objects,
{
    lemma_resolution(objects, t, base.file_entities, None, m);
    assert(t.take(2) =~= t);
    lemma_reads_leave(objects, t);
}

/// A bootstrap of a store without a manifest publishes the files of the base.
pub proof fn law_memory_bootstrap_publishes(
    objects: Objects,
    t: Seq<StoreEvent>,
    base: BaseView,
    now_ms: u64,
)
    requires
        mock::replies_all(objects, t),
        inventory::ensure_requests(t, base.file_entities, now_ms),
        !objects.contains_key(MANIFEST_KEY@),
        inventory::body_for(base.file_entities, now_ms) is Ok,
    ensures
        ({
            let body = inventory::body_for(base.file_entities, now_ms)->Ok_0;
            &&& inventory::ensure_result(t, base.file_entities, now_ms) == Ok::<_, ErrorView>(
                OutcomeView::Written {
                    etag: Some(mock::fingerprint(body)),
                    entry_count: base.file_entities.len() as usize,
                },
            )
            &&& mock::effects(objects, t) == objects.insert(
                MANIFEST_KEY@,
                ObjectView { body, mtime_ms: None },
            )
        }),
{
    reveal(inventory::publish_requests);
    reveal(inventory::publish_result);
    reveal(inventory::resolved);
    let n = inventory::resolve_len(t);
    assert(t.take(n)[0] == t[0]);
    lemma_reply_after_reads(objects, t, 0);
    assert(n == 1);
    assert(t.skip(1)[0] == t[1]);
    lemma_reply_after_reads(objects, t, 1);
    assert(t.take(2) =~= t);
}

/// Whether a key names a file of the vault: it is not empty, not reserved and
/// not that of a folder.
pub open spec fn vault_key(key: Seq<char>) -> bool {
    &&& key.len() > 0
    &&& !crate::reserved_key(key)
    &&& !text::ends_with_char(key, '/')
}

/// Whether an entity is the metadata of an object.
pub open spec fn is_object(objects: Objects, e: EntityView) -> bool {
    objects.contains_key(e.key) && e == mock::object_entity(e.key, objects[e.key])
}

/// Whether an entity is the folder view of an ancestor of an object.
pub open spec fn is_folder(objects: Objects, e: EntityView) -> bool {
    e == entity::folder_view(e.key) && exists|k: Seq<char>| #[trigger]
        objects.contains_key(k) && manifest::parents(k).contains(e.key)
}

/// Whether `files` are the files of the vault among the objects, each once, by
/// ascending key.
pub open spec fn vault_files(files: Seq<EntityView>, objects: Objects) -> bool {
    &&& plan::ascending(plan::keys_of(files))
    &&& forall|e: EntityView| #[trigger]
        files.contains(e) == (is_object(objects, e) && vault_key(e.key))
}

/// Whether nothing reserved is listed of the objects.
pub open spec fn nothing_reserved(objects: Objects) -> bool {
    forall|e: EntityView|
        is_object(objects, e) || is_folder(objects, e) ==> e.key.len() == 0
            || !#[trigger] crate::reserved_key(e.key)
}

/// The files of the vault are determined by the objects.
pub proof fn lemma_vault_files_unique(a: Seq<EntityView>, b: Seq<EntityView>, objects: Objects)
    requires
        vault_files(a, objects),
        vault_files(b, objects),
    ensures
        a == b,
{
    let ka = plan::keys_of(a);
    let kb = plan::keys_of(b);
    assert forall|k: Seq<char>| #[trigger] ka.contains(k) == kb.contains(k) by {
        if ka.contains(k) {
            let i = choose|i: int| 0 <= i < ka.len() && ka[i] == k;
            assert(a.contains(a[i]));
            assert(b.contains(a[i]));
            let j = choose|j: int| 0 <= j < b.len() && b[j] == a[i];
            assert(kb[j] == k);
        }
        if kb.contains(k) {
            let i = choose|i: int| 0 <= i < kb.len() && kb[i] == k;
            assert(b.contains(b[i]));
            assert(a.contains(b[i]));
            let j = choose|j: int| 0 <= j < a.len() && a[j] == b[i];
            assert(ka[j] == k);
        }
    }
    plan::lemma_ascending_unique(ka, kb);
    assert forall|i: int| 0 <= i < a.len() implies a[i] == b[i] by {
        assert(a.contains(a[i]) && b.contains(b[i]));
        assert(ka[i] == kb[i]);
    }
    assert(ka.len() == kb.len());
    assert(a =~= b);
}

/// An ancestor folder ends with a slash.
proof fn lemma_parents_end(key: Seq<char>, folder: Seq<char>)
    requires
        manifest::parents(key).contains(folder),
    ensures
        text::ends_with_char(folder, '/'),
    decreases key.len(),
{
    if key.len() > 0 {
        let up = manifest::parents(key.drop_last());
        let all = manifest::parents(key);
        let i = choose|i: int| 0 <= i < all.len() && all[i] == folder;
        if i < up.len() {
            assert(up[i] == folder);
            lemma_parents_end(key.drop_last(), folder);
        }
    }
}

/// What a listing of everything holds.
proof fn lemma_listing(l: Seq<EntityView>, objects: Objects)
    requires
        mock::listing_of(l, objects, ""@),
    ensures
        sort::in_order::<Entity>(l),
        forall|e: EntityView| #[trigger]
            l.contains(e) == (is_object(objects, e) || is_folder(objects, e)),
        forall|i: int, j: int|
            0 <= i < j < l.len() && (#[trigger] l[i]).key == (#[trigger] l[j]).key
                ==> text::ends_with_char(l[i].key, '/'),
{
    reveal_strlit("");
    let (files, folders) = choose|files: Seq<EntityView>, folders: Seq<EntityView>|
        #![trigger mock::files_under(files, objects, ""@), manifest::folders_of(folders, files)]
        mock::files_under(files, objects, ""@) && manifest::folders_of(folders, files) && l
            == manifest::by_key(files + folders);
    let s = files + folders;
    let names = plan::keys_of(folders);
    sort::lemma_sorted_in_order::<Entity>(s);
    sort::lemma_sorted_permutes::<Entity>(s);
    assert forall|k: Seq<char>| objects.contains_key(k) implies exists|i: int|
        0 <= i < files.len() && (#[trigger] files[i]).key == k by {
        assert(k.take(0) =~= ""@);
        assert(text::starts_with_text(k, ""@));
    }
    assert forall|e: EntityView| #[trigger] l.contains(e) == (is_object(objects, e) || is_folder(
        objects,
        e,
    )) by {
        sort::lemma_sorted_contains::<Entity>(s, e);
        if s.contains(e) {
            let i = choose|i: int| 0 <= i < s.len() && s[i] == e;
            if i < files.len() {
                assert(files[i] == e);
            } else {
                let f = folders[i - files.len()];
                assert(f == e);
                assert(names[i - files.len()] == e.key);
                assert(names.contains(e.key));
                let x = choose|x: int|
                    0 <= x < files.len() && manifest::parents((#[trigger] files[x]).key).contains(
                        e.key,
                    );
                assert(objects.contains_key(files[x].key));
            }
        }
        if is_object(objects, e) {
            let i = choose|i: int| 0 <= i < files.len() && (#[trigger] files[i]).key == e.key;
            assert(s[i] == e);
        }
        if is_folder(objects, e) {
            let k = choose|k: Seq<char>| #[trigger]
                objects.contains_key(k) && manifest::parents(k).contains(e.key);
            let i = choose|i: int| 0 <= i < files.len() && (#[trigger] files[i]).key == k;
            assert(manifest::is_ancestor(files, e.key));
            assert(names.contains(e.key));
            let j = choose|j: int| 0 <= j < names.len() && names[j] == e.key;
            assert(folders[j].key == e.key);
            assert(s[files.len() + j] == e);
        }
    }
    assert forall|i: int, j: int|
        0 <= i < j < l.len() && (#[trigger] l[i]).key == (#[trigger] l[j]).key implies
        text::ends_with_char(l[i].key, '/') by {
        if !text::ends_with_char(l[i].key, '/') {
            let x = l[i];
            assert(l.contains(l[i]) && l.contains(l[j]));
            lemma_no_folder(objects, l[i]);
            lemma_no_folder(objects, l[j]);
            assert(l[j] == x);
            manifest::lemma_two_places(l, i, j);
            let a = choose|a: int| 0 <= a < files.len() && (#[trigger] files[a]).key == x.key;
            assert(s[a] == x);
            assert forall|n: int| 0 <= n < s.len() && n != a implies #[trigger] s[n] != s[a] by {
                if n < files.len() {
                    assert(s[n] == files[n]);
                } else {
                    let f = folders[n - files.len()];
                    assert(s[n] == f);
                    assert(names[n - files.len()] == f.key);
                    assert(names.contains(f.key));
                    let y = choose|y: int|
                        0 <= y < files.len() && manifest::parents(
                            (#[trigger] files[y]).key,
                        ).contains(f.key);
                    lemma_parents_end(files[y].key, f.key);
                }
            }
            manifest::lemma_one_place(s, a);
        }
    }
}

/// A folder view has the key of a folder.
proof fn lemma_no_folder(objects: Objects, e: EntityView)
    requires
        !text::ends_with_char(e.key, '/'),
    ensures
        !is_folder(objects, e),
{
    if is_folder(objects, e) {
        let k = choose|k: Seq<char>| #[trigger]
            objects.contains_key(k) && manifest::parents(k).contains(e.key);
        lemma_parents_end(k, e.key);
    }
}

/// Two selected entities stood in the same order before.
proof fn lemma_selected_pair(
    s: Seq<EntityView>,
    p: spec_fn(EntityView) -> bool,
    i: int,
    j: int,
) -> (r: (int, int))
    requires
        0 <= i < j < crate::select(s, p).len(),
    ensures
        0 <= r.0 < r.1 < s.len(),
        s[r.0] == crate::select(s, p)[i],
        s[r.1] == crate::select(s, p)[j],
    decreases s.len(),
{
    let d = s.drop_last();
    let init = crate::select(d, p);
    if j < init.len() {
        lemma_selected_pair(d, p, i, j)
    } else {
        assert(init.contains(init[i]));
        laws::lemma_selected(d, p, init[i]);
        let a = choose|a: int| 0 <= a < d.len() && d[a] == init[i];
        (a, s.len() - 1)
    }
}

/// What is kept of a listing of everything.
proof fn lemma_cold_inventory(l: ListingView, objects: Objects)
    requires
        mock::listing_of(l.entities, objects, ""@),
    ensures
        vault_files(inventory::cold_inventory(l).base.file_entities, objects),
        forall|e: EntityView| #[trigger]
            inventory::cold_inventory(l).entities.contains(e) == ((is_object(objects, e)
                || is_folder(objects, e)) && e.key.len() > 0 && !crate::reserved_key(e.key)),
        nothing_reserved(objects) ==> inventory::cold_inventory(l).warnings == l.warnings,
{
    let s = l.entities;
    let named = crate::select(s, inventory::keyed());
    let kept = crate::select(named, crate::unreserved());
    let files = crate::select(kept, inventory::is_file());
    lemma_listing(s, objects);
    assert forall|e: EntityView| #[trigger] kept.contains(e) == ((is_object(objects, e)
        || is_folder(objects, e)) && e.key.len() > 0 && !crate::reserved_key(e.key)) by {
        laws::lemma_selected(s, inventory::keyed(), e);
        laws::lemma_selected(named, crate::unreserved(), e);
        assert(s.contains(e) == (is_object(objects, e) || is_folder(objects, e)));
    }
    assert forall|e: EntityView| #[trigger] files.contains(e) == (is_object(objects, e)
        && vault_key(e.key)) by {
        laws::lemma_selected(kept, inventory::is_file(), e);
        assert(kept.contains(e) == ((is_object(objects, e) || is_folder(objects, e)) && e.key.len()
            > 0 && !crate::reserved_key(e.key)));
        if !e.folder() {
            lemma_no_folder(objects, e);
        }
    }
    let keys = plan::keys_of(files);
    assert forall|i: int, j: int| 0 <= i < j < keys.len() implies text::before(
        #[trigger] keys[i],
        #[trigger] keys[j],
    ) by {
        let (a, b) = lemma_selected_pair(kept, inventory::is_file(), i, j);
        let (c, d) = lemma_selected_pair(named, crate::unreserved(), a, b);
        let (m, n) = lemma_selected_pair(s, inventory::keyed(), c, d);
        assert(s[m] == files[i] && s[n] == files[j]);
        assert(files.contains(files[i]));
        text::lemma_before_total(keys[i], keys[j]);
    }
    if nothing_reserved(objects) {
        assert forall|i: int| 0 <= i < named.len() implies !crate::reserved()(
            #[trigger] named[i],
        ) by {
            assert(named.contains(named[i]));
            laws::lemma_selected(s, inventory::keyed(), named[i]);
            assert(s.contains(named[i]));
        }
        laws::lemma_select_none(named, crate::reserved());
    }
}

/// Whether an inventory is that of a listing of the objects, whose files are
/// the given ones.
pub open spec fn is_live(inv: RemoteView, objects: Objects, files: Seq<EntityView>) -> bool {
    &&& inv.base == (BaseView {
        source: SourceView::LiveListHead,
        file_entities: files,
        manifest_etag: None,
    })
    &&& forall|e: EntityView| #[trigger]
        inv.entities.contains(e) == ((is_object(objects, e) || is_folder(objects, e)) && e.key.len()
            > 0 && !crate::reserved_key(e.key))
}

/// A load by listing alone serves the files of the vault and the folders of all
/// objects, but nothing reserved, by one request that changes nothing. It warns
/// of nothing if nothing reserved is listed.
pub proof fn law_memory_load_by_listing(
    objects: Objects,
    t: Seq<StoreEvent>,
    cache: Option<CacheView>,
    files: Seq<EntityView>,
)
    requires
        mock::replies_all(objects, t),
        inventory::load_requests(t, InventoryMode::ListHead, cache),
        vault_files(files, objects),
    ensures
        t.len() == 1,
        ({
            let r = inventory::load_result(t, InventoryMode::ListHead, cache);
            &&& r is Ok
            &&& is_live(r->Ok_0, objects, files)
            &&& nothing_reserved(objects) ==> r->Ok_0.warnings.len() == 0
        }),
        mock::effects(objects, t) == objects,
{
    lemma_reply_after_reads(objects, t, 0);
    lemma_cold_inventory(inventory::list_reply(t[0])->Ok_0, objects);
    lemma_vault_files_unique(
        files,
        inventory::load_result(t, InventoryMode::ListHead, cache)->Ok_0.base.file_entities,
        objects,
    );
    assert(t.take(1) =~= t);
}

/// Without a manifest in the store, a warm attempt finds none.
proof fn lemma_manifest_missing(objects: Objects, t: Seq<StoreEvent>, cache: Option<CacheView>)
    requires
        mock::replies_all(objects, t),
        inventory::warm_requests(t, cache),
        !objects.contains_key(MANIFEST_KEY@),
    ensures
        inventory::warm_result(t, cache) == Ok::<_, ErrorView>(WarmView::Missing),
{
    assert(t.len() >= 1);
    lemma_reply_after_reads(objects, t, 0);
}

/// The replies to the first requests.
proof fn lemma_replies_take(objects: Objects, t: Seq<StoreEvent>, n: int)
    requires
        mock::replies_all(objects, t),
        0 <= n <= t.len(),
    ensures
        mock::replies_all(objects, t.take(n)),
{
    let p = t.take(n);
    assert forall|i: int| 0 <= i < p.len() implies mock::replies(
        mock::effects(objects, p.take(i)),
        #[trigger] p[i],
    ) by {
        assert(p[i] == t[i]);
        assert(p.take(i) =~= t.take(i));
    }
}

/// An `auto` load of a store without a manifest falls back to a listing, says
/// so, and changes nothing.
pub proof fn law_memory_cold_load(
    objects: Objects,
    t: Seq<StoreEvent>,
    cache: Option<CacheView>,
    files: Seq<EntityView>,
)
    requires
        mock::replies_all(objects, t),
        inventory::load_requests(t, InventoryMode::Auto, cache),
        !objects.contains_key(MANIFEST_KEY@),
        vault_files(files, objects),
    ensures
        ({
            let r = inventory::load_result(t, InventoryMode::Auto, cache);
            let missing =
                "inventory manifest missing; falling back to list+head (next push will create one)"@;
            &&& r is Ok
            &&& is_live(r->Ok_0, objects, files)
            &&& r->Ok_0.warnings.len() > 0
            &&& r->Ok_0.warnings.last() == missing
            &&& nothing_reserved(objects) ==> r->Ok_0.warnings.len() == 1
        }),
        mock::effects(objects, t) == objects,
{
    let w = inventory::warm_part(t);
    assert(w =~= t.take(w.len() as int));
    lemma_replies_take(objects, t, w.len() as int);
    lemma_manifest_missing(objects, w, cache);
    laws::law_load_only_reads(t, InventoryMode::Auto, cache);
    lemma_reads_leave(objects, t);
    lemma_reply_after_reads(objects, t, t.len() - 1);
    let l = inventory::list_reply(t.last())->Ok_0;
    lemma_cold_inventory(l, objects);
    lemma_vault_files_unique(files, inventory::cold_inventory(l).base.file_entities, objects);
}

/// The files of a vault with valid keys make a manifest, which holds them in
/// their order.
pub proof fn lemma_vault_manifest(files: Seq<EntityView>, objects: Objects, now_ms: u64)
    requires
        vault_files(files, objects),
        forall|i: int| 0 <= i < files.len() ==> entity::valid_key((#[trigger] files[i]).key),
    ensures
        ({
            let m = manifest::manifest_of(files, now_ms, Some(inventory::generator()), None);
            &&& m is Ok
            &&& m->Ok_0.entries == files
            &&& inventory::body_for(files, now_ms) == Ok::<_, ErrorView>(manifest::body(m->Ok_0))
        }),
{
    let keys = plan::keys_of(files);
    assert forall|i: int| 0 <= i < files.len() implies manifest::row_fault(files, i) is None by {
        assert(files.contains(files[i]));
        if manifest::repeats(files, i) {
            let j = choose|j: int| 0 <= j < i && (#[trigger] files[j]).key == files[i].key;
            assert(text::before(keys[j], keys[i]));
            text::lemma_before_irreflexive(keys[i]);
        }
    }
    manifest::lemma_storable(files, 0);
    assert forall|i: int, j: int| 0 <= i < j < files.len() implies !text::before(
        Entity::key_of(#[trigger] files[j]),
        Entity::key_of(#[trigger] files[i]),
    ) by {
        assert(text::before(keys[i], keys[j]));
        if text::before(keys[j], keys[i]) {
            text::lemma_before_transitive(keys[i], keys[j], keys[i]);
            text::lemma_before_irreflexive(keys[i]);
        }
    }
    sort::lemma_sorted_fixed::<Entity>(files);
}

/// A dry-run repair counts the files of the vault by one request, and changes
/// nothing. It warns of nothing if nothing reserved is listed.
pub proof fn law_memory_dry_repair_counts(
    objects: Objects,
    t: Seq<StoreEvent>,
    opts: RepairOpts,
    now_ms: u64,
    files: Seq<EntityView>,
)
    requires
        mock::replies_all(objects, t),
        inventory::repair_requests(t, opts, now_ms),
        opts.dry_run,
        vault_files(files, objects),
        forall|i: int| 0 <= i < files.len() ==> entity::valid_key((#[trigger] files[i]).key),
    ensures
        t.len() == 1,
        ({
            let r = inventory::repair_result(t, opts, now_ms);
            &&& r is Ok
            &&& r->Ok_0.listed == files.len() as usize
            &&& !r->Ok_0.written
            &&& r->Ok_0.dry_run
            &&& r->Ok_0.etag is None
            &&& nothing_reserved(objects) ==> r->Ok_0.warnings.len() == 0
        }),
        mock::effects(objects, t) == objects,
{
    lemma_reply_after_reads(objects, t, 0);
    let l = inventory::list_reply(t[0])->Ok_0;
    lemma_cold_inventory(l, objects);
    lemma_vault_files_unique(files, inventory::cold_inventory(l).base.file_entities, objects);
    lemma_vault_manifest(files, objects, now_ms);
    assert(t.take(1) =~= t);
}

/// A repair puts the manifest of the files of the vault, whatever the manifest
/// was before, and changes nothing else.
pub proof fn law_memory_repair_rebuilds(
    objects: Objects,
    t: Seq<StoreEvent>,
    opts: RepairOpts,
    now_ms: u64,
    files: Seq<EntityView>,
)
    requires
        mock::replies_all(objects, t),
        inventory::repair_requests(t, opts, now_ms),
        !opts.dry_run,
        vault_files(files, objects),
        forall|i: int| 0 <= i < files.len() ==> entity::valid_key((#[trigger] files[i]).key),
    ensures
        ({
            let r = inventory::repair_result(t, opts, now_ms);
            let body = inventory::body_for(files, now_ms)->Ok_0;
            &&& r is Ok
            &&& r->Ok_0.listed == files.len() as usize
            &&& r->Ok_0.written
            &&& r->Ok_0.etag == Some(mock::fingerprint(body))
            &&& mock::effects(objects, t) == objects.insert(
                MANIFEST_KEY@,
                ObjectView { body, mtime_ms: None },
            )
        }),
{
    lemma_reply_after_reads(objects, t, 0);
    let l = inventory::list_reply(t[0])->Ok_0;
    lemma_cold_inventory(l, objects);
    lemma_vault_files_unique(files, inventory::cold_inventory(l).base.file_entities, objects);
    lemma_vault_manifest(files, objects, now_ms);
    let rest = t.skip(1);
    assert(rest[0] == t[1]);
    lemma_reply_after_reads(objects, t, 1);
    if opts.force {
        assert(t.take(2) =~= t);
    } else {
        assert(rest[1] == t[2]);
        lemma_reply_after_reads(objects, t, 2);
        assert(!inventory::lost_race(t[2]));
        assert(t.take(3) =~= t);
    }
}

/// Requests made in two parts.
proof fn lemma_effects_concat(objects: Objects, a: Seq<StoreEvent>, b: Seq<StoreEvent>)
    ensures
        mock::effects(objects, a + b) == mock::effects(mock::effects(objects, a), b),
    decreases b.len(),
{
    if b.len() == 0 {
        assert(a + b =~= a);
    } else {
        assert((a + b).drop_last() =~= a + b.drop_last());
        assert((a + b).last() == b.last());
        lemma_effects_concat(objects, a, b.drop_last());
    }
}

/// The replies after requests that changed nothing.
proof fn lemma_replies_skip(objects: Objects, t: Seq<StoreEvent>, n: int)
    requires
        mock::replies_all(objects, t),
        0 <= n <= t.len(),
        laws::reads_only(t.take(n)),
    ensures
        mock::replies_all(objects, t.skip(n)),
        mock::effects(objects, t) == mock::effects(objects, t.skip(n)),
{
    let rest = t.skip(n);
    lemma_reads_leave(objects, t.take(n));
    assert forall|i: int| 0 <= i < rest.len() implies mock::replies(
        mock::effects(objects, rest.take(i)),
        #[trigger] rest[i],
    ) by {
        assert(rest[i] == t[n + i]);
        assert(t.take(n + i) =~= t.take(n) + rest.take(i));
        lemma_effects_concat(objects, t.take(n), rest.take(i));
    }
    assert(t =~= t.take(n) + rest);
    lemma_effects_concat(objects, t.take(n), rest);
}

/// A push over a store without a manifest leaves one before its transfers,
/// whatever is planned, under the mode `auto` and `push-ensure`: the manifest of
/// the files of the vault. Within the cap, it is one that the next load serves
/// (see [`law_memory_load_is_warm`]). Nothing else changes.
pub proof fn law_memory_cold_push_leaves_a_manifest(
    objects: Objects,
    cmd: Command,
    t: Seq<StoreEvent>,
    ctx: DispatchCtx,
    inputs: Inputs,
    files: Seq<EntityView>,
)
    requires
        mock::replies_all(objects, t),
        cmd matches Command::Push { dry_run, .. } && !dry_run,
        ctx.inventory_mode == InventoryMode::Auto,
        ctx.inventory_bootstrap == InventoryBootstrap::PushEnsure,
        cli::dispatch_requests(cmd, t, ctx, inputs),
        laws::outcome(cmd, t, ctx, inputs) matches Some(Ok(_)),
        !objects.contains_key(MANIFEST_KEY@),
        vault_files(files, objects),
        files.len() <= usize::MAX,
        forall|i: int| 0 <= i < files.len() ==> entity::valid_key((#[trigger] files[i]).key),
    ensures
        ({
            let m = manifest::manifest_of(
                files,
                inputs.now_ms,
                Some(inventory::generator()),
                None,
            )->Ok_0;
            let after = mock::effects(objects, t);
            &&& after == objects.insert(
                MANIFEST_KEY@,
                ObjectView { body: manifest::body(m), mtime_ms: None },
            )
            &&& m.entries == files
            &&& manifest::sound(m)
            &&& manifest::body(m).len() <= MANIFEST_MAX_BYTES ==> holds_manifest(after, m)
        }),
{
    let mode = InventoryMode::Auto;
    let cache = cli::cached(inputs);
    let flags = cli::plan_flags(cmd, ctx.tolerance_ms)->0;
    let local = cli::walked(inputs)->Ok_0;
    let loaded = inventory::load_part(t, mode);
    let rest = inventory::after_load(t, mode);
    inventory::lemma_load_len_in_range(t);
    assert(cli::plan_requests(t, local, flags, ctx, cache, inputs.now_ms));
    lemma_replies_take(objects, t, loaded.len() as int);
    law_memory_cold_load(objects, loaded, cache, files);
    laws::law_load_only_reads(loaded, mode, cache);
    assert(loaded =~= t.take(loaded.len() as int));
    lemma_replies_skip(objects, t, loaded.len() as int);
    lemma_vault_manifest(files, objects, inputs.now_ms);
    manifest::lemma_manifest_of_sound(files, inputs.now_ms, Some(inventory::generator()), None);
    let base = cli::planned(t, local, flags, ctx, cache)->Ok_0.inventory_base;
    law_memory_bootstrap_publishes(objects, rest, base, inputs.now_ms);
}

/// A connectivity check passes, and leaves no probe: the objects are as before,
/// without one under the key of the probe.
pub proof fn law_memory_check_passes(objects: Objects, t: Seq<StoreEvent>, key: Seq<char>)
    requires
        mock::replies_all(objects, t),
        crate::check_requests(t, key),
    ensures
        crate::check_result(t, key) == Ok::<(), ErrorView>(()),
        mock::effects(objects, t) == objects.remove(key),
{
    let put = objects.insert(key, ObjectView { body: crate::probe_body(), mtime_ms: None });
    lemma_reply_after_reads(objects, t, 0);
    assert(t.take(2).drop_last() =~= t.take(1));
    assert(t.take(2).last() == t[1]);
    assert(mock::effects(objects, t.take(1)) == put);
    assert(mock::effects(objects, t.take(2)) == put);
    assert(mock::replies(put, t[1]));
    assert(mock::replies(put, t[2]));
    assert(Seq::<u8>::empty() + crate::probe_body() =~= crate::probe_body());
    assert(t.drop_last() =~= t.take(2));
    assert(put.remove(key) =~= objects.remove(key));
}

/// A download gives back what was uploaded: the body and the client mtime, if
/// the plan has the size of the object.
pub proof fn law_memory_download_gives_back_the_upload(
    objects: Objects,
    put: StoreEvent,
    get: StoreEvent,
    a: ActionView,
)
    requires
        mock::replies_all(objects, seq![put, get]),
        put is Put,
        put->Put_key == a.key,
        put->Put_body.len() <= u64::MAX,
        a.remote is Some ==> a.remote->0.size == put->Put_body.len(),
        exec::gets_planned(a, get),
    ensures
        exec::downloaded(a, get) == Ok::<_, ErrorView>(
            exec::DownloadView { body: put->Put_body, mtime_ms: put->Put_mtime_ms },
        ),
        mock::effects(objects, seq![put, get]) == objects.insert(
            a.key,
            ObjectView { body: put->Put_body, mtime_ms: put->Put_mtime_ms },
        ),
{
    let t = seq![put, get];
    assert(t[0] == put && t[1] == get);
    lemma_reply_after_reads(objects, t, 0);
    assert(t.drop_last() =~= t.take(1));
    assert(Seq::<u8>::empty() + put->Put_body =~= put->Put_body);
}

/// A remote delete removes the planned object and nothing else. An object that
/// has changed since the plan stays, and the delete is refused; one that is gone
/// counts as deleted.
pub proof fn law_memory_delete_is_guarded(
    objects: Objects,
    t: Seq<StoreEvent>,
    a: ActionView,
    tolerance_ms: u64,
)
    requires
        mock::replies_all(objects, t),
        exec::delete_requests(t, a, tolerance_ms),
    ensures
        ({
            let changed = objects.contains_key(a.key) && exec::object_changed(
                a.remote,
                mock::object_entity(a.key, objects[a.key]),
                tolerance_ms,
            );
            &&& exec::delete_result(t, a, tolerance_ms) is Ok <==> !changed
            &&& mock::effects(objects, t) == if changed {
                objects
            } else {
                objects.remove(a.key)
            }
        }),
{
    lemma_reply_after_reads(objects, t, 0);
    if t.len() == 2 {
        lemma_reply_after_reads(objects, t, 1);
        assert(t.take(2) =~= t);
    } else {
        assert(t.take(1) =~= t);
        if !objects.contains_key(a.key) {
            assert(objects.remove(a.key) =~= objects);
        }
    }
}

/// What an in-memory store answers: it has what was put and not deleted since, it
/// gives out a body whole or not at all, and it puts only where the condition of
/// the put holds.
pub proof fn law_memory_store_answers(objects: Objects, e: StoreEvent)
    requires
        mock::replies(objects, e),
    ensures
        match e {
            StoreEvent::Head { key, reply } => if objects.contains_key(key) {
                &&& reply is Ok
                &&& reply->Ok_0.key == key
                &&& reply->Ok_0.size == objects[key].body.len() as u64
                &&& reply->Ok_0.mtime_ms == objects[key].mtime_ms
                &&& reply->Ok_0.etag == Some(mock::fingerprint(objects[key].body))
            } else {
                reply is Err && reply->Err_0 is NotFound
            },
            StoreEvent::Get { key, cap, reply, body, tripped } => if !objects.contains_key(key) {
                reply is Err && reply->Err_0 is NotFound && body.len() == 0 && !tripped
            } else if objects[key].body.len() <= cap {
                &&& reply is Ok
                &&& reply->Ok_0.key == key
                &&& reply->Ok_0.size == objects[key].body.len() as u64
                &&& reply->Ok_0.mtime_ms == objects[key].mtime_ms
                &&& body == objects[key].body
                &&& !tripped
            } else {
                reply is Err && reply->Err_0 is Io && body.len() == 0 && tripped
            },
            StoreEvent::GetWith { key, cap, etag, reply, body, tripped } => {
                if !objects.contains_key(key) {
                    reply is Err && reply->Err_0 is NotFound && !tripped
                } else if etag == Some(mock::fingerprint(objects[key].body)) {
                    reply is Ok && reply->Ok_0 is NotModified && body.len() == 0 && !tripped
                } else if objects[key].body.len() <= cap {
                    reply is Ok && reply->Ok_0 is Body && body == objects[key].body && !tripped
                } else {
                    reply is Err && reply->Err_0 is Io && tripped
                }
            },
            StoreEvent::Put { key, body, mtime_ms, reply } => {
                &&& reply is Ok
                &&& reply->Ok_0.key == key
                &&& reply->Ok_0.size == body.len() as u64
                &&& reply->Ok_0.mtime_ms == mtime_ms
                &&& mock::effect(objects, e) == objects.insert(key, ObjectView { body, mtime_ms })
            },
            StoreEvent::PutWith { key, body, opts, reply } => {
                let stale = (opts.if_none_match_star && objects.contains_key(key)) || (
                opts.if_match_etag is Some && !(objects.contains_key(key) && opts.if_match_etag->0
                    == mock::fingerprint(objects[key].body)));
                if stale {
                    reply is Err && reply->Err_0 is PreconditionFailed && mock::effect(objects, e)
                        == objects
                } else {
                    &&& reply is Ok
                    &&& reply->Ok_0.etag == Some(mock::fingerprint(body))
                    &&& mock::effect(objects, e) == objects.insert(
                        key,
                        ObjectView { body, mtime_ms: opts.mtime_ms },
                    )
                }
            },
            StoreEvent::Delete { key, reply } => {
                &&& mock::effect(objects, e) == objects.remove(key)
                &&& objects.contains_key(key) ==> reply is Ok
                &&& !objects.contains_key(key) ==> reply is Err && reply->Err_0 is NotFound
            },
            StoreEvent::List { prefix, reply } => reply is Ok && reply->Ok_0.warnings.len() == 0
                && mock::effect(objects, e) == objects,
        },
{
}

/// A listing of an in-memory store names each object whose key starts with the
/// prefix, as a head of it would show it, and no other object; and beside them
/// only folders.
pub proof fn law_memory_lists_by_prefix(
    objects: Objects,
    prefix: Seq<char>,
    reply: Result<ListingView, ErrorView>,
    key: Seq<char>,
)
    requires
        mock::replies(objects, StoreEvent::List { prefix, reply }),
    ensures
        ({
            let l = reply->Ok_0.entities;
            let row = EntityView {
                key,
                size: objects[key].body.len() as u64,
                mtime_ms: objects[key].mtime_ms,
                etag: Some(mock::fingerprint(objects[key].body)),
            };
            let named = prefix.len() <= key.len() && key.take(prefix.len() as int) == prefix;
            &&& objects.contains_key(key) && named ==> l.contains(row)
            &&& forall|e: EntityView| #[trigger]
                l.contains(e) && e.key == key && !named ==> key.len() > 0 && key[key.len() - 1]
                    == '/'
            &&& forall|e: EntityView| #[trigger]
                l.contains(e) && e.key == key && !(key.len() > 0 && key[key.len() - 1] == '/')
                    ==> objects.contains_key(key) && e == row
        }),
{
    let l = reply->Ok_0.entities;
    let (files, folders) = choose|files: Seq<EntityView>, folders: Seq<EntityView>|
        #![trigger mock::files_under(files, objects, prefix), manifest::folders_of(folders, files)]
        mock::files_under(files, objects, prefix) && manifest::folders_of(folders, files) && l
            == manifest::by_key(files + folders);
    let s = files + folders;
    let names = plan::keys_of(folders);
    if objects.contains_key(key) && prefix.len() <= key.len() && key.take(prefix.len() as int)
        == prefix {
        assert(text::starts_with_text(key, prefix));
        let i = choose|i: int| 0 <= i < files.len() && (#[trigger] files[i]).key == key;
        assert(s[i] == files[i]);
        assert(s.contains(files[i]));
        sort::lemma_sorted_contains::<Entity>(s, files[i]);
    }
    assert forall|e: EntityView| #[trigger] l.contains(e) && e.key == key implies ({
        ||| key.len() > 0 && key[key.len() - 1] == '/'
        ||| files.contains(e)
    }) by {
        sort::lemma_sorted_contains::<Entity>(s, e);
        let i = choose|i: int| 0 <= i < s.len() && s[i] == e;
        if i < files.len() {
            assert(files[i] == e);
        } else {
            assert(names[i - files.len()] == e.key);
            assert(names.contains(e.key));
            assert(manifest::is_ancestor(files, e.key));
            let x = choose|x: int|
                0 <= x < files.len() && manifest::parents((#[trigger] files[x]).key).contains(
                    e.key,
                );
            lemma_parents_end(files[x].key, e.key);
        }
    }
}

} // verus!
