//! Client mtimes for a bare listing.
//!
//! A backend whose listing shows upload times asks for the head of each listed
//! file and hands the answers to [`enrich_with_head_mtimes`], so that plans
//! compare client mtimes. Reserved keys are partitioned out before, so that no
//! request is spent on them.

use vstd::prelude::*;
use crate::entity;
use crate::entity::{Entity, EntityView};
use crate::error::{Error, ErrorView};
use crate::inventory;
use crate::plan;
use crate::store;
use crate::store::{Listing, ListingView};
use crate::text;
use crate::text::cat3;

verus! {

/// The files of a listing, in its order.
pub open spec fn files(s: Seq<EntityView>) -> Seq<EntityView> {
    crate::select(s, inventory::is_file())
}

/// The keys to ask the store about, in the order of the listing: those of its
/// files.
pub fn keys_to_head(l: &Listing) -> (r: Vec<String>)
    ensures
        text::texts(r@) == plan::keys_of(files(l@.entities)),
{
    let ghost all = l@.entities;
    let mut out: Vec<String> = Vec::new();
    let mut i: usize = 0;
    assert(text::texts(out@) =~= plan::keys_of(files(all.take(0))));
    while i < l.entities.len()
        invariant
            i <= l.entities@.len(),
            all == l@.entities,
            text::texts(out@) == plan::keys_of(files(all.take(i as int))),
        decreases l.entities@.len() - i,
    {
        let e = &l.entities[i];
        let ghost prev = files(all.take(i as int));
        proof {
            assert(all.take(i + 1).drop_last() =~= all.take(i as int));
            assert(all.take(i + 1).last() == e@);
        }
        if !e.is_folder() {
            let key = e.key.clone();
            let ghost before = text::texts(out@);
            out.push(key);
            proof {
                assert(text::texts(out@) =~= before.push(e@.key));
                assert(plan::keys_of(prev.push(e@)) =~= plan::keys_of(prev).push(e@.key));
            }
        }
        i = i + 1;
    }
    assert(all.take(i as int) =~= all);
    out
}

/// The views of a sequence of head answers.
pub open spec fn answers(v: Seq<Result<Entity, Error>>) -> Seq<Result<EntityView, ErrorView>> {
    Seq::new(v.len(), |i: int| store::entity_reply(v[i]))
}

/// The warning for a listed key whose object is gone.
pub open spec fn gone_warning(key: Seq<char>) -> Seq<char> {
    "dropping remote object "@ + key + " (deleted while it was listed)"@
}

/// A listing with the client mtimes of its files; `heads` are the answers for
/// its files, in their order. A file whose object is gone is dropped with a
/// warning; any other error fails the listing.
pub open spec fn enriched(
    s: Seq<EntityView>,
    warnings: Seq<Seq<char>>,
    heads: Seq<Result<EntityView, ErrorView>>,
) -> Result<ListingView, ErrorView>
    decreases s.len(),
{
    if s.len() == 0 {
        Ok(ListingView { entities: s, warnings })
    } else if s.last().folder() {
        match enriched(s.drop_last(), warnings, heads) {
            Err(e) => Err(e),
            Ok(l) => Ok(ListingView { entities: l.entities.push(s.last()), ..l }),
        }
    } else {
        match enriched(s.drop_last(), warnings, heads.drop_last()) {
            Err(e) => Err(e),
            Ok(l) => match heads.last() {
                Ok(h) => Ok(
                    ListingView {
                        entities: l.entities.push(
                            EntityView { mtime_ms: h.mtime_ms, ..s.last() },
                        ),
                        ..l
                    },
                ),
                Err(ErrorView::NotFound(_)) => Ok(
                    ListingView { warnings: l.warnings.push(gone_warning(s.last().key)), ..l },
                ),
                Err(e) => Err(e),
            },
        }
    }
}

/// An error stays, whatever comes after it.
proof fn lemma_error_stays(
    s: Seq<EntityView>,
    warnings: Seq<Seq<char>>,
    heads: Seq<Result<EntityView, ErrorView>>,
    i: int,
    j: int,
)
    requires
        0 <= i <= s.len(),
        j == files(s.take(i)).len(),
        heads.len() == files(s).len(),
        enriched(s.take(i), warnings, heads.take(j)) is Err,
    ensures
        enriched(s, warnings, heads) == enriched(s.take(i), warnings, heads.take(j)),
    decreases s.len(),
{
    if i == s.len() {
        assert(s.take(i) =~= s);
        assert(heads.take(j) =~= heads);
    } else {
        let d = s.drop_last();
        assert(d.take(i) =~= s.take(i));
        lemma_files_grow(d, i);
        if s.last().folder() {
            lemma_error_stays(d, warnings, heads, i, j);
        } else {
            assert(heads.drop_last().take(j) =~= heads.take(j));
            lemma_error_stays(d, warnings, heads.drop_last(), i, j);
        }
    }
}

/// A part of a listing has no more files than the whole.
proof fn lemma_files_grow(s: Seq<EntityView>, i: int)
    requires
        0 <= i <= s.len(),
    ensures
        files(s.take(i)).len() <= files(s).len(),
    decreases s.len(),
{
    if i == s.len() {
        assert(s.take(i) =~= s);
    } else {
        assert(s.drop_last().take(i) =~= s.take(i));
        lemma_files_grow(s.drop_last(), i);
    }
}

/// Gives the files of a listing their client mtimes. `heads` are the answers
/// of the store for [`keys_to_head`], in that order.
pub fn enrich_with_head_mtimes(listing: Listing, heads: &Vec<Result<Entity, Error>>) -> (r: Result<
    Listing,
    Error,
>)
    requires
        heads@.len() == files(listing@.entities).len(),
    ensures
        store::listing_reply(r) == enriched(
            listing@.entities,
            listing@.warnings,
            answers(heads@),
        ),
{
    let ghost all = listing@.entities;
    let ghost noted = listing@.warnings;
    let ghost h = answers(heads@);
    let entities = listing.entities;
    let mut warnings = listing.warnings;
    let mut out: Vec<Entity> = Vec::new();
    let mut i: usize = 0;
    let mut j: usize = 0;
    proof {
        assert(all.take(0) =~= Seq::<EntityView>::empty());
        assert(entity::entities(out@) =~= all.take(0));
    }
    while i < entities.len()
        invariant
            i <= entities@.len(),
            all == entity::entities(entities@),
            all == listing@.entities,
            noted == listing@.warnings,
            h == answers(heads@),
            heads@.len() == files(all).len(),
            j == files(all.take(i as int)).len(),
            enriched(all.take(i as int), noted, h.take(j as int)) == Ok::<ListingView, ErrorView>(
                ListingView {
                    entities: entity::entities(out@),
                    warnings: text::texts(warnings@),
                },
            ),
        decreases entities@.len() - i,
    {
        let e = &entities[i];
        let ghost prev = entity::entities(out@);
        let ghost told = text::texts(warnings@);
        proof {
            assert(all.take(i + 1).drop_last() =~= all.take(i as int));
            assert(all.take(i + 1).last() == e@);
            lemma_files_grow(all, i + 1);
        }
        if e.is_folder() {
            let kept = e.clone();
            out.push(kept);
            assert(entity::entities(out@) =~= prev.push(e@));
        } else {
            proof {
                assert(h.take(j + 1).drop_last() =~= h.take(j as int));
                assert(h.take(j + 1).last() == store::entity_reply(heads@[j as int]));
            }
            match &heads[j] {
                Ok(head) => {
                    let mut kept = e.clone();
                    kept.mtime_ms = head.mtime_ms;
                    out.push(kept);
                    assert(entity::entities(out@) =~= prev.push(
                        EntityView { mtime_ms: head.mtime_ms, ..e@ },
                    ));
                },
                Err(Error::NotFound(_)) => {
                    let m = cat3(
                        "dropping remote object ",
                        e.key.as_str(),
                        " (deleted while it was listed)",
                    );
                    warnings.push(m);
                    assert(text::texts(warnings@) =~= told.push(gone_warning(e.key@)));
                },
                Err(fatal) => {
                    proof {
                        lemma_error_stays(all, noted, h, i + 1, j + 1);
                    }
                    return Err(fatal.clone());
                },
            }
            assert(j < heads.len());
            j = j + 1;
        }
        i = i + 1;
    }
    proof {
        assert(all.take(i as int) =~= all);
        assert(h.take(j as int) =~= h);
    }
    Ok(Listing { entities: out, warnings })
}

/// A plan is never built from a degraded listing: one head that fails, other
/// than for a missing object, fails the listing, and the first such error is
/// its error.
pub proof fn law_enrichment_fails_closed(
    s: Seq<EntityView>,
    warnings: Seq<Seq<char>>,
    heads: Seq<Result<EntityView, ErrorView>>,
    j: int,
)
    requires
        heads.len() == files(s).len(),
        0 <= j < heads.len(),
        heads[j] is Err,
        !(heads[j]->Err_0 is NotFound),
        forall|k: int|
            0 <= k < j ==> ((#[trigger] heads[k]) is Err ==> heads[k]->Err_0 is NotFound),
    ensures
        enriched(s, warnings, heads) == Err::<ListingView, ErrorView>(heads[j]->Err_0),
    decreases s.len(),
{
    let d = s.drop_last();
    if s.last().folder() {
        law_enrichment_fails_closed(d, warnings, heads, j);
    } else if j < heads.len() - 1 {
        law_enrichment_fails_closed(d, warnings, heads.drop_last(), j);
    } else {
        lemma_enriched(d, warnings, heads.drop_last());
    }
}

/// Without a fatal answer the listing succeeds.
proof fn lemma_enriched(
    s: Seq<EntityView>,
    warnings: Seq<Seq<char>>,
    heads: Seq<Result<EntityView, ErrorView>>,
)
    requires
        heads.len() == files(s).len(),
        forall|k: int|
            0 <= k < heads.len() ==> ((#[trigger] heads[k]) is Err ==> heads[k]->Err_0 is NotFound),
    ensures
        enriched(s, warnings, heads) is Ok,
    decreases s.len(),
{
    if s.len() > 0 {
        if s.last().folder() {
            lemma_enriched(s.drop_last(), warnings, heads);
        } else {
            lemma_enriched(s.drop_last(), warnings, heads.drop_last());
            assert(heads[heads.len() - 1] == heads.last());
        }
    }
}

/// When the store answers for every file, the listing keeps its keys, sizes
/// and order, and each file has the client mtime of its answer.
pub proof fn law_enriched_files_have_client_mtimes(
    s: Seq<EntityView>,
    warnings: Seq<Seq<char>>,
    heads: Seq<Result<EntityView, ErrorView>>,
)
    requires
        heads.len() == files(s).len(),
        forall|k: int| 0 <= k < heads.len() ==> (#[trigger] heads[k]) is Ok,
    ensures
        enriched(s, warnings, heads) matches Ok(l) && l.warnings == warnings && l.entities.len()
            == s.len() && (forall|i: int|
            0 <= i < s.len() ==> (#[trigger] l.entities[i]) == (if s[i].folder() {
                s[i]
            } else {
                EntityView {
                    mtime_ms: heads[files(s.take(i)).len() as int]->Ok_0.mtime_ms,
                    ..s[i]
                }
            })),
    decreases s.len(),
{
    if s.len() > 0 {
        let d = s.drop_last();
        let rest = if s.last().folder() {
            heads
        } else {
            heads.drop_last()
        };
        law_enriched_files_have_client_mtimes(d, warnings, rest);
        let l = enriched(s, warnings, heads)->Ok_0;
        let prev = enriched(d, warnings, rest)->Ok_0;
        assert(s.take(s.len() - 1) =~= d);
        assert forall|i: int| 0 <= i < s.len() implies (#[trigger] l.entities[i]) == (
        if s[i].folder() {
            s[i]
        } else {
            EntityView {
                mtime_ms: heads[files(s.take(i)).len() as int]->Ok_0.mtime_ms,
                ..s[i]
            }
        }) by {
            if i < d.len() {
                assert(l.entities[i] == prev.entities[i]);
                assert(d.take(i) =~= s.take(i));
                assert(d[i] == s[i]);
                if !s[i].folder() {
                    assert(d.take(i + 1).drop_last() =~= d.take(i));
                    assert(d.take(i + 1).last() == d[i]);
                    lemma_files_grow(d, i + 1);
                }
            }
        }
    }
}

/// How a listing is enriched, entity by entity: a folder stays as it is, a file
/// takes the client mtime of its answer and nothing else of it, a file that is
/// gone is dropped with a warning that names it, and any other error is that of
/// the listing.
pub proof fn law_enrichment_goes_by_entity(
    s: Seq<EntityView>,
    warnings: Seq<Seq<char>>,
    heads: Seq<Result<EntityView, ErrorView>>,
    e: EntityView,
    answer: Result<EntityView, ErrorView>,
)
    requires
        e.key.len() > 0,
        enriched(s, warnings, heads) is Ok,
    ensures
        ({
            let l = enriched(s, warnings, heads)->Ok_0;
            let folder = e.key[e.key.len() - 1] == '/';
            &&& folder ==> {
                &&& enriched(s.push(e), warnings, heads) is Ok
                &&& enriched(s.push(e), warnings, heads)->Ok_0.entities == l.entities.push(e)
                &&& enriched(s.push(e), warnings, heads)->Ok_0.warnings == l.warnings
            }
            &&& !folder ==> {
                let r = enriched(s.push(e), warnings, heads.push(answer));
                match answer {
                    Ok(h) => {
                        &&& r is Ok
                        &&& r->Ok_0.warnings == l.warnings
                        &&& r->Ok_0.entities.len() == l.entities.len() + 1
                        &&& r->Ok_0.entities.drop_last() == l.entities
                        &&& r->Ok_0.entities.last().key == e.key
                        &&& r->Ok_0.entities.last().size == e.size
                        &&& r->Ok_0.entities.last().etag == e.etag
                        &&& r->Ok_0.entities.last().mtime_ms == h.mtime_ms
                    },
                    Err(x) => if x is NotFound {
                        &&& r is Ok
                        &&& r->Ok_0.entities == l.entities
                        &&& r->Ok_0.warnings == l.warnings.push(
                            "dropping remote object "@ + e.key + " (deleted while it was listed)"@,
                        )
                    } else {
                        r is Err && r->Err_0 == x
                    },
                }
            }
        }),
        enriched(Seq::<EntityView>::empty(), warnings, heads) is Ok,
        enriched(Seq::<EntityView>::empty(), warnings, heads)->Ok_0.entities.len() == 0,
        enriched(Seq::<EntityView>::empty(), warnings, heads)->Ok_0.warnings == warnings,
{
    assert(s.push(e).drop_last() =~= s);
    assert(heads.push(answer).drop_last() =~= heads);
    let l = enriched(s, warnings, heads)->Ok_0;
    if let Ok(h) = answer {
        assert(l.entities.push(EntityView { mtime_ms: h.mtime_ms, ..e }).drop_last()
            =~= l.entities);
    }
}

/// The keys that are asked for are those of the files, and no folder.
pub proof fn law_files_are_headed(listing: &Listing, r: Vec<String>, k: Seq<char>)
    requires
        call_ensures(keys_to_head, (listing,), r),
    ensures
        text::texts(r@).contains(k) <==> exists|i: int|
            0 <= i < listing.entities@.len() && (#[trigger] listing.entities@[i]).key@ == k && !(
            k.len() > 0 && k[k.len() - 1] == '/'),
{
    let s = listing@.entities;
    let f = files(s);
    let t = text::texts(r@);
    if t.contains(k) {
        let j = choose|j: int| 0 <= j < t.len() && t[j] == k;
        assert(f[j].key == k);
        assert(f.contains(f[j]));
        crate::laws::lemma_selected(s, inventory::is_file(), f[j]);
        let i = choose|i: int| 0 <= i < s.len() && s[i] == f[j];
        assert(s[i] == listing.entities@[i]@);
        assert(listing.entities@[i].key@ == k);
    }
    if exists|i: int|
        0 <= i < listing.entities@.len() && (#[trigger] listing.entities@[i]).key@ == k && !(k.len()
            > 0 && k[k.len() - 1] == '/') {
        let i = choose|i: int|
            0 <= i < listing.entities@.len() && (#[trigger] listing.entities@[i]).key@ == k && !(
            k.len() > 0 && k[k.len() - 1] == '/');
        assert(s[i] == listing.entities@[i]@);
        assert(s.contains(s[i]));
        crate::laws::lemma_selected(s, inventory::is_file(), s[i]);
        let j = choose|j: int| 0 <= j < f.len() && f[j] == s[i];
        assert(t[j] == k);
    }
}

} // verus!
