//! An in-memory store.

use vstd::prelude::*;
use crate::entity;
use crate::entity::{Entity, EntityView};
use crate::error::{Error, ErrorView};
use crate::manifest;
use crate::manifest::{sort_entities, synthesize_folders};
use crate::store;
use crate::store::{
    CappedView, CappedWriter, GetOpts, GetOutcome, GetOutcomeView, Listing, ObjectStore, PutOpts,
    PutOptsView, Session, StoreEvent,
};
use crate::text;
use crate::text::{hexadecimal, same_text, text_starts_with};

verus! {

/// The FNV-1a 64-bit hash.
pub open spec fn fnv(s: Seq<u8>) -> u64
    decreases s.len(),
{
    if s.len() == 0 {
        0xcbf2_9ce4_8422_2325
    } else {
        (fnv(s.drop_last()) ^ (s.last() as u64)).wrapping_mul(0x0000_0100_0000_01b3)
    }
}

/// The FNV-1a 64-bit hash of the bytes.
pub fn fnv1a(bytes: &[u8]) -> (h: u64)
    ensures
        h == fnv(bytes@),
{
    let mut h: u64 = 0xcbf2_9ce4_8422_2325;
    let mut i: usize = 0;
    assert(bytes@.take(0) =~= Seq::<u8>::empty());
    while i < bytes.len()
        invariant
            i <= bytes@.len(),
            h == fnv(bytes@.take(i as int)),
        decreases bytes@.len() - i,
    {
        assert(bytes@.take(i + 1).drop_last() =~= bytes@.take(i as int));
        h = (h ^ (bytes[i] as u64)).wrapping_mul(0x0000_0100_0000_01b3);
        i = i + 1;
    }
    assert(bytes@.take(i as int) =~= bytes@);
    h
}

/// The hexadecimal FNV-1a fingerprint of a body: 16 digits.
pub open spec fn fingerprint(s: Seq<u8>) -> Seq<char> {
    text::hex(fnv(s) as nat, 16)
}

/// The hexadecimal FNV-1a fingerprint of a body.
pub fn body_fingerprint(body: &[u8]) -> (r: String)
    ensures
        r@ == fingerprint(body@),
{
    hexadecimal(fnv1a(body), 16)
}

/// One stored object.
#[derive(Debug)]
struct StoredObject {
    key: String,
    body: Vec<u8>,
    mtime_ms: Option<u64>,
}

/// What is stored under a key.
pub struct ObjectView {
    pub body: Seq<u8>,
    pub mtime_ms: Option<u64>,
}

/// The metadata of a stored object.
pub open spec fn object_entity(key: Seq<char>, o: ObjectView) -> EntityView {
    EntityView {
        key,
        size: o.body.len() as u64,
        mtime_ms: o.mtime_ms,
        etag: Some(fingerprint(o.body)),
    }
}

spec fn contents(s: Seq<StoredObject>) -> Map<Seq<char>, ObjectView>
    decreases s.len(),
{
    if s.len() == 0 {
        Map::empty()
    } else {
        contents(s.drop_last()).insert(
            s.last().key@,
            ObjectView { body: s.last().body@, mtime_ms: s.last().mtime_ms },
        )
    }
}

spec fn unique(s: Seq<StoredObject>) -> bool {
    forall|i: int, j: int|
        0 <= i < j < s.len() ==> (#[trigger] s[i]).key@ != (#[trigger] s[j]).key@
}

proof fn lemma_contents(s: Seq<StoredObject>)
    requires
        unique(s),
    ensures
        forall|k: Seq<char>| #[trigger]
            contents(s).contains_key(k) ==> exists|i: int|
                0 <= i < s.len() && (#[trigger] s[i]).key@ == k,
        forall|i: int|
            0 <= i < s.len() ==> contents(s).contains_key((#[trigger] s[i]).key@) && contents(
                s,
            )[s[i].key@] == (ObjectView { body: s[i].body@, mtime_ms: s[i].mtime_ms }),
    decreases s.len(),
{
    if s.len() > 0 {
        let d = s.drop_last();
        assert forall|i: int, j: int| 0 <= i < j < d.len() implies (#[trigger] d[i]).key@ != (
        #[trigger] d[j]).key@ by {
            assert(d[i] == s[i] && d[j] == s[j]);
        }
        lemma_contents(d);
        assert forall|k: Seq<char>| #[trigger] contents(s).contains_key(k) implies exists|i: int|
            0 <= i < s.len() && (#[trigger] s[i]).key@ == k by {
            if k == s.last().key@ {
                assert(s[s.len() - 1].key@ == k);
            } else {
                assert(contents(d).contains_key(k));
                let i = choose|i: int| 0 <= i < d.len() && (#[trigger] d[i]).key@ == k;
                assert(s[i].key@ == k);
            }
        }
        assert forall|i: int| 0 <= i < s.len() implies contents(s).contains_key(
            (#[trigger] s[i]).key@,
        ) && contents(s)[s[i].key@] == (ObjectView {
            body: s[i].body@,
            mtime_ms: s[i].mtime_ms,
        }) by {
            if i < s.len() - 1 {
                assert(d[i] == s[i]);
                assert(s[i].key@ != s[s.len() - 1].key@);
            }
        }
    }
}

proof fn lemma_remove(s: Seq<StoredObject>, i: int)
    requires
        unique(s),
        0 <= i < s.len(),
    ensures
        unique(s.remove(i)),
        contents(s.remove(i)) == contents(s).remove(s[i].key@),
{
    let t = s.remove(i);
    assert forall|a: int, b: int| 0 <= a < b < t.len() implies (#[trigger] t[a]).key@ != (
    #[trigger] t[b]).key@ by {
        let x = if a < i {
            a
        } else {
            a + 1
        };
        let y = if b < i {
            b
        } else {
            b + 1
        };
        assert(t[a] == s[x] && t[b] == s[y]);
    }
    lemma_contents(s);
    lemma_contents(t);
    let k0 = s[i].key@;
    assert forall|k: Seq<char>| contents(t).contains_key(k) == contents(s).remove(k0).contains_key(
        k,
    ) by {
        if contents(t).contains_key(k) {
            let a = choose|a: int| 0 <= a < t.len() && (#[trigger] t[a]).key@ == k;
            let x = if a < i {
                a
            } else {
                a + 1
            };
            assert(t[a] == s[x]);
            assert(contents(s).contains_key(s[x].key@));
            if x < i {
                assert(s[x].key@ != s[i].key@);
            } else {
                assert(s[i].key@ != s[x].key@);
            }
        }
        if contents(s).contains_key(k) && k != k0 {
            let x = choose|x: int| 0 <= x < s.len() && (#[trigger] s[x]).key@ == k;
            let a = if x < i {
                x
            } else {
                x - 1
            };
            assert(t[a] == s[x]);
            assert(contents(t).contains_key(t[a].key@));
        }
    }
    assert forall|k: Seq<char>| contents(t).contains_key(k) implies contents(t)[k] == contents(s)[k] by {
        let a = choose|a: int| 0 <= a < t.len() && (#[trigger] t[a]).key@ == k;
        let x = if a < i {
            a
        } else {
            a + 1
        };
        assert(t[a] == s[x]);
        assert(contents(s)[s[x].key@] == (ObjectView {
            body: s[x].body@,
            mtime_ms: s[x].mtime_ms,
        }));
    }
    assert(contents(t) =~= contents(s).remove(k0));
}

/// An in-memory store: etags are derived from the content. Its view maps keys
/// to objects.
#[derive(Debug)]
pub struct MemoryStore {
    objects: Vec<StoredObject>,
}

impl View for MemoryStore {
    type V = Map<Seq<char>, ObjectView>;

    closed spec fn view(&self) -> Map<Seq<char>, ObjectView> {
        contents(self.objects@)
    }
}

/// Whether `files` are the metadata of the objects under a prefix, each once.
pub open spec fn files_under(
    files: Seq<EntityView>,
    objects: Map<Seq<char>, ObjectView>,
    prefix: Seq<char>,
) -> bool {
    &&& forall|i: int, j: int|
        0 <= i < j < files.len() ==> (#[trigger] files[i]).key != (#[trigger] files[j]).key
    &&& forall|i: int|
        0 <= i < files.len() ==> {
            &&& objects.contains_key((#[trigger] files[i]).key)
            &&& files[i] == object_entity(files[i].key, objects[files[i].key])
            &&& text::starts_with_text(files[i].key, prefix)
        }
    &&& forall|k: Seq<char>| #[trigger]
        objects.contains_key(k) && text::starts_with_text(k, prefix) ==> exists|i: int|
            0 <= i < files.len() && (#[trigger] files[i]).key == k
}

/// Whether `listed` is the listing of the objects under a prefix: the files
/// and their ancestor folders, by ascending key.
pub open spec fn listing_of(
    listed: Seq<EntityView>,
    objects: Map<Seq<char>, ObjectView>,
    prefix: Seq<char>,
) -> bool {
    exists|files: Seq<EntityView>, folders: Seq<EntityView>|
        #![trigger files_under(files, objects, prefix), manifest::folders_of(folders, files)]
        files_under(files, objects, prefix) && manifest::folders_of(folders, files) && listed
            == manifest::by_key(files + folders)
}

impl MemoryStore {
    #[verifier::type_invariant]
    spec fn wf(self) -> bool {
        unique(self.objects@)
    }

    /// An empty store.
    pub fn new() -> (r: Self)
        ensures
            r@ == Map::<Seq<char>, ObjectView>::empty(),
    {
        MemoryStore { objects: Vec::new() }
    }

    /// The position of a key.
    fn position(&self, key: &str) -> (r: Option<usize>)
        ensures
            match r {
                Some(i) => i < self.objects@.len() && self.objects@[i as int].key@ == key@
                    && self@.contains_key(key@) && self@[key@] == (ObjectView {
                    body: self.objects@[i as int].body@,
                    mtime_ms: self.objects@[i as int].mtime_ms,
                }),
                None => !self@.contains_key(key@),
            },
    {
        proof {
            use_type_invariant(self);
            lemma_contents(self.objects@);
        }
        let mut i: usize = 0;
        while i < self.objects.len()
            invariant
                i <= self.objects@.len(),
                unique(self.objects@),
                forall|j: int| 0 <= j < i ==> (#[trigger] self.objects@[j]).key@ != key@,
            decreases self.objects@.len() - i,
        {
            if same_text(self.objects[i].key.as_str(), key) {
                proof {
                    lemma_contents(self.objects@);
                }
                return Some(i);
            }
            i = i + 1;
        }
        None
    }

    /// The metadata of the object at a position.
    fn entity_at(&self, i: usize) -> (r: Entity)
        requires
            i < self.objects@.len(),
        ensures
            r@ == object_entity(
                self.objects@[i as int].key@,
                ObjectView {
                    body: self.objects@[i as int].body@,
                    mtime_ms: self.objects@[i as int].mtime_ms,
                },
            ),
    {
        Entity {
            key: self.objects[i].key.clone(),
            size: self.objects[i].body.len() as u64,
            mtime_ms: self.objects[i].mtime_ms,
            etag: Some(body_fingerprint(self.objects[i].body.as_slice())),
        }
    }

    /// Stores an object, replacing one with the same key.
    fn set_object(&mut self, key: &str, body: &[u8], mtime_ms: Option<u64>) -> (r: Entity)
        ensures
            final(self)@ == old(self)@.insert(key@, ObjectView { body: body@, mtime_ms }),
            r@ == object_entity(key@, ObjectView { body: body@, mtime_ms }),
    {
        let at = self.position(key);
        proof {
            use_type_invariant(&*self);
        }
        let ghost start = self.objects@;
        let mut objects: Vec<StoredObject> = Vec::new();
        std::mem::swap(&mut objects, &mut self.objects);
        if let Some(i) = at {
            proof {
                lemma_remove(objects@, i as int);
            }
            let _ = objects.remove(i);
        }
        let ghost rest = objects@;
        let mut copy: Vec<u8> = Vec::new();
        copy.extend_from_slice(body);
        assert(copy@ =~= body@);
        proof {
            lemma_contents(rest);
            assert(contents(rest) =~= contents(start).remove(key@));
            assert forall|i: int| 0 <= i < rest.len() implies (#[trigger] rest[i]).key@ != key@ by {
                assert(contents(rest).contains_key(rest[i].key@));
            }
        }
        objects.push(StoredObject { key: key.to_owned(), body: copy, mtime_ms });
        proof {
            let next = objects@;
            assert(next.drop_last() =~= rest);
            assert forall|i: int, j: int| 0 <= i < j < next.len() implies (#[trigger] next[i]).key@
                != (#[trigger] next[j]).key@ by {
                assert(next[i] == rest[i]);
                if j < rest.len() {
                    assert(next[j] == rest[j]);
                }
            }
            assert(contents(next) =~= contents(start).insert(
                key@,
                ObjectView { body: body@, mtime_ms },
            ));
        }
        self.objects = objects;
        Entity {
            key: key.to_owned(),
            size: body.len() as u64,
            mtime_ms,
            etag: Some(body_fingerprint(body)),
        }
    }
}

/// Whether the body under a key fits what a writer has left to take.
pub open spec fn fits(objects: Map<Seq<char>, ObjectView>, key: Seq<char>, w: CappedView) -> bool {
    w.buf.len() + objects[key].body.len() <= w.cap
}

/// The writer of a get: it takes the whole body if that fits, else it trips.
pub open spec fn writer_after(
    objects: Map<Seq<char>, ObjectView>,
    key: Seq<char>,
    w: CappedView,
) -> CappedView {
    if !objects.contains_key(key) {
        w
    } else if fits(objects, key, w) {
        CappedView { buf: w.buf + objects[key].body, ..w }
    } else {
        CappedView { tripped: true, ..w }
    }
}

/// The reply to a get: the metadata of the object if there is one and its body
/// fits.
pub open spec fn get_reply(
    objects: Map<Seq<char>, ObjectView>,
    key: Seq<char>,
    w: CappedView,
) -> Result<EntityView, ErrorView> {
    if !objects.contains_key(key) {
        Err(ErrorView::NotFound(key))
    } else if fits(objects, key, w) {
        Ok(object_entity(key, objects[key]))
    } else {
        Err(ErrorView::Io("soft cap exceeded"@))
    }
}

/// Whether the object under a key still has the given etag.
pub open spec fn unchanged(
    objects: Map<Seq<char>, ObjectView>,
    key: Seq<char>,
    etag: Option<Seq<char>>,
) -> bool {
    objects.contains_key(key) && etag == Some(fingerprint(objects[key].body))
}

/// Whether the conditions of a put hold.
pub open spec fn may_put(
    objects: Map<Seq<char>, ObjectView>,
    key: Seq<char>,
    opts: PutOptsView,
) -> bool {
    &&& opts.if_none_match_star ==> !objects.contains_key(key)
    &&& opts.if_match_etag is Some ==> unchanged(objects, key, opts.if_match_etag)
}

impl ObjectStore for MemoryStore {
    fn list(&mut self, prefix: &str) -> (r: Result<Listing, Error>)
        ensures
            final(self)@ == old(self)@,
            r is Ok && r->Ok_0.warnings@.len() == 0 && listing_of(
                r->Ok_0@.entities,
                old(self)@,
                prefix@,
            ),
    {
        proof {
            use_type_invariant(&*self);
            lemma_contents(self.objects@);
        }
        let ghost all = self.objects@;
        let mut files: Vec<Entity> = Vec::new();
        let mut i: usize = 0;
        while i < self.objects.len()
            invariant
                i <= self.objects@.len(),
                self.objects@ == all,
                unique(all),
                forall|a: int|
                    0 <= a < files@.len() ==> exists|x: int|
                        #![trigger all[x]]
                        0 <= x < i && (#[trigger] files@[a])@ == object_entity(
                            all[x].key@,
                            ObjectView { body: all[x].body@, mtime_ms: all[x].mtime_ms },
                        ) && text::starts_with_text(all[x].key@, prefix@),
                forall|x: int|
                    0 <= x < i && text::starts_with_text((#[trigger] all[x]).key@, prefix@)
                        ==> exists|a: int|
                        0 <= a < files@.len() && (#[trigger] files@[a])@.key == all[x].key@,
                forall|a: int, b: int|
                    0 <= a < b < files@.len() ==> (#[trigger] files@[a])@.key != (
                    #[trigger] files@[b])@.key,
            decreases self.objects@.len() - i,
        {
            let ghost prev = files@;
            if text_starts_with(self.objects[i].key.as_str(), prefix) {
                files.push(self.entity_at(i));
                proof {
                    assert forall|a: int| 0 <= a < files@.len() implies exists|x: int|
                        #![trigger all[x]]
                        0 <= x < i + 1 && (#[trigger] files@[a])@ == object_entity(
                            all[x].key@,
                            ObjectView { body: all[x].body@, mtime_ms: all[x].mtime_ms },
                        ) && text::starts_with_text(all[x].key@, prefix@) by {
                        if a < prev.len() {
                            assert(files@[a] == prev[a]);
                        } else {
                            assert(all[i as int].key@ == files@[a]@.key);
                        }
                    }
                    assert forall|a: int, b: int| 0 <= a < b < files@.len() implies (
                    #[trigger] files@[a])@.key != (#[trigger] files@[b])@.key by {
                        assert(files@[a] == prev[a]);
                        if b < prev.len() {
                            assert(files@[b] == prev[b]);
                        } else {
                            let x = choose|x: int|
                                #![trigger all[x]]
                                0 <= x < i && prev[a]@ == object_entity(
                                    all[x].key@,
                                    ObjectView { body: all[x].body@, mtime_ms: all[x].mtime_ms },
                                ) && text::starts_with_text(all[x].key@, prefix@);
                            assert(all[x].key@ != all[i as int].key@);
                        }
                    }
                    assert forall|x: int|
                        0 <= x < i + 1 && text::starts_with_text(
                            (#[trigger] all[x]).key@,
                            prefix@,
                        ) implies exists|a: int|
                        0 <= a < files@.len() && (#[trigger] files@[a])@.key == all[x].key@ by {
                        if x < i {
                            let a = choose|a: int|
                                0 <= a < prev.len() && (#[trigger] prev[a])@.key == all[x].key@;
                            assert(files@[a] == prev[a]);
                        } else {
                            assert(files@[prev.len() as int]@.key == all[x].key@);
                        }
                    }
                }
            }
            i = i + 1;
        }
        let folders = synthesize_folders(files.as_slice());
        let ghost fv = entity::entities(files@);
        let ghost dv = entity::entities(folders@);
        proof {
            assert forall|a: int, b: int| 0 <= a < b < fv.len() implies (#[trigger] fv[a]).key != (
            #[trigger] fv[b]).key by {
                assert(files@[a]@.key != files@[b]@.key);
            }
            assert forall|a: int| 0 <= a < fv.len() implies {
                &&& self@.contains_key((#[trigger] fv[a]).key)
                &&& fv[a] == object_entity(fv[a].key, self@[fv[a].key])
                &&& text::starts_with_text(fv[a].key, prefix@)
            } by {
                assert(fv[a] == files@[a]@);
            }
            assert forall|k: Seq<char>| #[trigger]
                self@.contains_key(k) && text::starts_with_text(k, prefix@) implies exists|a: int|
                0 <= a < fv.len() && (#[trigger] fv[a]).key == k by {
                let x = choose|x: int| 0 <= x < all.len() && (#[trigger] all[x]).key@ == k;
                let a = choose|a: int|
                    0 <= a < files@.len() && (#[trigger] files@[a])@.key == all[x].key@;
                assert(fv[a].key == k);
            }
            assert(files_under(fv, self@, prefix@));
        }
        let mut listed = files;
        let mut more = folders;
        listed.append(&mut more);
        assert(entity::entities(listed@) =~= fv + dv);
        let entities = sort_entities(listed);
        Ok(Listing { entities, warnings: Vec::new() })
    }

    fn head(&mut self, key: &str) -> (r: Result<Entity, Error>)
        ensures
            final(self)@ == old(self)@,
            match r {
                Ok(e) => old(self)@.contains_key(key@) && e@ == object_entity(
                    key@,
                    old(self)@[key@],
                ),
                Err(e) => !old(self)@.contains_key(key@) && e@ == ErrorView::NotFound(key@),
            },
    {
        match self.position(key) {
            Some(i) => Ok(self.entity_at(i)),
            None => Err(Error::NotFound(key.to_owned())),
        }
    }

    fn get_to(&mut self, key: &str, w: &mut CappedWriter) -> (r: Result<Entity, Error>)
        ensures
            final(self)@ == old(self)@,
            final(w)@ == writer_after(old(self)@, key@, old(w)@),
            store::entity_reply(r) == get_reply(old(self)@, key@, old(w)@),
    {
        match self.position(key) {
            Some(i) => match w.write(self.objects[i].body.as_slice()) {
                Ok(_) => Ok(self.entity_at(i)),
                Err(e) => Err(e),
            },
            None => Err(Error::NotFound(key.to_owned())),
        }
    }

    fn get_to_with(&mut self, key: &str, w: &mut CappedWriter, opts: &GetOpts) -> (r: Result<
        GetOutcome,
        Error,
    >)
        ensures
            final(self)@ == old(self)@,
            ({
                let etag = text::opt_text(opts.if_none_match_etag);
                if unchanged(old(self)@, key@, etag) {
                    &&& final(w)@ == old(w)@
                    &&& store::outcome_reply(r) == Ok::<_, ErrorView>(
                        GetOutcomeView::NotModified(object_entity(key@, old(self)@[key@])),
                    )
                } else {
                    &&& final(w)@ == writer_after(old(self)@, key@, old(w)@)
                    &&& store::outcome_reply(r) == match get_reply(old(self)@, key@, old(w)@) {
                        Ok(e) => Ok::<_, ErrorView>(GetOutcomeView::Body(e)),
                        Err(e) => Err(e),
                    }
                }
            }),
    {
        match self.position(key) {
            Some(i) => {
                let e = self.entity_at(i);
                if let Some(known) = &opts.if_none_match_etag {
                    let current = body_fingerprint(self.objects[i].body.as_slice());
                    if same_text(known.as_str(), current.as_str()) {
                        return Ok(GetOutcome::NotModified(e));
                    }
                }
                match w.write(self.objects[i].body.as_slice()) {
                    Ok(_) => Ok(GetOutcome::Body(e)),
                    Err(e) => Err(e),
                }
            },
            None => Err(Error::NotFound(key.to_owned())),
        }
    }

    fn put_from(&mut self, key: &str, body: &[u8], mtime_ms: Option<u64>) -> (r: Result<
        Entity,
        Error,
    >)
        ensures
            final(self)@ == old(self)@.insert(key@, ObjectView { body: body@, mtime_ms }),
            r is Ok && r->Ok_0@ == object_entity(key@, ObjectView { body: body@, mtime_ms }),
    {
        Ok(self.set_object(key, body, mtime_ms))
    }

    fn put_from_with(&mut self, key: &str, body: &[u8], opts: &PutOpts) -> (r: Result<
        Entity,
        Error,
    >)
        ensures
            ({
                let o = ObjectView { body: body@, mtime_ms: opts.mtime_ms };
                if may_put(old(self)@, key@, opts@) {
                    &&& final(self)@ == old(self)@.insert(key@, o)
                    &&& store::entity_reply(r) == Ok::<_, ErrorView>(object_entity(key@, o))
                } else {
                    &&& final(self)@ == old(self)@
                    &&& store::entity_reply(r) == Err::<EntityView, _>(
                        ErrorView::PreconditionFailed(key@),
                    )
                }
            }),
    {
        let at = self.position(key);
        if opts.if_none_match_star && at.is_some() {
            return Err(Error::PreconditionFailed(key.to_owned()));
        }
        if let Some(want) = &opts.if_match_etag {
            let matches = match at {
                Some(i) => {
                    let current = body_fingerprint(self.objects[i].body.as_slice());
                    same_text(want.as_str(), current.as_str())
                },
                None => false,
            };
            if !matches {
                return Err(Error::PreconditionFailed(key.to_owned()));
            }
        }
        Ok(self.set_object(key, body, opts.mtime_ms))
    }

    fn delete(&mut self, key: &str) -> (r: Result<(), Error>)
        ensures
            match r {
                Ok(_) => old(self)@.contains_key(key@) && final(self)@ == old(self)@.remove(key@),
                Err(e) => !old(self)@.contains_key(key@) && final(self)@ == old(self)@ && e@
                    == ErrorView::NotFound(key@),
            },
    {
        match self.position(key) {
            Some(i) => {
                proof {
                    use_type_invariant(&*self);
                    lemma_remove(self.objects@, i as int);
                }
                let mut objects: Vec<StoredObject> = Vec::new();
                std::mem::swap(&mut objects, &mut self.objects);
                let _ = objects.remove(i);
                self.objects = objects;
                Ok(())
            },
            None => Err(Error::NotFound(key.to_owned())),
        }
    }
}

/// A new writer.
pub open spec fn fresh_writer(cap: u64) -> CappedView {
    CappedView { buf: Seq::<u8>::empty(), cap, tripped: false }
}

/// Whether the reply of an event is the one that a store with these objects
/// gives.
pub open spec fn replies(objects: Map<Seq<char>, ObjectView>, e: StoreEvent) -> bool {
    match e {
        StoreEvent::List { prefix, reply } => {
            &&& reply is Ok
            &&& reply->Ok_0.warnings.len() == 0
            &&& listing_of(reply->Ok_0.entities, objects, prefix)
        },
        StoreEvent::Head { key, reply } => reply == if objects.contains_key(key) {
            Ok::<_, ErrorView>(object_entity(key, objects[key]))
        } else {
            Err(ErrorView::NotFound(key))
        },
        StoreEvent::Get { key, cap, reply, body, tripped } => {
            let w = writer_after(objects, key, fresh_writer(cap));
            &&& reply == get_reply(objects, key, fresh_writer(cap))
            &&& body == w.buf
            &&& tripped == w.tripped
        },
        StoreEvent::GetWith { key, cap, etag, reply, body, tripped } => {
            let w = writer_after(objects, key, fresh_writer(cap));
            if unchanged(objects, key, etag) {
                &&& reply == Ok::<_, ErrorView>(
                    GetOutcomeView::NotModified(object_entity(key, objects[key])),
                )
                &&& body.len() == 0
                &&& !tripped
            } else {
                &&& reply == match get_reply(objects, key, fresh_writer(cap)) {
                    Ok(e) => Ok::<_, ErrorView>(GetOutcomeView::Body(e)),
                    Err(e) => Err(e),
                }
                &&& body == w.buf
                &&& tripped == w.tripped
            }
        },
        StoreEvent::Put { key, body, mtime_ms, reply } => reply == Ok::<_, ErrorView>(
            object_entity(key, ObjectView { body, mtime_ms }),
        ),
        StoreEvent::PutWith { key, body, opts, reply } => reply == if may_put(objects, key, opts) {
            Ok::<_, ErrorView>(object_entity(key, ObjectView { body, mtime_ms: opts.mtime_ms }))
        } else {
            Err(ErrorView::PreconditionFailed(key))
        },
        StoreEvent::Delete { key, reply } => reply == if objects.contains_key(key) {
            Ok::<_, ErrorView>(())
        } else {
            Err(ErrorView::NotFound(key))
        },
    }
}

/// The objects after a request.
pub open spec fn effect(objects: Map<Seq<char>, ObjectView>, e: StoreEvent) -> Map<
    Seq<char>,
    ObjectView,
> {
    match e {
        StoreEvent::Put { key, body, mtime_ms, .. } => objects.insert(
            key,
            ObjectView { body, mtime_ms },
        ),
        StoreEvent::PutWith { key, body, opts, .. } => if may_put(objects, key, opts) {
            objects.insert(key, ObjectView { body, mtime_ms: opts.mtime_ms })
        } else {
            objects
        },
        StoreEvent::Delete { key, .. } => objects.remove(key),
        _ => objects,
    }
}

/// The objects after requests made one after the other.
pub open spec fn effects(objects: Map<Seq<char>, ObjectView>, t: Seq<StoreEvent>) -> Map<
    Seq<char>,
    ObjectView,
>
    decreases t.len(),
{
    if t.len() == 0 {
        objects
    } else {
        effect(effects(objects, t.drop_last()), t.last())
    }
}

/// Whether the replies of the events are those that a store with these objects
/// gives when it is asked so.
pub open spec fn replies_all(objects: Map<Seq<char>, ObjectView>, t: Seq<StoreEvent>) -> bool {
    forall|i: int| 0 <= i < t.len() ==> replies(effects(objects, t.take(i)), #[trigger] t[i])
}

/// One request to an in-memory store.
pub proof fn lemma_memory_answers(before: MemoryStore, e: StoreEvent, after: MemoryStore)
    requires
        store::answered(before, e, after),
    ensures
        replies(before@, e),
        after@ == effect(before@, e),
{
    if e is Delete && !before@.contains_key(e->Delete_key) {
        assert(before@.remove(e->Delete_key) =~= before@);
    }
}

/// What an in-memory store is asked, it answers from its objects: the replies
/// and the objects after the run are determined by the objects before it.
pub proof fn law_memory_answers(before: MemoryStore, t: Seq<StoreEvent>, after: MemoryStore)
    requires
        store::ran(before, t, after),
    ensures
        replies_all(before@, t),
        after@ == effects(before@, t),
    decreases t.len(),
{
    if t.len() > 0 {
        let d = t.drop_last();
        let mid = choose|mid: MemoryStore|
            store::ran(before, d, mid) && #[trigger] store::answered(mid, t.last(), after);
        law_memory_answers(before, d, mid);
        lemma_memory_answers(mid, t.last(), after);
        assert forall|i: int| 0 <= i < t.len() implies replies(
            effects(before@, t.take(i)),
            #[trigger] t[i],
        ) by {
            if i < d.len() {
                assert(d[i] == t[i]);
                assert(d.take(i) =~= t.take(i));
            } else {
                assert(t.take(i) =~= d);
            }
        }
    }
}

/// The same of a session over an in-memory store.
pub proof fn law_memory_session(before: Session<MemoryStore>, after: Session<MemoryStore>)
    requires
        store::runs(before, after),
    ensures
        replies_all(before.inner()@, store::since(after.trace(), before.trace())),
        after.inner()@ == effects(
            before.inner()@,
            store::since(after.trace(), before.trace()),
        ),
{
    reveal(store::runs);
    law_memory_answers(
        before.inner(),
        store::since(after.trace(), before.trace()),
        after.inner(),
    );
}

/// The hash is FNV-1a of 64 bits: it starts from its offset basis, and each byte
/// is mixed in by an exclusive or and a multiplication with its prime, modulo
/// 2^64.
pub proof fn law_hash_is_fnv1a(s: Seq<u8>, b: u8)
    ensures
        fnv(Seq::<u8>::empty()) == 14695981039346656037,
        fnv(s.push(b)) as int == ((fnv(s) ^ (b as u64)) * 1099511628211) % 0x1_0000_0000_0000_0000,
{
    assert(s.push(b).drop_last() =~= s);
}

/// A fingerprint is the hash in 16 hexadecimal digits.
pub proof fn law_fingerprint_is_the_hash(s: Seq<u8>)
    ensures
        fingerprint(s).len() == 16,
        text::hex_value(fingerprint(s)) == fnv(s),
{
    text::law_hex_reads_back(fnv(s) as nat, 16);
    assert(vstd::arithmetic::power::pow(16, 16) == 0x1_0000_0000_0000_0000) by {
        reveal_with_fuel(vstd::arithmetic::power::pow, 17);
    }
}

} // verus!
