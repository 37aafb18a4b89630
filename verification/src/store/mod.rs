//! The storage trait, and the session that keeps a record of its requests.

pub mod enrich;
pub mod mock;

use vstd::prelude::*;
use crate::entity;
use crate::entity::{Entity, EntityView};
use crate::error;
use crate::error::{Error, ErrorView};
use crate::text;

verus! {

/// A store listing: files and folder views, plus advisory warnings.
#[derive(Debug)]
pub struct Listing {
    pub entities: Vec<Entity>,
    pub warnings: Vec<String>,
}

/// The mathematical view of a [`Listing`].
pub struct ListingView {
    pub entities: Seq<EntityView>,
    pub warnings: Seq<Seq<char>>,
}

impl View for Listing {
    type V = ListingView;

    open spec fn view(&self) -> ListingView {
        ListingView {
            entities: entity::entities(self.entities@),
            warnings: text::texts(self.warnings@),
        }
    }
}

/// Conditions of a conditional get.
#[derive(Debug)]
pub struct GetOpts {
    /// Answer "not modified" when the object still has this etag.
    pub if_none_match_etag: Option<String>,
}

/// What a conditional get answered.
#[derive(Debug)]
pub enum GetOutcome {
    /// The object still has the etag; no body was written.
    NotModified(Entity),
    /// The body was written.
    Body(Entity),
}

/// The mathematical view of a [`GetOutcome`].
pub enum GetOutcomeView {
    NotModified(EntityView),
    Body(EntityView),
}

impl View for GetOutcome {
    type V = GetOutcomeView;

    open spec fn view(&self) -> GetOutcomeView {
        match *self {
            GetOutcome::NotModified(e) => GetOutcomeView::NotModified(e@),
            GetOutcome::Body(e) => GetOutcomeView::Body(e@),
        }
    }
}

/// Conditions and metadata of a conditional put.
#[derive(Debug)]
pub struct PutOpts {
    /// Succeed only if the current object has this etag.
    pub if_match_etag: Option<String>,
    /// Succeed only if there is no object yet.
    pub if_none_match_star: bool,
    /// The client mtime to store with the object.
    pub mtime_ms: Option<u64>,
}

/// The mathematical view of a [`PutOpts`].
pub struct PutOptsView {
    pub if_match_etag: Option<Seq<char>>,
    pub if_none_match_star: bool,
    pub mtime_ms: Option<u64>,
}

impl View for PutOpts {
    type V = PutOptsView;

    open spec fn view(&self) -> PutOptsView {
        PutOptsView {
            if_match_etag: text::opt_text(self.if_match_etag),
            if_none_match_star: self.if_none_match_star,
            mtime_ms: self.mtime_ms,
        }
    }
}

impl Default for PutOpts {
    fn default() -> (r: Self)
        ensures
            r@ == (PutOptsView { if_match_etag: None, if_none_match_star: false, mtime_ms: None }),
    {
        PutOpts { if_match_etag: None, if_none_match_star: false, mtime_ms: None }
    }
}

/// Body writer with a byte cap: accepts up to `cap` bytes, then trips and
/// refuses, so that a lying object cannot force an unbounded buffer.
#[derive(Debug)]
pub struct CappedWriter {
    buf: Vec<u8>,
    cap: u64,
    tripped: bool,
}

/// The mathematical view of a [`CappedWriter`].
pub struct CappedView {
    pub buf: Seq<u8>,
    pub cap: u64,
    pub tripped: bool,
}

impl View for CappedWriter {
    type V = CappedView;

    closed spec fn view(&self) -> CappedView {
        CappedView { buf: self.buf@, cap: self.cap, tripped: self.tripped }
    }
}

impl CappedWriter {
    /// No more was taken than the cap allows.
    #[verifier::type_invariant]
    spec fn within_cap(self) -> bool {
        self.buf@.len() <= self.cap
    }

    /// An empty writer.
    pub fn new(cap: u64) -> (r: Self)
        ensures
            r@ == (CappedView { buf: Seq::<u8>::empty(), cap, tripped: false }),
    {
        CappedWriter { buf: Vec::new(), cap, tripped: false }
    }

    /// Takes all of `data`, or trips and takes none of it.
    pub fn write(&mut self, data: &[u8]) -> (r: Result<usize, Error>)
        ensures
            final(self)@.cap == old(self)@.cap,
            match r {
                Ok(n) => {
                    &&& n == data@.len()
                    &&& old(self)@.buf.len() + data@.len() <= old(self)@.cap
                    &&& final(self)@.buf == old(self)@.buf + data@
                    &&& final(self)@.tripped == old(self)@.tripped
                },
                Err(e) => {
                    &&& e@ == ErrorView::Io("soft cap exceeded"@)
                    &&& old(self)@.buf.len() + data@.len() > old(self)@.cap
                    &&& final(self)@.buf == old(self)@.buf
                    &&& final(self)@.tripped
                },
            },
    {
        proof {
            use_type_invariant(&*self);
        }
        let room: u64 = self.cap - self.buf.len() as u64;
        if data.len() as u64 > room {
            self.tripped = true;
            return Err(Error::Io("soft cap exceeded".to_owned()));
        }
        let mut grown: Vec<u8> = Vec::new();
        std::mem::swap(&mut grown, &mut self.buf);
        let ghost start = grown@;
        grown.extend_from_slice(data);
        assert(grown@ =~= start + data@);
        self.buf = grown;
        Ok(data.len())
    }

    /// Whether the cap was exceeded.
    pub fn is_tripped(&self) -> (r: bool)
        ensures
            r == self@.tripped,
    {
        self.tripped
    }

    /// The bytes taken so far; never more than the cap.
    pub fn bytes(&self) -> (r: &Vec<u8>)
        ensures
            r@ == self@.buf,
            r@.len() <= self@.cap,
    {
        proof {
            use_type_invariant(self);
        }
        &self.buf
    }

    /// The bytes taken.
    pub fn into_bytes(self) -> (r: Vec<u8>)
        ensures
            r@ == self@.buf,
            r@.len() <= self@.cap,
    {
        proof {
            use_type_invariant(&self);
        }
        self.buf
    }
}

/// An object store. Nothing is assumed of what an implementation answers: the
/// callers in this library are right for every answer.
pub trait ObjectStore {
    /// All files under a prefix, with their ancestor folders.
    fn list(&mut self, prefix: &str) -> Result<Listing, Error>;

    /// The metadata of an object.
    fn head(&mut self, key: &str) -> Result<Entity, Error>;

    /// Writes the body of an object to `w`.
    fn get_to(&mut self, key: &str, w: &mut CappedWriter) -> Result<Entity, Error>;

    /// Writes the body of an object to `w`, unless it still has a known etag.
    /// By default the condition is ignored: it is a [`ObjectStore::get_to`],
    /// and never answers "not modified".
    fn get_to_with(&mut self, key: &str, w: &mut CappedWriter, opts: &GetOpts) -> (r: Result<
        GetOutcome,
        Error,
    >)
        default_ensures
            (exists|s: &mut Self, v: &mut CappedWriter, reply: Result<Entity, Error>|
                {
                    &&& #[trigger] call_ensures(Self::get_to, (s, key, v), reply)
                    &&& &*s == &*old(self) && &*final(s) == &*final(self)
                    &&& *v == *old(w) && *final(v) == *final(w)
                    &&& match reply {
                        Ok(e) => r == Ok::<_, Error>(GetOutcome::Body(e)),
                        Err(e) => r == Err::<GetOutcome, _>(e),
                    }
                }),
    {
        match self.get_to(key, w) {
            Ok(e) => Ok(GetOutcome::Body(e)),
            Err(e) => Err(e),
        }
    }

    /// Stores an object.
    fn put_from(&mut self, key: &str, body: &[u8], mtime_ms: Option<u64>) -> Result<Entity, Error>;

    /// Stores an object under a condition. By default a put under a condition
    /// is refused and changes nothing; one without is a
    /// [`ObjectStore::put_from`].
    fn put_from_with(&mut self, key: &str, body: &[u8], opts: &PutOpts) -> (r: Result<
        Entity,
        Error,
    >)
        default_ensures
            (if opts.if_match_etag is Some || opts.if_none_match_star {
                &&& &*final(self) == &*old(self)
                &&& r is Err
                &&& r->Err_0@ == ErrorView::Other("conditional put is not supported by this store"@)
            } else {
                exists|s: &mut Self|
                    {
                        &&& #[trigger] call_ensures(
                            Self::put_from,
                            (s, key, body, opts.mtime_ms),
                            r,
                        )
                        &&& &*s == &*old(self) && &*final(s) == &*final(self)
                    }
            }),
    {
        if opts.if_match_etag.is_some() || opts.if_none_match_star {
            return Err(Error::Other("conditional put is not supported by this store".to_owned()));
        }
        self.put_from(key, body, opts.mtime_ms)
    }

    /// Removes an object; a missing one is [`Error::NotFound`].
    fn delete(&mut self, key: &str) -> Result<(), Error>;
}

/// A request to a store and what it answered.
#[allow(inconsistent_fields)]
pub enum StoreEvent {
    List { prefix: Seq<char>, reply: Result<ListingView, ErrorView> },
    Head { key: Seq<char>, reply: Result<EntityView, ErrorView> },
    /// A get through a writer capped at `cap`; `body` is what the writer took.
    Get {
        key: Seq<char>,
        cap: u64,
        reply: Result<EntityView, ErrorView>,
        body: Seq<u8>,
        tripped: bool,
    },
    GetWith {
        key: Seq<char>,
        cap: u64,
        etag: Option<Seq<char>>,
        reply: Result<GetOutcomeView, ErrorView>,
        body: Seq<u8>,
        tripped: bool,
    },
    Put {
        key: Seq<char>,
        body: Seq<u8>,
        mtime_ms: Option<u64>,
        reply: Result<EntityView, ErrorView>,
    },
    PutWith {
        key: Seq<char>,
        body: Seq<u8>,
        opts: PutOptsView,
        reply: Result<EntityView, ErrorView>,
    },
    Delete { key: Seq<char>, reply: Result<(), ErrorView> },
}

impl StoreEvent {
    /// Whether the request may change the store.
    pub open spec fn mutates(self) -> bool {
        self is Put || self is PutWith || self is Delete
    }
}

/// The view of a result that carries an entity.
pub open spec fn entity_reply(r: Result<Entity, Error>) -> Result<EntityView, ErrorView> {
    match r {
        Ok(e) => Ok(e@),
        Err(e) => Err(e@),
    }
}

/// The view of a result that carries a listing.
pub open spec fn listing_reply(r: Result<Listing, Error>) -> Result<ListingView, ErrorView> {
    match r {
        Ok(l) => Ok(l@),
        Err(e) => Err(e@),
    }
}

/// The view of a result that carries the outcome of a conditional get.
pub open spec fn outcome_reply(r: Result<GetOutcome, Error>) -> Result<GetOutcomeView, ErrorView> {
    match r {
        Ok(o) => Ok(o@),
        Err(e) => Err(e@),
    }
}

/// A store in use. Its trace (ghost) holds every request made through it and
/// what was answered; contracts speak of the trace.
pub struct Session<S: ObjectStore> {
    store: S,
    trace: Ghost<Seq<StoreEvent>>,
}

/// A reply of a store, with the store's states before and after the request.
pub struct Answer<S, R> {
    pub reply: R,
    pub before: Ghost<S>,
    pub after: Ghost<S>,
}

/// Lists the files under a prefix.
pub fn ask_list<S: ObjectStore>(store: &mut S, prefix: &str) -> (a: Answer<S, Result<Listing, Error>>)
    ensures
        a.before@ == *old(store),
        a.after@ == *final(store),
        exists|s: &mut S|
            {
                &&& #[trigger] call_ensures(S::list, (s, prefix), a.reply)
                &&& *s == a.before@ && *final(s) == a.after@
            },
{
    let ghost before = *store;
    let reply = store.list(prefix);
    let a = Answer { reply, before: Ghost(before), after: Ghost(*store) };
    assert(a.reply == reply);
    a
}

/// Reads the metadata of an object.
pub fn ask_head<S: ObjectStore>(store: &mut S, key: &str) -> (a: Answer<S, Result<Entity, Error>>)
    ensures
        a.before@ == *old(store),
        a.after@ == *final(store),
        exists|s: &mut S|
            {
                &&& #[trigger] call_ensures(S::head, (s, key), a.reply)
                &&& *s == a.before@ && *final(s) == a.after@
            },
{
    let ghost before = *store;
    let reply = store.head(key);
    let a = Answer { reply, before: Ghost(before), after: Ghost(*store) };
    assert(a.reply == reply);
    a
}

/// Stores an object.
pub fn ask_put<S: ObjectStore>(store: &mut S, key: &str, body: &[u8], mtime_ms: Option<u64>) -> (a: Answer<S, Result<Entity, Error>>)
    ensures
        a.before@ == *old(store),
        a.after@ == *final(store),
        exists|s: &mut S|
            {
                &&& #[trigger] call_ensures(S::put_from, (s, key, body, mtime_ms), a.reply)
                &&& *s == a.before@ && *final(s) == a.after@
            },
{
    let ghost before = *store;
    let reply = store.put_from(key, body, mtime_ms);
    let a = Answer { reply, before: Ghost(before), after: Ghost(*store) };
    assert(a.reply == reply);
    a
}

/// Stores an object under a condition.
pub fn ask_put_with<S: ObjectStore>(store: &mut S, key: &str, body: &[u8], opts: &PutOpts) -> (a: Answer<S, Result<Entity, Error>>)
    ensures
        a.before@ == *old(store),
        a.after@ == *final(store),
        exists|s: &mut S|
            {
                &&& #[trigger] call_ensures(S::put_from_with, (s, key, body, opts), a.reply)
                &&& *s == a.before@ && *final(s) == a.after@
            },
{
    let ghost before = *store;
    let reply = store.put_from_with(key, body, opts);
    let a = Answer { reply, before: Ghost(before), after: Ghost(*store) };
    assert(a.reply == reply);
    a
}

/// Removes an object.
pub fn ask_delete<S: ObjectStore>(store: &mut S, key: &str) -> (a: Answer<S, Result<(), Error>>)
    ensures
        a.before@ == *old(store),
        a.after@ == *final(store),
        exists|s: &mut S|
            {
                &&& #[trigger] call_ensures(S::delete, (s, key), a.reply)
                &&& *s == a.before@ && *final(s) == a.after@
            },
{
    let ghost before = *store;
    let reply = store.delete(key);
    let a = Answer { reply, before: Ghost(before), after: Ghost(*store) };
    assert(a.reply == reply);
    a
}

/// Gets an object through a new writer capped at `cap` bytes.
pub fn ask_get<S: ObjectStore>(store: &mut S, key: &str, cap: u64) -> (a: Answer<
    S,
    (Result<Entity, Error>, CappedWriter),
>)
    ensures
        a.before@ == *old(store),
        a.after@ == *final(store),
        exists|s: &mut S, v: &mut CappedWriter|
            {
                &&& #[trigger] call_ensures(S::get_to, (s, key, v), a.reply.0)
                &&& *s == a.before@ && *final(s) == a.after@
                &&& v@ == (CappedView { buf: Seq::<u8>::empty(), cap, tripped: false })
                &&& *final(v) == a.reply.1
            },
{
    let ghost before = *store;
    let mut w = CappedWriter::new(cap);
    let reply = store.get_to(key, &mut w);
    let a = Answer { reply: (reply, w), before: Ghost(before), after: Ghost(*store) };
    assert(a.reply.0 == reply);
    assert(a.reply.1 == w);
    a
}

/// Gets an object through a new writer capped at `cap` bytes, unless it still
/// has the given etag.
pub fn ask_get_with<S: ObjectStore>(store: &mut S, key: &str, cap: u64, opts: &GetOpts) -> (a: Answer<
    S,
    (Result<GetOutcome, Error>, CappedWriter),
>)
    ensures
        a.before@ == *old(store),
        a.after@ == *final(store),
        exists|s: &mut S, v: &mut CappedWriter|
            {
                &&& #[trigger] call_ensures(S::get_to_with, (s, key, v, opts), a.reply.0)
                &&& *s == a.before@ && *final(s) == a.after@
                &&& v@ == (CappedView { buf: Seq::<u8>::empty(), cap, tripped: false })
                &&& *final(v) == a.reply.1
            },
{
    let ghost before = *store;
    let mut w = CappedWriter::new(cap);
    let reply = store.get_to_with(key, &mut w, opts);
    let a = Answer { reply: (reply, w), before: Ghost(before), after: Ghost(*store) };
    assert(a.reply.0 == reply);
    assert(a.reply.1 == w);
    a
}

/// Whether a store in the state `before`, asked as the event says, gave the
/// event's reply and went to the state `after`.
pub open spec fn answered<S: ObjectStore>(before: S, e: StoreEvent, after: S) -> bool {
    match e {
        StoreEvent::List { prefix, reply } => exists|s: &mut S, k: &str, a: Answer<S, Result<Listing, Error>>|
            {
                &&& #[trigger] call_ensures(ask_list::<S>, (s, k), a)
                &&& a.before@ == before && a.after@ == after
                &&& k@ == prefix && listing_reply(a.reply) == reply
            },
        StoreEvent::Head { key, reply } => exists|s: &mut S, k: &str, a: Answer<S, Result<Entity, Error>>|
            {
                &&& #[trigger] call_ensures(ask_head::<S>, (s, k), a)
                &&& a.before@ == before && a.after@ == after
                &&& k@ == key && entity_reply(a.reply) == reply
            },
        StoreEvent::Get { key, cap, reply, body, tripped } => exists|s: &mut S, k: &str, a: Answer<S, (Result<Entity, Error>, CappedWriter)>|
            {
                &&& #[trigger] call_ensures(ask_get::<S>, (s, k, cap), a)
                &&& a.before@ == before && a.after@ == after
                &&& k@ == key && entity_reply(a.reply.0) == reply
                &&& a.reply.1@.buf == body && a.reply.1@.tripped == tripped
            },
        StoreEvent::GetWith { key, cap, etag, reply, body, tripped } => exists|s: &mut S, k: &str, o: &GetOpts, a: Answer<S, (Result<GetOutcome, Error>, CappedWriter)>|
            {
                &&& #[trigger] call_ensures(ask_get_with::<S>, (s, k, cap, o), a)
                &&& a.before@ == before && a.after@ == after
                &&& k@ == key && text::opt_text(o.if_none_match_etag) == etag
                &&& outcome_reply(a.reply.0) == reply
                &&& a.reply.1@.buf == body && a.reply.1@.tripped == tripped
            },
        StoreEvent::Put { key, body, mtime_ms, reply } => exists|s: &mut S, k: &str, b: &[u8], a: Answer<S, Result<Entity, Error>>|
            {
                &&& #[trigger] call_ensures(ask_put::<S>, (s, k, b, mtime_ms), a)
                &&& a.before@ == before && a.after@ == after
                &&& k@ == key && b@ == body && entity_reply(a.reply) == reply
            },
        StoreEvent::PutWith { key, body, opts, reply } => exists|s: &mut S, k: &str, b: &[u8], o: &PutOpts, a: Answer<S, Result<Entity, Error>>|
            {
                &&& #[trigger] call_ensures(ask_put_with::<S>, (s, k, b, o), a)
                &&& a.before@ == before && a.after@ == after
                &&& k@ == key && b@ == body && o@ == opts && entity_reply(a.reply) == reply
            },
        StoreEvent::Delete { key, reply } => exists|s: &mut S, k: &str, a: Answer<S, Result<(), Error>>|
            {
                &&& #[trigger] call_ensures(ask_delete::<S>, (s, k), a)
                &&& a.before@ == before && a.after@ == after
                &&& k@ == key && error::unit_view(a.reply) == reply
            },
    }
}

/// The requests that a session made since an earlier point of its trace.
pub open spec fn since(now: Seq<StoreEvent>, earlier: Seq<StoreEvent>) -> Seq<StoreEvent> {
    now.skip(earlier.len() as int)
}

/// Whether a trace goes on from an earlier one.
pub open spec fn extends(now: Seq<StoreEvent>, earlier: Seq<StoreEvent>) -> bool {
    earlier.len() <= now.len() && now.take(earlier.len() as int) == earlier
}

/// Whether a store in the state `before`, asked as the events say one after
/// the other, gave their replies and went to the state `after`.
pub open spec fn ran<S: ObjectStore>(before: S, t: Seq<StoreEvent>, after: S) -> bool
    decreases t.len(),
{
    if t.len() == 0 {
        before == after
    } else {
        exists|mid: S|
            ran(before, t.drop_last(), mid) && #[trigger] answered(mid, t.last(), after)
    }
}

/// Whether a session went from the state `before` to the state `after` by
/// asking its store: the trace grew by the requests that the store was asked,
/// with the replies that it gave.
#[verifier::opaque]
pub open spec fn runs<S: ObjectStore>(before: Session<S>, after: Session<S>) -> bool {
    &&& extends(after.trace(), before.trace())
    &&& ran(before.inner(), since(after.trace(), before.trace()), after.inner())
}

/// Two runs, one after the other, are a run.
pub proof fn lemma_ran_on<S: ObjectStore>(a: S, t: Seq<StoreEvent>, b: S, u: Seq<StoreEvent>, c: S)
    requires
        ran(a, t, b),
        ran(b, u, c),
    ensures
        ran(a, t + u, c),
    decreases u.len(),
{
    if u.len() == 0 {
        assert(t + u =~= t);
    } else {
        let mid = choose|mid: S|
            ran(b, u.drop_last(), mid) && #[trigger] answered(mid, u.last(), c);
        lemma_ran_on(a, t, b, u.drop_last(), mid);
        assert((t + u).drop_last() =~= t + u.drop_last());
        assert((t + u).last() == u.last());
        assert(answered(mid, (t + u).last(), c));
    }
}

/// The requests since a point are those up to a later point and those since.
pub proof fn lemma_since(start: Seq<StoreEvent>, middle: Seq<StoreEvent>, now: Seq<StoreEvent>)
    requires
        extends(middle, start),
        extends(now, middle),
    ensures
        extends(now, start),
        since(now, start) == since(middle, start) + since(now, middle),
{
    assert(now.take(start.len() as int) =~= now.take(middle.len() as int).take(start.len() as int));
    assert forall|i: int| 0 <= i < middle.len() implies now[i] == middle[i] by {
        assert(now.take(middle.len() as int)[i] == now[i]);
    }
    assert(since(now, start) =~= since(middle, start) + since(now, middle));
}

/// One request is a run.
proof fn lemma_one_request<S: ObjectStore>(before: Session<S>, e: StoreEvent, after: Session<S>)
    requires
        after.trace() == before.trace().push(e),
        answered(before.inner(), e, after.inner()),
    ensures
        runs(before, after),
{
    reveal(runs);
    let t = since(after.trace(), before.trace());
    assert(t =~= seq![e]);
    assert(t.drop_last() =~= Seq::<StoreEvent>::empty());
    assert(after.trace().take(before.trace().len() as int) =~= before.trace());
    reveal_with_fuel(ran, 2);
    assert(answered(before.inner(), t.last(), after.inner()));
}

/// Without a request nothing changes.
pub broadcast proof fn lemma_runs_nothing<S: ObjectStore>(s: Session<S>)
    ensures
        #[trigger] runs(s, s),
{
    reveal(runs);
    assert(since(s.trace(), s.trace()) =~= Seq::<StoreEvent>::empty());
    assert(s.trace().take(s.trace().len() as int) =~= s.trace());
}

/// Runs follow one another.
pub broadcast proof fn lemma_runs_on<S: ObjectStore>(a: Session<S>, b: Session<S>, c: Session<S>)
    requires
        #[trigger] runs(a, b),
        #[trigger] runs(b, c),
    ensures
        runs(a, c),
{
    reveal(runs);
    let t = since(b.trace(), a.trace());
    let u = since(c.trace(), b.trace());
    lemma_ran_on(a.inner(), t, b.inner(), u, c.inner());
    lemma_since(a.trace(), b.trace(), c.trace());
}

/// How runs compose.
pub broadcast group group_runs {
    lemma_runs_nothing,
    lemma_runs_on,
}

impl<S: ObjectStore> Session<S> {
    /// The requests made so far.
    pub closed spec fn trace(self) -> Seq<StoreEvent> {
        self.trace@
    }

    /// The store as it is now.
    pub closed spec fn inner(self) -> S {
        self.store
    }

    /// Opens a store.
    pub fn new(store: S) -> (r: Self)
        ensures
            r.inner() == store,
            r.trace() == Seq::<StoreEvent>::empty(),
    {
        Session { store, trace: Ghost(Seq::empty()) }
    }

    /// Lists the files under a prefix.
    pub fn list(&mut self, prefix: &str) -> (r: Result<Listing, Error>)
        ensures
            runs(*old(self), *final(self)),
            answered(old(self).inner(), final(self).trace().last(), final(self).inner()),
            final(self).trace() == old(self).trace().push(
                StoreEvent::List {
                    prefix: prefix@,
                    reply: listing_reply(r),
                },
            ),
    {
        let ghost start = *self;
        let a = ask_list(&mut self.store, prefix);
        let r = a.reply;
        self.trace = Ghost(
            self.trace@.push(
                StoreEvent::List {
                    prefix: prefix@,
                    reply: listing_reply(r),
                },
            ),
        );
        proof {
            lemma_one_request(start, self.trace@.last(), *self);
        }
        r
    }

    /// Reads the metadata of an object.
    pub fn head(&mut self, key: &str) -> (r: Result<Entity, Error>)
        ensures
            runs(*old(self), *final(self)),
            answered(old(self).inner(), final(self).trace().last(), final(self).inner()),
            final(self).trace() == old(self).trace().push(
                StoreEvent::Head { key: key@, reply: entity_reply(r) },
            ),
    {
        let ghost start = *self;
        let a = ask_head(&mut self.store, key);
        let r = a.reply;
        self.trace = Ghost(
            self.trace@.push(StoreEvent::Head { key: key@, reply: entity_reply(r) }),
        );
        proof {
            lemma_one_request(start, self.trace@.last(), *self);
        }
        r
    }

    /// Gets an object through a writer capped at `cap` bytes.
    pub fn get_to(&mut self, key: &str, cap: u64) -> (r: (Result<Entity, Error>, CappedWriter))
        ensures
            runs(*old(self), *final(self)),
            answered(old(self).inner(), final(self).trace().last(), final(self).inner()),
            final(self).trace() == old(self).trace().push(
                StoreEvent::Get {
                    key: key@,
                    cap,
                    reply: entity_reply(r.0),
                    body: r.1@.buf,
                    tripped: r.1@.tripped,
                },
            ),
    {
        let ghost start = *self;
        let a = ask_get(&mut self.store, key, cap);
        let (r, w) = a.reply;
        self.trace = Ghost(
            self.trace@.push(
                StoreEvent::Get {
                    key: key@,
                    cap,
                    reply: entity_reply(r),
                    body: w@.buf,
                    tripped: w@.tripped,
                },
            ),
        );
        proof {
            assert(self.trace@.last()->Get_cap == cap);
            lemma_one_request(start, self.trace@.last(), *self);
        }
        (r, w)
    }

    /// Gets an object through a writer capped at `cap` bytes, unless it still
    /// has the given etag.
    pub fn get_to_with(&mut self, key: &str, cap: u64, opts: &GetOpts) -> (r: (
        Result<GetOutcome, Error>,
        CappedWriter,
    ))
        ensures
            runs(*old(self), *final(self)),
            answered(old(self).inner(), final(self).trace().last(), final(self).inner()),
            final(self).trace() == old(self).trace().push(
                StoreEvent::GetWith {
                    key: key@,
                    cap,
                    etag: text::opt_text(opts.if_none_match_etag),
                    reply: outcome_reply(r.0),
                    body: r.1@.buf,
                    tripped: r.1@.tripped,
                },
            ),
    {
        let ghost start = *self;
        let a = ask_get_with(&mut self.store, key, cap, opts);
        let (r, w) = a.reply;
        self.trace = Ghost(
            self.trace@.push(
                StoreEvent::GetWith {
                    key: key@,
                    cap,
                    etag: text::opt_text(opts.if_none_match_etag),
                    reply: outcome_reply(r),
                    body: w@.buf,
                    tripped: w@.tripped,
                },
            ),
        );
        proof {
            lemma_one_request(start, self.trace@.last(), *self);
        }
        (r, w)
    }

    /// Stores an object.
    pub fn put_from(&mut self, key: &str, body: &[u8], mtime_ms: Option<u64>) -> (r: Result<
        Entity,
        Error,
    >)
        ensures
            runs(*old(self), *final(self)),
            answered(old(self).inner(), final(self).trace().last(), final(self).inner()),
            final(self).trace() == old(self).trace().push(
                StoreEvent::Put { key: key@, body: body@, mtime_ms, reply: entity_reply(r) },
            ),
    {
        let ghost start = *self;
        let a = ask_put(&mut self.store, key, body, mtime_ms);
        let r = a.reply;
        self.trace = Ghost(
            self.trace@.push(
                StoreEvent::Put { key: key@, body: body@, mtime_ms, reply: entity_reply(r) },
            ),
        );
        proof {
            lemma_one_request(start, self.trace@.last(), *self);
        }
        r
    }

    /// Stores an object under a condition.
    pub fn put_from_with(&mut self, key: &str, body: &[u8], opts: &PutOpts) -> (r: Result<
        Entity,
        Error,
    >)
        ensures
            runs(*old(self), *final(self)),
            answered(old(self).inner(), final(self).trace().last(), final(self).inner()),
            final(self).trace() == old(self).trace().push(
                StoreEvent::PutWith { key: key@, body: body@, opts: opts@, reply: entity_reply(r) },
            ),
    {
        let ghost start = *self;
        let a = ask_put_with(&mut self.store, key, body, opts);
        let r = a.reply;
        self.trace = Ghost(
            self.trace@.push(
                StoreEvent::PutWith { key: key@, body: body@, opts: opts@, reply: entity_reply(r) },
            ),
        );
        proof {
            lemma_one_request(start, self.trace@.last(), *self);
        }
        r
    }

    /// Removes an object.
    pub fn delete(&mut self, key: &str) -> (r: Result<(), Error>)
        ensures
            runs(*old(self), *final(self)),
            answered(old(self).inner(), final(self).trace().last(), final(self).inner()),
            final(self).trace() == old(self).trace().push(
                StoreEvent::Delete { key: key@, reply: error::unit_view(r) },
            ),
    {
        let ghost start = *self;
        let a = ask_delete(&mut self.store, key);
        let r = a.reply;
        self.trace = Ghost(
            self.trace@.push(StoreEvent::Delete { key: key@, reply: error::unit_view(r) }),
        );
        proof {
            lemma_one_request(start, self.trace@.last(), *self);
        }
        r
    }
}

} // verus!
