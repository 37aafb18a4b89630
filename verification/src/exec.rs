//! Executor: the order in which the actions of a plan are carried out, the
//! checks and store requests of each, and the report.
//!
//! - Transfers come first (downloads, then uploads), deletes last.
//! - Folder, conflict and skip rows are never carried out, and a status plan
//!   carries out nothing.
//! - An upload re-verifies size and mtime at open; a download never exceeds
//!   its planned size; a delete re-verifies that its target is still the
//!   planned one, and a target that is gone counts as deleted.
//! - One bad key never stops the run: failures are collected per key.

use vstd::prelude::*;
use crate::entity;
use crate::entity::{file, Entity, EntityView};
use crate::error;
use crate::error::{Error, ErrorView};
use crate::inventory;
use crate::inventory::{CommitMutation, MutationView};
use crate::local;
use crate::local::{key_to_local_path, size_changed_error, LocalFs, Opened};
use crate::manifest;
use crate::manifest::synthesize_folders;
use crate::plan;
use crate::plan::{Action, ActionKind, ActionView, Mode, Plan};
use crate::store;
use crate::store::{ObjectStore, Session, StoreEvent};
use crate::text;
use crate::text::{cat2, cat3, decimal};

verus! {

broadcast use crate::store::group_runs;

/// The indices of the actions of one kind, ascending.
pub open spec fn kind_steps(a: Seq<ActionView>, kind: ActionKind) -> Seq<int>
    decreases a.len(),
{
    if a.len() == 0 {
        Seq::<int>::empty()
    } else {
        let init = kind_steps(a.drop_last(), kind);
        if a.last().kind == kind {
            init.push(a.len() - 1)
        } else {
            init
        }
    }
}

/// The indices of the actions that are carried out, in the order in which they
/// are: downloads, uploads, remote deletes, local deletes.
pub open spec fn steps(a: Seq<ActionView>, mode: Mode) -> Seq<int> {
    if mode == Mode::Status {
        Seq::<int>::empty()
    } else {
        kind_steps(a, ActionKind::Download) + kind_steps(a, ActionKind::Upload) + kind_steps(
            a,
            ActionKind::DeleteRemote,
        ) + kind_steps(a, ActionKind::DeleteLocal)
    }
}

/// The numbers as integers.
pub open spec fn ints(v: Seq<usize>) -> Seq<int> {
    Seq::new(v.len(), |i: int| v[i] as int)
}

/// Appends the indices of the actions of one kind.
fn push_steps(out: &mut Vec<usize>, a: &Vec<Action>, kind: ActionKind)
    ensures
        ints(final(out)@) == ints(old(out)@) + kind_steps(plan::actions(a@), kind),
{
    let ghost all = plan::actions(a@);
    let ghost start = ints(out@);
    let mut i: usize = 0;
    assert(all.take(0) =~= Seq::<ActionView>::empty());
    assert(start + kind_steps(all.take(0), kind) =~= start);
    while i < a.len()
        invariant
            i <= a@.len(),
            all == plan::actions(a@),
            ints(out@) == start + kind_steps(all.take(i as int), kind),
        decreases a@.len() - i,
    {
        let ghost part = all.take(i + 1);
        let ghost prev = ints(out@);
        assert(part.drop_last() =~= all.take(i as int));
        assert(part.last() == a@[i as int]@);
        if a[i].kind == kind {
            out.push(i);
            assert(ints(out@) =~= prev.push(i as int));
            assert(start + kind_steps(part, kind) =~= prev.push(i as int));
        }
        i = i + 1;
    }
    assert(all.take(i as int) =~= all);
}

/// How many actions of one kind a plan has.
pub fn count_steps(plan: &Plan, kind: ActionKind) -> (r: usize)
    ensures
        r == kind_steps(plan::actions(plan.actions@), kind).len(),
{
    let mut out: Vec<usize> = Vec::new();
    push_steps(&mut out, &plan.actions, kind);
    assert(ints(out@) =~= kind_steps(plan::actions(plan.actions@), kind));
    out.len()
}

/// No action is of two kinds.
pub proof fn lemma_kinds_disjoint(a: Seq<ActionView>, k: ActionKind, l: ActionKind)
    requires
        k != l,
    ensures
        kind_steps(a, k).len() + kind_steps(a, l).len() <= a.len(),
    decreases a.len(),
{
    if a.len() > 0 {
        lemma_kinds_disjoint(a.drop_last(), k, l);
    }
}

/// The indices of the actions that are carried out, in their order.
pub fn execution_steps(plan: &Plan, mode: Mode) -> (r: Vec<usize>)
    ensures
        ints(r@) == steps(plan::actions(plan.actions@), mode),
{
    let mut out: Vec<usize> = Vec::new();
    assert(ints(out@) =~= Seq::<int>::empty());
    if mode != Mode::Status {
        push_steps(&mut out, &plan.actions, ActionKind::Download);
        push_steps(&mut out, &plan.actions, ActionKind::Upload);
        push_steps(&mut out, &plan.actions, ActionKind::DeleteRemote);
        push_steps(&mut out, &plan.actions, ActionKind::DeleteLocal);
        proof {
            let a = plan::actions(plan.actions@);
            assert(Seq::<int>::empty() + kind_steps(a, ActionKind::Download) =~= kind_steps(
                a,
                ActionKind::Download,
            ));
        }
    }
    out
}

/// A pass of a run: steps that may be carried out side by side.
#[derive(Debug)]
pub struct Pass {
    /// What the pass is called when its progress is shown.
    pub verb: &'static str,
    /// How many of its steps may be under way at a time.
    pub concurrency: u32,
    pub steps: Vec<usize>,
}

/// The mathematical view of a [`Pass`].
pub struct PassView {
    pub verb: Seq<char>,
    pub concurrency: u32,
    pub steps: Seq<int>,
}

impl View for Pass {
    type V = PassView;

    open spec fn view(&self) -> PassView {
        PassView { verb: self.verb@, concurrency: self.concurrency, steps: ints(self.steps@) }
    }
}

/// The pass of the downloads.
pub open spec fn download_pass(a: Seq<ActionView>, concurrency: u32) -> PassView {
    PassView {
        verb: "Downloading"@,
        concurrency,
        steps: kind_steps(a, ActionKind::Download),
    }
}

/// The pass of the uploads.
pub open spec fn upload_pass(a: Seq<ActionView>, concurrency: u32) -> PassView {
    PassView { verb: "Uploading"@, concurrency, steps: kind_steps(a, ActionKind::Upload) }
}

/// The pass of the deletes, one by one: the remote ones, then the local ones.
pub open spec fn delete_pass(a: Seq<ActionView>) -> PassView {
    PassView {
        verb: "Deleting"@,
        concurrency: 1,
        steps: kind_steps(a, ActionKind::DeleteRemote) + kind_steps(a, ActionKind::DeleteLocal),
    }
}

/// The passes of a run, one after the other. `concurrency` bounds the transfers.
pub fn execution_passes(plan: &Plan, mode: Mode, concurrency: u32) -> (r: Vec<Pass>)
    ensures
        mode == Mode::Status ==> r@.len() == 0,
        mode != Mode::Status ==> {
            let a = plan::actions(plan.actions@);
            &&& r@.len() == 3
            &&& r@[0]@ == download_pass(a, concurrency)
            &&& r@[1]@ == upload_pass(a, concurrency)
            &&& r@[2]@ == delete_pass(a)
        },
{
    let mut out: Vec<Pass> = Vec::new();
    if mode == Mode::Status {
        return out;
    }
    let ghost a = plan::actions(plan.actions@);
    let mut downloads: Vec<usize> = Vec::new();
    let mut uploads: Vec<usize> = Vec::new();
    let mut deletes: Vec<usize> = Vec::new();
    push_steps(&mut downloads, &plan.actions, ActionKind::Download);
    push_steps(&mut uploads, &plan.actions, ActionKind::Upload);
    push_steps(&mut deletes, &plan.actions, ActionKind::DeleteRemote);
    push_steps(&mut deletes, &plan.actions, ActionKind::DeleteLocal);
    assert(ints(downloads@) =~= kind_steps(a, ActionKind::Download));
    assert(ints(uploads@) =~= kind_steps(a, ActionKind::Upload));
    assert(ints(deletes@) =~= delete_pass(a).steps);
    out.push(Pass { verb: "Downloading", concurrency, steps: downloads });
    out.push(Pass { verb: "Uploading", concurrency, steps: uploads });
    out.push(Pass { verb: "Deleting", concurrency: 1, steps: deletes });
    out
}

/// The passes make up the run: their steps, one pass after the other, are the
/// steps of the run in their order, whatever the concurrency.
pub proof fn law_passes_make_up_the_run(a: Seq<ActionView>, mode: Mode, concurrency: u32)
    requires
        mode != Mode::Status,
    ensures
        download_pass(a, concurrency).steps + upload_pass(a, concurrency).steps + delete_pass(
            a,
        ).steps == steps(a, mode),
{
    assert(download_pass(a, concurrency).steps + upload_pass(a, concurrency).steps + delete_pass(
        a,
    ).steps =~= steps(a, mode));
}

/// Whether an action may be uploaded from what was seen at open, and with
/// which mtime.
pub open spec fn upload_check(
    root: Seq<char>,
    a: ActionView,
    tolerance_ms: u64,
    seen: Opened,
    body_len: nat,
) -> Result<Option<u64>, ErrorView> {
    match a.local {
        None => Err(ErrorView::Other("upload planned without local entity: "@ + a.key)),
        Some(l) => match local::verified(root, a.key, l.size, l.mtime_ms, tolerance_ms, seen) {
            Err(e) => Err(e),
            Ok(_) => if body_len != l.size {
                Err(local::size_changed(a.key, l.size, body_len))
            } else {
                Ok(l.mtime_ms)
            },
        },
    }
}

/// Upload one key. `seen` is what the open of its file gave, and `body` the
/// bytes read from it; a file that changed since the walk fails here, before
/// any request.
pub fn exec_upload<S: ObjectStore>(
    store: &mut Session<S>,
    local: &LocalFs,
    a: &Action,
    tolerance_ms: u64,
    seen: &Opened,
    body: &[u8],
) -> (r: Result<Entity, Error>)
    ensures
        store::runs(*old(store), *final(store)),
        match upload_check(local@.root, a@, tolerance_ms, *seen, body@.len()) {
            Err(e) => final(store).trace() == old(store).trace() && store::entity_reply(r) == Err::<
                EntityView,
                ErrorView,
            >(e),
            Ok(mtime_ms) => final(store).trace() == old(store).trace().push(
                StoreEvent::Put {
                    key: a.key@,
                    body: body@,
                    mtime_ms,
                    reply: store::entity_reply(r),
                },
            ),
        },
{
    let l = match &a.local {
        None => {
            return Err(
                Error::Other(cat2("upload planned without local entity: ", a.key.as_str())),
            );
        },
        Some(l) => l,
    };
    if let Err(e) = local.open_verified(a.key.as_str(), l.size, l.mtime_ms, tolerance_ms, seen) {
        return Err(e);
    }
    if body.len() as u64 != l.size {
        return Err(size_changed_error(a.key.as_str(), l.size, body.len() as u64));
    }
    store.put_from(a.key.as_str(), body, l.mtime_ms)
}

/// A downloaded body with the client mtime of the object.
#[derive(Debug)]
pub struct Download {
    pub body: Vec<u8>,
    pub mtime_ms: Option<u64>,
}

/// The mathematical view of a [`Download`].
pub struct DownloadView {
    pub body: Seq<u8>,
    pub mtime_ms: Option<u64>,
}

impl View for Download {
    type V = DownloadView;

    open spec fn view(&self) -> DownloadView {
        DownloadView { body: self.body@, mtime_ms: self.mtime_ms }
    }
}

/// The view of a download result.
pub open spec fn download_view(r: Result<Download, Error>) -> Result<DownloadView, ErrorView> {
    match r {
        Ok(d) => Ok(d@),
        Err(e) => Err(e@),
    }
}

/// How many bytes a download may take: the planned size.
pub open spec fn download_cap(a: ActionView) -> u64 {
    match a.remote {
        Some(r) => r.size,
        None => u64::MAX,
    }
}

/// What a download gives for the answer to its request.
pub open spec fn downloaded(a: ActionView, e: StoreEvent) -> Result<DownloadView, ErrorView> {
    match e {
        StoreEvent::Get { key, cap, reply, body, tripped } => if tripped || body.len()
            > download_cap(a) {
            Err(
                ErrorView::Other(
                    "download exceeds its planned size for "@ + a.key + " (planned "@ + text::dec(
                        download_cap(a) as nat,
                    ) + ")"@,
                ),
            )
        } else {
            match reply {
                Err(e) => Err(e),
                Ok(remote) => if a.remote is Some && a.remote->0.size != remote.size {
                    Err(
                        ErrorView::Other(
                            "download size mismatch for "@ + a.key + " (expected "@ + text::dec(
                                a.remote->0.size as nat,
                            ) + ", got "@ + text::dec(remote.size as nat) + ")"@,
                        ),
                    )
                } else {
                    Ok(DownloadView { body, mtime_ms: remote.mtime_ms })
                },
            }
        },
        _ => Err(ErrorView::Other(""@)),
    }
}

/// Whether an event gets the object of an action, up to its planned size.
pub open spec fn gets_planned(a: ActionView, e: StoreEvent) -> bool {
    e matches StoreEvent::Get { key, cap, .. } && key == a.key && cap == download_cap(a)
}

/// Download one key. The mtime is the object's client mtime. An object that
/// grew, or has another size than planned, fails.
pub fn exec_download<S: ObjectStore>(store: &mut Session<S>, local: &LocalFs, a: &Action) -> (r:
    Result<Download, Error>)
    ensures
        store::runs(*old(store), *final(store)),
        match local::local_path(local@.root, a.key@) {
            Err(e) => final(store).trace() == old(store).trace() && download_view(r) == Err::<
                DownloadView,
                ErrorView,
            >(e),
            Ok(_) => {
                &&& final(store).trace() == old(store).trace().push(final(store).trace().last())
                &&& gets_planned(a@, final(store).trace().last())
                &&& download_view(r) == downloaded(a@, final(store).trace().last())
            },
        },
        r is Ok ==> r->Ok_0.body@.len() <= download_cap(a@),
{
    if let Err(e) = key_to_local_path(local.root(), a.key.as_str()) {
        return Err(e);
    }
    let cap: u64 = match &a.remote {
        Some(planned) => planned.size,
        None => u64::MAX,
    };
    let ghost start = store.trace();
    let (reply, w) = store.get_to(a.key.as_str(), cap);
    proof {
        assert(store.trace() =~= start.push(store.trace().last()));
    }
    if w.is_tripped() || w.bytes().len() as u64 > cap {
        let mut m = cat3("download exceeds its planned size for ", a.key.as_str(), " (planned ");
        m.append(decimal(cap).as_str());
        m.append(")");
        return Err(Error::Other(m));
    }
    let remote = match reply {
        Err(e) => return Err(e),
        Ok(remote) => remote,
    };
    if let Some(planned) = &a.remote {
        if planned.size != remote.size {
            let mut m = cat3("download size mismatch for ", a.key.as_str(), " (expected ");
            m.append(decimal(planned.size).as_str());
            m.append(", got ");
            m.append(decimal(remote.size).as_str());
            m.append(")");
            return Err(Error::Other(m));
        }
    }
    Ok(Download { body: w.into_bytes(), mtime_ms: remote.mtime_ms })
}

/// Whether a download may replace what is at its target: a symlink is never
/// written through, and a file there must still be the planned one.
pub open spec fn destination_check(
    root: Seq<char>,
    a: ActionView,
    tolerance_ms: u64,
    seen: Opened,
) -> Result<(), ErrorView> {
    match local::local_path(root, a.key) {
        Err(e) => Err(e),
        Ok(path) => match seen {
            Opened::Missing => Ok(()),
            Opened::Symlink => Err(
                ErrorView::Other("refusing to write through a symlink: "@ + path),
            ),
            _ => match a.local {
                None => if seen is Failed {
                    Err(ErrorView::Io(seen->Failed_0@))
                } else {
                    Err(ErrorView::Other("download target appeared since the plan: "@ + a.key))
                },
                Some(l) => local::verified(root, a.key, l.size, l.mtime_ms, tolerance_ms, seen),
            },
        },
    }
}

/// Guard: whether a download may replace what is at its target.
pub fn check_destination(local: &LocalFs, a: &Action, tolerance_ms: u64, seen: &Opened) -> (r:
    Result<(), Error>)
    ensures
        error::unit_view(r) == destination_check(local@.root, a@, tolerance_ms, *seen),
{
    let path = match key_to_local_path(local.root(), a.key.as_str()) {
        Err(e) => return Err(e),
        Ok(p) => p,
    };
    match seen {
        Opened::Missing => return Ok(()),
        Opened::Symlink => {
            return Err(
                Error::Other(cat2("refusing to write through a symlink: ", path.as_str())),
            );
        },
        _ => {},
    }
    match &a.local {
        None => {
            if let Opened::Failed(m) = seen {
                return Err(Error::Io(m.clone()));
            }
            Err(Error::Other(cat2("download target appeared since the plan: ", a.key.as_str())))
        },
        Some(l) => local.open_verified(a.key.as_str(), l.size, l.mtime_ms, tolerance_ms, seen),
    }
}

/// Whether a local file may be deleted: it must still be the planned one. One
/// that is gone is [`Error::NotFound`], which counts as deleted.
pub open spec fn local_delete_check(
    root: Seq<char>,
    a: ActionView,
    tolerance_ms: u64,
    seen: Opened,
) -> Result<(), ErrorView> {
    match a.local {
        None => Err(ErrorView::Other("delete planned without local entity: "@ + a.key)),
        Some(l) => local::verified(root, a.key, l.size, l.mtime_ms, tolerance_ms, seen),
    }
}

/// Guard: whether a local file may be deleted.
pub fn check_delete_local(local: &LocalFs, a: &Action, tolerance_ms: u64, seen: &Opened) -> (r:
    Result<(), Error>)
    ensures
        error::unit_view(r) == local_delete_check(local@.root, a@, tolerance_ms, *seen),
{
    match &a.local {
        None => Err(Error::Other(cat2("delete planned without local entity: ", a.key.as_str()))),
        Some(l) => local.open_verified(a.key.as_str(), l.size, l.mtime_ms, tolerance_ms, seen),
    }
}

/// Whether an object is no longer the planned one.
pub open spec fn object_changed(
    planned: Option<EntityView>,
    now: EntityView,
    tolerance_ms: u64,
) -> bool {
    match planned {
        None => false,
        Some(p) => {
            ||| p.size != now.size
            ||| match (p.mtime_ms, now.mtime_ms) {
                (Some(a), Some(b)) => local::drifted(a, b, tolerance_ms),
                _ => false,
            }
        },
    }
}

/// The requests of a remote delete: a head and, if it shows the planned
/// object, a delete.
pub open spec fn delete_requests(t: Seq<StoreEvent>, a: ActionView, tolerance_ms: u64) -> bool {
    &&& t.len() > 0
    &&& t[0] matches StoreEvent::Head { key, reply }
    &&& key == a.key
    &&& if reply is Ok && !object_changed(a.remote, reply->Ok_0, tolerance_ms) {
        &&& t.len() == 2
        &&& t[1] matches StoreEvent::Delete { key: d, .. }
        &&& d == a.key
    } else {
        t.len() == 1
    }
}

/// What a remote delete returns. An object that is gone counts as deleted.
pub open spec fn delete_result(t: Seq<StoreEvent>, a: ActionView, tolerance_ms: u64) -> Result<
    (),
    ErrorView,
> {
    match inventory::head_reply(t[0]) {
        Err(e) => if e is NotFound {
            Ok(())
        } else {
            Err(e)
        },
        Ok(now) => if object_changed(a.remote, now, tolerance_ms) {
            Err(
                ErrorView::Other(
                    "refusing to delete "@ + a.key + " (the object changed since the plan)"@,
                ),
            )
        } else {
            match crate::delete_reply(t[1]) {
                Ok(_) => Ok(()),
                Err(e) => if e is NotFound {
                    Ok(())
                } else {
                    Err(e)
                },
            }
        },
    }
}

/// Whether an object is no longer the planned one.
fn has_changed(planned: &Option<Entity>, now: &Entity, tolerance_ms: u64) -> (r: bool)
    ensures
        r == object_changed(entity::opt_entity(*planned), now@, tolerance_ms),
{
    match planned {
        None => false,
        Some(p) => {
            if p.size != now.size {
                return true;
            }
            if let (Some(a), Some(b)) = (p.mtime_ms, now.mtime_ms) {
                let apart: u64 = if a >= b {
                    a - b
                } else {
                    b - a
                };
                return apart > tolerance_ms;
            }
            false
        },
    }
}

/// Delete one remote key, after a look that it is still the planned object.
pub fn exec_delete_remote<S: ObjectStore>(
    store: &mut Session<S>,
    a: &Action,
    tolerance_ms: u64,
) -> (r: Result<(), Error>)
    ensures
        store::runs(*old(store), *final(store)),
        store::extends(final(store).trace(), old(store).trace()),
        ({
            let t = store::since(final(store).trace(), old(store).trace());
            &&& delete_requests(t, a@, tolerance_ms)
            &&& error::unit_view(r) == delete_result(t, a@, tolerance_ms)
        }),
{
    let ghost start = store.trace();
    let looked = store.head(a.key.as_str());
    let ghost middle = store.trace();
    proof {
        assert(store::since(middle, start) =~= seq![middle.last()]);
        assert(middle.take(start.len() as int) =~= start);
    }
    let now = match looked {
        Err(Error::NotFound(_)) => return Ok(()),
        Err(e) => return Err(e),
        Ok(now) => now,
    };
    if has_changed(&a.remote, &now, tolerance_ms) {
        return Err(
            Error::Other(
                cat3("refusing to delete ", a.key.as_str(), " (the object changed since the plan)"),
            ),
        );
    }
    let removed = store.delete(a.key.as_str());
    proof {
        assert(store::since(store.trace(), start) =~= seq![middle.last(), store.trace().last()]);
        assert(store.trace().take(start.len() as int) =~= start);
    }
    match removed {
        Ok(()) => Ok(()),
        Err(Error::NotFound(_)) => Ok(()),
        Err(e) => Err(e),
    }
}

/// How one action went.
#[derive(Debug)]
pub enum StepOutcome {
    /// It succeeded.
    Done,
    /// It was an upload, and succeeded; the store answered with the object.
    Uploaded(Entity),
    /// It failed.
    Failed(Error),
}

/// The mathematical view of a [`StepOutcome`].
pub enum StepView {
    Done,
    Uploaded(EntityView),
    Failed(ErrorView),
}

impl View for StepOutcome {
    type V = StepView;

    open spec fn view(&self) -> StepView {
        match *self {
            StepOutcome::Done => StepView::Done,
            StepOutcome::Uploaded(e) => StepView::Uploaded(e@),
            StepOutcome::Failed(e) => StepView::Failed(e@),
        }
    }
}

/// The views of a sequence of outcomes.
pub open spec fn outcomes(v: Seq<StepOutcome>) -> Seq<StepView> {
    Seq::new(v.len(), |i: int| v[i]@)
}

/// Outcome of an execution run.
#[derive(Debug)]
pub struct ExecReport {
    /// Number of actions that succeeded (modulo 2^32).
    pub executed: u32,
    /// Failed keys with a human message.
    pub failed: Vec<ExecFailure>,
    /// Successful remote mutations, for the manifest commit.
    pub mutations: Vec<CommitMutation>,
    /// Advisory warnings (a directory that could not be cleaned up).
    pub warnings: Vec<String>,
}

/// A single failed key.
#[derive(Debug, PartialEq)]
pub struct ExecFailure {
    pub key: String,
    pub message: String,
}

/// The mathematical view of an [`ExecFailure`].
pub struct FailureView {
    pub key: Seq<char>,
    pub message: Seq<char>,
}

impl View for ExecFailure {
    type V = FailureView;

    open spec fn view(&self) -> FailureView {
        FailureView { key: self.key@, message: self.message@ }
    }
}

/// The views of a sequence of failures.
pub open spec fn failures(v: Seq<ExecFailure>) -> Seq<FailureView> {
    Seq::new(v.len(), |i: int| v[i]@)
}

/// The mathematical view of an [`ExecReport`].
pub struct ExecView {
    pub executed: u32,
    pub failed: Seq<FailureView>,
    pub mutations: Seq<MutationView>,
    pub warnings: Seq<Seq<char>>,
}

impl View for ExecReport {
    type V = ExecView;

    open spec fn view(&self) -> ExecView {
        ExecView {
            executed: self.executed,
            failed: failures(self.failed@),
            mutations: inventory::mutations(self.mutations@),
            warnings: text::texts(self.warnings@),
        }
    }
}

/// The report of a run that carried out nothing.
pub open spec fn empty_exec() -> ExecView {
    ExecView {
        executed: 0,
        failed: Seq::<FailureView>::empty(),
        mutations: Seq::<MutationView>::empty(),
        warnings: Seq::<Seq<char>>::empty(),
    }
}

impl Default for ExecReport {
    fn default() -> (r: Self)
        ensures
            r@ == empty_exec(),
    {
        let r = ExecReport {
            executed: 0,
            failed: Vec::new(),
            mutations: Vec::new(),
            warnings: Vec::new(),
        };
        assert(r@.failed =~= empty_exec().failed);
        assert(r@.mutations =~= empty_exec().mutations);
        assert(r@.warnings =~= empty_exec().warnings);
        r
    }
}

/// Whether an action succeeded. Deleting what is gone is a success.
pub open spec fn succeeded(a: ActionView, o: StepView) -> bool {
    match o {
        StepView::Failed(e) => e is NotFound && (a.kind == ActionKind::DeleteLocal || a.kind
            == ActionKind::DeleteRemote),
        _ => true,
    }
}

/// The report with the outcome of one more action.
pub open spec fn reported(rep: ExecView, a: ActionView, o: StepView) -> ExecView {
    if succeeded(a, o) {
        ExecView {
            executed: rep.executed.wrapping_add(1),
            mutations: match o {
                StepView::Uploaded(e) => if a.kind == ActionKind::Upload {
                    rep.mutations.push(MutationView::Upload(e))
                } else {
                    rep.mutations
                },
                _ => if a.kind == ActionKind::DeleteRemote {
                    rep.mutations.push(MutationView::DeleteRemote(a.key))
                } else {
                    rep.mutations
                },
            },
            ..rep
        }
    } else {
        ExecView {
            failed: rep.failed.push(FailureView { key: a.key, message: o->Failed_0.text() }),
            ..rep
        }
    }
}

/// The report of the first `n` steps.
pub open spec fn report_of(
    a: Seq<ActionView>,
    order: Seq<int>,
    o: Seq<StepView>,
    n: int,
) -> ExecView
    decreases n,
{
    if n <= 0 {
        empty_exec()
    } else {
        reported(report_of(a, order, o, n - 1), a[order[n - 1]], o[n - 1])
    }
}

/// How many steps have an outcome.
pub open spec fn carried_out(order: Seq<int>, o: Seq<StepView>) -> int {
    if order.len() <= o.len() {
        order.len() as int
    } else {
        o.len() as int
    }
}

/// Whether an action succeeded.
fn step_succeeded(kind: ActionKind, o: &StepOutcome) -> (r: bool)
    ensures
        forall|a: ActionView| a.kind == kind ==> r == #[trigger] succeeded(a, o@),
{
    match o {
        StepOutcome::Failed(Error::NotFound(_)) => kind == ActionKind::DeleteLocal || kind
            == ActionKind::DeleteRemote,
        StepOutcome::Failed(_) => false,
        _ => true,
    }
}

/// Adds the outcome of one action to the report.
fn report_step(rep: &mut ExecReport, a: &Action, o: &StepOutcome)
    ensures
        final(rep)@ == reported(old(rep)@, a@, o@),
{
    let ghost before_step = rep@;
    assert(a@.kind == a.kind);
    if !step_succeeded(a.kind, o) {
        if let StepOutcome::Failed(e) = o {
            let f = ExecFailure { key: a.key.clone(), message: e.to_string() };
            rep.failed.push(f);
            assert(failures(rep.failed@) =~= before_step.failed.push(f@));
        }
        return;
    }
    rep.executed = rep.executed.wrapping_add(1);
    match o {
        StepOutcome::Uploaded(e) => {
            if a.kind == ActionKind::Upload {
                let m = CommitMutation::Upload(e.clone());
                rep.mutations.push(m);
                assert(inventory::mutations(rep.mutations@) =~= before_step.mutations.push(m@));
            }
        },
        _ => {
            if a.kind == ActionKind::DeleteRemote {
                let m = CommitMutation::DeleteRemote(a.key.clone());
                rep.mutations.push(m);
                assert(inventory::mutations(rep.mutations@) =~= before_step.mutations.push(m@));
            }
        },
    }
}

/// The steps are indices of actions that are carried out.
pub proof fn lemma_steps_in_range(a: Seq<ActionView>, mode: Mode)
    ensures
        forall|i: int|
            0 <= i < steps(a, mode).len() ==> 0 <= #[trigger] steps(a, mode)[i] < a.len(),
{
    lemma_kind_steps(a, ActionKind::Download);
    lemma_kind_steps(a, ActionKind::Upload);
    lemma_kind_steps(a, ActionKind::DeleteRemote);
    lemma_kind_steps(a, ActionKind::DeleteLocal);
}

/// The steps of one kind are the ascending indices of its actions.
pub proof fn lemma_kind_steps(a: Seq<ActionView>, kind: ActionKind)
    ensures
        forall|i: int|
            0 <= i < kind_steps(a, kind).len() ==> 0 <= #[trigger] kind_steps(a, kind)[i] < a.len()
                && a[kind_steps(a, kind)[i]].kind == kind,
        forall|i: int, j: int|
            0 <= i < j < kind_steps(a, kind).len() ==> #[trigger] kind_steps(a, kind)[i]
                < #[trigger] kind_steps(a, kind)[j],
        forall|x: int|
            0 <= x < a.len() && (#[trigger] a[x]).kind == kind ==> kind_steps(a, kind).contains(x),
    decreases a.len(),
{
    if a.len() > 0 {
        let d = a.drop_last();
        lemma_kind_steps(d, kind);
        let init = kind_steps(d, kind);
        let all = kind_steps(a, kind);
        assert forall|i: int| 0 <= i < all.len() implies 0 <= #[trigger] all[i] < a.len()
            && a[all[i]].kind == kind by {
            if i < init.len() {
                assert(all[i] == init[i]);
                assert(d[init[i]] == a[init[i]]);
            }
        }
        assert forall|i: int, j: int| 0 <= i < j < all.len() implies #[trigger] all[i]
            < #[trigger] all[j] by {
            assert(all[i] == init[i]);
            if j < init.len() {
                assert(all[j] == init[j]);
            }
        }
        assert forall|x: int| 0 <= x < a.len() && (#[trigger] a[x]).kind == kind implies all.contains(
            x,
        ) by {
            if x < d.len() {
                assert(d[x].kind == kind);
                assert(init.contains(x));
                let j = choose|j: int| 0 <= j < init.len() && init[j] == x;
                assert(all[j] == x);
            } else {
                assert(all[all.len() - 1] == x);
            }
        }
    }
}

/// The report of a run: `results` are the outcomes of the steps of
/// [`execution_steps`], in their order. A status plan carries out nothing.
pub fn execute_plan(plan: &Plan, mode: Mode, results: &Vec<StepOutcome>) -> (r: ExecReport)
    ensures
        ({
            let a = plan::actions(plan.actions@);
            let order = steps(a, mode);
            let o = outcomes(results@);
            r@ == report_of(a, order, o, carried_out(order, o))
        }),
{
    let ghost a = plan::actions(plan.actions@);
    let ghost o = outcomes(results@);
    let order = execution_steps(plan, mode);
    let ghost want = steps(a, mode);
    proof {
        lemma_steps_in_range(a, mode);
    }
    let mut rep = ExecReport::default();
    let mut i: usize = 0;
    while i < order.len() && i < results.len()
        invariant
            i <= carried_out(want, o),
            a == plan::actions(plan.actions@),
            o == outcomes(results@),
            want == ints(order@),
            forall|j: int| 0 <= j < want.len() ==> 0 <= #[trigger] want[j] < a.len(),
            rep@ == report_of(a, want, o, i as int),
        decreases order@.len() - i,
    {
        assert(want[i as int] == order@[i as int] as int);
        let x: usize = order[i];
        assert(a[x as int] == plan.actions@[x as int]@);
        assert(o[i as int] == results@[i as int]@);
        report_step(&mut rep, &plan.actions[x], &results[i]);
        i = i + 1;
    }
    rep
}

/// The local files deleted by the first `n` steps.
pub open spec fn deleted_files(
    a: Seq<ActionView>,
    order: Seq<int>,
    o: Seq<StepView>,
    n: int,
) -> Seq<EntityView>
    decreases n,
{
    if n <= 0 {
        Seq::<EntityView>::empty()
    } else {
        let init = deleted_files(a, order, o, n - 1);
        let x = a[order[n - 1]];
        if x.kind == ActionKind::DeleteLocal && succeeded(x, o[n - 1]) {
            init.push(EntityView { key: x.key, size: 0, mtime_ms: None, etag: None })
        } else {
            init
        }
    }
}

/// The folders that a run may have emptied: the ancestors of the files that it
/// deleted, children before their parents.
pub open spec fn emptied(a: Seq<ActionView>, mode: Mode, o: Seq<StepView>) -> Seq<Seq<char>> {
    let order = steps(a, mode);
    plan::keys_of(
        manifest::folder_views(deleted_files(a, order, o, carried_out(order, o))),
    ).reverse()
}

/// The folders to remove after a run if they are empty: only ancestors of the
/// files deleted in it, deepest first; never the vault root.
pub fn emptied_dirs(plan: &Plan, mode: Mode, results: &Vec<StepOutcome>) -> (r: Vec<String>)
    ensures
        text::texts(r@) == emptied(plan::actions(plan.actions@), mode, outcomes(results@)),
{
    let ghost a = plan::actions(plan.actions@);
    let ghost o = outcomes(results@);
    let order = execution_steps(plan, mode);
    let ghost want = steps(a, mode);
    proof {
        lemma_steps_in_range(a, mode);
    }
    let mut gone: Vec<Entity> = Vec::new();
    let mut i: usize = 0;
    assert(entity::entities(gone@) =~= Seq::<EntityView>::empty());
    while i < order.len() && i < results.len()
        invariant
            i <= carried_out(want, o),
            a == plan::actions(plan.actions@),
            o == outcomes(results@),
            want == ints(order@),
            forall|j: int| 0 <= j < want.len() ==> 0 <= #[trigger] want[j] < a.len(),
            entity::entities(gone@) == deleted_files(a, want, o, i as int),
        decreases order@.len() - i,
    {
        assert(want[i as int] == order@[i as int] as int);
        let x: usize = order[i];
        let ghost prev = entity::entities(gone@);
        assert(a[x as int] == plan.actions@[x as int]@);
        assert(o[i as int] == results@[i as int]@);
        assert(a[x as int].kind == plan.actions@[x as int].kind);
        if plan.actions[x].kind == ActionKind::DeleteLocal && step_succeeded(
            plan.actions[x].kind,
            &results[i],
        ) {
            let e = file(plan.actions[x].key.as_str(), 0, None);
            gone.push(e);
            assert(entity::entities(gone@) =~= prev.push(e@));
        }
        i = i + 1;
    }
    let folders = synthesize_folders(gone.as_slice());
    let ghost keys = plan::keys_of(entity::entities(folders@));
    let mut out: Vec<String> = Vec::new();
    let mut j: usize = folders.len();
    while j > 0
        invariant
            j <= folders@.len(),
            keys == plan::keys_of(entity::entities(folders@)),
            out@.len() == folders@.len() - j,
            forall|x: int|
                0 <= x < out@.len() ==> (#[trigger] out@[x])@ == keys[folders@.len() - 1 - x],
        decreases j,
    {
        j = j - 1;
        out.push(folders[j].key.clone());
    }
    assert(text::texts(out@) =~= keys.reverse());
    out
}

/// The warning for a folder that could not be removed.
pub fn cleanup_warning(dir: &str, message: &str) -> (r: String)
    ensures
        r@ == "could not remove empty directory "@ + dir@ + ": "@ + message@,
{
    let mut m = cat3("could not remove empty directory ", dir, ": ");
    m.append(message);
    m
}

/// Whether a kind of action is a transfer.
pub open spec fn is_transfer(kind: ActionKind) -> bool {
    kind == ActionKind::Download || kind == ActionKind::Upload
}

/// Whether a kind of action is a delete.
pub open spec fn is_delete(kind: ActionKind) -> bool {
    kind == ActionKind::DeleteRemote || kind == ActionKind::DeleteLocal
}

/// Where a step comes from: its number in the list of its own kind.
proof fn lemma_step_origin(a: Seq<ActionView>, mode: Mode, i: int)
    requires
        0 <= i < steps(a, mode).len(),
    ensures
        ({
            let d = kind_steps(a, ActionKind::Download);
            let u = kind_steps(a, ActionKind::Upload);
            let r = kind_steps(a, ActionKind::DeleteRemote);
            let l = kind_steps(a, ActionKind::DeleteLocal);
            let s = steps(a, mode);
            &&& i < d.len() ==> s[i] == d[i]
            &&& d.len() <= i < d.len() + u.len() ==> s[i] == u[i - d.len()]
            &&& d.len() + u.len() <= i < d.len() + u.len() + r.len() ==> s[i] == r[i - d.len()
                - u.len()]
            &&& d.len() + u.len() + r.len() <= i ==> s[i] == l[i - d.len() - u.len() - r.len()]
            &&& s.len() == d.len() + u.len() + r.len() + l.len()
        }),
{
}

/// Transfers come first: no delete is carried out before a transfer.
pub proof fn law_deletes_come_last(a: Seq<ActionView>, mode: Mode, i: int, j: int)
    requires
        0 <= i < steps(a, mode).len(),
        0 <= j < steps(a, mode).len(),
        is_transfer(a[steps(a, mode)[i]].kind),
        is_delete(a[steps(a, mode)[j]].kind),
    ensures
        i < j,
{
    lemma_step_origin(a, mode, i);
    lemma_step_origin(a, mode, j);
    lemma_kind_steps(a, ActionKind::Download);
    lemma_kind_steps(a, ActionKind::Upload);
    lemma_kind_steps(a, ActionKind::DeleteRemote);
    lemma_kind_steps(a, ActionKind::DeleteLocal);
}

/// Except in a status plan, every transfer and every delete is carried out,
/// exactly once, and nothing else is: skips and conflicts never are.
pub proof fn law_steps_are_exact(a: Seq<ActionView>, mode: Mode)
    ensures
        mode == Mode::Status ==> steps(a, mode).len() == 0,
        mode != Mode::Status ==> forall|x: int|
            0 <= x < a.len() ==> (is_transfer((#[trigger] a[x]).kind) || is_delete(a[x].kind)
                <==> steps(a, mode).contains(x)),
        steps(a, mode).no_duplicates(),
        forall|i: int|
            0 <= i < steps(a, mode).len() ==> 0 <= #[trigger] steps(a, mode)[i] < a.len(),
{
    lemma_steps_in_range(a, mode);
    let d = kind_steps(a, ActionKind::Download);
    let u = kind_steps(a, ActionKind::Upload);
    let r = kind_steps(a, ActionKind::DeleteRemote);
    let l = kind_steps(a, ActionKind::DeleteLocal);
    let s = steps(a, mode);
    lemma_kind_steps(a, ActionKind::Download);
    lemma_kind_steps(a, ActionKind::Upload);
    lemma_kind_steps(a, ActionKind::DeleteRemote);
    lemma_kind_steps(a, ActionKind::DeleteLocal);
    if mode != Mode::Status {
        assert forall|x: int| 0 <= x < a.len() implies (is_transfer((#[trigger] a[x]).kind)
            || is_delete(a[x].kind) <==> s.contains(x)) by {
            if s.contains(x) {
                let i = choose|i: int| 0 <= i < s.len() && s[i] == x;
                lemma_step_origin(a, mode, i);
            }
            if a[x].kind == ActionKind::Download {
                let i = choose|i: int| 0 <= i < d.len() && d[i] == x;
                assert(s[i] == x);
            }
            if a[x].kind == ActionKind::Upload {
                let i = choose|i: int| 0 <= i < u.len() && u[i] == x;
                assert(s[d.len() + i] == x);
            }
            if a[x].kind == ActionKind::DeleteRemote {
                let i = choose|i: int| 0 <= i < r.len() && r[i] == x;
                assert(s[d.len() + u.len() + i] == x);
            }
            if a[x].kind == ActionKind::DeleteLocal {
                let i = choose|i: int| 0 <= i < l.len() && l[i] == x;
                assert(s[d.len() + u.len() + r.len() + i] == x);
            }
        }
    }
    assert forall|i: int, j: int| 0 <= i < s.len() && 0 <= j < s.len() && i != j implies s[i]
        != s[j] by {
        lemma_step_origin(a, mode, i);
        lemma_step_origin(a, mode, j);
    }
}

/// Every step is accounted for: it succeeded or it failed, and a failure of
/// one key never hides another. (Beyond 2^32 - 1 steps the counter wraps
/// around.)
pub proof fn law_every_step_is_reported(
    a: Seq<ActionView>,
    order: Seq<int>,
    o: Seq<StepView>,
    n: int,
)
    requires
        0 <= n <= u32::MAX,
    ensures
        report_of(a, order, o, n).executed + report_of(a, order, o, n).failed.len() == n,
    decreases n,
{
    if n > 0 {
        law_every_step_is_reported(a, order, o, n - 1);
    }
}

/// Only what succeeded is committed: each mutation of a report is an upload
/// with the object that the store answered with, or a remote delete, of a step
/// that succeeded.
pub proof fn law_mutations_are_successes(
    a: Seq<ActionView>,
    order: Seq<int>,
    o: Seq<StepView>,
    n: int,
    m: MutationView,
)
    requires
        0 <= n,
        report_of(a, order, o, n).mutations.contains(m),
    ensures
        exists|i: int|
            0 <= i < n && succeeded(a[order[i]], #[trigger] o[i]) && match m {
                MutationView::Upload(e) => a[order[i]].kind == ActionKind::Upload && o[i]
                    == StepView::Uploaded(e),
                MutationView::DeleteRemote(k) => a[order[i]].kind == ActionKind::DeleteRemote
                    && a[order[i]].key == k,
            },
    decreases n,
{
    let all = report_of(a, order, o, n).mutations;
    let x = choose|x: int| 0 <= x < all.len() && all[x] == m;
    if n > 0 {
        let prev = report_of(a, order, o, n - 1).mutations;
        if x < prev.len() {
            assert(prev[x] == m);
            law_mutations_are_successes(a, order, o, n - 1, m);
            let i = choose|i: int|
                0 <= i < n - 1 && succeeded(a[order[i]], #[trigger] o[i]) && match m {
                    MutationView::Upload(e) => a[order[i]].kind == ActionKind::Upload && o[i]
                        == StepView::Uploaded(e),
                    MutationView::DeleteRemote(k) => a[order[i]].kind == ActionKind::DeleteRemote
                        && a[order[i]].key == k,
                };
            assert(succeeded(a[order[i]], o[i]));
        } else {
            assert(succeeded(a[order[n - 1]], o[n - 1]));
        }
    }
}

proof fn lemma_deleted_files(
    a: Seq<ActionView>,
    order: Seq<int>,
    o: Seq<StepView>,
    n: int,
    e: EntityView,
)
    requires
        0 <= n,
        deleted_files(a, order, o, n).contains(e),
    ensures
        exists|i: int|
            0 <= i < n && succeeded(a[order[i]], #[trigger] o[i]) && a[order[i]].kind
                == ActionKind::DeleteLocal && a[order[i]].key == e.key,
    decreases n,
{
    let all = deleted_files(a, order, o, n);
    let x = choose|x: int| 0 <= x < all.len() && all[x] == e;
    if n > 0 {
        let prev = deleted_files(a, order, o, n - 1);
        if x < prev.len() {
            assert(prev[x] == e);
            lemma_deleted_files(a, order, o, n - 1, e);
            let i = choose|i: int|
                0 <= i < n - 1 && succeeded(a[order[i]], #[trigger] o[i]) && a[order[i]].kind
                    == ActionKind::DeleteLocal && a[order[i]].key == e.key;
            assert(succeeded(a[order[i]], o[i]));
        } else {
            assert(succeeded(a[order[n - 1]], o[n - 1]));
        }
    }
}

proof fn lemma_parents(key: Seq<char>, p: Seq<char>)
    requires
        manifest::parents(key).contains(p),
    ensures
        p.len() > 0,
        p.last() == '/',
        text::starts_with_text(key, p),
    decreases key.len(),
{
    let all = manifest::parents(key);
    let x = choose|x: int| 0 <= x < all.len() && all[x] == p;
    if key.len() > 0 {
        let init = manifest::parents(key.drop_last());
        if key.last() == '/' && x == init.len() {
            assert(p == key);
            assert(key.take(key.len() as int) =~= key);
        } else {
            assert(init[x] == p);
            lemma_parents(key.drop_last(), p);
            assert(key.drop_last().take(p.len() as int) =~= key.take(p.len() as int));
        }
    }
}

/// The clean-up after a run is scoped to it: each folder it looks at is an
/// ancestor of a file that the run deleted, so never the vault root, and a
/// folder comes after every folder inside it.
pub proof fn law_clean_up_is_scoped(a: Seq<ActionView>, mode: Mode, o: Seq<StepView>)
    ensures
        forall|x: int|
            0 <= x < emptied(a, mode, o).len() ==> (#[trigger] emptied(a, mode, o)[x]).len() > 0
                && exists|i: int|
                0 <= i < carried_out(steps(a, mode), o) && succeeded(
                    a[steps(a, mode)[i]],
                    #[trigger] o[i],
                ) && a[steps(a, mode)[i]].kind == ActionKind::DeleteLocal && manifest::parents(
                    a[steps(a, mode)[i]].key,
                ).contains(emptied(a, mode, o)[x]),
        forall|x: int, y: int|
            0 <= x < y < emptied(a, mode, o).len() ==> !text::starts_with_text(
                #[trigger] emptied(a, mode, o)[y],
                #[trigger] emptied(a, mode, o)[x],
            ),
{
    let order = steps(a, mode);
    let n = carried_out(order, o);
    let gone = deleted_files(a, order, o, n);
    let folders = manifest::folder_views(gone);
    let keys = plan::keys_of(folders);
    let dirs = emptied(a, mode, o);
    manifest::lemma_folder_views(gone);
    assert(dirs =~= keys.reverse());
    assert forall|x: int| 0 <= x < dirs.len() implies (#[trigger] dirs[x]).len() > 0 && exists|i: int|
        0 <= i < n && succeeded(a[order[i]], #[trigger] o[i]) && a[order[i]].kind
            == ActionKind::DeleteLocal && manifest::parents(a[order[i]].key).contains(dirs[x]) by {
        assert(keys[keys.len() - 1 - x] == dirs[x]);
        assert(keys.contains(dirs[x]));
        assert(manifest::is_ancestor(gone, dirs[x]));
        let g = choose|g: int|
            0 <= g < gone.len() && manifest::parents((#[trigger] gone[g]).key).contains(dirs[x]);
        assert(gone.contains(gone[g]));
        lemma_deleted_files(a, order, o, n, gone[g]);
        lemma_parents(gone[g].key, dirs[x]);
        let i = choose|i: int|
            0 <= i < n && succeeded(a[order[i]], #[trigger] o[i]) && a[order[i]].kind
                == ActionKind::DeleteLocal && a[order[i]].key == gone[g].key;
        assert(succeeded(a[order[i]], o[i]));
    }
    assert forall|x: int, y: int| 0 <= x < y < dirs.len() implies !text::starts_with_text(
        #[trigger] dirs[y],
        #[trigger] dirs[x],
    ) by {
        let p = keys.len() - 1 - x;
        let q = keys.len() - 1 - y;
        assert(text::before(keys[q], keys[p]));
        if text::starts_with_text(dirs[y], dirs[x]) {
            if dirs[x].len() < dirs[y].len() {
                text::lemma_prefix_before(dirs[x], dirs[y]);
                text::lemma_before_transitive(dirs[x], dirs[y], dirs[x]);
            } else {
                assert(dirs[y].take(dirs[x].len() as int) =~= dirs[y]);
            }
            text::lemma_before_irreflexive(dirs[x]);
        }
    }
}

/// Deleting is guarded: the store is asked to delete an object only right after
/// it has shown the planned one under that key, and at most once.
pub proof fn law_remote_delete_is_guarded(
    t: Seq<StoreEvent>,
    a: ActionView,
    tolerance_ms: u64,
    i: int,
)
    requires
        delete_requests(t, a, tolerance_ms),
        0 <= i < t.len(),
        t[i].mutates(),
    ensures
        i == 1,
        t[i] is Delete,
        t[i]->Delete_key == a.key,
        t[0] matches StoreEvent::Head { key, reply } && key == a.key && reply is Ok
            && !object_changed(a.remote, reply->Ok_0, tolerance_ms),
{
}

/// The place of a kind in a run.
pub open spec fn rank(kind: ActionKind) -> int {
    match kind {
        ActionKind::Download => 0,
        ActionKind::Upload => 1,
        ActionKind::DeleteRemote => 2,
        ActionKind::DeleteLocal => 3,
        _ => 4,
    }
}

/// A push and a pull carry out every download, then every upload, then every
/// remote delete, then every local delete, each kind by ascending key; nothing
/// else, and nothing twice. A status carries out nothing.
pub proof fn law_run_goes_kind_by_kind(a: Seq<ActionView>, mode: Mode)
    ensures
        ({
            let s = steps(a, mode);
            &&& mode == Mode::Status ==> s.len() == 0
            &&& forall|x: int|
                mode != Mode::Status && 0 <= x < a.len() ==> (s.contains(x) <==> (#[trigger] a[x]).kind
                    == ActionKind::Download || a[x].kind == ActionKind::Upload || a[x].kind
                    == ActionKind::DeleteRemote || a[x].kind == ActionKind::DeleteLocal)
            &&& forall|i: int| 0 <= i < s.len() ==> 0 <= #[trigger] s[i] < a.len()
            &&& forall|i: int, j: int|
                0 <= i < j < s.len() ==> {
                    ||| rank(a[#[trigger] s[i]].kind) < rank(a[#[trigger] s[j]].kind)
                    ||| rank(a[s[i]].kind) == rank(a[s[j]].kind) && s[i] < s[j]
                }
        }),
{
    let s = steps(a, mode);
    law_steps_are_exact(a, mode);
    lemma_kind_steps(a, ActionKind::Download);
    lemma_kind_steps(a, ActionKind::Upload);
    lemma_kind_steps(a, ActionKind::DeleteRemote);
    lemma_kind_steps(a, ActionKind::DeleteLocal);
    assert forall|i: int, j: int| 0 <= i < j < s.len() implies {
        ||| rank(a[#[trigger] s[i]].kind) < rank(a[#[trigger] s[j]].kind)
        ||| rank(a[s[i]].kind) == rank(a[s[j]].kind) && s[i] < s[j]
    } by {
        lemma_step_origin(a, mode, i);
        lemma_step_origin(a, mode, j);
    }
}

/// Whether a step failed: it gave an error, other than that a file to be deleted
/// was already gone.
pub open spec fn is_failure(a: ActionView, o: StepView) -> bool {
    o matches StepView::Failed(e) && !(e is NotFound && (a.kind == ActionKind::DeleteLocal || a.kind
        == ActionKind::DeleteRemote))
}

/// The report of a run starts empty, and each step adds what happened to it. A
/// failure adds its key and the text of its error, and nothing else. Any other
/// step counts as carried out; an upload adds the object that the store answered
/// with to what is to be committed, and a remote delete its key.
pub proof fn law_report_says_what_happened(
    a: Seq<ActionView>,
    order: Seq<int>,
    o: Seq<StepView>,
    n: int,
)
    requires
        0 <= n,
    ensures
        report_of(a, order, o, 0).executed == 0,
        report_of(a, order, o, 0).failed.len() == 0,
        report_of(a, order, o, 0).mutations.len() == 0,
        ({
            let r = report_of(a, order, o, n);
            let next = report_of(a, order, o, n + 1);
            let x = a[order[n]];
            &&& is_failure(x, o[n]) ==> {
                &&& next.failed == r.failed.push(
                    FailureView { key: x.key, message: o[n]->Failed_0.text() },
                )
                &&& next.executed == r.executed
                &&& next.mutations == r.mutations
            }
            &&& !is_failure(x, o[n]) ==> {
                &&& next.failed == r.failed
                &&& r.executed < u32::MAX ==> next.executed == r.executed + 1
                &&& x.kind == ActionKind::Upload && o[n] is Uploaded ==> next.mutations
                    == r.mutations.push(MutationView::Upload(o[n]->Uploaded_0))
                &&& x.kind == ActionKind::DeleteRemote && !(o[n] is Uploaded) ==> next.mutations
                    == r.mutations.push(MutationView::DeleteRemote(x.key))
                &&& x.kind == ActionKind::Download || x.kind == ActionKind::DeleteLocal
                    ==> next.mutations == r.mutations
            }
        }),
{
    reveal_with_fuel(report_of, 2);
    let r = report_of(a, order, o, n);
    if r.executed < u32::MAX {
        assert(r.executed.wrapping_add(1) == r.executed + 1);
    }
}

/// A run has a failure to report if and only if one of its steps failed.
pub proof fn law_failures_are_the_failed_steps(
    a: Seq<ActionView>,
    order: Seq<int>,
    o: Seq<StepView>,
    n: int,
)
    requires
        0 <= n,
    ensures
        report_of(a, order, o, n).failed.len() == 0 <==> forall|i: int|
            0 <= i < n ==> !is_failure(a[order[i]], #[trigger] o[i]),
    decreases n,
{
    if n > 0 {
        law_failures_are_the_failed_steps(a, order, o, n - 1);
        law_report_says_what_happened(a, order, o, n - 1);
        if forall|i: int| 0 <= i < n - 1 ==> !is_failure(a[order[i]], #[trigger] o[i]) {
            if !is_failure(a[order[n - 1]], o[n - 1]) {
                assert forall|i: int| 0 <= i < n implies !is_failure(
                    a[order[i]],
                    #[trigger] o[i],
                ) by {}
            }
        }
    }
}

/// Every folder above a file that a run deleted is looked at when it is cleaned
/// up.
pub proof fn law_clean_up_is_complete(
    a: Seq<ActionView>,
    mode: Mode,
    o: Seq<StepView>,
    i: int,
    cut: int,
)
    requires
        0 <= i < steps(a, mode).len(),
        i < o.len(),
        a[steps(a, mode)[i]].kind == ActionKind::DeleteLocal,
        !is_failure(a[steps(a, mode)[i]], o[i]),
        0 < cut <= a[steps(a, mode)[i]].key.len(),
        a[steps(a, mode)[i]].key[cut - 1] == '/',
    ensures
        emptied(a, mode, o).contains(a[steps(a, mode)[i]].key.take(cut)),
{
    let order = steps(a, mode);
    let n = carried_out(order, o);
    let key = a[order[i]].key;
    let files = deleted_files(a, order, o, n);
    let folders = manifest::folder_views(files);
    let e = EntityView { key, size: 0, mtime_ms: None, etag: None };
    lemma_file_deleted(a, order, o, n, i);
    let x = choose|x: int| 0 <= x < files.len() && files[x] == e;
    lemma_prefix_is_parent(key, cut);
    assert(manifest::parents(files[x].key).contains(key.take(cut)));
    assert(manifest::is_ancestor(files, key.take(cut)));
    manifest::lemma_folder_views(files);
    let names = plan::keys_of(folders);
    assert(names.contains(key.take(cut)));
    let y = choose|y: int| 0 <= y < names.len() && names[y] == key.take(cut);
    assert(names.reverse()[names.len() - 1 - y] == key.take(cut));
}

proof fn lemma_file_deleted(
    a: Seq<ActionView>,
    order: Seq<int>,
    o: Seq<StepView>,
    n: int,
    i: int,
)
    requires
        0 <= i < n,
        a[order[i]].kind == ActionKind::DeleteLocal,
        !is_failure(a[order[i]], o[i]),
    ensures
        deleted_files(a, order, o, n).contains(
            EntityView { key: a[order[i]].key, size: 0, mtime_ms: None, etag: None },
        ),
    decreases n,
{
    let e = EntityView { key: a[order[i]].key, size: 0, mtime_ms: None, etag: None };
    let all = deleted_files(a, order, o, n);
    let prev = deleted_files(a, order, o, n - 1);
    if i < n - 1 {
        lemma_file_deleted(a, order, o, n - 1, i);
        let x = choose|x: int| 0 <= x < prev.len() && prev[x] == e;
        assert(all[x] == e);
    } else {
        assert(all[prev.len() as int] == e);
    }
}

/// The ancestors of a key are its prefixes that end with `/`.
pub proof fn lemma_prefix_is_parent(key: Seq<char>, cut: int)
    requires
        0 < cut <= key.len(),
        key[cut - 1] == '/',
    ensures
        manifest::parents(key).contains(key.take(cut)),
    decreases key.len(),
{
    let all = manifest::parents(key);
    let d = key.drop_last();
    let init = manifest::parents(d);
    if cut == key.len() {
        assert(key.take(cut) =~= key);
        assert(all[init.len() as int] == key);
    } else {
        lemma_prefix_is_parent(d, cut);
        assert(d.take(cut) =~= key.take(cut));
        let x = choose|x: int| 0 <= x < init.len() && init[x] == key.take(cut);
        assert(all[x] == key.take(cut));
    }
}

/// Whether what was opened is the file that was listed: a regular file of the
/// listed size, whose mtime, where both are known, is within the tolerance.
pub open spec fn still_listed(l: EntityView, seen: Opened, tolerance_ms: u64) -> bool {
    &&& seen matches Opened::Node { regular, size, mtime_ms }
    &&& regular
    &&& size == l.size
    &&& l.mtime_ms is Some && mtime_ms is Some ==> l.mtime_ms->0 <= mtime_ms->0 + tolerance_ms
        && mtime_ms->0 <= l.mtime_ms->0 + tolerance_ms
}

/// A file is uploaded if and only if it is still the one that was listed, under
/// a valid file key, and its whole body was read; it is uploaded with the listed
/// mtime.
pub proof fn law_uploads_are_of_the_listed_file(
    root: Seq<char>,
    a: ActionView,
    tolerance_ms: u64,
    seen: Opened,
    body_len: nat,
)
    ensures
        ({
            let r = upload_check(root, a, tolerance_ms, seen, body_len);
            &&& r is Ok <==> a.local is Some && entity::valid_key(a.key) && a.key[a.key.len() - 1]
                != '/' && still_listed(a.local->0, seen, tolerance_ms) && body_len
                == a.local->0.size
            &&& r is Ok ==> r->Ok_0 == a.local->0.mtime_ms
        }),
{
}

/// A download may replace what is at its destination if and only if its key is a
/// valid file key and nothing is there, or the file that was listed still is.
pub proof fn law_downloads_replace_the_listed_file(
    root: Seq<char>,
    a: ActionView,
    tolerance_ms: u64,
    seen: Opened,
)
    ensures
        destination_check(root, a, tolerance_ms, seen) is Ok <==> entity::valid_key(a.key) && a.key[
        a.key.len() - 1] != '/' && (seen is Missing || (a.local is Some && still_listed(
            a.local->0,
            seen,
            tolerance_ms,
        ))),
{
}

/// A local file is deleted if and only if it is still the one that was listed,
/// under a valid file key. One that is gone is reported as not found.
pub proof fn law_local_deletes_are_of_the_listed_file(
    root: Seq<char>,
    a: ActionView,
    tolerance_ms: u64,
    seen: Opened,
)
    ensures
        local_delete_check(root, a, tolerance_ms, seen) is Ok <==> a.local is Some
            && entity::valid_key(a.key) && a.key[a.key.len() - 1] != '/' && still_listed(
            a.local->0,
            seen,
            tolerance_ms,
        ),
        a.local is Some && entity::valid_key(a.key) && a.key[a.key.len() - 1] != '/'
            && seen is Missing ==> local_delete_check(root, a, tolerance_ms, seen) == Err::<
            (),
            ErrorView,
        >(ErrorView::NotFound(a.key)),
{
}

/// A download is taken if and only if the store gave the object, in full, at the
/// planned size; it is then the body and the client mtime that the store gave.
pub proof fn law_downloads_have_the_planned_size(a: ActionView, e: StoreEvent)
    requires
        gets_planned(a, e),
        e->Get_reply matches Ok(x) ==> x.size == e->Get_body.len(),
    ensures
        downloaded(a, e) is Ok <==> e->Get_reply is Ok && !e->Get_tripped && (a.remote is Some
            ==> e->Get_body.len() == a.remote->0.size),
        downloaded(a, e) matches Ok(d) ==> d.body == e->Get_body && d.mtime_ms
            == e->Get_reply->Ok_0.mtime_ms,
        a.remote matches Some(r) ==> e->Get_cap == r.size,
        e->Get_key == a.key,
{
}

/// An object has changed since the plan if and only if its size has, or its
/// mtime, where both are known, by more than the tolerance.
pub proof fn law_changed_objects(p: EntityView, now: EntityView, tolerance_ms: u64)
    ensures
        object_changed(Some(p), now, tolerance_ms) <==> p.size != now.size || (p.mtime_ms is Some
            && now.mtime_ms is Some && (p.mtime_ms->0 > now.mtime_ms->0 + tolerance_ms
            || now.mtime_ms->0 > p.mtime_ms->0 + tolerance_ms)),
{
}

/// A remote delete succeeds if and only if the object is gone, or was the planned
/// one and the store deleted it, or had just lost it. An object that changed is
/// refused.
pub proof fn law_remote_deletes_succeed(t: Seq<StoreEvent>, a: ActionView, tolerance_ms: u64)
    requires
        delete_requests(t, a, tolerance_ms),
    ensures
        t[0] is Head,
        delete_result(t, a, tolerance_ms) is Ok <==> match t[0]->Head_reply {
            Err(e) => e is NotFound,
            Ok(now) => t.len() == 2 && (t[1]->Delete_reply is Ok
                || t[1]->Delete_reply->Err_0 is NotFound),
        },
        t[0]->Head_reply matches Ok(now) ==> a.remote matches Some(p) ==> (p.size != now.size
            ==> t.len() == 1),
{
}

/// The passes of a run: downloads, then uploads, each as many at a time as is
/// allowed, then deletes one at a time. Each action is in the pass of its kind,
/// and a status has no pass.
pub proof fn law_passes(plan: &Plan, mode: Mode, concurrency: u32, r: Vec<Pass>, i: int)
    requires
        call_ensures(execution_passes, (plan, mode, concurrency), r),
        0 <= i < plan.actions@.len(),
    ensures
        mode == Mode::Status ==> r@.len() == 0,
        mode != Mode::Status ==> {
            let kind = plan.actions@[i].kind;
            &&& r@.len() == 3
            &&& r@[0].verb@ == "Downloading"@ && r@[0].concurrency == concurrency
            &&& r@[1].verb@ == "Uploading"@ && r@[1].concurrency == concurrency
            &&& r@[2].verb@ == "Deleting"@ && r@[2].concurrency == 1
            &&& ints(r@[0].steps@).contains(i) == (kind == ActionKind::Download)
            &&& ints(r@[1].steps@).contains(i) == (kind == ActionKind::Upload)
            &&& ints(r@[2].steps@).contains(i) == (kind == ActionKind::DeleteRemote || kind
                == ActionKind::DeleteLocal)
        },
{
    let a = plan::actions(plan.actions@);
    assert(a[i].kind == plan.actions@[i].kind);
    lemma_kind_steps_hold(a, ActionKind::Download, i);
    lemma_kind_steps_hold(a, ActionKind::Upload, i);
    lemma_kind_steps_hold(a, ActionKind::DeleteRemote, i);
    lemma_kind_steps_hold(a, ActionKind::DeleteLocal, i);
    if mode != Mode::Status {
        let x = kind_steps(a, ActionKind::DeleteRemote);
        let y = kind_steps(a, ActionKind::DeleteLocal);
        assert((x + y).contains(i) == (x.contains(i) || y.contains(i))) by {
            if x.contains(i) {
                let k = choose|k: int| 0 <= k < x.len() && x[k] == i;
                assert((x + y)[k] == i);
            }
            if y.contains(i) {
                let k = choose|k: int| 0 <= k < y.len() && y[k] == i;
                assert((x + y)[x.len() + k] == i);
            }
        }
        assert(r@[0]@.steps == ints(r@[0].steps@));
        assert(r@[1]@.steps == ints(r@[1].steps@));
        assert(r@[2]@.steps == ints(r@[2].steps@));
    }
}

proof fn lemma_kind_steps_hold(a: Seq<ActionView>, kind: ActionKind, i: int)
    requires
        0 <= i,
    ensures
        kind_steps(a, kind).contains(i) == (i < a.len() && a[i].kind == kind),
    decreases a.len(),
{
    if a.len() > 0 {
        let d = a.drop_last();
        lemma_kind_steps_hold(d, kind, i);
        let init = kind_steps(d, kind);
        let all = kind_steps(a, kind);
        if init.contains(i) {
            let k = choose|k: int| 0 <= k < init.len() && init[k] == i;
            assert(all[k] == i);
        }
        if all.contains(i) && !init.contains(i) {
            let k = choose|k: int| 0 <= k < all.len() && all[k] == i;
            if k < init.len() {
                assert(init[k] == i);
            }
        }
        if i == a.len() - 1 && a.last().kind == kind {
            assert(all[init.len() as int] == i);
        }
    }
}

/// An upload puts the body at the key of the plan, with the mtime that was
/// listed, once the file was found as it was listed; otherwise it asks nothing of
/// the store and fails.
pub proof fn law_uploads_put_the_listed_file<S: ObjectStore>(
    store: &mut Session<S>,
    local: &LocalFs,
    a: &Action,
    tolerance_ms: u64,
    seen: &Opened,
    body: &[u8],
    r: Result<Entity, Error>,
)
    requires
        call_ensures(exec_upload::<S>, (store, local, a, tolerance_ms, seen, body), r),
    ensures
        ({
            let before = old(store).trace();
            let after = final(store).trace();
            ||| after == before && r is Err
            ||| {
                &&& after.len() == before.len() + 1
                &&& after.drop_last() == before
                &&& after.last() is Put
                &&& after.last()->Put_key == a.key@
                &&& after.last()->Put_body == body@
                &&& a.local is Some
                &&& after.last()->Put_mtime_ms == a.local->0.mtime_ms
                &&& a.local->0.size == body@.len()
            }
        }),
{
}

/// A download gets the key of the plan once, bounded by the size that was listed,
/// and gives out the body that came whole with the mtime of the object; a key
/// without a local path asks nothing of the store.
pub proof fn law_downloads_get_the_planned_object<S: ObjectStore>(
    store: &mut Session<S>,
    local: &LocalFs,
    a: &Action,
    r: Result<Download, Error>,
)
    requires
        call_ensures(exec_download::<S>, (store, local, a), r),
    ensures
        ({
            let before = old(store).trace();
            let after = final(store).trace();
            ||| after == before && r is Err
            ||| {
                let e = after.last();
                &&& after.len() == before.len() + 1
                &&& after.drop_last() == before
                &&& e is Get
                &&& e->Get_key == a.key@
                &&& a.remote is Some ==> e->Get_cap == a.remote->0.size
                &&& r is Ok <==> e->Get_reply is Ok && !e->Get_tripped && e->Get_body.len()
                    <= e->Get_cap && (a.remote is Some ==> e->Get_reply->Ok_0.size
                    == a.remote->0.size)
                &&& r is Ok ==> r->Ok_0.body@ == e->Get_body && r->Ok_0.mtime_ms
                    == e->Get_reply->Ok_0.mtime_ms
                &&& r is Err && e->Get_reply is Err && !e->Get_tripped && e->Get_body.len()
                    <= e->Get_cap ==> r->Err_0@ == e->Get_reply->Err_0
            }
        }),
{
    let before = old(store).trace();
    let after = final(store).trace();
    if after != before {
        assert(before.push(after.last()).drop_last() =~= before);
        assert(gets_planned(a@, after.last()));
    }
}

/// A delete looks at the object first, and deletes it only if it is as it was
/// listed.
pub proof fn law_remote_deletes_look_first<S: ObjectStore>(
    store: &mut Session<S>,
    a: &Action,
    tolerance_ms: u64,
    r: Result<(), Error>,
)
    requires
        call_ensures(exec_delete_remote::<S>, (store, a, tolerance_ms), r),
    ensures
        ({
            let t = final(store).trace().skip(old(store).trace().len() as int);
            let head = t[0]->Head_reply;
            let now = head->Ok_0;
            let listed = a.remote->0;
            let same = a.remote is None || (listed.size == now.size && (listed.mtime_ms is Some
                && now.mtime_ms is Some ==> listed.mtime_ms->0 <= now.mtime_ms->0 + tolerance_ms
                && now.mtime_ms->0 <= listed.mtime_ms->0 + tolerance_ms));
            &&& final(store).trace().take(old(store).trace().len() as int) == old(store).trace()
            &&& t.len() >= 1
            &&& t[0] is Head
            &&& t[0]->Head_key == a.key@
            &&& head is Ok && same ==> t.len() == 2 && t[1] is Delete && t[1]->Delete_key == a.key@
            &&& !(head is Ok && same) ==> t.len() == 1
            &&& head is Ok && !same ==> r is Err
            &&& head is Err ==> (r is Ok <==> head->Err_0 is NotFound)
            &&& t.len() == 2 ==> (r is Ok <==> t[1]->Delete_reply is Ok
                || t[1]->Delete_reply->Err_0 is NotFound)
        }),
{
}

} // verus!
