//! Plan and run the sync of a plain directory (a vault) with an object store.
//!
//! Everything here computes: the planner, the manifest codec, the ignore
//! rules, the inventory and commit protocols against a store, and the texts
//! of the command line. Reading the file system and talking to a terminal is
//! left to the program around the library.

pub mod cli;
pub mod commands;
pub mod config;
pub mod entity;
pub mod error;
pub mod exec;
pub mod ignore;
pub mod inventory;
pub mod json;
pub mod laws;
pub mod local;
pub mod manifest;
pub mod memory;
pub mod plan;
pub mod progress;
pub mod protocol;
pub mod sort;
pub mod store;
pub mod text;

pub use crate::ignore::IgnoreSet;

use vstd::prelude::*;
use crate::config::InventoryMode;
use crate::entity::{ensure_valid_key, Entity, EntityView};
use crate::error::{Error, ErrorView};
use crate::ignore::final_segment_of;
use crate::inventory::{
    drop_unnamed, load_remote_inventory, BaseView, CacheSnapshot, CacheUpdate, InventoryBase,
    RemoteInventory, RemoteView,
};
use crate::local::{chars_reserved, is_vaultsync_control_plane_key, LocalFs};
use crate::plan::{
    case_collision_keys, compute_stats, reason, Action, ActionKind, ActionView, Mode, Plan,
    PlanOpts, PlanStats,
};
use crate::store::{ObjectStore, Session, StoreEvent};
use crate::text::{cat3, chars_of, decimal, same_text, text_among};

verus! {

broadcast use crate::store::group_runs;

/// The entities that satisfy a predicate, in their order.
pub open spec fn select(s: Seq<EntityView>, p: spec_fn(EntityView) -> bool) -> Seq<EntityView>
    decreases s.len(),
{
    if s.len() == 0 {
        s
    } else if p(s.last()) {
        select(s.drop_last(), p).push(s.last())
    } else {
        select(s.drop_last(), p)
    }
}

/// Whether a remote key is reserved: in the control plane, or with a reserved
/// final segment (a trailing `/` is no part of it).
pub open spec fn reserved_key(key: Seq<char>) -> bool {
    local::control_plane(key) || local::reserved_name(ignore::final_segment(key))
}

/// The predicate "is reserved".
pub open spec fn reserved() -> spec_fn(EntityView) -> bool {
    |e: EntityView| reserved_key(e.key)
}

/// The predicate "is not reserved".
pub open spec fn unreserved() -> spec_fn(EntityView) -> bool {
    |e: EntityView| !reserved_key(e.key)
}

/// Whether a remote key is reserved.
pub fn is_reserved_key(key: &str) -> (r: bool)
    ensures
        r == reserved_key(key@),
{
    let c = chars_of(key);
    let last = final_segment_of(&c);
    is_vaultsync_control_plane_key(key) || chars_reserved(&last)
}

/// Split remote entities into `(kept, dropped)`: control-plane keys, probe
/// leftovers and temp buffers on the remote are never planned. Both lists
/// preserve the input order.
pub fn partition_reserved_remote_keys(all: Vec<Entity>) -> (r: (Vec<Entity>, Vec<Entity>))
    ensures
        entity::entities(r.0@) == select(entity::entities(all@), unreserved()),
        entity::entities(r.1@) == select(entity::entities(all@), reserved()),
{
    let ghost every = entity::entities(all@);
    let mut kept: Vec<Entity> = Vec::new();
    let mut dropped: Vec<Entity> = Vec::new();
    let mut i: usize = 0;
    assert(entity::entities(kept@) =~= every.take(0));
    while i < all.len()
        invariant
            i <= all@.len(),
            every == entity::entities(all@),
            entity::entities(kept@) == select(every.take(i as int), unreserved()),
            entity::entities(dropped@) == select(every.take(i as int), reserved()),
        decreases all@.len() - i,
    {
        let ghost part = every.take(i + 1);
        assert(part.drop_last() =~= every.take(i as int));
        assert(part.last() == all@[i as int]@);
        let ghost k = entity::entities(kept@);
        let ghost d = entity::entities(dropped@);
        if is_reserved_key(all[i].key.as_str()) {
            dropped.push(all[i].clone());
            assert(entity::entities(dropped@) =~= d.push(all@[i as int]@));
        } else {
            kept.push(all[i].clone());
            assert(entity::entities(kept@) =~= k.push(all@[i as int]@));
        }
        i = i + 1;
    }
    assert(every.take(i as int) =~= every);
    (kept, dropped)
}

/// The keys of the first `n` entities, separated by commas.
pub open spec fn key_list(s: Seq<EntityView>, n: int) -> Seq<char>
    decreases n,
{
    if n <= 0 {
        Seq::<char>::empty()
    } else if n == 1 {
        s[0].key
    } else {
        key_list(s, n - 1) + ", "@ + s[n - 1].key
    }
}

/// The warning for dropped reserved keys; at most five are named.
pub open spec fn drops_warning(dropped: Seq<EntityView>) -> Seq<char> {
    let n = dropped.len();
    let head = "ignoring "@ + text::dec(n)
        + " remote object(s) under the reserved vaultsync namespace: "@;
    if n > 5 {
        head + key_list(dropped, 5) + " and "@ + text::dec((n - 5) as nat) + " more"@
    } else {
        head + key_list(dropped, n as int)
    }
}

/// The one-line warning for a list of reserved-namespace leftovers. Names are
/// bounded (first 5 + "and N more").
pub fn reserved_drops_warning(dropped: &[Entity]) -> (r: String)
    ensures
        r@ == drops_warning(entity::entities(dropped@)),
{
    let ghost all = entity::entities(dropped@);
    let n: usize = dropped.len();
    let shown: usize = if n > 5 {
        5
    } else {
        n
    };
    let mut names = String::new();
    let mut i: usize = 0;
    while i < shown
        invariant
            i <= shown <= dropped@.len(),
            all == entity::entities(dropped@),
            names@ == key_list(all, i as int),
        decreases shown - i,
    {
        if i > 0 {
            names.append(", ");
        }
        names.append(dropped[i].key.as_str());
        assert(i == 0 ==> names@ =~= all[0].key);
        i = i + 1;
    }
    let mut out = "ignoring ".to_owned();
    out.append(decimal(n as u64).as_str());
    out.append(" remote object(s) under the reserved vaultsync namespace: ");
    out.append(names.as_str());
    if n > 5 {
        out.append(" and ");
        out.append(decimal((n - 5) as u64).as_str());
        out.append(" more");
    }
    out
}

/// The row prefix of an action kind.
pub open spec fn row_prefix(kind: ActionKind) -> Seq<char> {
    match kind {
        ActionKind::Upload => "U  "@,
        ActionKind::Download => "D  "@,
        ActionKind::DeleteLocal => "DL "@,
        ActionKind::DeleteRemote => "DR "@,
        ActionKind::Skip => "S  "@,
        ActionKind::Conflict => "*  "@,
    }
}

/// Appends the row of an action. Conflict and Skip rows carry their reason.
pub open spec fn with_row(text_so_far: Seq<char>, a: ActionView) -> Seq<char> {
    if a.kind == ActionKind::Conflict || a.kind == ActionKind::Skip {
        text_so_far + row_prefix(a.kind) + a.key + "    "@ + a.reason + "\n"@
    } else {
        text_so_far + row_prefix(a.kind) + a.key + "\n"@
    }
}

/// Appends the rows of the actions; skips show only if asked for.
pub open spec fn with_rows(text_so_far: Seq<char>, a: Seq<ActionView>, show_skips: bool) -> Seq<
    char,
>
    decreases a.len(),
{
    if a.len() == 0 {
        text_so_far
    } else {
        let init = with_rows(text_so_far, a.drop_last(), show_skips);
        if a.last().kind == ActionKind::Skip && !show_skips {
            init
        } else {
            with_row(init, a.last())
        }
    }
}

/// The summary line of a plan.
pub open spec fn summary_line(s: plan::PlanStats) -> Seq<char> {
    "plan: "@ + text::dec(s.upload as nat) + " upload, "@ + text::dec(s.download as nat)
        + " download, "@ + text::dec(s.delete_local as nat) + " delete_local, "@ + text::dec(
        s.delete_remote as nat,
    ) + " delete_remote, "@ + text::dec(s.skip as nat) + " skip, "@ + text::dec(s.conflict as nat)
        + " conflict\n"@
}

/// The human-readable text of a plan.
pub open spec fn plan_text(a: Seq<ActionView>, s: plan::PlanStats, verbosity: u8) -> Seq<char> {
    with_rows(summary_line(s), a, verbosity > 0)
}

/// Appends the row of an action.
fn push_row(out: &mut String, a: &Action)
    ensures
        final(out)@ == with_row(old(out)@, a@),
{
    let prefix = match a.kind {
        ActionKind::Upload => "U  ",
        ActionKind::Download => "D  ",
        ActionKind::DeleteLocal => "DL ",
        ActionKind::DeleteRemote => "DR ",
        ActionKind::Skip => "S  ",
        ActionKind::Conflict => "*  ",
    };
    out.append(prefix);
    out.append(a.key.as_str());
    match a.kind {
        ActionKind::Conflict | ActionKind::Skip => {
            out.append("    ");
            out.append(a.reason);
        },
        _ => {},
    }
    out.append("\n");
}

/// Format a plan as human-readable text; skips are hidden.
pub fn format_plan_human(plan: &Plan) -> (r: String)
    ensures
        r@ == plan_text(plan::actions(plan.actions@), plan.stats, 0),
{
    format_plan_human_verbose(plan, 0)
}

/// Format a plan; skip (S) rows are hidden unless `verbosity > 0`.
pub fn format_plan_human_verbose(plan: &Plan, verbosity: u8) -> (r: String)
    ensures
        r@ == plan_text(plan::actions(plan.actions@), plan.stats, verbosity),
{
    let ghost all = plan::actions(plan.actions@);
    let mut out = "plan: ".to_owned();
    out.append(decimal(plan.stats.upload as u64).as_str());
    out.append(" upload, ");
    out.append(decimal(plan.stats.download as u64).as_str());
    out.append(" download, ");
    out.append(decimal(plan.stats.delete_local as u64).as_str());
    out.append(" delete_local, ");
    out.append(decimal(plan.stats.delete_remote as u64).as_str());
    out.append(" delete_remote, ");
    out.append(decimal(plan.stats.skip as u64).as_str());
    out.append(" skip, ");
    out.append(decimal(plan.stats.conflict as u64).as_str());
    out.append(" conflict\n");
    let show_skips = verbosity > 0;
    let ghost head = summary_line(plan.stats);
    let mut i: usize = 0;
    assert(all.take(0) =~= Seq::<ActionView>::empty());
    while i < plan.actions.len()
        invariant
            i <= plan.actions@.len(),
            all == plan::actions(plan.actions@),
            out@ == with_rows(head, all.take(i as int), show_skips),
        decreases plan.actions@.len() - i,
    {
        let ghost part = all.take(i + 1);
        assert(part.drop_last() =~= all.take(i as int));
        assert(part.last() == plan.actions@[i as int]@);
        if plan.actions[i].kind != ActionKind::Skip || show_skips {
            push_row(&mut out, &plan.actions[i]);
        }
        i = i + 1;
    }
    assert(all.take(i as int) =~= all);
    out
}

/// The predicate "is ignored".
pub open spec fn ignored_by(patterns: Seq<Seq<char>>) -> spec_fn(EntityView) -> bool {
    |e: EntityView| ignore::ignored(patterns, e.key)
}

/// The predicate "is not ignored".
pub open spec fn kept_by(patterns: Seq<Seq<char>>) -> spec_fn(EntityView) -> bool {
    |e: EntityView| !ignore::ignored(patterns, e.key)
}

/// Split remote entities into those that are kept and those that the patterns
/// ignore. Both lists preserve the input order.
pub fn partition_ignored_remote_keys(all: Vec<Entity>, ignore: &IgnoreSet) -> (r: (
    Vec<Entity>,
    Vec<Entity>,
))
    ensures
        entity::entities(r.0@) == select(entity::entities(all@), kept_by(ignore@)),
        entity::entities(r.1@) == select(entity::entities(all@), ignored_by(ignore@)),
{
    let ghost every = entity::entities(all@);
    let mut kept: Vec<Entity> = Vec::new();
    let mut dropped: Vec<Entity> = Vec::new();
    let mut i: usize = 0;
    assert(entity::entities(kept@) =~= every.take(0));
    while i < all.len()
        invariant
            i <= all@.len(),
            every == entity::entities(all@),
            entity::entities(kept@) == select(every.take(i as int), kept_by(ignore@)),
            entity::entities(dropped@) == select(every.take(i as int), ignored_by(ignore@)),
        decreases all@.len() - i,
    {
        let ghost part = every.take(i + 1);
        assert(part.drop_last() =~= every.take(i as int));
        assert(part.last() == all@[i as int]@);
        let ghost k = entity::entities(kept@);
        let ghost d = entity::entities(dropped@);
        if ignore.matches(all[i].key.as_str()) {
            dropped.push(all[i].clone());
            assert(entity::entities(dropped@) =~= d.push(all@[i as int]@));
        } else {
            kept.push(all[i].clone());
            assert(entity::entities(kept@) =~= k.push(all@[i as int]@));
        }
        i = i + 1;
    }
    assert(every.take(i as int) =~= every);
    (kept, dropped)
}

/// The count-only warning for ignored remote keys.
pub open spec fn ignored_warning(n: nat) -> Seq<char> {
    "ignored "@ + text::dec(n) + " remote key(s) by ignore patterns"@
}

/// The count-only warning for ignored remote keys.
pub fn ignored_remote_drops_warning(n: usize) -> (r: String)
    ensures
        r@ == ignored_warning(n as nat),
{
    cat3("ignored ", decimal(n as u64).as_str(), " remote key(s) by ignore patterns")
}

/// The error of the first invalid key, if there is one.
pub open spec fn first_key_error(s: Seq<EntityView>) -> Option<ErrorView>
    decreases s.len(),
{
    if s.len() == 0 {
        None
    } else {
        match first_key_error(s.drop_last()) {
            Some(e) => Some(e),
            None => match entity::key_check(s.last().key) {
                Ok(_) => None,
                Err(e) => Some(e),
            },
        }
    }
}

proof fn lemma_key_error_stays(s: Seq<EntityView>, i: int)
    requires
        0 <= i <= s.len(),
        first_key_error(s.take(i)) is Some,
    ensures
        first_key_error(s) == first_key_error(s.take(i)),
    decreases s.len() - i,
{
    if i < s.len() {
        assert(s.take(i + 1).drop_last() =~= s.take(i));
        lemma_key_error_stays(s, i + 1);
    } else {
        assert(s.take(i) =~= s);
    }
}

/// Fails on the first invalid key.
fn ensure_valid_keys(v: &Vec<Entity>) -> (r: Result<(), Error>)
    ensures
        match r {
            Ok(_) => first_key_error(entity::entities(v@)) is None,
            Err(e) => first_key_error(entity::entities(v@)) == Some(e@),
        },
{
    let ghost all = entity::entities(v@);
    let mut i: usize = 0;
    while i < v.len()
        invariant
            i <= v@.len(),
            all == entity::entities(v@),
            first_key_error(all.take(i as int)) is None,
        decreases v@.len() - i,
    {
        assert(all.take(i + 1).drop_last() =~= all.take(i as int));
        assert(all.take(i + 1).last() == v@[i as int]@);
        if let Err(e) = ensure_valid_key(v[i].key.as_str()) {
            proof {
                lemma_key_error_stays(all, i + 1);
            }
            return Err(e);
        }
        i = i + 1;
    }
    assert(all.take(i as int) =~= all);
    Ok(())
}

/// A plan plus the advisory warnings surfaced while building it, and the
/// inventory base for a later manifest commit.
#[derive(Debug)]
pub struct PlanReport {
    /// The computed plan.
    pub plan: Plan,
    /// Advisory warnings about the inputs, printed by the command line.
    pub warnings: Vec<String>,
    /// Where the remote file set came from, and all of it.
    pub inventory_base: InventoryBase,
}

/// The mathematical view of a [`PlanReport`].
pub struct PlanReportView {
    pub actions: Seq<ActionView>,
    pub stats: PlanStats,
    pub warnings: Seq<Seq<char>>,
    pub inventory_base: BaseView,
}

impl View for PlanReport {
    type V = PlanReportView;

    open spec fn view(&self) -> PlanReportView {
        PlanReportView {
            actions: plan::actions(self.plan.actions@),
            stats: self.plan.stats,
            warnings: text::texts(self.warnings@),
            inventory_base: self.inventory_base@,
        }
    }
}

/// The view of a plan result.
pub open spec fn report_result(r: Result<PlanReport, Error>) -> Result<PlanReportView, ErrorView> {
    match r {
        Ok(p) => Ok(p@),
        Err(e) => Err(e@),
    }
}

/// The remote entities that are planned: those with a key that is neither
/// reserved nor ignored.
pub open spec fn planner_input(remote: Seq<EntityView>, patterns: Seq<Seq<char>>) -> Seq<
    EntityView,
> {
    select(select(select(remote, inventory::keyed()), unreserved()), kept_by(patterns))
}

/// The warnings of a plan: those of the inventory, and one for each kind of
/// dropped key.
pub open spec fn planner_warnings(inv: RemoteView, patterns: Seq<Seq<char>>) -> Seq<Seq<char>> {
    let named = select(inv.entities, inventory::keyed());
    let leftovers = select(named, reserved());
    let dropped = select(select(named, unreserved()), ignored_by(patterns));
    let w = if leftovers.len() > 0 {
        inv.warnings.push(drops_warning(leftovers))
    } else {
        inv.warnings
    };
    if dropped.len() > 0 {
        w.push(ignored_warning(dropped.len()))
    } else {
        w
    }
}

/// An action under the case-collision rule: a key that collides with another
/// in case alone is a conflict, unless a path collision was diagnosed.
pub open spec fn case_ruled(
    a: ActionView,
    local: Seq<EntityView>,
    remote: Seq<EntityView>,
) -> ActionView {
    if plan::case_collided(local, remote, a.key) && a.reason != reason::PATH_COLLISION@ {
        ActionView { kind: ActionKind::Conflict, reason: reason::CASE_COLLISION@, ..a }
    } else {
        a
    }
}

/// An action under the followed-symlink rule: a followed file symlink is
/// inventory only, so no mutating mode transfers or deletes it.
pub open spec fn follow_ruled(a: ActionView, mode: Mode, followed: Seq<Seq<char>>) -> ActionView {
    if mode != Mode::Status && (a.kind == ActionKind::Upload || a.kind == ActionKind::Download
        || a.kind == ActionKind::DeleteLocal) && followed.contains(a.key) {
        ActionView { kind: ActionKind::Skip, reason: reason::FOLLOWED_SYMLINK@, ..a }
    } else {
        a
    }
}

/// The planned actions of a walk and a remote side, under both rules.
pub open spec fn ruled_plan(
    local: Seq<EntityView>,
    followed: Seq<Seq<char>>,
    remote: Seq<EntityView>,
    mode: Mode,
    opts: PlanOpts,
) -> Seq<ActionView> {
    let full = plan::full_plan(local, remote, mode, opts);
    Seq::new(
        full.len(),
        |i: int| follow_ruled(case_ruled(full[i], local, remote), mode, followed),
    )
}

/// The plan report of a walk and a remote inventory. An invalid remote key
/// fails it.
pub open spec fn report_of(
    local: Seq<EntityView>,
    followed: Seq<Seq<char>>,
    inv: RemoteView,
    mode: Mode,
    opts: PlanOpts,
    patterns: Seq<Seq<char>>,
) -> Result<PlanReportView, ErrorView> {
    let remote = planner_input(inv.entities, patterns);
    match first_key_error(remote) {
        Some(e) => Err(e),
        None => Ok(
            PlanReportView {
                actions: ruled_plan(local, followed, remote, mode, opts),
                stats: plan::tallies(ruled_plan(local, followed, remote, mode, opts)),
                warnings: planner_warnings(inv, patterns),
                inventory_base: inv.base,
            },
        ),
    }
}

/// The actions under both rules.
fn rule(
    full: Vec<Action>,
    local: &Vec<Entity>,
    remote: &Vec<Entity>,
    mode: Mode,
    followed: &Vec<String>,
) -> (r: Vec<Action>)
    ensures
        r@.len() == full@.len(),
        forall|i: int|
            0 <= i < r@.len() ==> (#[trigger] r@[i])@ == follow_ruled(
                case_ruled(full@[i]@, entity::entities(local@), entity::entities(remote@)),
                mode,
                text::texts(followed@),
            ),
{
    let ghost l = entity::entities(local@);
    let ghost m = entity::entities(remote@);
    let ghost f = text::texts(followed@);
    let collided = case_collision_keys(local.as_slice(), remote.as_slice());
    let mut out: Vec<Action> = Vec::new();
    let mut i: usize = 0;
    while i < full.len()
        invariant
            i <= full@.len(),
            l == entity::entities(local@),
            m == entity::entities(remote@),
            f == text::texts(followed@),
            forall|k: Seq<char>| #[trigger]
                text::texts(collided@).contains(k) == plan::case_collided(l, m, k),
            out@.len() == i,
            forall|j: int|
                0 <= j < i ==> (#[trigger] out@[j])@ == follow_ruled(
                    case_ruled(full@[j]@, l, m),
                    mode,
                    f,
                ),
        decreases full@.len() - i,
    {
        let mut a = full[i].clone();
        if text_among(&collided, a.key.as_str()) && !same_text(a.reason, reason::PATH_COLLISION) {
            a.kind = ActionKind::Conflict;
            a.reason = reason::CASE_COLLISION;
        }
        assert(a@ == case_ruled(full@[i as int]@, l, m));
        if mode != Mode::Status && (a.kind == ActionKind::Upload || a.kind == ActionKind::Download
            || a.kind == ActionKind::DeleteLocal) && text_among(followed, a.key.as_str()) {
            a.kind = ActionKind::Skip;
            a.reason = reason::FOLLOWED_SYMLINK;
        }
        out.push(a);
        i = i + 1;
    }
    out
}

/// Build a plan report from a walk and a loaded remote inventory.
///
/// Remote keys are validated before planning (fail closed): an escaping or
/// control-char key from the store never becomes a planned action.
pub fn plan_inventory(
    local: &LocalFs,
    inv: RemoteInventory,
    mode: Mode,
    opts: &PlanOpts,
    ignore: &IgnoreSet,
) -> (r: Result<PlanReport, Error>)
    ensures
        report_result(r) == report_of(
            manifest::by_key(local@.found),
            local@.report.followed_files,
            inv@,
            mode,
            *opts,
            ignore@,
        ),
{
    let (local_entities, walk_report) = local.list_report();
    let RemoteInventory { entities, base, warnings: mut out } = inv;
    let ghost w0 = text::texts(out@);
    let named = drop_unnamed(&entities);
    let (unreserved_entities, leftovers) = partition_reserved_remote_keys(named);
    if leftovers.len() > 0 {
        let m = reserved_drops_warning(leftovers.as_slice());
        out.push(m);
        assert(text::texts(out@) =~= w0.push(m@));
    }
    let ghost w1 = text::texts(out@);
    let (remote, dropped) = partition_ignored_remote_keys(unreserved_entities, ignore);
    if dropped.len() > 0 {
        let m = ignored_remote_drops_warning(dropped.len());
        out.push(m);
        assert(text::texts(out@) =~= w1.push(m@));
    }
    assert(leftovers@.len() == entity::entities(leftovers@).len());
    assert(dropped@.len() == entity::entities(dropped@).len());
    if let Err(e) = ensure_valid_keys(&remote) {
        return Err(e);
    }
    let p = plan::plan(local_entities.as_slice(), remote.as_slice(), mode, opts);
    let ghost full = plan::actions(p.actions@);
    let actions = rule(p.actions, &local_entities, &remote, mode, &walk_report.followed_files);
    let stats = compute_stats(&actions);
    proof {
        let want = ruled_plan(
            entity::entities(local_entities@),
            text::texts(walk_report.followed_files@),
            entity::entities(remote@),
            mode,
            *opts,
        );
        assert(plan::actions(actions@) =~= want) by {
            assert forall|i: int| 0 <= i < want.len() implies plan::actions(actions@)[i]
                == want[i] by {
                assert(actions@[i]@ == plan::actions(actions@)[i]);
                assert(full[i] == p.actions@[i]@);
            }
        }
    }
    Ok(PlanReport { plan: Plan { actions, stats }, warnings: out, inventory_base: base })
}

/// What [`build_plan`] returns after the requests `t`.
pub open spec fn build_result(
    local: local::WalkView,
    t: Seq<StoreEvent>,
    mode: Mode,
    opts: PlanOpts,
    patterns: Seq<Seq<char>>,
    inventory_mode: InventoryMode,
    cache: Option<inventory::CacheView>,
) -> Result<PlanReportView, ErrorView> {
    match inventory::load_result(t, inventory_mode, cache) {
        Err(e) => Err(e),
        Ok(inv) => report_of(
            manifest::by_key(local.found),
            local.report.followed_files,
            inv,
            mode,
            opts,
            patterns,
        ),
    }
}

/// Build a plan from a local walk and the remote inventory. The store is only
/// read.
pub fn build_plan<S: ObjectStore>(
    local: &LocalFs,
    store: &mut Session<S>,
    mode: Mode,
    opts: &PlanOpts,
    ignore: &IgnoreSet,
    inventory_mode: InventoryMode,
    cache: Option<&CacheSnapshot>,
    now_ms: u64,
) -> (r: (Result<PlanReport, Error>, CacheUpdate))
    ensures
        store::runs(*old(store), *final(store)),
        store::extends(final(store).trace(), old(store).trace()),
        ({
            let t = store::since(final(store).trace(), old(store).trace());
            let c = inventory::opt_cache(cache);
            &&& inventory::load_requests(t, inventory_mode, c)
            &&& report_result(r.0) == build_result(
                local@,
                t,
                mode,
                *opts,
                ignore@,
                inventory_mode,
                c,
            )
            &&& r.1@ == inventory::load_update(t, inventory_mode, c, now_ms)
            &&& inventory::bodies_read_back(t)
        }),
{
    let (loaded, update) = load_remote_inventory(store, inventory_mode, cache, now_ms);
    match loaded {
        Err(e) => (Err(e), update),
        Ok(inv) => (plan_inventory(local, inv, mode, opts, ignore), update),
    }
}

/// Build a plan against a store for a walked vault (Status mode, from a live
/// listing, with nothing ignored).
pub fn status_with_store<S: ObjectStore>(
    local: &LocalFs,
    store: &mut Session<S>,
    opts: &PlanOpts,
) -> (r: Result<Plan, Error>)
    ensures
        store::runs(*old(store), *final(store)),
        store::extends(final(store).trace(), old(store).trace()),
        ({
            let t = store::since(final(store).trace(), old(store).trace());
            &&& inventory::load_requests(t, InventoryMode::ListHead, None)
            &&& match r {
                Ok(p) => {
                    let want = build_result(
                        local@,
                        t,
                        Mode::Status,
                        *opts,
                        Seq::<Seq<char>>::empty(),
                        InventoryMode::ListHead,
                        None,
                    );
                    &&& want is Ok
                    &&& plan::actions(p.actions@) == want->Ok_0.actions
                    &&& p.stats == want->Ok_0.stats
                },
                Err(e) => build_result(
                    local@,
                    t,
                    Mode::Status,
                    *opts,
                    Seq::<Seq<char>>::empty(),
                    InventoryMode::ListHead,
                    None,
                ) == Err::<PlanReportView, ErrorView>(e@),
            }
        }),
{
    let nothing = IgnoreSet::empty();
    let (built, _) = build_plan(
        local,
        store,
        Mode::Status,
        opts,
        &nothing,
        InventoryMode::ListHead,
        None,
        0,
    );
    match built {
        Ok(report) => {
            assert(report@.stats == report.plan.stats);
            Ok(report.plan)
        },
        Err(e) => Err(e),
    }
}

/// The body of a connectivity probe: `vaultsync-connectivity-probe`.
pub open spec fn probe_body() -> Seq<u8> {
    seq![
        118u8, 97u8, 117u8, 108u8, 116u8, 115u8, 121u8, 110u8, 99u8, 45u8, 99u8, 111u8, 110u8,
        110u8, 101u8, 99u8, 116u8, 105u8, 118u8, 105u8, 116u8, 121u8, 45u8, 112u8, 114u8, 111u8,
        98u8, 101u8,
    ]
}

/// The requests of a check: a put of the probe and, if it succeeded, a get and
/// a delete of it, whatever the get answered.
pub open spec fn check_requests(t: Seq<StoreEvent>, key: Seq<char>) -> bool {
    &&& t.len() > 0
    &&& t[0] matches StoreEvent::Put { key: k, body, mtime_ms, reply }
    &&& k == key && body == probe_body() && mtime_ms is None
    &&& match reply {
        Err(_) => t.len() == 1,
        Ok(_) => {
            &&& t.len() == 3
            &&& t[1] matches StoreEvent::Get { key: g, cap, .. }
            &&& g == key && cap == u64::MAX
            &&& t[2] matches StoreEvent::Delete { key: d, .. }
            &&& d == key
        },
    }
}

/// What is wrong with the probe that was read back, if anything.
pub open spec fn read_back_fault(e: StoreEvent) -> Option<ErrorView> {
    match e {
        StoreEvent::Get { reply, body, .. } => match reply {
            Err(e) => Some(e),
            Ok(ent) => if body != probe_body() || ent.size != probe_body().len() {
                Some(ErrorView::Other("check: read-back mismatch"@))
            } else {
                None
            },
        },
        _ => None,
    }
}

/// The answer to a delete request.
pub open spec fn delete_reply(e: StoreEvent) -> Result<(), ErrorView> {
    match e {
        StoreEvent::Delete { key, reply } => reply,
        _ => Ok(()),
    }
}

/// What [`check_store`] returns. A failed delete never masks the failure that
/// came before it.
pub open spec fn check_result(t: Seq<StoreEvent>, key: Seq<char>) -> Result<(), ErrorView> {
    match inventory::plain_put_reply(t[0]) {
        Err(e) => Err(e),
        Ok(_) => match (read_back_fault(t[1]), delete_reply(t[2])) {
            (None, reply) => reply,
            (Some(first), Ok(_)) => Err(first),
            (Some(first), Err(second)) => Err(
                ErrorView::Other(
                    first.text() + " (also failed to remove probe "@ + key + ": "@ + second.text()
                        + ")"@,
                ),
            ),
        },
    }
}

/// Whether two byte sequences are equal.
fn same_bytes(a: &[u8], b: &[u8]) -> (r: bool)
    ensures
        r == (a@ == b@),
{
    if a.len() != b.len() {
        return false;
    }
    let mut i: usize = 0;
    while i < a.len()
        invariant
            i <= a@.len(),
            a@.len() == b@.len(),
            forall|j: int| 0 <= j < i ==> a@[j] == b@[j],
        decreases a@.len() - i,
    {
        if a[i] != b[i] {
            return false;
        }
        i = i + 1;
    }
    assert(a@ =~= b@);
    true
}

/// Connectivity probe: write a tiny probe object under `key`, read it back,
/// delete it. Succeeds only if all three round-trip. After a successful put
/// every outcome attempts the delete, so that no probe is left behind.
pub fn check_store<S: ObjectStore>(store: &mut Session<S>, key: &str) -> (r: Result<(), Error>)
    ensures
        store::runs(*old(store), *final(store)),
        store::extends(final(store).trace(), old(store).trace()),
        ({
            let t = store::since(final(store).trace(), old(store).trace());
            &&& check_requests(t, key@)
            &&& error::unit_view(r) == check_result(t, key@)
        }),
{
    let ghost start = store.trace();
    let body: [u8; 28] = [
        118, 97, 117, 108, 116, 115, 121, 110, 99, 45, 99, 111, 110, 110, 101, 99, 116, 105, 118,
        105, 116, 121, 45, 112, 114, 111, 98, 101,
    ];
    assert(body@ =~= probe_body());
    if let Err(e) = store.put_from(key, body.as_slice(), None) {
        proof {
            assert(store::since(store.trace(), start) =~= seq![store.trace().last()]);
            assert(store.trace().take(start.len() as int) =~= start);
        }
        return Err(e);
    }
    let ghost put = store.trace().last();
    let (reply, w) = store.get_to(key, u64::MAX);
    let ghost got = store.trace().last();
    let fault = match reply {
        Err(e) => Some(e),
        Ok(ent) => {
            if !same_bytes(w.bytes().as_slice(), body.as_slice()) || ent.size != 28 {
                Some(Error::Other("check: read-back mismatch".to_owned()))
            } else {
                None
            }
        },
    };
    let removed = store.delete(key);
    proof {
        assert(store::since(store.trace(), start) =~= seq![put, got, store.trace().last()]);
        assert(store.trace().take(start.len() as int) =~= start);
    }
    match (fault, removed) {
        (None, Ok(())) => Ok(()),
        (None, Err(e)) => Err(e),
        (Some(first), Ok(())) => Err(first),
        (Some(first), Err(second)) => {
            let mut m = cat3(
                first.to_string().as_str(),
                " (also failed to remove probe ",
                key,
            );
            m.append(": ");
            m.append(second.to_string().as_str());
            m.append(")");
            Err(Error::Other(m))
        },
    }
}

/// The text of a probe key.
pub open spec fn probe_text(pid: nat, n: nat, nanos: nat) -> Seq<char> {
    ".vaultsync-check-"@ + text::dec(pid) + "-"@ + text::dec(n) + "-"@ + text::dec(nanos)
}

/// The vault-relative probe key used by `check`: made of the process id, a
/// counter and a sub-second time, so that each probe key is unique. The
/// prefix is reserved.
pub fn probe_key(pid: u64, n: u64, nanos: u64) -> (r: String)
    ensures
        r@ == probe_text(pid as nat, n as nat, nanos as nat),
{
    let mut k = ".vaultsync-check-".to_owned();
    k.append(decimal(pid).as_str());
    k.append("-");
    k.append(decimal(n).as_str());
    k.append("-");
    k.append(decimal(nanos).as_str());
    k
}

/// Library version string (mirrors the package version).
pub fn version() -> (r: &'static str)
    ensures
        r@ == "0.1.0"@,
{
    "0.1.0"
}

} // verus!
