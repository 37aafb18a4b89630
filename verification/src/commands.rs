//! What the commands do, in terms of what they are given: the flags on the
//! command line, the walked vault and the remote inventory.

use vstd::prelude::*;
use crate::cli;
use crate::cli::{Cli, Command, Commands, DispatchCtx, DispatchView, Inputs};
use crate::config::{InventoryBootstrap, InventoryMode};
use crate::entity;
use crate::entity::{Entity, EntityView};
use crate::error::ErrorView;
use crate::exec;
use crate::ignore;
use crate::inventory;
use crate::laws;
use crate::local;
use crate::manifest;
use crate::plan;
use crate::plan::{ActionKind, ActionView, Mode, PlanOpts};
use crate::progress;
use crate::progress::{ProgressMode, ResolvedMode};
use crate::sort;
use crate::store::StoreEvent;
use crate::text;

verus! {

/// Whether a command may send local files to the store, or shows what would be
/// sent.
pub open spec fn sends(cmd: Command) -> bool {
    cmd is Push || cmd is Status
}

/// Whether a command may take files from the store, or shows what would be
/// taken.
pub open spec fn takes(cmd: Command) -> bool {
    cmd is Pull || cmd is Status
}

/// Whether a command was asked to delete what the other side does not have.
pub open spec fn deletes(cmd: Command) -> bool {
    match cmd {
        Command::Push { delete, .. } => delete,
        Command::Pull { delete, .. } => delete,
        _ => false,
    }
}

/// Whether a command was asked to let the local file win.
pub open spec fn favours_local(cmd: Command) -> bool {
    match cmd {
        Command::Push { force_local, .. } => force_local,
        Command::Pull { force_local, .. } => force_local,
        _ => false,
    }
}

/// Whether a command was asked to let the remote file win.
pub open spec fn favours_remote(cmd: Command) -> bool {
    match cmd {
        Command::Push { force_remote, .. } => force_remote,
        Command::Pull { force_remote, .. } => force_remote,
        _ => false,
    }
}

/// A key without the `/` of a folder.
pub open spec fn bare(key: Seq<char>) -> Seq<char> {
    if plan::laws::file_key(key) {
        key
    } else {
        key.drop_last()
    }
}

/// Whether no other key of a plan is in the way of key `i`: none needs a folder
/// where it stands or lies where it needs one, and none differs in case alone.
pub open spec fn unhindered(a: Seq<ActionView>, i: int) -> bool {
    forall|j: int|
        0 <= j < a.len() ==> {
            &&& !plan::laws::inside((#[trigger] a[j]).key, a[i].key)
            &&& !plan::laws::inside(a[i].key, a[j].key)
            &&& j != i ==> text::lowercase_text(bare(a[j].key)) != text::lowercase_text(
                bare(a[i].key),
            )
        }
}

/// The plan of a command that plans.
pub open spec fn plans(
    cmd: Command,
    t: Seq<StoreEvent>,
    ctx: DispatchCtx,
    inputs: Inputs,
    report: crate::PlanReportView,
) -> bool {
    &&& cmd is Status || cmd is Push || cmd is Pull
    &&& laws::outcome(cmd, t, ctx, inputs) == Some(
        Ok::<crate::PlanReportView, ErrorView>(report),
    )
}

/// The parts of a report: the ruled plan of the walked files and the screened
/// remote ones.
proof fn lemma_report(
    cmd: Command,
    t: Seq<StoreEvent>,
    ctx: DispatchCtx,
    inputs: Inputs,
    report: crate::PlanReportView,
) -> (r: (Seq<EntityView>, Seq<EntityView>, PlanOpts))
    requires
        plans(cmd, t, ctx, inputs, report),
    ensures
        cli::walked(inputs) is Ok,
        ({
            let w = cli::walked(inputs)->Ok_0;
            let mode = match cmd {
                Command::Push { .. } => Mode::Push,
                Command::Pull { .. } => Mode::Pull,
                _ => Mode::Status,
            };
            let load = inventory::load_result(
                inventory::load_part(t, ctx.inventory_mode),
                ctx.inventory_mode,
                cli::cached(inputs),
            );
            let full = plan::full_plan(r.0, r.1, mode, r.2);
            &&& load is Ok
            &&& r.0 == manifest::by_key(w.found)
            &&& r.1 == crate::planner_input(load->Ok_0.entities, ctx.ignore@)
            &&& r.2.mtime_tolerance_ms == ctx.tolerance_ms
            &&& r.2.delete == deletes(cmd)
            &&& r.2.force_local == favours_local(cmd)
            &&& r.2.force_remote == favours_remote(cmd)
            &&& plan::plan_of(full, r.0, r.1, mode, r.2)
            &&& full.len() == report.actions.len()
            &&& forall|i: int|
                0 <= i < full.len() ==> #[trigger] report.actions[i] == crate::follow_ruled(
                    crate::case_ruled(full[i], r.0, r.1),
                    mode,
                    w.report.followed_files,
                )
        }),
{
    let w = cli::walked(inputs)->Ok_0;
    let flags = cli::plan_flags(cmd, ctx.tolerance_ms)->0;
    let local = manifest::by_key(w.found);
    let load = inventory::load_result(
        inventory::load_part(t, ctx.inventory_mode),
        ctx.inventory_mode,
        cli::cached(inputs),
    );
    let remote = crate::planner_input(load->Ok_0.entities, ctx.ignore@);
    plan::laws::lemma_full_plan(local, remote, flags.mode, flags.opts);
    (local, remote, flags.opts)
}

/// A key that nothing is in the way of keeps the planner's action, unless it is a
/// followed symlink.
proof fn lemma_unhindered(
    full: Seq<ActionView>,
    a: Seq<ActionView>,
    local: Seq<EntityView>,
    remote: Seq<EntityView>,
    mode: Mode,
    opts: PlanOpts,
    i: int,
)
    requires
        plan::plan_of(full, local, remote, mode, opts),
        a.len() == full.len(),
        forall|j: int| 0 <= j < a.len() ==> (#[trigger] a[j]).key == full[j].key,
        0 <= i < a.len(),
        unhindered(a, i),
    ensures
        !plan::collides(local, remote, full[i].key),
        !plan::case_collided(local, remote, full[i].key),
        full[i] == plan::planned(local, remote, mode, opts, full[i].key),
{
    let key = full[i].key;
    plan::laws::law_one_action_per_key(full, local, remote, mode, opts);
    assert(a[i].key == key);
    if plan::collides(local, remote, key) {
        let o = choose|o: Seq<char>| #[trigger]
            plan::on_either(local, remote, o) && (plan::path_clash(key, o) || plan::path_clash(
                o,
                key,
            ));
        let j = choose|j: int| 0 <= j < full.len() && (#[trigger] full[j]).key == o;
        assert(a[j].key == o);
        plan::laws::lemma_clash_inside(key, o);
        plan::laws::lemma_clash_inside(o, key);
    }
    if plan::case_collided(local, remote, key) {
        let o = choose|o: Seq<char>| #[trigger]
            plan::on_either(local, remote, o) && o != key && plan::fold(o) == plan::fold(key);
        let j = choose|j: int| 0 <= j < full.len() && (#[trigger] full[j]).key == o;
        assert(a[j].key == o);
        assert(j != i);
    }
}

/// What is done with a file follows from the two sides and the flags of the
/// command, if no other key is in its way and it is no followed symlink of a push
/// or pull. The
/// file that is newer by more than the tolerance wins, whatever the sizes. If
/// the mtimes tell nothing, equal sizes are left alone and different ones are a
/// conflict, unless exactly one force of the command settles it. A file on one
/// side alone is transferred, or deleted if the direction is the other one and
/// the command was asked to. What the direction does not allow is left alone.
pub proof fn law_commands_do_what_their_flags_say(
    cmd: Command,
    t: Seq<StoreEvent>,
    ctx: DispatchCtx,
    inputs: Inputs,
    report: crate::PlanReportView,
    i: int,
)
    requires
        plans(cmd, t, ctx, inputs, report),
        0 <= i < report.actions.len(),
        unhindered(report.actions, i),
        plan::laws::file_key(report.actions[i].key),
        cmd is Status || !cli::walked(inputs)->Ok_0.report.followed_files.contains(
            report.actions[i].key,
        ),
    ensures
        ({
            let a = report.actions[i];
            let up = if sends(cmd) {
                ActionKind::Upload
            } else {
                ActionKind::Skip
            };
            let down = if takes(cmd) {
                ActionKind::Download
            } else {
                ActionKind::Skip
            };
            &&& a.local is Some || a.remote is Some
            &&& a.local is Some && a.remote is None ==> a.kind == if sends(cmd) {
                ActionKind::Upload
            } else if deletes(cmd) {
                ActionKind::DeleteLocal
            } else {
                ActionKind::Skip
            }
            &&& a.local is None && a.remote is Some ==> a.kind == if takes(cmd) {
                ActionKind::Download
            } else if deletes(cmd) {
                ActionKind::DeleteRemote
            } else {
                ActionKind::Skip
            }
            &&& a.local matches Some(l) ==> a.remote matches Some(r) ==> {
                let known = l.mtime_ms is Some && r.mtime_ms is Some;
                let l_newer = known && l.mtime_ms->0 > r.mtime_ms->0 + ctx.tolerance_ms;
                let r_newer = known && r.mtime_ms->0 > l.mtime_ms->0 + ctx.tolerance_ms;
                &&& l_newer ==> a.kind == up
                &&& r_newer ==> a.kind == down
                &&& !l_newer && !r_newer && l.size == r.size ==> a.kind == ActionKind::Skip
                &&& !l_newer && !r_newer && l.size != r.size ==> {
                    &&& favours_local(cmd) == favours_remote(cmd) ==> a.kind
                        == ActionKind::Conflict
                    &&& favours_local(cmd) && !favours_remote(cmd) ==> a.kind == up
                    &&& favours_remote(cmd) && !favours_local(cmd) ==> a.kind == down
                }
            }
        }),
{
    let w = cli::walked(inputs)->Ok_0;
    let (local, remote, opts) = lemma_report(cmd, t, ctx, inputs, report);
    let mode = match cmd {
        Command::Push { .. } => Mode::Push,
        Command::Pull { .. } => Mode::Pull,
        _ => Mode::Status,
    };
    let full = plan::full_plan(local, remote, mode, opts);
    let key = full[i].key;
    assert forall|j: int| 0 <= j < report.actions.len() implies (#[trigger] report.actions[j]).key
        == full[j].key by {}
    lemma_unhindered(full, report.actions, local, remote, mode, opts, i);
    plan::laws::law_one_action_per_key(full, local, remote, mode, opts);
    assert(plan::on_either(local, remote, key));
    plan::lemma_find(local, key);
    plan::lemma_find(remote, key);
}

/// A pull with `--force-remote` alone downloads every file whose size differs
/// where the mtimes tell nothing, and with `--force-local` alone downloads none
/// of them. A push with `--force-local` alone uploads them all, and with
/// `--force-remote` alone none.
pub proof fn law_forces_favour_the_named_side(
    cmd: Command,
    t: Seq<StoreEvent>,
    ctx: DispatchCtx,
    inputs: Inputs,
    report: crate::PlanReportView,
    i: int,
    l: EntityView,
    r: EntityView,
)
    requires
        plans(cmd, t, ctx, inputs, report),
        0 <= i < report.actions.len(),
        unhindered(report.actions, i),
        plan::laws::file_key(report.actions[i].key),
        !cli::walked(inputs)->Ok_0.report.followed_files.contains(report.actions[i].key),
        report.actions[i].local == Some(l),
        report.actions[i].remote == Some(r),
        l.size != r.size,
        l.mtime_ms is None || r.mtime_ms is None || (l.mtime_ms->0 <= r.mtime_ms->0
            + ctx.tolerance_ms && r.mtime_ms->0 <= l.mtime_ms->0 + ctx.tolerance_ms),
    ensures
        cmd matches Command::Pull { force_local, force_remote, .. } ==> {
            &&& force_remote && !force_local ==> report.actions[i].kind == ActionKind::Download
            &&& force_local ==> report.actions[i].kind != ActionKind::Download
        },
        cmd matches Command::Push { force_local, force_remote, .. } ==> {
            &&& force_local && !force_remote ==> report.actions[i].kind == ActionKind::Upload
            &&& force_remote ==> report.actions[i].kind != ActionKind::Upload
        },
{
    law_commands_do_what_their_flags_say(cmd, t, ctx, inputs, report, i);
}

/// What a plan says of its keys. A file that stands where another key needs a
/// folder is a conflict, and so is that other key. Otherwise a key that differs
/// from another in case alone is a conflict. Otherwise a followed symlink is left
/// alone by a push and a pull, which would transfer or delete it; a folder always
/// is.
pub proof fn law_plans_hold_back(
    cmd: Command,
    t: Seq<StoreEvent>,
    ctx: DispatchCtx,
    inputs: Inputs,
    report: crate::PlanReportView,
    i: int,
    j: int,
)
    requires
        plans(cmd, t, ctx, inputs, report),
        0 <= i < report.actions.len(),
        0 <= j < report.actions.len(),
    ensures
        ({
            let a = report.actions[i];
            let b = report.actions[j];
            &&& plan::laws::file_key(a.key) && plan::laws::inside(b.key, a.key) ==> a.kind
                == ActionKind::Conflict && b.kind == ActionKind::Conflict && a.reason
                == "path_collision"@ && b.reason == "path_collision"@
            &&& i != j && text::lowercase_text(bare(a.key)) == text::lowercase_text(bare(b.key))
                ==> a.kind == ActionKind::Conflict && (a.reason == "path_collision"@ || a.reason
                == "case_collision"@)
            &&& !(cmd is Status) && cli::walked(inputs)->Ok_0.report.followed_files.contains(a.key)
                ==> a.kind == ActionKind::Skip || a.kind == ActionKind::Conflict || a.kind
                == ActionKind::DeleteRemote
            &&& !plan::laws::file_key(a.key) ==> a.kind == ActionKind::Skip || a.kind
                == ActionKind::Conflict
        }),
{
    let (local, remote, opts) = lemma_report(cmd, t, ctx, inputs, report);
    let mode = match cmd {
        Command::Push { .. } => Mode::Push,
        Command::Pull { .. } => Mode::Pull,
        _ => Mode::Status,
    };
    let full = plan::full_plan(local, remote, mode, opts);
    let followed = cli::walked(inputs)->Ok_0.report.followed_files;
    let a = report.actions[i];
    let b = report.actions[j];
    assert(a.key == full[i].key && b.key == full[j].key);
    plan::laws::law_one_action_per_key(full, local, remote, mode, opts);
    assert(plan::on_either(local, remote, a.key) && plan::on_either(local, remote, b.key));
    if plan::laws::file_key(a.key) && plan::laws::inside(b.key, a.key) {
        plan::laws::law_file_and_folder_clash(full, local, remote, mode, opts, i, j);
    }
    if i != j && text::lowercase_text(bare(a.key)) == text::lowercase_text(bare(b.key)) {
        assert(plan::fold(a.key) == plan::fold(b.key));
        assert(full[i].key != full[j].key);
        assert(plan::case_collided(local, remote, a.key));
        assert(full[i] == plan::planned(local, remote, mode, opts, full[i].key));
        if full[i].reason == plan::reason::PATH_COLLISION@ {
            laws::lemma_path_collision_reason(full[i], local, remote, mode, opts);
        }
    }
    plan::laws::law_actions_carry_files(full, local, remote, mode, opts, i);
}

/// Every walked entity has an action with it, and an action names no local
/// entity that was not walked. (A walk names no key twice.)
pub proof fn law_every_walked_entity_is_planned(
    cmd: Command,
    t: Seq<StoreEvent>,
    ctx: DispatchCtx,
    inputs: Inputs,
    report: crate::PlanReportView,
    e: EntityView,
)
    requires
        plans(cmd, t, ctx, inputs, report),
        forall|x: int, y: int|
            0 <= x < y < cli::walked(inputs)->Ok_0.found.len() ==> (#[trigger] cli::walked(
                inputs,
            )->Ok_0.found[x]).key != (#[trigger] cli::walked(inputs)->Ok_0.found[y]).key,
    ensures
        cli::walked(inputs)->Ok_0.found.contains(e) == exists|i: int|
            0 <= i < report.actions.len() && (#[trigger] report.actions[i]).local == Some(e),
        forall|i: int|
            0 <= i < report.actions.len() ==> ((#[trigger] report.actions[i]).local matches Some(l)
                ==> l.key == report.actions[i].key),
{
    let found = cli::walked(inputs)->Ok_0.found;
    let (local, remote, opts) = lemma_report(cmd, t, ctx, inputs, report);
    let mode = match cmd {
        Command::Push { .. } => Mode::Push,
        Command::Pull { .. } => Mode::Pull,
        _ => Mode::Status,
    };
    let full = plan::full_plan(local, remote, mode, opts);
    plan::laws::law_one_action_per_key(full, local, remote, mode, opts);
    sort::lemma_sorted_contains::<Entity>(found, e);
    assert forall|i: int| 0 <= i < report.actions.len() implies (
    (#[trigger] report.actions[i]).local matches Some(l) ==> l.key == report.actions[i].key
        && found.contains(l)) by {
        plan::laws::law_pairs_by_exact_key(full, local, remote, mode, opts, i);
        assert(full[i].local == report.actions[i].local);
        if full[i].local is Some {
            sort::lemma_sorted_contains::<Entity>(found, full[i].local->0);
        }
    }
    if found.contains(e) {
        let x = choose|x: int| 0 <= x < local.len() && local[x] == e;
        assert(local[x].key == e.key);
        assert(plan::has_key(local, e.key));
        assert(plan::on_either(local, remote, e.key));
        let i = choose|i: int| 0 <= i < full.len() && (#[trigger] full[i]).key == e.key;
        assert(full[i] == plan::planned(local, remote, mode, opts, e.key));
        plan::lemma_find(local, e.key);
        let f = plan::find(local, e.key)->0;
        sort::lemma_sorted_contains::<Entity>(found, f);
        let p = choose|p: int| 0 <= p < found.len() && found[p] == e;
        let q = choose|q: int| 0 <= q < found.len() && found[q] == f;
        assert(p == q);
        assert(report.actions[i].local == Some(e));
    }
}

/// Every remote entity of the inventory that has a key, is not reserved and not
/// ignored has an action with it, if no other has its key; and an action names no
/// other remote entity. So an ignored or reserved key has none.
pub proof fn law_every_remote_entity_is_planned(
    cmd: Command,
    t: Seq<StoreEvent>,
    ctx: DispatchCtx,
    inputs: Inputs,
    report: crate::PlanReportView,
    listed: Seq<EntityView>,
    e: EntityView,
)
    requires
        plans(cmd, t, ctx, inputs, report),
        ({
            let r = inventory::load_result(
                inventory::load_part(t, ctx.inventory_mode),
                ctx.inventory_mode,
                cli::cached(inputs),
            );
            r is Ok && listed == r->Ok_0.entities
        }),
    ensures
        plan::laws::sole(listed, e) && e.key.len() > 0 && !crate::reserved_key(e.key)
            && !ignore::ignored(ctx.ignore@, e.key) ==> exists|i: int|
            0 <= i < report.actions.len() && (#[trigger] report.actions[i]).remote == Some(e),
        forall|i: int|
            0 <= i < report.actions.len() ==> ((#[trigger] report.actions[i]).remote matches Some(r)
                ==> {
                &&& listed.contains(r)
                &&& r.key == report.actions[i].key
                &&& r.key.len() > 0
                &&& !crate::reserved_key(r.key)
                &&& !ignore::ignored(ctx.ignore@, r.key)
            }),
{
    let (local, remote, opts) = lemma_report(cmd, t, ctx, inputs, report);
    let mode = match cmd {
        Command::Push { .. } => Mode::Push,
        Command::Pull { .. } => Mode::Pull,
        _ => Mode::Status,
    };
    let full = plan::full_plan(local, remote, mode, opts);
    plan::laws::law_one_action_per_key(full, local, remote, mode, opts);
    let named = crate::select(listed, inventory::keyed());
    let kept = crate::select(named, crate::unreserved());
    assert forall|x: EntityView| #[trigger] remote.contains(x) == (listed.contains(x) && x.key.len()
        > 0 && !crate::reserved_key(x.key) && !ignore::ignored(ctx.ignore@, x.key)) by {
        laws::lemma_selected(listed, inventory::keyed(), x);
        laws::lemma_selected(named, crate::unreserved(), x);
        laws::lemma_selected(kept, crate::kept_by(ctx.ignore@), x);
    }
    assert forall|i: int| 0 <= i < report.actions.len() implies (
    (#[trigger] report.actions[i]).remote matches Some(r) ==> {
        &&& listed.contains(r)
        &&& r.key == report.actions[i].key
        &&& r.key.len() > 0
        &&& !crate::reserved_key(r.key)
        &&& !ignore::ignored(ctx.ignore@, r.key)
    }) by {
        plan::laws::law_pairs_by_exact_key(full, local, remote, mode, opts, i);
        assert(full[i].remote == report.actions[i].remote);
    }
    if plan::laws::sole(listed, e) && e.key.len() > 0 && !crate::reserved_key(e.key)
        && !ignore::ignored(ctx.ignore@, e.key) {
        assert(remote.contains(e));
        let x = choose|x: int| 0 <= x < remote.len() && remote[x] == e;
        assert(remote[x].key == e.key);
        assert(plan::has_key(remote, e.key));
        assert(plan::on_either(local, remote, e.key));
        let i = choose|i: int| 0 <= i < full.len() && (#[trigger] full[i]).key == e.key;
        assert(full[i] == plan::planned(local, remote, mode, opts, e.key));
        plan::lemma_find(remote, e.key);
        let f = plan::find(remote, e.key)->0;
        assert(listed.contains(f));
        let q = choose|q: int| 0 <= q < listed.len() && listed[q] == f;
        assert(listed[q].key == e.key);
        assert(report.actions[i].remote == Some(e));
    }
}

/// A status or dry run whose plan came about, and whose bootstrap, if one was
/// due, left a manifest in place, exits 0 if every action is a skip, and 2 if one
/// is not: an upload, a download, a delete or a conflict. (Beyond 2^32 - 1
/// actions the counters wrap around.)
pub proof fn law_exit_zero_means_nothing_to_do(
    cmd: Command,
    t: Seq<StoreEvent>,
    ctx: DispatchCtx,
    inputs: Inputs,
    report: crate::PlanReportView,
    out: Seq<char>,
    err: Seq<char>,
)
    requires
        cmd is Status || (cmd matches Command::Push { dry_run, .. } && dry_run) || (
        cmd matches Command::Pull { dry_run, .. } && dry_run),
        plans(cmd, t, ctx, inputs, report),
        report.actions.len() <= u32::MAX,
        laws::bootstraps_from(cmd, ctx, report) ==> cli::secured(
            laws::bootstrapped(t, ctx, inputs, report),
        ),
    ensures
        cli::dispatched(cmd, t, ctx, inputs, out, err).dispatch == DispatchView::Exit(
            if forall|i: int|
                0 <= i < report.actions.len() ==> (#[trigger] report.actions[i]).kind
                    == ActionKind::Skip {
                0
            } else {
                2
            },
        ),
{
    laws::law_dry_runs_end(cmd, t, ctx, inputs, out, err);
    let a = report.actions;
    let (local, remote, opts) = lemma_report(cmd, t, ctx, inputs, report);
    assert(report.stats == plan::tallies(a));
    plan::laws::lemma_counters(a);
    lemma_tally_zero(a, ActionKind::Upload);
    lemma_tally_zero(a, ActionKind::Download);
    lemma_tally_zero(a, ActionKind::DeleteLocal);
    lemma_tally_zero(a, ActionKind::DeleteRemote);
    lemma_tally_zero(a, ActionKind::Conflict);
    if forall|i: int| 0 <= i < a.len() ==> (#[trigger] a[i]).kind == ActionKind::Skip {
    } else {
        let i = choose|i: int| 0 <= i < a.len() && (#[trigger] a[i]).kind != ActionKind::Skip;
        assert(!cli::clean(report.stats));
    }
}

proof fn lemma_tally_zero(a: Seq<ActionView>, kind: ActionKind)
    ensures
        plan::tally(a, kind) == 0 <==> forall|i: int|
            0 <= i < a.len() ==> (#[trigger] a[i]).kind != kind,
    decreases a.len(),
{
    if a.len() > 0 {
        let d = a.drop_last();
        lemma_tally_zero(d, kind);
        assert(a.last() == a[a.len() - 1]);
        if plan::tally(a, kind) == 0 {
            assert forall|i: int| 0 <= i < a.len() implies (#[trigger] a[i]).kind != kind by {
                if i < d.len() {
                    assert(d[i] == a[i]);
                }
            }
        }
        if forall|i: int| 0 <= i < a.len() ==> (#[trigger] a[i]).kind != kind {
            assert forall|i: int| 0 <= i < d.len() implies (#[trigger] d[i]).kind != kind by {
                assert(d[i] == a[i]);
            }
        }
    }
}

/// The counters of a plan are those of its actions.
pub proof fn law_plans_are_counted(
    cmd: Command,
    t: Seq<StoreEvent>,
    ctx: DispatchCtx,
    inputs: Inputs,
    report: crate::PlanReportView,
)
    requires
        plans(cmd, t, ctx, inputs, report),
        report.actions.len() <= u32::MAX,
    ensures
        report.stats.upload == report.actions.filter(
            |x: ActionView| x.kind == ActionKind::Upload,
        ).len(),
        report.stats.download == report.actions.filter(
            |x: ActionView| x.kind == ActionKind::Download,
        ).len(),
        report.stats.delete_local == report.actions.filter(
            |x: ActionView| x.kind == ActionKind::DeleteLocal,
        ).len(),
        report.stats.delete_remote == report.actions.filter(
            |x: ActionView| x.kind == ActionKind::DeleteRemote,
        ).len(),
        report.stats.skip == report.actions.filter(
            |x: ActionView| x.kind == ActionKind::Skip,
        ).len(),
        report.stats.conflict == report.actions.filter(
            |x: ActionView| x.kind == ActionKind::Conflict,
        ).len(),
{
    let (local, remote, opts) = lemma_report(cmd, t, ctx, inputs, report);
    assert(report.stats == plan::tallies(report.actions));
    plan::laws::law_counters_count(report.actions);
}

/// A push or pull that is no dry run goes on to the transfers of its plan, with
/// its own direction, the tolerance and the concurrency of the settings and the
/// walked vault.
pub proof fn law_transfers_are_those_planned(
    cmd: Command,
    t: Seq<StoreEvent>,
    ctx: DispatchCtx,
    inputs: Inputs,
    report: crate::PlanReportView,
    out: Seq<char>,
    err: Seq<char>,
)
    requires
        plans(cmd, t, ctx, inputs, report),
        (cmd matches Command::Push { dry_run, .. } && !dry_run) || (
        cmd matches Command::Pull { dry_run, .. } && !dry_run),
    ensures
        ({
            let d = cli::dispatched(cmd, t, ctx, inputs, out, err).dispatch;
            &&& d matches DispatchView::Transfer(p)
            &&& p.actions == report.actions
            &&& cmd is Push ==> p.mode == Mode::Push
            &&& cmd is Pull ==> p.mode == Mode::Pull
            &&& p.tolerance_ms == ctx.tolerance_ms
            &&& p.concurrency == ctx.concurrency
            &&& p.local == cli::walked(inputs)->Ok_0
            &&& p.progress == match ctx.progress_mode {
                ProgressMode::Always => ResolvedMode::Render,
                ProgressMode::Off => ResolvedMode::Quiet,
                ProgressMode::Auto => if inputs.terminal {
                    ResolvedMode::Render
                } else {
                    ResolvedMode::Quiet
                },
            }
            &&& !laws::bootstraps_from(cmd, ctx, report) ==> p.inventory_base
                == report.inventory_base
            &&& laws::bootstraps_from(cmd, ctx, report) ==> p.inventory_base
                == inventory::ensured_base(
                inventory::after_load(t, ctx.inventory_mode),
                report.inventory_base,
                inputs.now_ms,
            )
        }),
{
    reveal(cli::plan_shown);
}

/// The command that arguments name has their flags: each flag as it was given,
/// and none other. Without a command the help is shown.
pub proof fn law_arguments_become_the_command(c: Cli)
    ensures
        c.command is None ==> c.named() is Help,
        c.command matches Some(Commands::Help) ==> c.named() is Help,
        c.command matches Some(Commands::Version) ==> c.named() is Version,
        c.command matches Some(Commands::Status(a)) ==> {
            &&& c.named() matches Command::Status {
                vault,
                json,
                config,
                verbose,
                follow_symlinks,
                write_manifest,
            }
            &&& vault == c.vault && json == c.json && config == c.config && verbose == c.verbose
            &&& follow_symlinks == c.follow_symlinks && write_manifest == a.write_manifest
        },
        c.command matches Some(Commands::Push(a)) ==> {
            &&& c.named() matches Command::Push {
                vault,
                delete,
                dry_run,
                force_local,
                force_remote,
                json,
                config,
                verbose,
                follow_symlinks,
            }
            &&& vault == c.vault && json == c.json && config == c.config && verbose == c.verbose
            &&& follow_symlinks == c.follow_symlinks && delete == a.delete && dry_run == a.dry_run
            &&& force_local == a.force_local && force_remote == a.force_remote
        },
        c.command matches Some(Commands::Pull(a)) ==> {
            &&& c.named() matches Command::Pull {
                vault,
                delete,
                dry_run,
                force_local,
                force_remote,
                json,
                config,
                verbose,
                follow_symlinks,
            }
            &&& vault == c.vault && json == c.json && config == c.config && verbose == c.verbose
            &&& follow_symlinks == c.follow_symlinks && delete == a.delete && dry_run == a.dry_run
            &&& force_local == a.force_local && force_remote == a.force_remote
        },
        c.command matches Some(Commands::Check) ==> {
            &&& c.named() matches Command::Check { config, verbose, json }
            &&& config == c.config && verbose == c.verbose && json == c.json
        },
        c.command matches Some(Commands::Repair(a)) ==> {
            &&& c.named() matches Command::Repair { vault, json, config, verbose, dry_run, force }
            &&& vault == c.vault && json == c.json && config == c.config && verbose == c.verbose
            &&& dry_run == a.dry_run && force == a.force
        },
{
}

/// The vault of a command that works on one.
pub open spec fn vault_of(cmd: Command) -> Option<String> {
    match cmd {
        Command::Status { vault, .. } => Some(vault),
        Command::Push { vault, .. } => Some(vault),
        Command::Pull { vault, .. } => Some(vault),
        Command::Repair { vault, .. } => Some(vault),
        _ => None,
    }
}

/// Whether two commands differ in their vaults alone.
pub open spec fn same_but_vault(a: Command, b: Command) -> bool {
    match (a, b) {
        (
            Command::Status { json, config, verbose, follow_symlinks, write_manifest, .. },
            Command::Status {
                json: j,
                config: c,
                verbose: v,
                follow_symlinks: f,
                write_manifest: w,
                ..
            },
        ) => json == j && config == c && verbose == v && follow_symlinks == f && write_manifest == w,
        (Command::Push { .. }, Command::Push { .. }) => deletes(a) == deletes(b) && favours_local(a)
            == favours_local(b) && favours_remote(a) == favours_remote(b) && a->Push_dry_run
            == b->Push_dry_run && a->Push_json == b->Push_json && a->Push_config == b->Push_config
            && a->Push_verbose == b->Push_verbose && a->Push_follow_symlinks
            == b->Push_follow_symlinks,
        (Command::Pull { .. }, Command::Pull { .. }) => deletes(a) == deletes(b) && favours_local(a)
            == favours_local(b) && favours_remote(a) == favours_remote(b) && a->Pull_dry_run
            == b->Pull_dry_run && a->Pull_json == b->Pull_json && a->Pull_config == b->Pull_config
            && a->Pull_verbose == b->Pull_verbose && a->Pull_follow_symlinks
            == b->Pull_follow_symlinks,
        (Command::Repair { .. }, Command::Repair { .. }) => a->Repair_json == b->Repair_json
            && a->Repair_config == b->Repair_config && a->Repair_verbose == b->Repair_verbose
            && a->Repair_dry_run == b->Repair_dry_run && a->Repair_force == b->Repair_force,
        _ => a == b,
    }
}

/// The configured vault root is the vault of a command if and only if the root is
/// set and the command's own vault is not; nothing else of the command changes.
pub proof fn law_configured_vault_stands_in(cmd: Command, root: String)
    ensures
        ({
            let r = cli::with_vault_root(cmd, root);
            &&& same_but_vault(cmd, r)
            &&& vault_of(r) is Some <==> vault_of(cmd) is Some
            &&& vault_of(cmd) matches Some(v) ==> vault_of(r) == Some(
                if !cli::unset_path(root@) && cli::unset_path(v@) {
                    root
                } else {
                    v
                },
            )
        }),
{
}

/// A path is unset if it is `.`, and if it is an unset path with `/` or `/.`
/// behind it. An unset path is made of `.` and `/` alone, `.` first.
pub proof fn law_unset_paths(p: Seq<char>)
    ensures
        cli::unset_path(seq!['.']),
        cli::unset_path(p) ==> cli::unset_path(p.push('/')) && cli::unset_path(
            p.push('/').push('.'),
        ),
        cli::unset_path(p) ==> p.len() > 0 && p[0] == '.' && forall|i: int|
            0 <= i < p.len() ==> #[trigger] p[i] == '.' || p[i] == '/',
{
    reveal_strlit(".");
    let dot = seq!['.'];
    assert("."@ =~= dot);
    assert(dot.drop_last() =~= Seq::<char>::empty());
    assert(text::segments(Seq::<char>::empty()) =~= seq![Seq::<char>::empty()]);
    assert(text::segments(dot)[0] =~= dot);
    if cli::unset_path(p) {
        let s = text::segments(p);
        text::lemma_segments_nonempty(p);
        let empty = Seq::<char>::empty();
        text::lemma_segments_concat(p, empty);
        text::lemma_segments_concat(p, dot);
        assert(p.push('/') + empty =~= p.push('/'));
        assert(p.push('/') + dot =~= p.push('/').push('.'));
        text::lemma_one_segment(dot);
        lemma_unset_chars(p);
    }
}

proof fn lemma_unset_chars(p: Seq<char>)
    requires
        ({
            let s = text::segments(p);
            s[0] == "."@ && forall|i: int|
                1 <= i < s.len() ==> (#[trigger] s[i]).len() == 0 || s[i] == "."@
        }),
    ensures
        p.len() > 0,
        p[0] == '.',
        forall|i: int| 0 <= i < p.len() ==> #[trigger] p[i] == '.' || p[i] == '/',
{
    reveal_strlit(".");
    let s = text::segments(p);
    text::law_segments_rejoin(p);
    assert forall|i: int, j: int|
        0 <= i < s.len() && 0 <= j < s[i].len() implies #[trigger] s[i][j] == '.' by {
        if i > 0 {
            assert(s[i] == "."@);
        }
    }
    lemma_rejoined_chars(s);
}

proof fn lemma_rejoined_chars(s: Seq<Seq<char>>)
    requires
        s.len() >= 1,
        s[0].len() > 0,
        forall|i: int, j: int|
            0 <= i < s.len() && 0 <= j < s[i].len() ==> #[trigger] s[i][j] == '.',
    ensures
        text::rejoined(s).len() > 0,
        text::rejoined(s)[0] == '.',
        forall|i: int|
            0 <= i < text::rejoined(s).len() ==> #[trigger] text::rejoined(s)[i] == '.'
                || text::rejoined(s)[i] == '/',
    decreases s.len(),
{
    if s.len() == 1 {
        assert(s[0][0] == '.');
        assert forall|i: int| 0 <= i < text::rejoined(s).len() implies #[trigger] text::rejoined(
            s,
        )[i] == '.' || text::rejoined(s)[i] == '/' by {
            assert(s[0][i] == '.');
        }
    } else {
        let d = s.drop_last();
        assert forall|i: int, j: int| 0 <= i < d.len() && 0 <= j < d[i].len() implies #[trigger] d[
        i][j] == '.' by {
            assert(d[i] == s[i]);
            assert(s[i][j] == '.');
        }
        assert(d[0] == s[0]);
        lemma_rejoined_chars(d);
        let init = text::rejoined(d);
        let all = text::rejoined(s);
        assert(all == init.push('/') + s.last());
        assert forall|i: int| 0 <= i < all.len() implies #[trigger] all[i] == '.' || all[i]
            == '/' by {
            if i < init.len() {
                assert(all[i] == init[i]);
            } else if i > init.len() {
                let l = s.len() - 1;
                assert(all[i] == s[l][i - init.len() - 1]);
            }
        }
    }
}

/// A vault is walked for exactly the commands that plan, unless they ask for
/// `--json`; it is that of the command, with symlinks followed if asked.
pub proof fn law_vault_is_walked_for_plans(cmd: Command)
    ensures
        cmd is Check || cmd is Repair || cmd is Version || cmd is Help ==> cli::vault_to_walk(
            cmd,
        ) is None,
        cmd matches Command::Status { vault, json, follow_symlinks, .. } ==> cli::vault_to_walk(cmd)
            == if json {
            None
        } else {
            Some((vault@, follow_symlinks))
        },
        cmd matches Command::Push { vault, json, follow_symlinks, .. } ==> cli::vault_to_walk(cmd)
            == if json {
            None
        } else {
            Some((vault@, follow_symlinks))
        },
        cmd matches Command::Pull { vault, json, follow_symlinks, .. } ==> cli::vault_to_walk(cmd)
            == if json {
            None
        } else {
            Some((vault@, follow_symlinks))
        },
{
}

/// The config of a command is the one it was given.
pub proof fn law_config_is_the_given_one(cmd: Command)
    ensures
        cmd matches Command::Status { config, .. } ==> cli::config_path(cmd) == text::opt_text(
            config,
        ),
        cmd matches Command::Push { config, .. } ==> cli::config_path(cmd) == text::opt_text(
            config,
        ),
        cmd matches Command::Pull { config, .. } ==> cli::config_path(cmd) == text::opt_text(
            config,
        ),
        cmd matches Command::Check { config, .. } ==> cli::config_path(cmd) == text::opt_text(
            config,
        ),
        cmd matches Command::Repair { config, .. } ==> cli::config_path(cmd) == text::opt_text(
            config,
        ),
        cmd is Version || cmd is Help ==> cli::config_path(cmd) is None,
{
}

/// Without a bucket, every command that would touch a store is refused with exit
/// code 1 and a message that names it; a status, a version and the help are not.
/// With a bucket and valid ignore patterns nothing is refused.
pub proof fn law_store_commands_need_a_store(cmd: Command, s: crate::config::Settings, err: Seq<char>)
    ensures
        s.store.bucket@.len() == 0 && (cmd is Push || cmd is Pull || cmd is Check || cmd is Repair)
            ==> cli::refusal(cmd, s, err) is Some,
        s.store.bucket@.len() == 0 && cmd is Push ==> cli::refusal(cmd, s, err)->0.take(
            err.len() as int,
        ) == err,
        (s.store.bucket@.len() > 0 || cmd is Status || cmd is Version || cmd is Help) && (forall|
            i: int,
        |
            0 <= i < s.resolved_ignore_patterns@.len() ==> ignore::pattern_fault(
                (#[trigger] s.resolved_ignore_patterns@[i])@,
            ) is None) ==> cli::refusal(cmd, s, err) is None,
        (exists|i: int|
            0 <= i < s.resolved_ignore_patterns@.len() && ignore::pattern_fault(
                (#[trigger] s.resolved_ignore_patterns@[i])@,
            ) is Some) ==> cli::refusal(cmd, s, err) is Some,
{
    let patterns = text::texts(s.resolved_ignore_patterns@);
    ignore::law_patterns_are_checked_one_by_one(patterns);
    if forall|i: int|
        0 <= i < s.resolved_ignore_patterns@.len() ==> ignore::pattern_fault(
            (#[trigger] s.resolved_ignore_patterns@[i])@,
        ) is None {
        assert forall|i: int| 0 <= i < patterns.len() implies ignore::pattern_fault(
            #[trigger] patterns[i],
        ) is None by {
            assert(s.resolved_ignore_patterns@[i]@ == patterns[i]);
        }
    }
    if exists|i: int|
        0 <= i < s.resolved_ignore_patterns@.len() && ignore::pattern_fault(
            (#[trigger] s.resolved_ignore_patterns@[i])@,
        ) is Some {
        let i = choose|i: int|
            0 <= i < s.resolved_ignore_patterns@.len() && ignore::pattern_fault(
                (#[trigger] s.resolved_ignore_patterns@[i])@,
            ) is Some;
        assert(ignore::pattern_fault(patterns[i]) is Some);
    }
    if s.store.bucket@.len() == 0 && cmd is Push {
        assert(cli::refusal(cmd, s, err)->0.take(err.len() as int) =~= err);
    }
}

/// Commands that do not plan end at once. With `--json` a command fails without
/// a request. A version and the help are shown with exit code 0. A check exits 0
/// if and only if the store stood the test, and a repair if and only if it came
/// about; otherwise 1. A walk that failed is exit code 1, without a request.
pub proof fn law_other_commands_end(
    cmd: Command,
    t: Seq<StoreEvent>,
    ctx: DispatchCtx,
    inputs: Inputs,
    out: Seq<char>,
    err: Seq<char>,
)
    requires
        cli::dispatch_requests(cmd, t, ctx, inputs),
    ensures
        ({
            let shown = cli::dispatched(cmd, t, ctx, inputs, out, err);
            let json = match cmd {
                Command::Status { json, .. } => json,
                Command::Push { json, .. } => json,
                Command::Pull { json, .. } => json,
                Command::Check { json, .. } => json,
                Command::Repair { json, .. } => json,
                _ => false,
            };
            &&& json ==> t.len() == 0 && shown.dispatch == DispatchView::Exit(1) && shown.out
                == out && shown.err == err + "error: --json is not implemented (Phase 3)\n"@
            &&& cmd is Version ==> t.len() == 0 && shown.dispatch == DispatchView::Exit(0)
                && shown.out == out + "vaultsync "@ + "0.1.0"@ + "\n"@ && shown.err == err
            &&& cmd is Help ==> t.len() == 0 && shown.dispatch == DispatchView::Exit(0) && shown.out
                == out + ctx.help@ + "\n"@ && shown.err == err
            &&& cmd is Check && !json ==> shown.dispatch == DispatchView::Exit(
                if crate::check_result(t, inputs.probe_key@) is Ok {
                    0
                } else {
                    1
                },
            ) && (crate::check_result(t, inputs.probe_key@) is Ok ==> shown.out == out
                + "check: ok\n"@ && shown.err == err)
            &&& cmd matches Command::Repair { dry_run, force, .. } ==> !json ==> {
                let r = inventory::repair_result(
                    t,
                    inventory::RepairOpts { force, dry_run },
                    inputs.now_ms,
                );
                &&& shown.dispatch == DispatchView::Exit(
                    if r is Ok {
                        0
                    } else {
                        1
                    },
                )
                &&& r is Err ==> shown.out == out && shown.err == err + "error: "@
                    + r->Err_0.text() + "\n"@
                &&& shown.cache == inventory::repair_update(
                    t,
                    inventory::RepairOpts { force, dry_run },
                    inputs.now_ms,
                )
            }
            &&& (cmd is Status || cmd is Push || cmd is Pull) && !json && (
            inputs.walk is None || inputs.walk->0 is Err) ==> t.len() == 0 && shown.dispatch
                == DispatchView::Exit(1)
            &&& (cmd is Status || cmd is Push || cmd is Pull) && !json && inputs.walk is Some
                && inputs.walk->0 is Err ==> shown.out == out && shown.err == err + "error: "@
                + inputs.walk->0->Err_0@.text() + "\n"@ && shown.cache is Keep
        }),
{
}

/// A check passes if and only if the store took the probe, gave it back as it
/// was, and deleted it again.
pub proof fn law_check_tests_a_round_trip(t: Seq<StoreEvent>, key: Seq<char>)
    requires
        crate::check_requests(t, key),
    ensures
        crate::check_result(t, key) is Ok <==> {
            &&& t.len() == 3
            &&& t[0] is Put && t[1] is Get && t[2] is Delete
            &&& t[0]->Put_reply is Ok
            &&& t[1]->Get_reply is Ok
            &&& t[1]->Get_body == t[0]->Put_body
            &&& t[1]->Get_reply->Ok_0.size == t[0]->Put_body.len()
            &&& t[2]->Delete_reply is Ok
        },
        t[0] is Put,
        t[0]->Put_key == key,
        t[0]->Put_body.len() > 0,
        t.len() > 1 ==> t.len() == 3 && t[1] is Get && t[1]->Get_key == key && t[2] is Delete
            && t[2]->Delete_key == key,
{
}

/// The exit code of transfers: 1 if a step failed, else 2 if the plan holds a
/// conflict, else 0. (A file to be deleted that was already gone is no failure.)
pub proof fn law_exit_code_of_transfers(p: cli::PendingView, o: Seq<exec::StepView>)
    ensures
        ({
            let s = exec::steps(p.actions, p.mode);
            let failed = exists|i: int|
                0 <= i < s.len() && i < o.len() && exec::is_failure(
                    p.actions[s[i]],
                    #[trigger] o[i],
                );
            let conflict = exists|i: int|
                0 <= i < p.actions.len() && (#[trigger] p.actions[i]).kind == ActionKind::Conflict;
            cli::exit_code(p, o) == if failed {
                1int
            } else if conflict {
                2
            } else {
                0
            }
        }),
{
    let s = exec::steps(p.actions, p.mode);
    let n = exec::carried_out(s, o);
    exec::law_failures_are_the_failed_steps(p.actions, s, o, n);
}

/// After its transfers, a push commits what its steps changed in the store; a
/// pull commits nothing.
pub proof fn law_pushes_commit_what_they_changed(
    p: cli::PendingView,
    o: Seq<exec::StepView>,
    m: inventory::MutationView,
)
    ensures
        p.mode != Mode::Push ==> cli::committed(p, o).len() == 0,
        p.mode == Mode::Push ==> cli::committed(p, o).contains(m) == exists|i: int|
            0 <= i < exec::steps(p.actions, p.mode).len() && i < o.len() && !exec::is_failure(
                p.actions[exec::steps(p.actions, p.mode)[i]],
                #[trigger] o[i],
            ) && match m {
                inventory::MutationView::Upload(e) => p.actions[exec::steps(
                    p.actions,
                    p.mode,
                )[i]].kind == ActionKind::Upload && o[i] == exec::StepView::Uploaded(e),
                inventory::MutationView::DeleteRemote(k) => p.actions[exec::steps(
                    p.actions,
                    p.mode,
                )[i]].kind == ActionKind::DeleteRemote && p.actions[exec::steps(
                    p.actions,
                    p.mode,
                )[i]].key == k && !(o[i] is Uploaded),
            },
{
    let s = exec::steps(p.actions, p.mode);
    lemma_mutations(p.actions, s, o, exec::carried_out(s, o), m);
}

proof fn lemma_mutations(
    a: Seq<ActionView>,
    order: Seq<int>,
    o: Seq<exec::StepView>,
    n: int,
    m: inventory::MutationView,
)
    requires
        0 <= n,
    ensures
        exec::report_of(a, order, o, n).mutations.contains(m) == exists|i: int|
            0 <= i < n && !exec::is_failure(a[order[i]], #[trigger] o[i]) && match m {
                inventory::MutationView::Upload(e) => a[order[i]].kind == ActionKind::Upload && o[i]
                    == exec::StepView::Uploaded(e),
                inventory::MutationView::DeleteRemote(k) => a[order[i]].kind
                    == ActionKind::DeleteRemote && a[order[i]].key == k && !(o[i] is Uploaded),
            },
    decreases n,
{
    if n > 0 {
        let r = exec::report_of(a, order, o, n - 1).mutations;
        let next = exec::report_of(a, order, o, n).mutations;
        lemma_mutations(a, order, o, n - 1, m);
        if r.contains(m) {
            let x = choose|x: int| 0 <= x < r.len() && r[x] == m;
            assert(next[x] == m);
        }
        if next.contains(m) {
            let x = choose|x: int| 0 <= x < next.len() && next[x] == m;
            if x < r.len() {
                assert(r[x] == m);
            } else {
                assert(!exec::is_failure(a[order[n - 1]], o[n - 1]));
            }
        }
        if next.len() > r.len() {
            assert(next.contains(next[r.len() as int]));
        }
    }
}

/// The text of a plan is a summary with its counters, then a row for each action
/// in their order: its mark and its key and, for a skip and a conflict, its
/// reason. Skips are shown on request alone.
pub proof fn law_plan_text_has_a_row_per_action(
    a: Seq<ActionView>,
    x: ActionView,
    s: plan::PlanStats,
    verbose: u8,
)
    ensures
        crate::plan_text(Seq::<ActionView>::empty(), s, verbose) == "plan: "@ + text::dec(
            s.upload as nat,
        ) + " upload, "@ + text::dec(s.download as nat) + " download, "@ + text::dec(
            s.delete_local as nat,
        ) + " delete_local, "@ + text::dec(s.delete_remote as nat) + " delete_remote, "@ + text::dec(
            s.skip as nat,
        ) + " skip, "@ + text::dec(s.conflict as nat) + " conflict\n"@,
        ({
            let before = crate::plan_text(a, s, verbose);
            let after = crate::plan_text(a.push(x), s, verbose);
            match x.kind {
                ActionKind::Upload => after == before + "U  "@ + x.key + "\n"@,
                ActionKind::Download => after == before + "D  "@ + x.key + "\n"@,
                ActionKind::DeleteLocal => after == before + "DL "@ + x.key + "\n"@,
                ActionKind::DeleteRemote => after == before + "DR "@ + x.key + "\n"@,
                ActionKind::Conflict => after == before + "*  "@ + x.key + "    "@ + x.reason
                    + "\n"@,
                ActionKind::Skip => after == if verbose > 0 {
                    before + "S  "@ + x.key + "    "@ + x.reason + "\n"@
                } else {
                    before
                },
            }
        }),
{
    assert(a.push(x).drop_last() =~= a);
}

/// A planning command shows the text of its plan.
pub proof fn law_plans_are_shown(
    cmd: Command,
    t: Seq<StoreEvent>,
    ctx: DispatchCtx,
    inputs: Inputs,
    report: crate::PlanReportView,
    out: Seq<char>,
    err: Seq<char>,
)
    requires
        plans(cmd, t, ctx, inputs, report),
    ensures
        cli::dispatched(cmd, t, ctx, inputs, out, err).out == out + crate::plan_text(
            report.actions,
            report.stats,
            match cmd {
                Command::Status { verbose, .. } => verbose,
                Command::Push { verbose, .. } => verbose,
                Command::Pull { verbose, .. } => verbose,
                _ => 0,
            },
        ),
        cli::dispatched(cmd, t, ctx, inputs, out, err).err == ({
            let notes = cli::with_plan_notes(
                err,
                report,
                cli::walked(inputs)->Ok_0.report,
                match cmd {
                    Command::Status { follow_symlinks, .. } => follow_symlinks,
                    Command::Push { follow_symlinks, .. } => follow_symlinks,
                    Command::Pull { follow_symlinks, .. } => follow_symlinks,
                    _ => false,
                },
            );
            if laws::bootstraps_from(cmd, ctx, report) {
                cli::with_bootstrap(
                    notes,
                    if cmd is Push {
                        Mode::Push
                    } else {
                        Mode::Status
                    },
                    laws::bootstrapped(t, ctx, inputs, report),
                )
            } else {
                notes
            }
        }),
{
    laws::lemma_planning_dispatch(cmd, t, ctx, inputs, out, err);
    lemma_plan_shown(
        out,
        err,
        t,
        cli::walked(inputs)->Ok_0,
        cli::plan_flags(cmd, ctx.tolerance_ms)->0,
        ctx,
        cli::cached(inputs),
        inputs.now_ms,
        inputs.terminal,
    );
}

proof fn lemma_plan_shown(
    out: Seq<char>,
    err: Seq<char>,
    t: Seq<StoreEvent>,
    local: local::WalkView,
    flags: cli::PlanFlags,
    ctx: DispatchCtx,
    cache: Option<inventory::CacheView>,
    now_ms: u64,
    terminal: bool,
)
    requires
        cli::planned(t, local, flags, ctx, cache) is Ok,
    ensures
        ({
            let report = cli::planned(t, local, flags, ctx, cache)->Ok_0;
            let shown = cli::plan_shown(out, err, t, local, flags, ctx, cache, now_ms, terminal);
            let notes = cli::with_plan_notes(err, report, local.report, flags.follow_symlinks);
            &&& shown.out == out + crate::plan_text(report.actions, report.stats, flags.verbose)
            &&& shown.err == if cli::bootstraps(flags, ctx, report.inventory_base) {
                cli::with_bootstrap(
                    notes,
                    flags.mode,
                    inventory::ensure_result(
                        inventory::after_load(t, ctx.inventory_mode),
                        report.inventory_base.file_entities,
                        now_ms,
                    ),
                )
            } else {
                notes
            }
        }),
{
    reveal(cli::plan_shown);
}

/// What a plan notes: every warning on a line of its own, where the inventory
/// came from, and how much the walk passed over, each count only if there is
/// something to count.
pub proof fn law_notes_of_a_plan(
    err: Seq<char>,
    w: Seq<Seq<char>>,
    x: Seq<char>,
    base: inventory::BaseView,
    rep: local::ReportView,
)
    ensures
        cli::with_warnings(err, Seq::<Seq<char>>::empty()) == err,
        cli::with_warnings(err, w.push(x)) == cli::with_warnings(err, w) + "warning: "@ + x
            + "\n"@,
        base.source is LiveListHead ==> cli::with_inventory_line(err, base) == err
            + "inventory: list+head (cold)\n"@,
        base.source is Manifest ==> cli::with_inventory_line(err, base) == err
            + "inventory: manifest ("@ + text::dec(base.file_entities.len()) + " entries)\n"@,
        rep.warnings.len() == 0 && rep.skipped_symlinks == 0 && rep.skipped_temp_files == 0
            && rep.skipped_ignored == 0 ==> cli::with_walk_warnings(err, rep, false) == err
            && cli::with_walk_warnings(err, rep, true) == err,
        rep.warnings.len() == 0 && rep.skipped_symlinks > 0 && rep.skipped_temp_files == 0
            && rep.skipped_ignored == 0 ==> cli::with_walk_warnings(err, rep, true) == err
            && cli::with_walk_warnings(err, rep, false) == err + "warning: skipped "@ + text::dec(
            rep.skipped_symlinks as nat,
        )
            + " symlink(s); use --follow-symlinks to list them (status only; transfers skip followed symlinks in v1)\n"@,
        rep.warnings.len() == 0 && rep.skipped_symlinks == 0 && rep.skipped_temp_files > 0
            && rep.skipped_ignored == 0 ==> cli::with_walk_warnings(err, rep, true) == err
            + "warning: skipped "@ + text::dec(rep.skipped_temp_files as nat)
            + " vaultsync temp/probe file(s) (crash leftovers); remove them manually\n"@,
        rep.warnings.len() == 0 && rep.skipped_symlinks == 0 && rep.skipped_temp_files == 0
            && rep.skipped_ignored > 0 ==> cli::with_walk_warnings(err, rep, true) == err
            + "warning: ignored "@ + text::dec(rep.skipped_ignored as nat)
            + " local path(s) by ignore patterns\n"@,
{
    assert(w.push(x).drop_last() =~= w);
}

/// A bootstrap is due for a push that is no dry run, under `push-ensure`, and for
/// a status that was asked to write the manifest; for both only under the mode
/// `auto`, and only if the plan came from a listing.
pub proof fn law_bootstraps_are_due(cmd: Command, ctx: DispatchCtx, report: crate::PlanReportView)
    requires
        cmd is Status || cmd is Push || cmd is Pull,
    ensures
        laws::bootstraps_from(cmd, ctx, report) <==> {
            &&& ctx.inventory_mode == InventoryMode::Auto
            &&& report.inventory_base.source is LiveListHead
            &&& match cmd {
                Command::Push { dry_run, .. } => !dry_run && ctx.inventory_bootstrap
                    == InventoryBootstrap::PushEnsure,
                Command::Status { write_manifest, .. } => write_manifest,
                _ => false,
            }
        },
{
}

/// What is shown of transfers: the failures, each with its key and message, and
/// after them a manifest that was not committed.
pub proof fn law_failures_are_shown(
    err: Seq<char>,
    f: Seq<exec::FailureView>,
    x: exec::FailureView,
    e: ErrorView,
    o: inventory::OutcomeView,
)
    ensures
        cli::with_failures(err, Seq::<exec::FailureView>::empty()) == err,
        cli::with_failures(err, f.push(x)) == cli::with_failures(err, f) + "error: "@ + x.key
            + "\n  "@ + x.message + "\n"@,
        cli::with_commit(err, Err(e)) == err + "warning: manifest commit failed: "@ + e.text()
            + "\n"@,
        cli::with_commit(err, Ok(o)) == if o is PreconditionFailed {
            err
                + "warning: manifest not committed (lost race or changed under us); run vaultsync repair if status looks wrong\n"@
        } else {
            err
        },
        cli::with_error(err, e) == err + "error: "@ + e.text() + "\n"@,
{
    assert(f.push(x).drop_last() =~= f);
}

/// What is shown of a bootstrap: how many entries were published or adopted; or
/// why not, as a warning of a push and an error of a status.
pub proof fn law_bootstraps_are_shown(
    err: Seq<char>,
    etag: Option<Seq<char>>,
    n: usize,
    e: ErrorView,
)
    ensures
        cli::with_bootstrap(
            err,
            Mode::Push,
            Ok(inventory::OutcomeView::Written { etag, entry_count: n }),
        ) == err + "inventory: published manifest ("@ + text::dec(n as nat) + " entries)\n"@,
        cli::with_bootstrap(
            err,
            Mode::Push,
            Ok(inventory::OutcomeView::Adopted { etag, entry_count: n }),
        ) == err + "inventory: adopted manifest ("@ + text::dec(n as nat) + " entries)\n"@,
        cli::with_bootstrap(err, Mode::Push, Ok(inventory::OutcomeView::PreconditionFailed)) == err
            + "warning: "@
            + "inventory bootstrap aborted (another writer won the race); run vaultsync repair if status looks wrong\n"@,
        cli::with_bootstrap(err, Mode::Push, Err(e)) == err + "warning: "@
            + "inventory bootstrap failed: "@ + e.text() + "\n"@,
        cli::with_bootstrap(err, Mode::Status, Err(e)) == err + "error: "@
            + "inventory bootstrap failed: "@ + e.text() + "\n"@,
        cli::secured(Ok(inventory::OutcomeView::Written { etag, entry_count: n })),
        cli::secured(Ok(inventory::OutcomeView::Adopted { etag, entry_count: n })),
        !cli::secured(Ok(inventory::OutcomeView::PreconditionFailed)),
        !cli::secured(Err(e)),
{
}

/// What is shown of a repair: how many objects were listed, and how many entries
/// were written, or would be.
pub proof fn law_repairs_are_shown(out: Seq<char>, r: inventory::RepairView)
    ensures
        ({
            let head = out + "repair: listed "@ + text::dec(r.listed as nat)
                + " objects via list+head\n"@;
            &&& r.dry_run ==> cli::with_repair(out, r) == head + "repair: dry-run ("@ + text::dec(
                r.listed as nat,
            ) + " entries would be written)\n"@
            &&& !r.dry_run && r.etag is None ==> cli::with_repair(out, r) == head
                + "repair: wrote "@ + ".vaultsync/manifest/v1.json"@ + " ("@ + text::dec(
                r.listed as nat,
            ) + " entries"@ + ")\n"@
            &&& !r.dry_run && r.etag is Some ==> cli::with_repair(out, r) == head
                + "repair: wrote "@ + ".vaultsync/manifest/v1.json"@ + " ("@ + text::dec(
                r.listed as nat,
            ) + " entries"@ + " etag="@ + r.etag->0 + ")\n"@
        }),
{
}

/// A remote inventory is planned if and only if every key of it that is not
/// dropped is valid; otherwise its first invalid key is the error.
pub proof fn law_remote_keys_must_be_valid(s: Seq<EntityView>)
    ensures
        crate::first_key_error(s) is None <==> forall|i: int|
            0 <= i < s.len() ==> entity::valid_key((#[trigger] s[i]).key),
        forall|i: int|
            0 <= i < s.len() && !entity::valid_key((#[trigger] s[i]).key) && (forall|j: int|
                0 <= j < i ==> entity::valid_key((#[trigger] s[j]).key)) ==> crate::first_key_error(
                s,
            ) == Some(ErrorView::InvalidKey(entity::key_fault(s[i].key)->0)),
    decreases s.len(),
{
    if s.len() > 0 {
        let d = s.drop_last();
        law_remote_keys_must_be_valid(d);
        assert(s.last() == s[s.len() - 1]);
        assert forall|i: int| 0 <= i < d.len() implies d[i] == s[i] by {}
        if forall|i: int| 0 <= i < s.len() ==> entity::valid_key((#[trigger] s[i]).key) {
            assert forall|i: int| 0 <= i < d.len() implies entity::valid_key(
                (#[trigger] d[i]).key,
            ) by {
                assert(d[i] == s[i]);
            }
        }
        if crate::first_key_error(s) is None {
            assert forall|i: int| 0 <= i < s.len() implies entity::valid_key(
                (#[trigger] s[i]).key,
            ) by {
                if i < d.len() {
                    assert(d[i] == s[i]);
                }
            }
        }
        assert forall|i: int|
            0 <= i < s.len() && !entity::valid_key((#[trigger] s[i]).key) && (forall|j: int|
                0 <= j < i ==> entity::valid_key((#[trigger] s[j]).key)) implies
            crate::first_key_error(s) == Some(
            ErrorView::InvalidKey(entity::key_fault(s[i].key)->0),
        ) by {
            assert forall|j: int| 0 <= j < i implies entity::valid_key((#[trigger] d[j]).key) by {
                assert(d[j] == s[j]);
            }
            if i < d.len() {
                assert(!entity::valid_key(d[i].key));
            } else {
                assert(crate::first_key_error(d) is None);
            }
        }
    }
}

/// What the planner warns of: what the inventory warned of, then reserved
/// leftovers, then how many keys the ignore patterns dropped.
pub proof fn law_planner_warnings(inv: inventory::RemoteView, patterns: Seq<Seq<char>>)
    ensures
        ({
            let w = crate::planner_warnings(inv, patterns);
            let n = inv.warnings.len();
            let reserved = exists|e: EntityView| #[trigger]
                inv.entities.contains(e) && e.key.len() > 0 && crate::reserved_key(e.key);
            let ignored = exists|e: EntityView| #[trigger]
                inv.entities.contains(e) && e.key.len() > 0 && !crate::reserved_key(e.key)
                    && ignore::ignored(patterns, e.key);
            &&& w.len() == n + (if reserved {
                1int
            } else {
                0
            }) + (if ignored {
                1int
            } else {
                0
            })
            &&& w.take(n as int) == inv.warnings
        }),
{
    let named = crate::select(inv.entities, inventory::keyed());
    let leftovers = crate::select(named, crate::reserved());
    let kept = crate::select(named, crate::unreserved());
    let dropped = crate::select(kept, crate::ignored_by(patterns));
    let w = crate::planner_warnings(inv, patterns);
    assert(w.take(inv.warnings.len() as int) =~= inv.warnings);
    assert forall|e: EntityView| #[trigger] leftovers.contains(e) == (inv.entities.contains(e)
        && e.key.len() > 0 && crate::reserved_key(e.key)) by {
        laws::lemma_selected(inv.entities, inventory::keyed(), e);
        laws::lemma_selected(named, crate::reserved(), e);
    }
    assert forall|e: EntityView| #[trigger] dropped.contains(e) == (inv.entities.contains(e)
        && e.key.len() > 0 && !crate::reserved_key(e.key) && ignore::ignored(patterns, e.key)) by {
        laws::lemma_selected(inv.entities, inventory::keyed(), e);
        laws::lemma_selected(named, crate::unreserved(), e);
        laws::lemma_selected(kept, crate::ignored_by(patterns), e);
    }
    if leftovers.len() > 0 {
        assert(leftovers.contains(leftovers[0]));
    }
    if exists|e: EntityView| #[trigger]
        inv.entities.contains(e) && e.key.len() > 0 && crate::reserved_key(e.key) {
        let e = choose|e: EntityView| #[trigger]
            inv.entities.contains(e) && e.key.len() > 0 && crate::reserved_key(e.key);
        assert(leftovers.contains(e));
    }
    if dropped.len() > 0 {
        assert(dropped.contains(dropped[0]));
    }
    if exists|e: EntityView| #[trigger]
        inv.entities.contains(e) && e.key.len() > 0 && !crate::reserved_key(e.key)
            && ignore::ignored(patterns, e.key) {
        let e = choose|e: EntityView| #[trigger]
            inv.entities.contains(e) && e.key.len() > 0 && !crate::reserved_key(e.key)
                && ignore::ignored(patterns, e.key);
        assert(dropped.contains(e));
    }
}

/// The progress of transfers is shown pass by pass, downloads first, deletes
/// last, and within a pass step by step; a pass without steps shows nothing.
pub proof fn law_progress_is_shown_by_steps(
    acc: Seq<char>,
    verb: Seq<char>,
    total: nat,
    n: nat,
    a: Seq<ActionView>,
)
    ensures
        progress::frame(verb, n, total) == "\r"@ + verb + " "@ + text::dec(n) + "/"@ + text::dec(
            total,
        ) + "\u{1b}[K"@,
        progress::with_frames(acc, verb, total, 0) == acc,
        progress::with_frames(acc, verb, total, n + 1) == progress::with_frames(
            acc,
            verb,
            total,
            n,
        ) + progress::frame(verb, n + 1, total),
        progress::with_pass(acc, verb, 0) == acc,
        total > 0 ==> progress::with_pass(acc, verb, total) == progress::with_frames(
            acc,
            verb,
            total,
            total,
        ) + "\n"@,
        ({
            let down = a.filter(|x: ActionView| x.kind == ActionKind::Download).len();
            let up = a.filter(|x: ActionView| x.kind == ActionKind::Upload).len();
            let gone = a.filter(|x: ActionView| x.kind == ActionKind::DeleteRemote).len() + a.filter(
                |x: ActionView| x.kind == ActionKind::DeleteLocal,
            ).len();
            progress::with_progress(acc, a) == progress::with_pass(
                progress::with_pass(
                    progress::with_pass(acc, "Downloading"@, down),
                    "Uploading"@,
                    up,
                ),
                "Deleting"@,
                gone,
            )
        }),
{
    lemma_kind_count(a, |x: ActionView| x.kind == ActionKind::Download, ActionKind::Download);
    lemma_kind_count(a, |x: ActionView| x.kind == ActionKind::Upload, ActionKind::Upload);
    lemma_kind_count(
        a,
        |x: ActionView| x.kind == ActionKind::DeleteRemote,
        ActionKind::DeleteRemote,
    );
    lemma_kind_count(
        a,
        |x: ActionView| x.kind == ActionKind::DeleteLocal,
        ActionKind::DeleteLocal,
    );
}

proof fn lemma_kind_count(
    a: Seq<ActionView>,
    of_kind: spec_fn(ActionView) -> bool,
    kind: ActionKind,
)
    requires
        forall|x: ActionView| #[trigger] of_kind(x) == (x.kind == kind),
    ensures
        exec::kind_steps(a, kind).len() == a.filter(of_kind).len(),
    decreases a.len(),
{
    reveal(Seq::filter);
    if a.len() > 0 {
        lemma_kind_count(a.drop_last(), of_kind, kind);
    }
}

/// A plan leaves the cache as the load of the inventory says, and as the bootstrap
/// says where there is one that has anything to say.
pub proof fn law_plans_update_the_cache(
    cmd: Command,
    t: Seq<StoreEvent>,
    ctx: DispatchCtx,
    inputs: Inputs,
    report: crate::PlanReportView,
    out: Seq<char>,
    err: Seq<char>,
)
    requires
        plans(cmd, t, ctx, inputs, report),
    ensures
        ({
            let cache = cli::dispatched(cmd, t, ctx, inputs, out, err).cache;
            let load = inventory::load_update(
                inventory::load_part(t, ctx.inventory_mode),
                ctx.inventory_mode,
                cli::cached(inputs),
                inputs.now_ms,
            );
            let bootstrap = inventory::ensure_update(
                inventory::after_load(t, ctx.inventory_mode),
                report.inventory_base.file_entities,
                inputs.now_ms,
            );
            if laws::bootstraps_from(cmd, ctx, report) && !(bootstrap is Keep) {
                cache == bootstrap
            } else {
                cache == load
            }
        }),
{
    reveal(cli::plan_shown);
}

/// A plan that fails shows its error and ends with 1; nothing is transferred.
pub proof fn law_failed_plans_end(
    cmd: Command,
    t: Seq<StoreEvent>,
    ctx: DispatchCtx,
    inputs: Inputs,
    out: Seq<char>,
    err: Seq<char>,
    e: ErrorView,
)
    requires
        cmd is Status || cmd is Push || cmd is Pull,
        laws::outcome(cmd, t, ctx, inputs) == Some(Err::<crate::PlanReportView, ErrorView>(e)),
    ensures
        ({
            let shown = cli::dispatched(cmd, t, ctx, inputs, out, err);
            &&& shown.dispatch == DispatchView::Exit(1)
            &&& shown.out == out
            &&& shown.err == err + "error: "@ + e.text() + "\n"@
        }),
{
    reveal(cli::plan_shown);
}

/// A command runs with the tolerance, the concurrency, the ignore patterns and the
/// inventory of the settings; a command that is refused ends with 1.
pub proof fn law_settings_reach_the_command(
    cmd: Command,
    settings: &crate::config::Settings,
    progress_mode: ProgressMode,
    help: &str,
    err: &mut String,
    r: Result<(Command, DispatchCtx), i32>,
)
    requires
        call_ensures(cli::run_with_settings, (cmd, settings, progress_mode, help, err), r),
    ensures
        r matches Err(code) ==> code == 1,
        r matches Ok(ran) ==> {
            let ctx = ran.1;
            &&& final(err)@ == old(err)@
            &&& ctx.tolerance_ms == settings.mtime_tolerance_ms
            &&& ctx.concurrency == settings.concurrency
            &&& ctx.progress_mode == progress_mode
            &&& ctx.ignore@.len() == settings.resolved_ignore_patterns@.len()
            &&& forall|i: int|
                0 <= i < ctx.ignore@.len() ==> #[trigger] ctx.ignore@[i]
                    == settings.resolved_ignore_patterns@[i]@
            &&& ctx.inventory_mode == settings.inventory_mode
            &&& ctx.inventory_bootstrap == settings.inventory_bootstrap
            &&& ran.0 == cli::with_vault_root(cmd, settings.vault_root)
        },
        cmd is Push || cmd is Pull || cmd is Check || cmd is Repair ==> settings.store.bucket@.len()
            == 0 ==> r is Err,
{
}

/// A plan whose counters are those of its actions is clean if and only if all its
/// actions are skips.
pub proof fn law_clean_plans_skip_all(p: &plan::Plan, r: bool)
    requires
        call_ensures(cli::is_clean, (p,), r),
        p.actions@.len() <= u32::MAX,
        p.stats == plan::tallies(plan::actions(p.actions@)),
    ensures
        r <==> forall|i: int|
            0 <= i < p.actions@.len() ==> (#[trigger] p.actions@[i]).kind == ActionKind::Skip,
{
    let a = plan::actions(p.actions@);
    plan::laws::lemma_counters(a);
    lemma_tally_zero(a, ActionKind::Upload);
    lemma_tally_zero(a, ActionKind::Download);
    lemma_tally_zero(a, ActionKind::DeleteLocal);
    lemma_tally_zero(a, ActionKind::DeleteRemote);
    lemma_tally_zero(a, ActionKind::Conflict);
    assert forall|i: int| 0 <= i < a.len() implies #[trigger] a[i].kind == p.actions@[i].kind by {}
    if r {
        assert forall|i: int| 0 <= i < p.actions@.len() implies (#[trigger] p.actions@[i]).kind
            == ActionKind::Skip by {
            assert(a[i].kind == p.actions@[i].kind);
        }
    } else if forall|i: int|
        0 <= i < p.actions@.len() ==> (#[trigger] p.actions@[i]).kind == ActionKind::Skip {
        assert forall|i: int| 0 <= i < a.len() implies (#[trigger] a[i]).kind
            == ActionKind::Skip by {
            assert(a[i].kind == p.actions@[i].kind);
        }
    }
}

/// How reserved leftovers are told of: their number, and the keys of the first
/// five, with the number of the rest.
pub proof fn law_leftovers_are_named(dropped: Seq<EntityView>, n: int)
    ensures
        ({
            let head = "ignoring "@ + text::dec(dropped.len())
                + " remote object(s) under the reserved vaultsync namespace: "@;
            &&& dropped.len() <= 5 ==> crate::drops_warning(dropped) == head + crate::key_list(
                dropped,
                dropped.len() as int,
            )
            &&& dropped.len() > 5 ==> crate::drops_warning(dropped) == head + crate::key_list(
                dropped,
                5,
            ) + " and "@ + text::dec((dropped.len() - 5) as nat) + " more"@
        }),
        crate::key_list(dropped, 1) == dropped[0].key,
        n >= 1 ==> crate::key_list(dropped, n + 1) == crate::key_list(dropped, n) + ", "@
            + dropped[n].key,
        crate::ignored_warning(dropped.len()) == "ignored "@ + text::dec(dropped.len())
            + " remote key(s) by ignore patterns"@,
{
}

/// A count that is told of only if there is something to tell.
pub open spec fn note(head: Seq<char>, n: u32, tail: Seq<char>) -> Seq<char> {
    if n == 0 {
        Seq::<char>::empty()
    } else {
        head + text::dec(n as nat) + tail
    }
}

/// All that a plan tells, in this order: the warnings of the planner, where the
/// inventory came from, the warnings of the walk, and what the walk skipped.
/// Symlinks are told of only if they were not to be followed.
pub proof fn law_all_notes_are_shown(
    err: Seq<char>,
    report: crate::PlanReportView,
    rep: local::ReportView,
    follow: bool,
)
    ensures
        cli::with_plan_notes(err, report, rep, follow) == cli::with_warnings(
            cli::with_inventory_line(
                cli::with_warnings(err, report.warnings),
                report.inventory_base,
            ),
            rep.warnings,
        ) + note(
            "warning: skipped "@,
            if follow {
                0
            } else {
                rep.skipped_symlinks
            },
            " symlink(s); use --follow-symlinks to list them (status only; transfers skip followed symlinks in v1)\n"@,
        ) + note(
            "warning: skipped "@,
            rep.skipped_temp_files,
            " vaultsync temp/probe file(s) (crash leftovers); remove them manually\n"@,
        ) + note(
            "warning: ignored "@,
            rep.skipped_ignored,
            " local path(s) by ignore patterns\n"@,
        ),
{
    let shown = cli::with_warnings(
        cli::with_inventory_line(cli::with_warnings(err, report.warnings), report.inventory_base),
        rep.warnings,
    );
    let links = note(
        "warning: skipped "@,
        if follow {
            0
        } else {
            rep.skipped_symlinks
        },
        " symlink(s); use --follow-symlinks to list them (status only; transfers skip followed symlinks in v1)\n"@,
    );
    let temps = note(
        "warning: skipped "@,
        rep.skipped_temp_files,
        " vaultsync temp/probe file(s) (crash leftovers); remove them manually\n"@,
    );
    lemma_note(
        shown,
        "warning: skipped "@,
        if follow {
            0
        } else {
            rep.skipped_symlinks
        },
        " symlink(s); use --follow-symlinks to list them (status only; transfers skip followed symlinks in v1)\n"@,
    );
    lemma_note(
        shown + links,
        "warning: skipped "@,
        rep.skipped_temp_files,
        " vaultsync temp/probe file(s) (crash leftovers); remove them manually\n"@,
    );
    lemma_note(
        shown + links + temps,
        "warning: ignored "@,
        rep.skipped_ignored,
        " local path(s) by ignore patterns\n"@,
    );
}

proof fn lemma_note(err: Seq<char>, head: Seq<char>, n: u32, tail: Seq<char>)
    ensures
        cli::with_count(err, head, n, tail) == err + note(head, n, tail),
        note(head, 0, tail).len() == 0,
        err + note(head, 0, tail) == err,
{
    assert(err + Seq::<char>::empty() =~= err);
    if n > 0 {
        assert(err + head + text::dec(n as nat) + tail =~= err + (head + text::dec(n as nat)
            + tail));
    }
}

/// What transfers show when they are done: their progress, if it is rendered, then
/// the warnings, the failures and a manifest that was not committed.
pub proof fn law_finished_transfers_are_shown(
    err: Seq<char>,
    p: cli::PendingView,
    o: Seq<exec::StepView>,
    warnings: Seq<Seq<char>>,
    t: Seq<StoreEvent>,
    now_ms: u64,
)
    ensures
        ({
            let shown = if p.progress == ResolvedMode::Render {
                progress::with_progress(err, p.actions)
            } else {
                err
            };
            let failed = cli::transfer_report(p, o).failed;
            let changed = if p.mode == Mode::Push {
                cli::transfer_report(p, o).mutations
            } else {
                Seq::<inventory::MutationView>::empty()
            };
            cli::finished_err(err, p, o, warnings, t, now_ms) == cli::with_commit(
                cli::with_failures(cli::with_warnings(shown, warnings), failed),
                inventory::commit_result(t, p.inventory_base, changed, now_ms),
            )
        }),
{
}

/// What a check and a repair show: that the check passed or why it did not, and
/// what the repair did with what the listing warned of.
pub proof fn law_checks_and_repairs_are_shown(
    out: Seq<char>,
    err: Seq<char>,
    t: Seq<StoreEvent>,
    key: Seq<char>,
    opts: inventory::RepairOpts,
    now_ms: u64,
)
    ensures
        ({
            let shown = cli::check_shown(out, err, t, key);
            match crate::check_result(t, key) {
                Ok(_) => shown.out == out + "check: ok\n"@ && shown.err == err,
                Err(e) => shown.out == out && shown.err == if e is Unauthorized {
                    err + "check failed: credentials or permissions rejected\n"@
                        + "hint: check your credentials/bucket/region (expired keys, wrong region, bad bucket)\n"@
                } else {
                    err + "check failed: "@ + e.text() + "\n"@
                },
            }
        }),
        ({
            let shown = cli::repair_shown(out, err, t, opts, now_ms);
            match inventory::repair_result(t, opts, now_ms) {
                Ok(r) => shown.out == cli::with_repair(out, r) && shown.err == cli::with_warnings(
                    err,
                    r.warnings,
                ),
                Err(e) => shown.out == out && shown.err == err + "error: "@ + e.text() + "\n"@,
            }
        }),
{
}

} // verus!
