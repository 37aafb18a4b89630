//! What holds of every plan.

use vstd::prelude::*;
use crate::entity::{Entity, EntityView};
use crate::plan;
use crate::plan::reason;
use crate::plan::{ActionKind, ActionView, Mode, PlanOpts, PlanStats};
use crate::text;

verus! {

/// Puts a key into ascending keys, unless it is there.
spec fn insert_key(keys: Seq<Seq<char>>, k: Seq<char>) -> Seq<Seq<char>>
    decreases keys.len(),
{
    if keys.len() == 0 {
        seq![k]
    } else if keys.last() == k {
        keys
    } else if text::before(keys.last(), k) {
        keys.push(k)
    } else {
        insert_key(keys.drop_last(), k).push(keys.last())
    }
}

proof fn lemma_insert_key(keys: Seq<Seq<char>>, k: Seq<char>)
    requires
        plan::ascending(keys),
    ensures
        plan::ascending(insert_key(keys, k)),
        forall|x: Seq<char>| #[trigger]
            insert_key(keys, k).contains(x) == (keys.contains(x) || x == k),
    decreases keys.len(),
{
    let r = insert_key(keys, k);
    if keys.len() == 0 {
        assert(r[0] == k);
    } else {
        let d = keys.drop_last();
        let l = keys.last();
        assert forall|i: int, j: int| 0 <= i < j < d.len() implies text::before(
            #[trigger] d[i],
            #[trigger] d[j],
        ) by {
            assert(d[i] == keys[i] && d[j] == keys[j]);
        }
        text::lemma_before_total(l, k);
        if l == k {
            assert(keys[keys.len() - 1] == k);
        } else if text::before(l, k) {
            assert forall|i: int, j: int| 0 <= i < j < r.len() implies text::before(
                #[trigger] r[i],
                #[trigger] r[j],
            ) by {
                if j == keys.len() && i < keys.len() - 1 {
                    assert(text::before(keys[i], keys[keys.len() - 1]));
                    text::lemma_before_transitive(keys[i], l, k);
                }
            }
            assert forall|x: Seq<char>| #[trigger] r.contains(x) == (keys.contains(x) || x == k) by {
                if keys.contains(x) {
                    let i = choose|i: int| 0 <= i < keys.len() && keys[i] == x;
                    assert(r[i] == x);
                }
                if x == k {
                    assert(r[keys.len() as int] == x);
                }
            }
        } else {
            lemma_insert_key(d, k);
            let p = insert_key(d, k);
            assert forall|i: int, j: int| 0 <= i < j < r.len() implies text::before(
                #[trigger] r[i],
                #[trigger] r[j],
            ) by {
                assert(r[i] == p[i]);
                if j < p.len() {
                    assert(r[j] == p[j]);
                } else {
                    assert(p.contains(p[i]));
                    if d.contains(p[i]) {
                        let x = choose|x: int| 0 <= x < d.len() && d[x] == p[i];
                        assert(text::before(keys[x], keys[keys.len() - 1]));
                    }
                }
            }
            assert forall|x: Seq<char>| #[trigger] r.contains(x) == (keys.contains(x) || x == k) by {
                assert(p.contains(x) == (d.contains(x) || x == k));
                if r.contains(x) {
                    let i = choose|i: int| 0 <= i < r.len() && r[i] == x;
                    if i < p.len() {
                        assert(p[i] == x);
                        if d.contains(x) {
                            let y = choose|y: int| 0 <= y < d.len() && d[y] == x;
                            assert(keys[y] == x);
                        }
                    } else {
                        assert(keys[keys.len() - 1] == x);
                    }
                }
                if p.contains(x) {
                    let i = choose|i: int| 0 <= i < p.len() && p[i] == x;
                    assert(r[i] == x);
                }
                if keys.contains(x) {
                    let y = choose|y: int| 0 <= y < keys.len() && keys[y] == x;
                    if y < d.len() {
                        assert(d[y] == x);
                    } else {
                        assert(r[p.len() as int] == x);
                    }
                }
            }
        }
    }
}

/// Keys can always be put in order: there are ascending keys with the same
/// elements.
pub proof fn lemma_ascending_exists(keys: Seq<Seq<char>>) -> (r: Seq<Seq<char>>)
    ensures
        plan::ascending(r),
        forall|x: Seq<char>| #[trigger] r.contains(x) == keys.contains(x),
    decreases keys.len(),
{
    if keys.len() == 0 {
        keys
    } else {
        let d = keys.drop_last();
        let init = lemma_ascending_exists(d);
        lemma_insert_key(init, keys.last());
        let r = insert_key(init, keys.last());
        assert forall|x: Seq<char>| #[trigger] r.contains(x) == keys.contains(x) by {
            assert(init.contains(x) == d.contains(x));
            if d.contains(x) {
                let i = choose|i: int| 0 <= i < d.len() && d[i] == x;
                assert(keys[i] == x);
            }
            if keys.contains(x) {
                let i = choose|i: int| 0 <= i < keys.len() && keys[i] == x;
                if i < d.len() {
                    assert(d[i] == x);
                }
            }
            if x == keys.last() {
                assert(keys[keys.len() - 1] == x);
            }
        }
        r
    }
}

/// Any two sides have a plan.
pub proof fn lemma_full_plan(
    local: Seq<EntityView>,
    remote: Seq<EntityView>,
    mode: Mode,
    opts: PlanOpts,
)
    ensures
        plan::plan_of(
            plan::full_plan(local, remote, mode, opts),
            local,
            remote,
            mode,
            opts,
        ),
{
    let both = plan::keys_of(local) + plan::keys_of(remote);
    let keys = lemma_ascending_exists(both);
    let a = Seq::new(keys.len(), |i: int| plan::planned(local, remote, mode, opts, keys[i]));
    assert(plan::action_keys(a) =~= keys);
    assert forall|k: Seq<char>| #[trigger] plan::action_keys(a).contains(k) == plan::on_either(
        local,
        remote,
        k,
    ) by {
        assert(keys.contains(k) == both.contains(k));
        if both.contains(k) {
            let i = choose|i: int| 0 <= i < both.len() && both[i] == k;
            if i < local.len() {
                assert(local[i].key == k);
            } else {
                assert(remote[i - local.len()].key == k);
            }
        }
        if plan::has_key(local, k) {
            let i = choose|i: int| 0 <= i < local.len() && (#[trigger] local[i]).key == k;
            assert(both[i] == k);
        }
        if plan::has_key(remote, k) {
            let i = choose|i: int| 0 <= i < remote.len() && (#[trigger] remote[i]).key == k;
            assert(both[local.len() + i] == k);
        }
    }
    assert(plan::plan_of(a, local, remote, mode, opts));
}

/// Each key of either side has exactly one action, and no other key has one.
/// The actions ascend by key.
pub proof fn law_one_action_per_key(
    a: Seq<ActionView>,
    local: Seq<EntityView>,
    remote: Seq<EntityView>,
    mode: Mode,
    opts: PlanOpts,
)
    requires
        plan::plan_of(a, local, remote, mode, opts),
    ensures
        forall|i: int, j: int|
            0 <= i < j < a.len() ==> text::before((#[trigger] a[i]).key, (#[trigger] a[j]).key),
        forall|i: int, j: int|
            0 <= i < a.len() && 0 <= j < a.len() && (#[trigger] a[i]).key == (#[trigger] a[j]).key
                ==> i == j,
        forall|i: int| 0 <= i < a.len() ==> plan::on_either(local, remote, (#[trigger] a[i]).key),
        forall|k: Seq<char>| #[trigger]
            plan::on_either(local, remote, k) ==> exists|i: int|
                0 <= i < a.len() && (#[trigger] a[i]).key == k,
{
    let keys = plan::action_keys(a);
    assert forall|i: int, j: int| 0 <= i < j < a.len() implies text::before(
        (#[trigger] a[i]).key,
        (#[trigger] a[j]).key,
    ) by {
        assert(text::before(keys[i], keys[j]));
    }
    assert forall|i: int, j: int|
        0 <= i < a.len() && 0 <= j < a.len() && (#[trigger] a[i]).key == (
        #[trigger] a[j]).key implies i == j by {
        text::lemma_before_irreflexive(a[i].key);
        if i < j {
            assert(text::before(keys[i], keys[j]));
        } else if j < i {
            assert(text::before(keys[j], keys[i]));
        }
    }
    assert forall|i: int| 0 <= i < a.len() implies plan::on_either(
        local,
        remote,
        (#[trigger] a[i]).key,
    ) by {
        assert(keys[i] == a[i].key);
        assert(keys.contains(a[i].key));
    }
    assert forall|k: Seq<char>| #[trigger] plan::on_either(local, remote, k) implies exists|i: int|
        0 <= i < a.len() && (#[trigger] a[i]).key == k by {
        assert(keys.contains(k));
        let i = choose|i: int| 0 <= i < keys.len() && keys[i] == k;
        assert(a[i].key == k);
    }
}

/// A push plans no download and no local delete; a pull plans no upload and no
/// remote delete; a status plans no delete.
pub proof fn law_direction(
    a: Seq<ActionView>,
    local: Seq<EntityView>,
    remote: Seq<EntityView>,
    mode: Mode,
    opts: PlanOpts,
    i: int,
)
    requires
        plan::plan_of(a, local, remote, mode, opts),
        0 <= i < a.len(),
    ensures
        mode == Mode::Push ==> a[i].kind != ActionKind::Download && a[i].kind
            != ActionKind::DeleteLocal,
        mode == Mode::Pull ==> a[i].kind != ActionKind::Upload && a[i].kind
            != ActionKind::DeleteRemote,
        mode == Mode::Status ==> a[i].kind != ActionKind::DeleteLocal && a[i].kind
            != ActionKind::DeleteRemote,
{
    assert(a[i] == plan::planned(local, remote, mode, opts, a[i].key));
}

/// A delete is planned only when it was asked for, and only of a file that the
/// other side does not have.
pub proof fn law_deletes_are_asked_for(
    a: Seq<ActionView>,
    local: Seq<EntityView>,
    remote: Seq<EntityView>,
    mode: Mode,
    opts: PlanOpts,
    i: int,
)
    requires
        plan::plan_of(a, local, remote, mode, opts),
        0 <= i < a.len(),
    ensures
        a[i].kind == ActionKind::DeleteLocal ==> opts.delete && mode == Mode::Pull && !plan::has_key(
            remote,
            a[i].key,
        ) && plan::has_key(local, a[i].key),
        a[i].kind == ActionKind::DeleteRemote ==> opts.delete && mode == Mode::Push
            && !plan::has_key(local, a[i].key) && plan::has_key(remote, a[i].key),
{
    assert(a[i] == plan::planned(local, remote, mode, opts, a[i].key));
    plan::lemma_find(local, a[i].key);
    plan::lemma_find(remote, a[i].key);
}

/// Every action carries what its execution needs: an upload and a local delete
/// a local file, a download and a remote delete a remote file, each with the
/// key of the action. No folder is ever transferred or deleted.
pub proof fn law_actions_carry_files(
    a: Seq<ActionView>,
    local: Seq<EntityView>,
    remote: Seq<EntityView>,
    mode: Mode,
    opts: PlanOpts,
    i: int,
)
    requires
        plan::plan_of(a, local, remote, mode, opts),
        0 <= i < a.len(),
    ensures
        a[i].kind == ActionKind::Upload || a[i].kind == ActionKind::DeleteLocal ==> a[i].local is Some
            && !a[i].local->0.folder() && a[i].local->0.key == a[i].key,
        a[i].kind == ActionKind::Download || a[i].kind == ActionKind::DeleteRemote
            ==> a[i].remote is Some && !a[i].remote->0.folder() && a[i].remote->0.key == a[i].key,
        a[i].kind != ActionKind::Skip && a[i].kind != ActionKind::Conflict ==> !text::ends_with_char(
            a[i].key,
            '/',
        ),
{
    assert(a[i] == plan::planned(local, remote, mode, opts, a[i].key));
    plan::lemma_find(local, a[i].key);
    plan::lemma_find(remote, a[i].key);
}

/// A file-vs-folder path collision is a conflict in every mode, under every
/// option.
pub proof fn law_path_collision_survives(
    a: Seq<ActionView>,
    local: Seq<EntityView>,
    remote: Seq<EntityView>,
    mode: Mode,
    opts: PlanOpts,
    i: int,
)
    requires
        plan::plan_of(a, local, remote, mode, opts),
        0 <= i < a.len(),
        plan::collides(local, remote, a[i].key),
    ensures
        a[i].kind == ActionKind::Conflict,
        a[i].reason == reason::PATH_COLLISION@,
{
    assert(a[i] == plan::planned(local, remote, mode, opts, a[i].key));
}

/// The options without any force.
pub open spec fn unforced(opts: PlanOpts) -> PlanOpts {
    PlanOpts { force_local: false, force_remote: false, ..opts }
}

/// A force changes nothing but conflicts.
pub proof fn law_forces_flip_only_conflicts(
    local: Seq<EntityView>,
    remote: Seq<EntityView>,
    mode: Mode,
    opts: PlanOpts,
    key: Seq<char>,
)
    ensures
        plan::planned(local, remote, mode, unforced(opts), key).kind != ActionKind::Conflict
            ==> plan::planned(local, remote, mode, opts, key) == plan::planned(
            local,
            remote,
            mode,
            unforced(opts),
            key,
        ),
{
}

/// Both forces together cancel each other: the plan is that without any.
pub proof fn law_both_forces_cancel(
    local: Seq<EntityView>,
    remote: Seq<EntityView>,
    mode: Mode,
    opts: PlanOpts,
    key: Seq<char>,
)
    requires
        opts.force_local,
        opts.force_remote,
    ensures
        plan::planned(local, remote, mode, opts, key) == plan::planned(
            local,
            remote,
            mode,
            unforced(opts),
            key,
        ),
{
}

/// What the forces make of one pair: they leave everything as it was if both
/// are set, if there is no conflict, or if it is a path collision. Otherwise
/// `force_local` uploads, or keeps the local file in a pull, and `force_remote`
/// downloads, or keeps the remote file in a push.
pub proof fn law_forces_settle_conflicts(
    l: Option<EntityView>,
    r: Option<EntityView>,
    mode: Mode,
    opts: PlanOpts,
    path_collided: bool,
)
    ensures
        ({
            let plain = plan::resolution(l, r, mode, unforced(opts), path_collided);
            plan::resolution(l, r, mode, opts, path_collided) == if opts.force_local
                == opts.force_remote || plain.0 != ActionKind::Conflict || path_collided {
                plain
            } else if opts.force_local {
                (
                    if mode == Mode::Pull {
                        ActionKind::Skip
                    } else {
                        ActionKind::Upload
                    },
                    reason::FORCE_LOCAL@,
                )
            } else {
                (
                    if mode == Mode::Push {
                        ActionKind::Skip
                    } else {
                        ActionKind::Download
                    },
                    reason::FORCE_REMOTE@,
                )
            }
        }),
{
}

/// An entity without its etag.
pub open spec fn without_etag(o: Option<EntityView>) -> Option<EntityView> {
    match o {
        Some(e) => Some(EntityView { etag: None, ..e }),
        None => None,
    }
}

/// Etags play no part in what is planned.
pub proof fn law_etags_play_no_part(
    local: Option<EntityView>,
    remote: Option<EntityView>,
    mode: Mode,
    opts: PlanOpts,
    path_collided: bool,
)
    ensures
        plan::resolution(local, remote, mode, opts, path_collided) == plan::resolution(
            without_etag(local),
            without_etag(remote),
            mode,
            opts,
            path_collided,
        ),
{
}

/// Whether the two sides hold the same keys, and under each key either folders
/// or files that are equal within the tolerance.
pub open spec fn in_sync(
    local: Seq<EntityView>,
    remote: Seq<EntityView>,
    tolerance_ms: u64,
) -> bool {
    forall|k: Seq<char>| #[trigger]
        plan::on_either(local, remote, k) ==> {
            ||| text::ends_with_char(k, '/')
            ||| plan::delta(plan::find(local, k), plan::find(remote, k), tolerance_ms)
                == plan::Delta::Equal
        }
}

/// Sides that are in sync converge: without path collisions their plan holds
/// nothing but skips, in every mode and under every option, and is clean.
pub proof fn law_in_sync_is_clean(
    a: Seq<ActionView>,
    local: Seq<EntityView>,
    remote: Seq<EntityView>,
    mode: Mode,
    opts: PlanOpts,
)
    requires
        plan::plan_of(a, local, remote, mode, opts),
        in_sync(local, remote, opts.mtime_tolerance_ms),
        forall|k: Seq<char>| #[trigger]
            plan::on_either(local, remote, k) ==> !plan::collides(local, remote, k),
    ensures
        forall|i: int| 0 <= i < a.len() ==> (#[trigger] a[i]).kind == ActionKind::Skip,
        plan::tallies(a).upload == 0,
        plan::tallies(a).download == 0,
        plan::tallies(a).delete_local == 0,
        plan::tallies(a).delete_remote == 0,
        plan::tallies(a).conflict == 0,
{
    law_one_action_per_key(a, local, remote, mode, opts);
    assert forall|i: int| 0 <= i < a.len() implies (#[trigger] a[i]).kind == ActionKind::Skip by {
        let k = a[i].key;
        assert(plan::on_either(local, remote, k));
        assert(a[i] == plan::planned(local, remote, mode, opts, k));
        plan::lemma_find(local, k);
        plan::lemma_find(remote, k);
    }
    lemma_only_skips(a, ActionKind::Upload);
    lemma_only_skips(a, ActionKind::Download);
    lemma_only_skips(a, ActionKind::DeleteLocal);
    lemma_only_skips(a, ActionKind::DeleteRemote);
    lemma_only_skips(a, ActionKind::Conflict);
}

proof fn lemma_only_skips(a: Seq<ActionView>, kind: ActionKind)
    requires
        forall|i: int| 0 <= i < a.len() ==> (#[trigger] a[i]).kind == ActionKind::Skip,
        kind != ActionKind::Skip,
    ensures
        plan::tally(a, kind) == 0,
    decreases a.len(),
{
    if a.len() > 0 {
        let d = a.drop_last();
        assert forall|i: int| 0 <= i < d.len() implies (#[trigger] d[i]).kind == ActionKind::Skip by {
            assert(d[i] == a[i]);
        }
        assert(a[a.len() - 1].kind == ActionKind::Skip);
        lemma_only_skips(d, kind);
    }
}

proof fn lemma_tallies_sum(a: Seq<ActionView>)
    ensures
        plan::tally(a, ActionKind::Upload) + plan::tally(a, ActionKind::Download) + plan::tally(
            a,
            ActionKind::DeleteLocal,
        ) + plan::tally(a, ActionKind::DeleteRemote) + plan::tally(a, ActionKind::Skip)
            + plan::tally(a, ActionKind::Conflict) == a.len(),
    decreases a.len(),
{
    if a.len() > 0 {
        lemma_tallies_sum(a.drop_last());
    }
}

proof fn lemma_counter(n: nat)
    requires
        n <= u32::MAX,
    ensures
        plan::counter(n) == n,
{
    assert(n % 0x1_0000_0000 == n) by (nonlinear_arith)
        requires
            n < 0x1_0000_0000,
    ;
}

/// The counters of a plan that is not too long.
pub proof fn lemma_counters(a: Seq<ActionView>)
    requires
        a.len() <= u32::MAX,
    ensures
        plan::tallies(a).upload == plan::tally(a, ActionKind::Upload),
        plan::tallies(a).download == plan::tally(a, ActionKind::Download),
        plan::tallies(a).delete_local == plan::tally(a, ActionKind::DeleteLocal),
        plan::tallies(a).delete_remote == plan::tally(a, ActionKind::DeleteRemote),
        plan::tallies(a).skip == plan::tally(a, ActionKind::Skip),
        plan::tallies(a).conflict == plan::tally(a, ActionKind::Conflict),
{
    lemma_tallies_sum(a);
    lemma_counter(plan::tally(a, ActionKind::Upload));
    lemma_counter(plan::tally(a, ActionKind::Download));
    lemma_counter(plan::tally(a, ActionKind::DeleteLocal));
    lemma_counter(plan::tally(a, ActionKind::DeleteRemote));
    lemma_counter(plan::tally(a, ActionKind::Skip));
    lemma_counter(plan::tally(a, ActionKind::Conflict));
}

/// The counters of a plan add up to the number of its actions. (Beyond 2^32 - 1
/// actions they wrap around.)
pub proof fn law_counters_add_up(a: Seq<ActionView>)
    requires
        a.len() <= u32::MAX,
    ensures
        ({
            let s: PlanStats = plan::tallies(a);
            s.upload + s.download + s.delete_local + s.delete_remote + s.skip + s.conflict
                == a.len()
        }),
{
    lemma_tallies_sum(a);
    lemma_counters(a);
}

/// Keys are compared exactly: an action pairs entities of its own key alone.
pub proof fn law_pairs_by_exact_key(
    a: Seq<ActionView>,
    local: Seq<EntityView>,
    remote: Seq<EntityView>,
    mode: Mode,
    opts: PlanOpts,
    i: int,
)
    requires
        plan::plan_of(a, local, remote, mode, opts),
        0 <= i < a.len(),
    ensures
        a[i].local matches Some(l) ==> local.contains(l) && l.key == a[i].key,
        a[i].remote matches Some(r) ==> remote.contains(r) && r.key == a[i].key,
{
    assert(a[i] == plan::planned(local, remote, mode, opts, a[i].key));
    plan::lemma_find(local, a[i].key);
    plan::lemma_find(remote, a[i].key);
}

/// Whether an entity is a copy of another as a transfer leaves it: with its
/// key, its size and its mtime.
pub open spec fn copies(copy: EntityView, e: EntityView) -> bool {
    copy.key == e.key && copy.size == e.size && copy.mtime_ms == e.mtime_ms
}

/// A file and its copy are in sync, whichever side holds the copy: no mode
/// transfers either again.
pub proof fn law_copy_is_in_sync(
    e: EntityView,
    copy: EntityView,
    mode: Mode,
    opts: PlanOpts,
)
    requires
        copies(copy, e),
        !e.folder(),
    ensures
        plan::resolution(Some(e), Some(copy), mode, opts, false).0 == ActionKind::Skip,
        plan::resolution(Some(copy), Some(e), mode, opts, false).0 == ActionKind::Skip,
{
}

/// Whether `after` is the remote side once a push with the plan `a` is carried
/// out: uploaded files have their copies there, deleted ones are gone, and
/// nothing else changed.
pub open spec fn after_push(
    a: Seq<ActionView>,
    remote: Seq<EntityView>,
    after: Seq<EntityView>,
) -> bool {
    &&& forall|i: int| #![trigger a[i]]
        0 <= i < a.len() ==> match a[i].kind {
            ActionKind::Upload => plan::find(after, a[i].key) is Some && copies(
                plan::find(after, a[i].key)->0,
                a[i].local->0,
            ),
            ActionKind::DeleteRemote => plan::find(after, a[i].key) is None,
            _ => plan::find(after, a[i].key) == plan::find(remote, a[i].key),
        }
    &&& forall|k: Seq<char>| #[trigger]
        plan::has_key(after, k) ==> exists|i: int| 0 <= i < a.len() && (#[trigger] a[i]).key == k
}

/// Whether `after` is the local side once a pull with the plan `a` is carried
/// out.
pub open spec fn after_pull(
    a: Seq<ActionView>,
    local: Seq<EntityView>,
    after: Seq<EntityView>,
) -> bool {
    &&& forall|i: int| #![trigger a[i]]
        0 <= i < a.len() ==> match a[i].kind {
            ActionKind::Download => plan::find(after, a[i].key) is Some && copies(
                plan::find(after, a[i].key)->0,
                a[i].remote->0,
            ),
            ActionKind::DeleteLocal => plan::find(after, a[i].key) is None,
            _ => plan::find(after, a[i].key) == plan::find(local, a[i].key),
        }
    &&& forall|k: Seq<char>| #[trigger]
        plan::has_key(after, k) ==> exists|i: int| 0 <= i < a.len() && (#[trigger] a[i]).key == k
}

/// The index of the action for a key.
proof fn action_for(
    a: Seq<ActionView>,
    local: Seq<EntityView>,
    remote: Seq<EntityView>,
    mode: Mode,
    opts: PlanOpts,
    key: Seq<char>,
) -> (i: int)
    requires
        plan::plan_of(a, local, remote, mode, opts),
        plan::on_either(local, remote, key),
    ensures
        0 <= i < a.len(),
        a[i].key == key,
        a[i] == plan::planned(local, remote, mode, opts, key),
{
    law_one_action_per_key(a, local, remote, mode, opts);
    choose|i: int| 0 <= i < a.len() && (#[trigger] a[i]).key == key
}

/// Push converges: once a push is carried out, another push plans no transfer
/// and no delete. Conflicts stay conflicts.
pub proof fn law_push_converges(
    a: Seq<ActionView>,
    local: Seq<EntityView>,
    remote: Seq<EntityView>,
    opts: PlanOpts,
    after: Seq<EntityView>,
    b: Seq<ActionView>,
    i: int,
)
    requires
        plan::plan_of(a, local, remote, Mode::Push, opts),
        after_push(a, remote, after),
        plan::plan_of(b, local, after, Mode::Push, opts),
        0 <= i < b.len(),
    ensures
        b[i].kind == ActionKind::Skip || b[i].kind == ActionKind::Conflict,
{
    let mode = Mode::Push;
    let k = b[i].key;
    law_one_action_per_key(b, local, after, mode, opts);
    assert(b[i] == plan::planned(local, after, mode, opts, k));
    assert forall|o: Seq<char>| #[trigger] plan::on_either(local, after, o) implies plan::on_either(
        local,
        remote,
        o,
    ) by {
        if plan::has_key(after, o) {
            let j = choose|j: int| 0 <= j < a.len() && (#[trigger] a[j]).key == o;
            law_one_action_per_key(a, local, remote, mode, opts);
            assert(plan::on_either(local, remote, a[j].key));
        }
    }
    let j = action_for(a, local, remote, mode, opts, k);
    plan::lemma_find(local, k);
    plan::lemma_find(remote, k);
    plan::lemma_find(after, k);
    if plan::collides(local, remote, k) {
        let o = choose|o: Seq<char>| #[trigger]
            plan::on_either(local, remote, o) && (plan::path_clash(k, o) || plan::path_clash(o, k));
        let x = action_for(a, local, remote, mode, opts, o);
        assert(plan::on_either(local, remote, k));
        assert(plan::collides(local, remote, o));
        plan::lemma_find(remote, o);
        plan::lemma_find(after, o);
        assert(a[x].kind == ActionKind::Conflict);
        assert(plan::on_either(local, after, o));
        assert(plan::collides(local, after, k));
    } else {
        if plan::collides(local, after, k) {
            let o = choose|o: Seq<char>| #[trigger]
                plan::on_either(local, after, o) && (plan::path_clash(k, o) || plan::path_clash(
                    o,
                    k,
                ));
            assert(plan::on_either(local, remote, o));
        }
        law_direction(a, local, remote, mode, opts, j);
        law_actions_carry_files(a, local, remote, mode, opts, j);
    }
}

/// Pull converges: once a pull is carried out, another pull plans no transfer
/// and no delete. Conflicts stay conflicts.
pub proof fn law_pull_converges(
    a: Seq<ActionView>,
    local: Seq<EntityView>,
    remote: Seq<EntityView>,
    opts: PlanOpts,
    after: Seq<EntityView>,
    b: Seq<ActionView>,
    i: int,
)
    requires
        plan::plan_of(a, local, remote, Mode::Pull, opts),
        after_pull(a, local, after),
        plan::plan_of(b, after, remote, Mode::Pull, opts),
        0 <= i < b.len(),
    ensures
        b[i].kind == ActionKind::Skip || b[i].kind == ActionKind::Conflict,
{
    let mode = Mode::Pull;
    let k = b[i].key;
    law_one_action_per_key(b, after, remote, mode, opts);
    assert(b[i] == plan::planned(after, remote, mode, opts, k));
    assert forall|o: Seq<char>| #[trigger] plan::on_either(after, remote, o) implies plan::on_either(
        local,
        remote,
        o,
    ) by {
        if plan::has_key(after, o) {
            let j = choose|j: int| 0 <= j < a.len() && (#[trigger] a[j]).key == o;
            law_one_action_per_key(a, local, remote, mode, opts);
            assert(plan::on_either(local, remote, a[j].key));
        }
    }
    let j = action_for(a, local, remote, mode, opts, k);
    plan::lemma_find(local, k);
    plan::lemma_find(remote, k);
    plan::lemma_find(after, k);
    if plan::collides(local, remote, k) {
        let o = choose|o: Seq<char>| #[trigger]
            plan::on_either(local, remote, o) && (plan::path_clash(k, o) || plan::path_clash(o, k));
        let x = action_for(a, local, remote, mode, opts, o);
        assert(plan::on_either(local, remote, k));
        assert(plan::collides(local, remote, o));
        plan::lemma_find(local, o);
        plan::lemma_find(after, o);
        assert(a[x].kind == ActionKind::Conflict);
        assert(plan::on_either(after, remote, o));
        assert(plan::collides(after, remote, k));
    } else {
        if plan::collides(after, remote, k) {
            let o = choose|o: Seq<char>| #[trigger]
                plan::on_either(after, remote, o) && (plan::path_clash(k, o) || plan::path_clash(
                    o,
                    k,
                ));
            assert(plan::on_either(local, remote, o));
        }
        law_direction(a, local, remote, mode, opts, j);
        law_actions_carry_files(a, local, remote, mode, opts, j);
    }
}

/// Whether `e` is the one entity of its key on a side.
pub open spec fn sole(side: Seq<EntityView>, e: EntityView) -> bool {
    side.contains(e) && forall|i: int|
        0 <= i < side.len() && (#[trigger] side[i]).key == e.key ==> side[i] == e
}

/// Whether a side has no entity of a key.
pub open spec fn lacks(side: Seq<EntityView>, key: Seq<char>) -> bool {
    forall|i: int| 0 <= i < side.len() ==> (#[trigger] side[i]).key != key
}

/// Whether a key names a file: it has no `/` at its end.
pub open spec fn file_key(key: Seq<char>) -> bool {
    key.len() == 0 || key[key.len() - 1] != '/'
}

/// Whether path `d` is path `f` as a folder, or lies in it.
pub open spec fn inside(d: Seq<char>, f: Seq<char>) -> bool {
    d.len() > f.len() && d[f.len() as int] == '/' && forall|i: int|
        0 <= i < f.len() ==> d[i] == #[trigger] f[i]
}

/// Whether no entity of either side stands where another's folder would have to
/// be, as far as `key` is concerned.
pub open spec fn stands_alone(
    local: Seq<EntityView>,
    remote: Seq<EntityView>,
    key: Seq<char>,
) -> bool {
    &&& forall|i: int|
        0 <= i < local.len() ==> !inside((#[trigger] local[i]).key, key) && !inside(
            key,
            local[i].key,
        )
    &&& forall|i: int|
        0 <= i < remote.len() ==> !inside((#[trigger] remote[i]).key, key) && !inside(
            key,
            remote[i].key,
        )
}

proof fn lemma_sole_found(side: Seq<EntityView>, e: EntityView)
    requires
        sole(side, e),
    ensures
        plan::find(side, e.key) == Some(e),
        plan::has_key(side, e.key),
{
    let i = choose|i: int| 0 <= i < side.len() && side[i] == e;
    assert(side[i].key == e.key);
    plan::lemma_find(side, e.key);
    let f = plan::find(side, e.key)->0;
    let j = choose|j: int| 0 <= j < side.len() && side[j] == f;
    assert(side[j].key == e.key);
}

proof fn lemma_lacks_found(side: Seq<EntityView>, key: Seq<char>)
    requires
        lacks(side, key),
    ensures
        plan::find(side, key) is None,
{
    plan::lemma_find(side, key);
}

/// What a path clash is.
pub proof fn lemma_clash_inside(f: Seq<char>, d: Seq<char>)
    ensures
        plan::path_clash(f, d) ==> inside(d, f),
        inside(d, f) && file_key(f) ==> plan::path_clash(f, d),
{
    if plan::path_clash(f, d) {
        if !text::ends_with_char(f, '/') && text::starts_with_text(d, f.push('/')) {
            let p = d.take((f.len() + 1) as int);
            assert(p == f.push('/'));
            assert(p[f.len() as int] == '/');
            assert forall|i: int| 0 <= i < f.len() implies d[i] == #[trigger] f[i] by {
                assert(p[i] == f.push('/')[i]);
            }
        } else {
            assert(d.drop_last() == f);
            assert forall|i: int| 0 <= i < f.len() implies d[i] == #[trigger] f[i] by {
                assert(d.drop_last()[i] == d[i]);
            }
        }
    }
    if inside(d, f) && file_key(f) {
        assert(d.take((f.len() + 1) as int) =~= f.push('/'));
    }
}

proof fn lemma_stands_alone(local: Seq<EntityView>, remote: Seq<EntityView>, key: Seq<char>)
    requires
        stands_alone(local, remote, key),
    ensures
        !plan::collides(local, remote, key),
{
    if plan::collides(local, remote, key) {
        let o = choose|o: Seq<char>| #[trigger]
            plan::on_either(local, remote, o) && (plan::path_clash(key, o) || plan::path_clash(
                o,
                key,
            ));
        lemma_clash_inside(key, o);
        lemma_clash_inside(o, key);
        if plan::has_key(local, o) {
            let i = choose|i: int| 0 <= i < local.len() && (#[trigger] local[i]).key == o;
            assert(!inside(local[i].key, key));
        } else {
            let i = choose|i: int| 0 <= i < remote.len() && (#[trigger] remote[i]).key == o;
            assert(!inside(remote[i].key, key));
        }
    }
}

/// Files on both sides are settled by their mtimes, whatever their sizes: the
/// file that is newer by more than the tolerance replaces the other where the
/// direction allows it, and never the reverse. A push uploads the newer local
/// file and keeps a newer remote one; a pull downloads the newer remote file and
/// keeps a newer local one; a status shows what either would do. No option
/// changes that.
pub proof fn law_newer_file_wins(
    a: Seq<ActionView>,
    local: Seq<EntityView>,
    remote: Seq<EntityView>,
    mode: Mode,
    opts: PlanOpts,
    l: EntityView,
    r: EntityView,
) -> (i: int)
    requires
        plan::plan_of(a, local, remote, mode, opts),
        sole(local, l),
        sole(remote, r),
        l.key == r.key,
        file_key(l.key),
        stands_alone(local, remote, l.key),
        l.mtime_ms is Some,
        r.mtime_ms is Some,
    ensures
        0 <= i < a.len(),
        a[i].key == l.key,
        a[i].local == Some(l),
        a[i].remote == Some(r),
        l.mtime_ms->0 > r.mtime_ms->0 + opts.mtime_tolerance_ms ==> a[i].reason == "local_newer"@
            && match mode {
            Mode::Push => a[i].kind == ActionKind::Upload,
            Mode::Status => a[i].kind == ActionKind::Upload,
            Mode::Pull => a[i].kind == ActionKind::Skip,
        },
        r.mtime_ms->0 > l.mtime_ms->0 + opts.mtime_tolerance_ms ==> a[i].reason == "remote_newer"@
            && match mode {
            Mode::Pull => a[i].kind == ActionKind::Download,
            Mode::Status => a[i].kind == ActionKind::Download,
            Mode::Push => a[i].kind == ActionKind::Skip,
        },
{
    lemma_sole_found(local, l);
    lemma_sole_found(remote, r);
    lemma_stands_alone(local, remote, l.key);
    action_for(a, local, remote, mode, opts, l.key)
}

/// Files on both sides whose mtimes tell nothing (they agree within the
/// tolerance, or one is unknown) are settled by their sizes. Equal sizes are left
/// alone. Different sizes are a conflict in every mode, unless exactly one force
/// is set: then the forced side wins, as far as the direction allows it.
pub proof fn law_sizes_decide_when_mtimes_do_not(
    a: Seq<ActionView>,
    local: Seq<EntityView>,
    remote: Seq<EntityView>,
    mode: Mode,
    opts: PlanOpts,
    l: EntityView,
    r: EntityView,
) -> (i: int)
    requires
        plan::plan_of(a, local, remote, mode, opts),
        sole(local, l),
        sole(remote, r),
        l.key == r.key,
        file_key(l.key),
        stands_alone(local, remote, l.key),
        l.mtime_ms is None || r.mtime_ms is None || (l.mtime_ms->0 <= r.mtime_ms->0
            + opts.mtime_tolerance_ms && r.mtime_ms->0 <= l.mtime_ms->0 + opts.mtime_tolerance_ms),
    ensures
        0 <= i < a.len(),
        a[i].key == l.key,
        a[i].local == Some(l),
        a[i].remote == Some(r),
        l.size == r.size ==> a[i].kind == ActionKind::Skip && a[i].reason == if l.mtime_ms is Some
            && r.mtime_ms is Some {
            "equal"@
        } else {
            "equal_unknown_mtime"@
        },
        l.size != r.size && opts.force_local == opts.force_remote ==> a[i].kind
            == ActionKind::Conflict && a[i].reason == if l.mtime_ms is Some && r.mtime_ms is Some {
            "conflict_mtime_size"@
        } else {
            "conflict_mtime_unknown"@
        },
        l.size != r.size && opts.force_local && !opts.force_remote ==> a[i].reason == "force_local"@
            && match mode {
            Mode::Push => a[i].kind == ActionKind::Upload,
            Mode::Status => a[i].kind == ActionKind::Upload,
            Mode::Pull => a[i].kind == ActionKind::Skip,
        },
        l.size != r.size && opts.force_remote && !opts.force_local ==> a[i].reason
            == "force_remote"@ && match mode {
            Mode::Pull => a[i].kind == ActionKind::Download,
            Mode::Status => a[i].kind == ActionKind::Download,
            Mode::Push => a[i].kind == ActionKind::Skip,
        },
{
    lemma_sole_found(local, l);
    lemma_sole_found(remote, r);
    lemma_stands_alone(local, remote, l.key);
    action_for(a, local, remote, mode, opts, l.key)
}

/// A file that only one side has is transferred when the direction allows it,
/// whatever its size and mtime; against the direction it is deleted if that was
/// asked for, and kept otherwise.
pub proof fn law_lone_files_are_transferred(
    a: Seq<ActionView>,
    local: Seq<EntityView>,
    remote: Seq<EntityView>,
    mode: Mode,
    opts: PlanOpts,
    e: EntityView,
) -> (i: int)
    requires
        plan::plan_of(a, local, remote, mode, opts),
        (sole(local, e) && lacks(remote, e.key)) || (sole(remote, e) && lacks(local, e.key)),
        file_key(e.key),
        stands_alone(local, remote, e.key),
    ensures
        0 <= i < a.len(),
        a[i].key == e.key,
        lacks(remote, e.key) ==> {
            &&& a[i].local == Some(e)
            &&& a[i].remote is None
            &&& a[i].reason == "local_only"@
            &&& mode == Mode::Push || mode == Mode::Status ==> a[i].kind == ActionKind::Upload
            &&& mode == Mode::Pull && opts.delete ==> a[i].kind == ActionKind::DeleteLocal
            &&& mode == Mode::Pull && !opts.delete ==> a[i].kind == ActionKind::Skip
        },
        lacks(local, e.key) ==> {
            &&& a[i].remote == Some(e)
            &&& a[i].local is None
            &&& a[i].reason == "remote_only"@
            &&& mode == Mode::Pull || mode == Mode::Status ==> a[i].kind == ActionKind::Download
            &&& mode == Mode::Push && opts.delete ==> a[i].kind == ActionKind::DeleteRemote
            &&& mode == Mode::Push && !opts.delete ==> a[i].kind == ActionKind::Skip
        },
{
    if sole(local, e) && lacks(remote, e.key) {
        lemma_sole_found(local, e);
        lemma_lacks_found(remote, e.key);
        let x = choose|x: int| 0 <= x < local.len() && local[x] == e;
        assert(local[x].key == e.key);
    } else {
        lemma_sole_found(remote, e);
        lemma_lacks_found(local, e.key);
        let x = choose|x: int| 0 <= x < remote.len() && remote[x] == e;
        assert(remote[x].key == e.key);
    }
    lemma_stands_alone(local, remote, e.key);
    action_for(a, local, remote, mode, opts, e.key)
}

/// A folder is left alone: it is neither transferred nor deleted, whichever
/// sides have it.
pub proof fn law_folders_are_left_alone(
    a: Seq<ActionView>,
    local: Seq<EntityView>,
    remote: Seq<EntityView>,
    mode: Mode,
    opts: PlanOpts,
    i: int,
)
    requires
        plan::plan_of(a, local, remote, mode, opts),
        0 <= i < a.len(),
        !file_key(a[i].key),
        stands_alone(local, remote, a[i].key),
    ensures
        a[i].kind == ActionKind::Skip,
        a[i].reason == "folder"@,
{
    assert(a[i] == plan::planned(local, remote, mode, opts, a[i].key));
    law_one_action_per_key(a, local, remote, mode, opts);
    assert(plan::on_either(local, remote, a[i].key));
    plan::lemma_find(local, a[i].key);
    plan::lemma_find(remote, a[i].key);
    lemma_stands_alone(local, remote, a[i].key);
}

/// A file cannot stand where another entity needs a folder, on whichever sides
/// the two are: both are conflicts, in every mode and under every option.
pub proof fn law_file_and_folder_clash(
    a: Seq<ActionView>,
    local: Seq<EntityView>,
    remote: Seq<EntityView>,
    mode: Mode,
    opts: PlanOpts,
    i: int,
    j: int,
)
    requires
        plan::plan_of(a, local, remote, mode, opts),
        0 <= i < a.len(),
        0 <= j < a.len(),
        file_key(a[i].key),
        inside(a[j].key, a[i].key),
    ensures
        a[i].kind == ActionKind::Conflict,
        a[i].reason == "path_collision"@,
        a[j].kind == ActionKind::Conflict,
        a[j].reason == "path_collision"@,
{
    assert(a[i] == plan::planned(local, remote, mode, opts, a[i].key));
    assert(a[j] == plan::planned(local, remote, mode, opts, a[j].key));
    law_one_action_per_key(a, local, remote, mode, opts);
    assert(plan::on_either(local, remote, a[i].key));
    assert(plan::on_either(local, remote, a[j].key));
    lemma_clash_inside(a[i].key, a[j].key);
}

/// If a side names a key twice, its last entity of that key is the one that
/// counts.
pub proof fn law_last_entity_of_a_key_counts(
    a: Seq<ActionView>,
    local: Seq<EntityView>,
    remote: Seq<EntityView>,
    mode: Mode,
    opts: PlanOpts,
    i: int,
    j: int,
)
    requires
        plan::plan_of(a, local, remote, mode, opts),
        0 <= i < a.len(),
        0 <= j,
    ensures
        j < local.len() && local[j].key == a[i].key && (forall|n: int|
            j < n < local.len() ==> (#[trigger] local[n]).key != a[i].key) ==> a[i].local == Some(
            local[j],
        ),
        j < remote.len() && remote[j].key == a[i].key && (forall|n: int|
            j < n < remote.len() ==> (#[trigger] remote[n]).key != a[i].key) ==> a[i].remote
            == Some(remote[j]),
{
    assert(a[i] == plan::planned(local, remote, mode, opts, a[i].key));
    if j < local.len() && local[j].key == a[i].key && (forall|n: int|
        j < n < local.len() ==> (#[trigger] local[n]).key != a[i].key) {
        lemma_find_last(local, a[i].key, j);
    }
    if j < remote.len() && remote[j].key == a[i].key && (forall|n: int|
        j < n < remote.len() ==> (#[trigger] remote[n]).key != a[i].key) {
        lemma_find_last(remote, a[i].key, j);
    }
}

proof fn lemma_find_last(s: Seq<EntityView>, key: Seq<char>, j: int)
    requires
        0 <= j < s.len(),
        s[j].key == key,
        forall|n: int| j < n < s.len() ==> (#[trigger] s[n]).key != key,
    ensures
        plan::find(s, key) == Some(s[j]),
    decreases s.len(),
{
    if j < s.len() - 1 {
        assert(s[s.len() - 1].key != key);
        let d = s.drop_last();
        assert forall|n: int| j < n < d.len() implies (#[trigger] d[n]).key != key by {
            assert(d[n] == s[n]);
        }
        assert(d[j] == s[j]);
        lemma_find_last(d, key, j);
    }
}

/// A counter of a plan is the number of its actions of that kind. (Beyond
/// 2^32 - 1 actions it wraps around.)
pub proof fn law_counters_count(a: Seq<ActionView>)
    requires
        a.len() <= u32::MAX,
    ensures
        plan::tallies(a).upload == a.filter(|x: ActionView| x.kind == ActionKind::Upload).len(),
        plan::tallies(a).download == a.filter(
            |x: ActionView| x.kind == ActionKind::Download,
        ).len(),
        plan::tallies(a).delete_local == a.filter(
            |x: ActionView| x.kind == ActionKind::DeleteLocal,
        ).len(),
        plan::tallies(a).delete_remote == a.filter(
            |x: ActionView| x.kind == ActionKind::DeleteRemote,
        ).len(),
        plan::tallies(a).skip == a.filter(|x: ActionView| x.kind == ActionKind::Skip).len(),
        plan::tallies(a).conflict == a.filter(
            |x: ActionView| x.kind == ActionKind::Conflict,
        ).len(),
{
    lemma_counters(a);
    lemma_tally_filters(a, |x: ActionView| x.kind == ActionKind::Upload, ActionKind::Upload);
    lemma_tally_filters(a, |x: ActionView| x.kind == ActionKind::Download, ActionKind::Download);
    lemma_tally_filters(
        a,
        |x: ActionView| x.kind == ActionKind::DeleteLocal,
        ActionKind::DeleteLocal,
    );
    lemma_tally_filters(
        a,
        |x: ActionView| x.kind == ActionKind::DeleteRemote,
        ActionKind::DeleteRemote,
    );
    lemma_tally_filters(a, |x: ActionView| x.kind == ActionKind::Skip, ActionKind::Skip);
    lemma_tally_filters(a, |x: ActionView| x.kind == ActionKind::Conflict, ActionKind::Conflict);
}

proof fn lemma_tally_filters(
    a: Seq<ActionView>,
    of_kind: spec_fn(ActionView) -> bool,
    kind: ActionKind,
)
    requires
        forall|x: ActionView| #[trigger] of_kind(x) == (x.kind == kind),
    ensures
        plan::tally(a, kind) == a.filter(of_kind).len(),
    decreases a.len(),
{
    reveal(Seq::filter);
    if a.len() > 0 {
        lemma_tally_filters(a.drop_last(), of_kind, kind);
    }
}

/// Two keys that differ in case alone, or in the `/` of a folder besides, are
/// found as a case collision, on whichever sides they are; a key is not found
/// unless there is another such key.
pub proof fn law_case_twins_are_found(
    local: Seq<EntityView>,
    remote: Seq<EntityView>,
    x: EntityView,
    y: EntityView,
)
    requires
        local.contains(x) || remote.contains(x),
        local.contains(y) || remote.contains(y),
        x.key != y.key,
    ensures
        file_key(x.key) && file_key(y.key) && text::lowercase_text(x.key) == text::lowercase_text(
            y.key,
        ) ==> plan::case_collided(local, remote, x.key) && plan::case_collided(
            local,
            remote,
            y.key,
        ),
        !file_key(x.key) && file_key(y.key) && text::lowercase_text(x.key.drop_last())
            == text::lowercase_text(y.key) ==> plan::case_collided(local, remote, x.key)
            && plan::case_collided(local, remote, y.key),
        !file_key(x.key) && !file_key(y.key) && text::lowercase_text(x.key.drop_last())
            == text::lowercase_text(y.key.drop_last()) ==> plan::case_collided(
            local,
            remote,
            x.key,
        ) && plan::case_collided(local, remote, y.key),
{
    lemma_contains_key(local, x);
    lemma_contains_key(remote, x);
    lemma_contains_key(local, y);
    lemma_contains_key(remote, y);
    assert(plan::on_either(local, remote, x.key) && plan::on_either(local, remote, y.key));
}

/// A case collision has a twin: another key of either side that is the same
/// text, lower-cased, without the `/` of a folder.
pub proof fn law_case_collision_has_a_twin(
    local: Seq<EntityView>,
    remote: Seq<EntityView>,
    key: Seq<char>,
) -> (y: EntityView)
    requires
        plan::case_collided(local, remote, key),
    ensures
        local.contains(y) || remote.contains(y),
        y.key != key,
        text::lowercase_text(
            if file_key(y.key) {
                y.key
            } else {
                y.key.drop_last()
            },
        ) == text::lowercase_text(
            if file_key(key) {
                key
            } else {
                key.drop_last()
            },
        ),
{
    let o = choose|o: Seq<char>| #[trigger]
        plan::on_either(local, remote, o) && o != key && plan::fold(o) == plan::fold(key);
    if plan::has_key(local, o) {
        let i = choose|i: int| 0 <= i < local.len() && (#[trigger] local[i]).key == o;
        local[i]
    } else {
        let i = choose|i: int| 0 <= i < remote.len() && (#[trigger] remote[i]).key == o;
        remote[i]
    }
}

proof fn lemma_contains_key(s: Seq<EntityView>, e: EntityView)
    ensures
        s.contains(e) ==> plan::has_key(s, e.key),
{
    if s.contains(e) {
        let i = choose|i: int| 0 <= i < s.len() && s[i] == e;
        assert(s[i].key == e.key);
    }
}

/// What is resolved for a file that collides with nothing, by its sides alone. The
/// newer file is uploaded or downloaded if the mode goes that way, whatever its
/// size, and left alone otherwise. So is a file of one side only, which the mode
/// that goes the other way deletes if it was asked to.
pub proof fn law_resolve_goes_by_mtimes(
    local: Option<&Entity>,
    remote: Option<&Entity>,
    mode: Mode,
    opts: &PlanOpts,
    r: (ActionKind, &'static str),
)
    requires
        call_ensures(plan::resolve, (local, remote, mode, opts, false), r),
        local is Some ==> file_key(local->0.key@),
        remote is Some ==> file_key(remote->0.key@),
    ensures
        local is Some && remote is Some && local->0.mtime_ms is Some && remote->0.mtime_ms is Some
            && local->0.mtime_ms->0 > remote->0.mtime_ms->0 + opts.mtime_tolerance_ms ==> r.0
            == match mode {
            Mode::Push => ActionKind::Upload,
            Mode::Status => ActionKind::Upload,
            Mode::Pull => ActionKind::Skip,
        },
        local is Some && remote is Some && local->0.mtime_ms is Some && remote->0.mtime_ms is Some
            && remote->0.mtime_ms->0 > local->0.mtime_ms->0 + opts.mtime_tolerance_ms ==> r.0
            == match mode {
            Mode::Pull => ActionKind::Download,
            Mode::Status => ActionKind::Download,
            Mode::Push => ActionKind::Skip,
        },
        local is Some && remote is None ==> r.0 == match mode {
            Mode::Push => ActionKind::Upload,
            Mode::Status => ActionKind::Upload,
            Mode::Pull => if opts.delete {
                ActionKind::DeleteLocal
            } else {
                ActionKind::Skip
            },
        },
        remote is Some && local is None ==> r.0 == match mode {
            Mode::Pull => ActionKind::Download,
            Mode::Status => ActionKind::Download,
            Mode::Push => if opts.delete {
                ActionKind::DeleteRemote
            } else {
                ActionKind::Skip
            },
        },
{
}

} // verus!
