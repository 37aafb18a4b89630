//! Pure planner: classifies a local/remote entity diff into actions.
//!
//! No IO and no network: inputs are plain [`Entity`] lists.

pub mod laws;
pub mod reason;

use vstd::prelude::*;
use crate::entity;
use crate::entity::{Entity, EntityView};
use crate::sort;
use crate::sort::sort_by_key;
use crate::text;
use crate::text::{chars_of, chars_start_with, lowercase_string, same_text, string_of};

verus! {

/// The direction the planned actions will be interpreted for.
#[derive(Debug, Clone, Copy, PartialEq, Eq, Structural)]
pub enum Mode {
    Status,
    Push,
    Pull,
}

/// Planner options.
#[derive(Debug, Clone, Copy)]
pub struct PlanOpts {
    /// mtime difference (ms) treated as "equal". Default 1000.
    pub mtime_tolerance_ms: u64,
    /// Map delete direction based on mode (`--delete`).
    pub delete: bool,
    /// On conflict, local wins. Mode-aware: Push/Status plan Upload; Pull
    /// keeps local (Skip). Never flips non-Conflict deltas.
    pub force_local: bool,
    /// On conflict, remote wins. Mode-aware: Pull/Status plan Download; Push
    /// keeps remote (Skip). Never flips non-Conflict deltas.
    pub force_remote: bool,
}

impl Default for PlanOpts {
    fn default() -> (r: Self)
        ensures
            r == (PlanOpts {
                mtime_tolerance_ms: 1000,
                delete: false,
                force_local: false,
                force_remote: false,
            }),
    {
        PlanOpts { mtime_tolerance_ms: 1000, delete: false, force_local: false, force_remote: false }
    }
}

/// What to do with a single key.
#[derive(Debug, Clone, Copy, PartialEq, Eq, Structural)]
pub enum ActionKind {
    Upload,
    Download,
    DeleteLocal,
    DeleteRemote,
    Skip,
    Conflict,
}

/// One planned action for a key.
#[derive(Debug, PartialEq)]
pub struct Action {
    pub key: String,
    pub kind: ActionKind,
    pub reason: &'static str,
    pub local: Option<Entity>,
    pub remote: Option<Entity>,
}

/// The mathematical view of an [`Action`].
pub struct ActionView {
    pub key: Seq<char>,
    pub kind: ActionKind,
    pub reason: Seq<char>,
    pub local: Option<EntityView>,
    pub remote: Option<EntityView>,
}

impl View for Action {
    type V = ActionView;

    open spec fn view(&self) -> ActionView {
        ActionView {
            key: self.key@,
            kind: self.kind,
            reason: self.reason@,
            local: entity::opt_entity(self.local),
            remote: entity::opt_entity(self.remote),
        }
    }
}

/// A copy of an optional entity.
pub fn clone_opt_entity(o: &Option<Entity>) -> (r: Option<Entity>)
    ensures
        r == *o,
{
    match o {
        Some(e) => Some(e.clone()),
        None => None,
    }
}

impl Clone for Action {
    fn clone(&self) -> (r: Self)
        ensures
            r == *self,
    {
        Action {
            key: self.key.clone(),
            kind: self.kind,
            reason: self.reason,
            local: clone_opt_entity(&self.local),
            remote: clone_opt_entity(&self.remote),
        }
    }
}

/// The views of a sequence of actions.
pub open spec fn actions(v: Seq<Action>) -> Seq<ActionView> {
    Seq::new(v.len(), |i: int| v[i]@)
}

/// Counts per action kind (modulo 2^32).
#[derive(Debug, Clone, Copy, PartialEq, Eq, Structural)]
pub struct PlanStats {
    pub upload: u32,
    pub download: u32,
    pub delete_local: u32,
    pub delete_remote: u32,
    pub skip: u32,
    pub conflict: u32,
}

impl Default for PlanStats {
    fn default() -> (r: Self)
        ensures
            r == (PlanStats {
                upload: 0,
                download: 0,
                delete_local: 0,
                delete_remote: 0,
                skip: 0,
                conflict: 0,
            }),
    {
        PlanStats { upload: 0, download: 0, delete_local: 0, delete_remote: 0, skip: 0, conflict: 0 }
    }
}

/// A full classification of local vs remote.
#[derive(Debug, PartialEq)]
pub struct Plan {
    pub actions: Vec<Action>,
    pub stats: PlanStats,
}

impl Default for Plan {
    fn default() -> (r: Self)
        ensures
            r.actions@.len() == 0,
            r.stats == tallies(Seq::<ActionView>::empty()),
    {
        Plan { actions: Vec::new(), stats: PlanStats::default() }
    }
}

impl Clone for Plan {
    fn clone(&self) -> (r: Self)
        ensures
            actions(r.actions@) == actions(self.actions@),
            r.stats == self.stats,
    {
        let mut out: Vec<Action> = Vec::new();
        let mut i: usize = 0;
        while i < self.actions.len()
            invariant
                i <= self.actions@.len(),
                out@ == self.actions@.take(i as int),
            decreases self.actions@.len() - i,
        {
            out.push(self.actions[i].clone());
            assert(self.actions@.take(i + 1) =~= self.actions@.take(i as int).push(
                self.actions@[i as int],
            ));
            i = i + 1;
        }
        assert(self.actions@.take(i as int) =~= self.actions@);
        Plan { actions: out, stats: self.stats }
    }
}

/// How many of the actions are of the given kind.
pub open spec fn tally(a: Seq<ActionView>, kind: ActionKind) -> nat
    decreases a.len(),
{
    if a.len() == 0 {
        0
    } else {
        tally(a.drop_last(), kind) + if a.last().kind == kind {
            1nat
        } else {
            0nat
        }
    }
}

/// The counter of a tally: its value modulo 2^32.
pub open spec fn counter(n: nat) -> u32 {
    (n % 0x1_0000_0000) as u32
}

/// The counters of a sequence of actions.
pub open spec fn tallies(a: Seq<ActionView>) -> PlanStats {
    PlanStats {
        upload: counter(tally(a, ActionKind::Upload)),
        download: counter(tally(a, ActionKind::Download)),
        delete_local: counter(tally(a, ActionKind::DeleteLocal)),
        delete_remote: counter(tally(a, ActionKind::DeleteRemote)),
        skip: counter(tally(a, ActionKind::Skip)),
        conflict: counter(tally(a, ActionKind::Conflict)),
    }
}

/// The counters of the actions.
pub fn compute_stats(a: &Vec<Action>) -> (r: PlanStats)
    ensures
        r == tallies(actions(a@)),
{
    let mut s = PlanStats::default();
    let mut i: usize = 0;
    let ghost all = actions(a@);
    assert(all.take(0) =~= Seq::<ActionView>::empty());
    while i < a.len()
        invariant
            i <= a@.len(),
            all == actions(a@),
            s == tallies(all.take(i as int)),
        decreases a@.len() - i,
    {
        proof {
            let part = all.take(i + 1);
            assert(part.drop_last() =~= all.take(i as int));
            assert(part.last() == a@[i as int]@);
        }
        match a[i].kind {
            ActionKind::Upload => s.upload = s.upload.wrapping_add(1),
            ActionKind::Download => s.download = s.download.wrapping_add(1),
            ActionKind::DeleteLocal => s.delete_local = s.delete_local.wrapping_add(1),
            ActionKind::DeleteRemote => s.delete_remote = s.delete_remote.wrapping_add(1),
            ActionKind::Skip => s.skip = s.skip.wrapping_add(1),
            ActionKind::Conflict => s.conflict = s.conflict.wrapping_add(1),
        }
        i = i + 1;
    }
    assert(all.take(a@.len() as int) =~= all);
    s
}

/// Per-key delta classification between two sides.
#[derive(Debug, Clone, Copy, PartialEq, Eq, Structural)]
pub enum Delta {
    Equal,
    LocalOnly,
    RemoteOnly,
    LocalNewer,
    RemoteNewer,
    Conflict,
    /// Both sides present, either mtime unknown, sizes equal: visible skip.
    EqualUnknownMtime,
    /// Both sides present, either mtime unknown, sizes differ: conflict.
    ConflictUnknownMtime,
}

/// The distance between two times.
pub open spec fn distance(a: u64, b: u64) -> int {
    if a >= b {
        a - b
    } else {
        b - a
    }
}

/// The delta of a pair of entities with the same key. Etags play no part.
pub open spec fn delta(
    local: Option<EntityView>,
    remote: Option<EntityView>,
    tolerance: u64,
) -> Delta {
    match (local, remote) {
        (None, None) => Delta::Equal,
        (Some(_), None) => Delta::LocalOnly,
        (None, Some(_)) => Delta::RemoteOnly,
        (Some(l), Some(r)) => match (l.mtime_ms, r.mtime_ms) {
            (Some(lm), Some(rm)) => if distance(lm, rm) <= tolerance {
                if l.size == r.size {
                    Delta::Equal
                } else {
                    Delta::Conflict
                }
            } else if lm > rm {
                Delta::LocalNewer
            } else {
                Delta::RemoteNewer
            },
            _ => if l.size == r.size {
                Delta::EqualUnknownMtime
            } else {
                Delta::ConflictUnknownMtime
            },
        },
    }
}

/// Classify one local/remote pair into a delta.
fn classify_pair(local: Option<&Entity>, remote: Option<&Entity>, tol: u64) -> (d: Delta)
    ensures
        d == delta(
            match local {
                Some(e) => Some(e@),
                None => None,
            },
            match remote {
                Some(e) => Some(e@),
                None => None,
            },
            tol,
        ),
{
    match (local, remote) {
        (None, None) => Delta::Equal,
        (Some(_), None) => Delta::LocalOnly,
        (None, Some(_)) => Delta::RemoteOnly,
        (Some(l), Some(r)) => match (l.mtime_ms, r.mtime_ms) {
            (Some(lm), Some(rm)) => {
                let apart: u64 = if lm >= rm {
                    lm - rm
                } else {
                    rm - lm
                };
                if apart <= tol {
                    if l.size == r.size {
                        Delta::Equal
                    } else {
                        Delta::Conflict
                    }
                } else if lm > rm {
                    Delta::LocalNewer
                } else {
                    Delta::RemoteNewer
                }
            },
            _ => {
                if l.size == r.size {
                    Delta::EqualUnknownMtime
                } else {
                    Delta::ConflictUnknownMtime
                }
            },
        },
    }
}

/// How the forces settle a conflict. Both forces set cancel each other.
pub open spec fn forced(opts: PlanOpts, mode: Mode, default_reason: Seq<char>) -> (
    ActionKind,
    Seq<char>,
) {
    if opts.force_local == opts.force_remote {
        (ActionKind::Conflict, default_reason)
    } else if opts.force_local {
        match mode {
            Mode::Push | Mode::Status => (ActionKind::Upload, reason::FORCE_LOCAL@),
            Mode::Pull => (ActionKind::Skip, reason::FORCE_LOCAL@),
        }
    } else {
        match mode {
            Mode::Pull | Mode::Status => (ActionKind::Download, reason::FORCE_REMOTE@),
            Mode::Push => (ActionKind::Skip, reason::FORCE_REMOTE@),
        }
    }
}

/// The action kind and reason for a pair of entities with the same key.
pub open spec fn resolution(
    local: Option<EntityView>,
    remote: Option<EntityView>,
    mode: Mode,
    opts: PlanOpts,
    path_collided: bool,
) -> (ActionKind, Seq<char>) {
    if path_collided {
        (ActionKind::Conflict, reason::PATH_COLLISION@)
    } else if (local is Some && local->0.folder()) || (remote is Some && remote->0.folder()) {
        (ActionKind::Skip, reason::FOLDER@)
    } else {
        match delta(local, remote, opts.mtime_tolerance_ms) {
            Delta::Equal => (ActionKind::Skip, reason::EQUAL@),
            Delta::EqualUnknownMtime => (ActionKind::Skip, reason::EQUAL_UNKNOWN_MTIME@),
            Delta::LocalOnly => match mode {
                Mode::Status | Mode::Push => (ActionKind::Upload, reason::LOCAL_ONLY@),
                Mode::Pull => if opts.delete {
                    (ActionKind::DeleteLocal, reason::LOCAL_ONLY@)
                } else {
                    (ActionKind::Skip, reason::LOCAL_ONLY@)
                },
            },
            Delta::RemoteOnly => match mode {
                Mode::Status | Mode::Pull => (ActionKind::Download, reason::REMOTE_ONLY@),
                Mode::Push => if opts.delete {
                    (ActionKind::DeleteRemote, reason::REMOTE_ONLY@)
                } else {
                    (ActionKind::Skip, reason::REMOTE_ONLY@)
                },
            },
            Delta::LocalNewer => match mode {
                Mode::Status | Mode::Push => (ActionKind::Upload, reason::LOCAL_NEWER@),
                Mode::Pull => (ActionKind::Skip, reason::LOCAL_NEWER@),
            },
            Delta::RemoteNewer => match mode {
                Mode::Status | Mode::Pull => (ActionKind::Download, reason::REMOTE_NEWER@),
                Mode::Push => (ActionKind::Skip, reason::REMOTE_NEWER@),
            },
            Delta::Conflict => forced(opts, mode, reason::CONFLICT_MTIME_SIZE@),
            Delta::ConflictUnknownMtime => forced(opts, mode, reason::CONFLICT_UNKNOWN_MTIME@),
        }
    }
}

/// Mode-aware force handling shared by the conflict variants.
fn force_conflict(opts: &PlanOpts, mode: Mode, default_reason: &'static str) -> (r: (
    ActionKind,
    &'static str,
))
    ensures
        (r.0, r.1@) == forced(*opts, mode, default_reason@),
{
    if opts.force_local && opts.force_remote {
        (ActionKind::Conflict, default_reason)
    } else if opts.force_local {
        match mode {
            Mode::Push | Mode::Status => (ActionKind::Upload, reason::FORCE_LOCAL),
            Mode::Pull => (ActionKind::Skip, reason::FORCE_LOCAL),
        }
    } else if opts.force_remote {
        match mode {
            Mode::Pull | Mode::Status => (ActionKind::Download, reason::FORCE_REMOTE),
            Mode::Push => (ActionKind::Skip, reason::FORCE_REMOTE),
        }
    } else {
        (ActionKind::Conflict, default_reason)
    }
}

/// Map a key's delta to an action kind and reason given the mode and options.
/// What the forces make of it is [`laws::law_forces_settle_conflicts`].
pub fn resolve(
    local: Option<&Entity>,
    remote: Option<&Entity>,
    mode: Mode,
    opts: &PlanOpts,
    path_collided: bool,
) -> (r: (ActionKind, &'static str))
    ensures
        (r.0, r.1@) == resolution(
            match local {
                Some(e) => Some(e@),
                None => None,
            },
            match remote {
                Some(e) => Some(e@),
                None => None,
            },
            mode,
            *opts,
            path_collided,
        ),
{
    if path_collided {
        return (ActionKind::Conflict, reason::PATH_COLLISION);
    }
    let local_folder = match local {
        Some(e) => e.is_folder(),
        None => false,
    };
    let remote_folder = match remote {
        Some(e) => e.is_folder(),
        None => false,
    };
    if local_folder || remote_folder {
        return (ActionKind::Skip, reason::FOLDER);
    }
    match classify_pair(local, remote, opts.mtime_tolerance_ms) {
        Delta::Equal => (ActionKind::Skip, reason::EQUAL),
        Delta::EqualUnknownMtime => (ActionKind::Skip, reason::EQUAL_UNKNOWN_MTIME),
        Delta::LocalOnly => match mode {
            Mode::Status | Mode::Push => (ActionKind::Upload, reason::LOCAL_ONLY),
            Mode::Pull => {
                if opts.delete {
                    (ActionKind::DeleteLocal, reason::LOCAL_ONLY)
                } else {
                    (ActionKind::Skip, reason::LOCAL_ONLY)
                }
            },
        },
        Delta::RemoteOnly => match mode {
            Mode::Status | Mode::Pull => (ActionKind::Download, reason::REMOTE_ONLY),
            Mode::Push => {
                if opts.delete {
                    (ActionKind::DeleteRemote, reason::REMOTE_ONLY)
                } else {
                    (ActionKind::Skip, reason::REMOTE_ONLY)
                }
            },
        },
        Delta::LocalNewer => match mode {
            Mode::Status | Mode::Push => (ActionKind::Upload, reason::LOCAL_NEWER),
            Mode::Pull => (ActionKind::Skip, reason::LOCAL_NEWER),
        },
        Delta::RemoteNewer => match mode {
            Mode::Status | Mode::Pull => (ActionKind::Download, reason::REMOTE_NEWER),
            Mode::Push => (ActionKind::Skip, reason::REMOTE_NEWER),
        },
        Delta::Conflict => force_conflict(opts, mode, reason::CONFLICT_MTIME_SIZE),
        Delta::ConflictUnknownMtime => force_conflict(opts, mode, reason::CONFLICT_UNKNOWN_MTIME),
    }
}

/// Whether some entity has the key.
pub open spec fn has_key(s: Seq<EntityView>, key: Seq<char>) -> bool {
    exists|i: int| 0 <= i < s.len() && (#[trigger] s[i]).key == key
}

/// The last entity with the key, if there is one.
pub open spec fn find(s: Seq<EntityView>, key: Seq<char>) -> Option<EntityView>
    decreases s.len(),
{
    if s.len() == 0 {
        None
    } else if s.last().key == key {
        Some(s.last())
    } else {
        find(s.drop_last(), key)
    }
}

/// A key is found where it occurs, and nowhere else.
pub proof fn lemma_find(s: Seq<EntityView>, key: Seq<char>)
    ensures
        find(s, key) is Some == has_key(s, key),
        find(s, key) is Some ==> s.contains(find(s, key)->0) && find(s, key)->0.key == key,
    decreases s.len(),
{
    if s.len() > 0 {
        let d = s.drop_last();
        lemma_find(d, key);
        if s.last().key == key {
            assert(s[s.len() - 1].key == key);
        } else {
            if has_key(s, key) {
                let i = choose|i: int| 0 <= i < s.len() && (#[trigger] s[i]).key == key;
                assert(d[i].key == key);
            }
            if has_key(d, key) {
                let i = choose|i: int| 0 <= i < d.len() && (#[trigger] d[i]).key == key;
                assert(s[i].key == key);
                let e = find(d, key)->0;
                let j = choose|j: int| 0 <= j < d.len() && d[j] == e;
                assert(s[j] == e);
            }
        }
    }
}

/// The last entity with the key, if there is one.
fn find_entity<'a>(s: &'a [Entity], key: &str) -> (r: Option<&'a Entity>)
    ensures
        match r {
            Some(e) => find(entity::entities(s@), key@) == Some(e@),
            None => find(entity::entities(s@), key@) is None,
        },
{
    let ghost all = entity::entities(s@);
    let mut i: usize = s.len();
    assert(all.take(i as int) =~= all);
    while i > 0
        invariant
            i <= s@.len(),
            all == entity::entities(s@),
            find(all, key@) == find(all.take(i as int), key@),
        decreases i,
    {
        i = i - 1;
        let ghost part = all.take(i + 1);
        assert(part.last() == s@[i as int]@);
        assert(part.drop_last() =~= all.take(i as int));
        if same_text(s[i].key.as_str(), key) {
            return Some(&s[i]);
        }
    }
    None
}

/// Whether the keys ascend strictly (so none occurs twice).
pub open spec fn ascending(keys: Seq<Seq<char>>) -> bool {
    forall|i: int, j: int|
        0 <= i < j < keys.len() ==> text::before(#[trigger] keys[i], #[trigger] keys[j])
}

/// The keys of a sequence of entities.
pub open spec fn keys_of(s: Seq<EntityView>) -> Seq<Seq<char>> {
    Seq::new(s.len(), |i: int| s[i].key)
}

/// Ascending keys are determined by which keys there are.
pub proof fn lemma_ascending_unique(a: Seq<Seq<char>>, b: Seq<Seq<char>>)
    requires
        ascending(a),
        ascending(b),
        forall|k: Seq<char>| #[trigger] a.contains(k) == b.contains(k),
    ensures
        a == b,
    decreases a.len(),
{
    if a.len() == 0 {
        if b.len() > 0 {
            assert(b.contains(b[0]));
            assert(a.contains(b[0]));
        }
        assert(a =~= b);
    } else {
        assert(a.contains(a[0]));
        assert(b.contains(a[0]));
        let x = a[a.len() - 1];
        let y = b[b.len() - 1];
        assert(a.contains(x));
        assert(b.contains(x));
        assert(b.contains(y));
        assert(a.contains(y));
        let i = choose|i: int| 0 <= i < b.len() && b[i] == x;
        let j = choose|j: int| 0 <= j < a.len() && a[j] == y;
        if x != y {
            assert(text::before(b[i], b[b.len() - 1]));
            assert(text::before(a[j], a[a.len() - 1]));
            text::lemma_before_transitive(x, y, x);
            text::lemma_before_irreflexive(x);
        }
        let a2 = a.drop_last();
        let b2 = b.drop_last();
        assert forall|p: int, q: int| 0 <= p < q < a2.len() implies text::before(
            #[trigger] a2[p],
            #[trigger] a2[q],
        ) by {
            assert(a2[p] == a[p] && a2[q] == a[q]);
        }
        assert forall|p: int, q: int| 0 <= p < q < b2.len() implies text::before(
            #[trigger] b2[p],
            #[trigger] b2[q],
        ) by {
            assert(b2[p] == b[p] && b2[q] == b[q]);
        }
        assert forall|k: Seq<char>| #[trigger] a2.contains(k) == b2.contains(k) by {
            text::lemma_before_irreflexive(x);
            if a2.contains(k) {
                let p = choose|p: int| 0 <= p < a2.len() && a2[p] == k;
                assert(a[p] == k);
                assert(text::before(a[p], a[a.len() - 1]));
                assert(a.contains(k));
                assert(b.contains(k));
                let q = choose|q: int| 0 <= q < b.len() && b[q] == k;
                assert(b2[q] == k);
            }
            if b2.contains(k) {
                let p = choose|p: int| 0 <= p < b2.len() && b2[p] == k;
                assert(b[p] == k);
                assert(text::before(b[p], b[b.len() - 1]));
                assert(b.contains(k));
                assert(a.contains(k));
                let q = choose|q: int| 0 <= q < a.len() && a[q] == k;
                assert(a2[q] == k);
            }
        }
        lemma_ascending_unique(a2, b2);
        assert(a =~= a2.push(x));
        assert(b =~= b2.push(y));
    }
}

/// Drops repeated strings from a sorted vector.
pub fn dedup_sorted(v: Vec<String>) -> (r: Vec<String>)
    requires
        sort::in_order::<String>(text::texts(v@)),
    ensures
        ascending(text::texts(r@)),
        forall|k: Seq<char>|
            #![trigger text::texts(r@).contains(k)]
            #![trigger text::texts(v@).contains(k)]
            text::texts(r@).contains(k) == text::texts(v@).contains(k),
{
    let ghost all = text::texts(v@);
    let mut out: Vec<String> = Vec::new();
    let mut i: usize = 0;
    while i < v.len()
        invariant
            i <= v@.len(),
            all == text::texts(v@),
            sort::in_order::<String>(all),
            ascending(text::texts(out@)),
            (i == 0) == (out@.len() == 0),
            i > 0 ==> text::texts(out@).last() == all[i - 1],
            forall|k: Seq<char>| #[trigger]
                text::texts(out@).contains(k) == all.take(i as int).contains(k),
        decreases v@.len() - i,
    {
        let ghost old_out = text::texts(out@);
        let ghost k = all[i as int];
        let repeated = out.len() > 0 && same_text(out[out.len() - 1].as_str(), v[i].as_str());
        assert(all.take(i + 1) =~= all.take(i as int).push(k));
        if !repeated {
            out.push(v[i].clone());
            proof {
                let new_out = text::texts(out@);
                assert(new_out =~= old_out.push(k));
                if old_out.len() > 0 {
                    let l = old_out.last();
                    assert(l == all[i - 1]);
                    assert(!text::before(all[i as int], all[i - 1]));
                    text::lemma_before_total(l, k);
                    assert forall|a: int, b: int| 0 <= a < b < new_out.len() implies text::before(
                        #[trigger] new_out[a],
                        #[trigger] new_out[b],
                    ) by {
                        assert(new_out[a] == old_out[a]);
                        if b < old_out.len() {
                            assert(new_out[b] == old_out[b]);
                        } else if a < old_out.len() - 1 {
                            assert(text::before(old_out[a], old_out[old_out.len() - 1]));
                            text::lemma_before_transitive(old_out[a], l, k);
                        }
                    }
                }
            }
        }
        proof {
            let new_out = text::texts(out@);
            let prev = all.take(i as int);
            let next = all.take(i + 1);
            assert forall|x: Seq<char>| #[trigger] new_out.contains(x) == next.contains(x) by {
                assert(old_out.contains(x) == prev.contains(x));
                if prev.contains(x) {
                    let j = choose|j: int| 0 <= j < prev.len() && prev[j] == x;
                    assert(next[j] == x);
                }
                if next.contains(x) {
                    let j = choose|j: int| 0 <= j < next.len() && next[j] == x;
                    if j < prev.len() {
                        assert(prev[j] == x);
                    } else {
                        assert(x == k);
                        assert(new_out.last() == k);
                        assert(new_out[new_out.len() - 1] == x);
                    }
                }
                if old_out.contains(x) {
                    let j = choose|j: int| 0 <= j < old_out.len() && old_out[j] == x;
                    assert(new_out[j] == x);
                }
                if new_out.contains(x) {
                    let j = choose|j: int| 0 <= j < new_out.len() && new_out[j] == x;
                    if j < old_out.len() {
                        assert(old_out[j] == x);
                    } else {
                        assert(x == k);
                        assert(next[i as int] == x);
                    }
                }
            }
        }
        i = i + 1;
    }
    assert(all.take(v@.len() as int) =~= all);
    out
}

/// The distinct strings of a vector, ascending.
pub fn ascending_set(v: Vec<String>) -> (r: Vec<String>)
    ensures
        ascending(text::texts(r@)),
        forall|k: Seq<char>|
            #![trigger text::texts(r@).contains(k)]
            #![trigger text::texts(v@).contains(k)]
            text::texts(r@).contains(k) == text::texts(v@).contains(k),
{
    let ghost all = text::texts(v@);
    let s = sort_by_key(v);
    proof {
        assert(sort::views(v@) =~= all);
        assert(sort::views(s@) =~= text::texts(s@));
        sort::lemma_sorted_in_order::<String>(all);
        assert forall|k: Seq<char>| text::texts(s@).contains(k) == all.contains(k) by {
            sort::lemma_sorted_contains::<String>(all, k);
        }
    }
    dedup_sorted(s)
}

/// Whether a key occurs on either side.
pub open spec fn on_either(
    local: Seq<EntityView>,
    remote: Seq<EntityView>,
    key: Seq<char>,
) -> bool {
    has_key(local, key) || has_key(remote, key)
}

/// Appends the keys of the entities to `out`.
fn push_keys(out: &mut Vec<String>, s: &[Entity])
    ensures
        text::texts(final(out)@) == text::texts(old(out)@) + keys_of(entity::entities(s@)),
{
    let ghost start = text::texts(out@);
    let ghost keys = keys_of(entity::entities(s@));
    let mut i: usize = 0;
    assert(start + keys.take(0) =~= start);
    while i < s.len()
        invariant
            i <= s@.len(),
            keys == keys_of(entity::entities(s@)),
            text::texts(out@) == start + keys.take(i as int),
        decreases s@.len() - i,
    {
        let ghost before_push = text::texts(out@);
        out.push(s[i].key.clone());
        proof {
            assert(text::texts(out@) =~= before_push.push(s@[i as int].key@));
            assert(keys.take(i + 1) =~= keys.take(i as int).push(keys[i as int]));
            assert(start + keys.take(i + 1) =~= (start + keys.take(i as int)).push(keys[i as int]));
        }
        i = i + 1;
    }
    assert(keys.take(s@.len() as int) =~= keys);
}

/// The distinct keys of both sides, ascending.
fn union_keys(local: &[Entity], remote: &[Entity]) -> (r: Vec<String>)
    ensures
        ascending(text::texts(r@)),
        forall|k: Seq<char>| #[trigger]
            text::texts(r@).contains(k) == on_either(
                entity::entities(local@),
                entity::entities(remote@),
                k,
            ),
{
    let ghost l = entity::entities(local@);
    let ghost m = entity::entities(remote@);
    let mut all: Vec<String> = Vec::new();
    push_keys(&mut all, local);
    push_keys(&mut all, remote);
    let ghost joined = text::texts(all@);
    proof {
        assert(joined =~= keys_of(l) + keys_of(m));
        assert forall|k: Seq<char>| joined.contains(k) == on_either(l, m, k) by {
            if joined.contains(k) {
                let j = choose|j: int| 0 <= j < joined.len() && joined[j] == k;
                if j < l.len() {
                    assert(l[j].key == k);
                } else {
                    assert(m[j - l.len()].key == k);
                }
            }
            if has_key(l, k) {
                let j = choose|j: int| 0 <= j < l.len() && (#[trigger] l[j]).key == k;
                assert(joined[j] == k);
            }
            if has_key(m, k) {
                let j = choose|j: int| 0 <= j < m.len() && (#[trigger] m[j]).key == k;
                assert(joined[l.len() + j] == k);
            }
        }
    }
    ascending_set(all)
}

/// Whether key `f` cannot be a file beside `d`: `d` is `f` as a folder or lies
/// under it.
pub open spec fn path_clash(f: Seq<char>, d: Seq<char>) -> bool {
    ||| !text::ends_with_char(f, '/') && text::starts_with_text(d, f.push('/'))
    ||| text::ends_with_char(d, '/') && f == d.drop_last()
}

/// Whether a key is part of a file-vs-folder path collision among the keys.
pub open spec fn path_collided(keys: Seq<Seq<char>>, key: Seq<char>) -> bool {
    exists|o: Seq<char>| #[trigger]
        keys.contains(o) && (path_clash(key, o) || path_clash(o, key))
}

/// Whether file key `f` clashes with `d`.
fn clash(f: &Vec<char>, d: &Vec<char>) -> (r: bool)
    ensures
        r == path_clash(f@, d@),
{
    if d.len() <= f.len() {
        assert(d@.len() != f@.push('/').len());
        return false;
    }
    let prefixed = chars_start_with(d, f);
    let n: usize = f.len();
    proof {
        let fs = f@.push('/');
        if prefixed && d@[n as int] == '/' {
            assert(d@.take(n + 1) =~= fs);
        }
        if text::starts_with_text(d@, fs) {
            assert(d@.take(n as int) =~= fs.take(n as int));
            assert(fs.take(n as int) =~= f@);
            assert(d@[n as int] == d@.take(n + 1)[n as int]);
        }
        if d@.len() == n + 1 {
            assert(d@.drop_last() =~= d@.take(n as int));
        }
    }
    if !prefixed || d[n] != '/' {
        return false;
    }
    let f_slash = n > 0 && f[n - 1] == '/';
    !f_slash || d.len() == n + 1
}

/// For each key, whether it is part of a file-vs-folder path collision: a file
/// key `K` beside a `K/` folder key or a `K/...` descendant, and those
/// themselves.
fn path_collision_keys(keys: &Vec<String>) -> (r: Vec<bool>)
    ensures
        r@.len() == keys@.len(),
        forall|i: int|
            0 <= i < r@.len() ==> #[trigger] r@[i] == path_collided(
                text::texts(keys@),
                keys@[i]@,
            ),
{
    let ghost all = text::texts(keys@);
    let mut chars: Vec<Vec<char>> = Vec::new();
    let mut i: usize = 0;
    while i < keys.len()
        invariant
            i <= keys@.len(),
            all == text::texts(keys@),
            text::char_seqs(chars@) == all.take(i as int),
        decreases keys@.len() - i,
    {
        let ghost prev = text::char_seqs(chars@);
        chars.push(chars_of(keys[i].as_str()));
        assert(text::char_seqs(chars@) =~= prev.push(keys@[i as int]@));
        assert(all.take(i + 1) =~= all.take(i as int).push(all[i as int]));
        i = i + 1;
    }
    assert(all.take(keys@.len() as int) =~= all);
    let mut out: Vec<bool> = Vec::new();
    let mut a: usize = 0;
    while a < chars.len()
        invariant
            a <= chars@.len(),
            all == text::texts(keys@),
            text::char_seqs(chars@) == all,
            out@.len() == a,
            forall|j: int| 0 <= j < a ==> #[trigger] out@[j] == path_collided(all, all[j]),
        decreases chars@.len() - a,
    {
        assert(chars@[a as int]@ == text::char_seqs(chars@)[a as int]);
        let mut hit = false;
        let mut b: usize = 0;
        while b < chars.len()
            invariant
                a < chars@.len(),
                b <= chars@.len(),
                text::char_seqs(chars@) == all,
                chars@[a as int]@ == all[a as int],
                hit == exists|j: int|
                    0 <= j < b && (path_clash(all[a as int], #[trigger] all[j]) || path_clash(
                        all[j],
                        all[a as int],
                    )),
            decreases chars@.len() - b,
        {
            assert(chars@[b as int]@ == text::char_seqs(chars@)[b as int]);
            if clash(&chars[a], &chars[b]) || clash(&chars[b], &chars[a]) {
                hit = true;
            }
            b = b + 1;
        }
        proof {
            if hit {
                let j = choose|j: int|
                    0 <= j < all.len() && (path_clash(all[a as int], #[trigger] all[j])
                        || path_clash(all[j], all[a as int]));
                assert(all.contains(all[j]));
            }
            if path_collided(all, all[a as int]) {
                let o = choose|o: Seq<char>| #[trigger]
                    all.contains(o) && (path_clash(all[a as int], o) || path_clash(o, all[a as int]));
                let j = choose|j: int| 0 <= j < all.len() && all[j] == o;
                assert(path_clash(all[a as int], all[j]) || path_clash(all[j], all[a as int]));
            }
        }
        out.push(hit);
        a = a + 1;
    }
    out
}

/// Whether a key is part of a path collision among the keys of both sides.
pub open spec fn collides(
    local: Seq<EntityView>,
    remote: Seq<EntityView>,
    key: Seq<char>,
) -> bool {
    exists|o: Seq<char>| #[trigger]
        on_either(local, remote, o) && (path_clash(key, o) || path_clash(o, key))
}

/// The action planned for a key.
pub open spec fn planned(
    local: Seq<EntityView>,
    remote: Seq<EntityView>,
    mode: Mode,
    opts: PlanOpts,
    key: Seq<char>,
) -> ActionView {
    let l = find(local, key);
    let r = find(remote, key);
    let (kind, why) = resolution(l, r, mode, opts, collides(local, remote, key));
    ActionView { key, kind, reason: why, local: l, remote: r }
}

/// The keys of a sequence of actions.
pub open spec fn action_keys(a: Seq<ActionView>) -> Seq<Seq<char>> {
    Seq::new(a.len(), |i: int| a[i].key)
}

/// Whether `a` is the plan of the two sides: one action for each key of either
/// side, by ascending key.
pub open spec fn plan_of(
    a: Seq<ActionView>,
    local: Seq<EntityView>,
    remote: Seq<EntityView>,
    mode: Mode,
    opts: PlanOpts,
) -> bool {
    &&& ascending(action_keys(a))
    &&& forall|k: Seq<char>| #[trigger] action_keys(a).contains(k) == on_either(local, remote, k)
    &&& forall|i: int|
        0 <= i < a.len() ==> #[trigger] a[i] == planned(local, remote, mode, opts, a[i].key)
}

/// The plan of two sides is determined by them.
pub proof fn lemma_plan_unique(
    a: Seq<ActionView>,
    b: Seq<ActionView>,
    local: Seq<EntityView>,
    remote: Seq<EntityView>,
    mode: Mode,
    opts: PlanOpts,
)
    requires
        plan_of(a, local, remote, mode, opts),
        plan_of(b, local, remote, mode, opts),
    ensures
        a == b,
{
    assert forall|k: Seq<char>| #[trigger] action_keys(a).contains(k) == action_keys(b).contains(k) by {
        assert(action_keys(a).contains(k) == on_either(local, remote, k));
    }
    lemma_ascending_unique(action_keys(a), action_keys(b));
    assert(a.len() == action_keys(a).len() && b.len() == action_keys(b).len());
    assert forall|i: int| 0 <= i < a.len() implies a[i] == b[i] by {
        assert(action_keys(a)[i] == a[i].key);
        assert(action_keys(b)[i] == b[i].key);
    }
    assert(a =~= b);
}

/// The plan of two sides.
pub open spec fn full_plan(
    local: Seq<EntityView>,
    remote: Seq<EntityView>,
    mode: Mode,
    opts: PlanOpts,
) -> Seq<ActionView> {
    choose|a: Seq<ActionView>| plan_of(a, local, remote, mode, opts)
}

/// Build the full plan. If a key occurs twice on one side, the last entity
/// with it counts.
pub fn plan(local: &[Entity], remote: &[Entity], mode: Mode, opts: &PlanOpts) -> (r: Plan)
    ensures
        plan_of(
            actions(r.actions@),
            entity::entities(local@),
            entity::entities(remote@),
            mode,
            *opts,
        ),
        actions(r.actions@) == full_plan(
            entity::entities(local@),
            entity::entities(remote@),
            mode,
            *opts,
        ),
        r.stats == tallies(actions(r.actions@)),
{
    let ghost l = entity::entities(local@);
    let ghost m = entity::entities(remote@);
    let keys = union_keys(local, remote);
    let ghost all = text::texts(keys@);
    let collided = path_collision_keys(&keys);
    let mut out: Vec<Action> = Vec::new();
    let mut i: usize = 0;
    while i < keys.len()
        invariant
            i <= keys@.len(),
            collided@.len() == keys@.len(),
            l == entity::entities(local@),
            m == entity::entities(remote@),
            all == text::texts(keys@),
            forall|k: Seq<char>| #[trigger] all.contains(k) == on_either(l, m, k),
            forall|j: int|
                0 <= j < collided@.len() ==> #[trigger] collided@[j] == path_collided(
                    all,
                    keys@[j]@,
                ),
            out@.len() == i,
            forall|j: int|
                0 <= j < i ==> #[trigger] actions(out@)[j] == planned(l, m, mode, *opts, all[j]),
        decreases keys@.len() - i,
    {
        let ghost key = keys@[i as int]@;
        let loc = find_entity(local, keys[i].as_str());
        let rem = find_entity(remote, keys[i].as_str());
        let (kind, why) = resolve(loc, rem, mode, opts, collided[i]);
        let ghost prev = actions(out@);
        let local_copy = match loc {
            Some(e) => Some(e.clone()),
            None => None,
        };
        let remote_copy = match rem {
            Some(e) => Some(e.clone()),
            None => None,
        };
        out.push(
            Action {
                key: keys[i].clone(),
                kind,
                reason: why,
                local: local_copy,
                remote: remote_copy,
            },
        );
        proof {
            assert(path_collided(all, key) == collides(l, m, key)) by {
                if path_collided(all, key) {
                    let o = choose|o: Seq<char>| #[trigger]
                        all.contains(o) && (path_clash(key, o) || path_clash(o, key));
                    assert(on_either(l, m, o));
                }
                if collides(l, m, key) {
                    let o = choose|o: Seq<char>| #[trigger]
                        on_either(l, m, o) && (path_clash(key, o) || path_clash(o, key));
                    assert(all.contains(o));
                }
            }
            assert(all[i as int] == key);
            assert(actions(out@) =~= prev.push(out@[i as int]@));
            assert(out@[i as int]@ == planned(l, m, mode, *opts, key));
        }
        i = i + 1;
    }
    proof {
        let a = actions(out@);
        assert(action_keys(a) =~= all);
        assert(plan_of(a, l, m, mode, *opts));
        lemma_plan_unique(a, full_plan(l, m, mode, *opts), l, m, mode, *opts);
    }
    let stats = compute_stats(&out);
    Plan { actions: out, stats }
}

/// The text two keys share if they differ in case alone: lower-cased, without
/// the `/` of a folder key.
pub open spec fn fold(key: Seq<char>) -> Seq<char> {
    text::lowercase_text(text::strip_slash(key))
}

/// Whether another key of either side differs from `key` in case alone.
pub open spec fn case_collided(
    local: Seq<EntityView>,
    remote: Seq<EntityView>,
    key: Seq<char>,
) -> bool {
    &&& on_either(local, remote, key)
    &&& exists|o: Seq<char>| #[trigger]
        on_either(local, remote, o) && o != key && fold(o) == fold(key)
}

/// The folded form of a key.
fn fold_key(key: &str) -> (r: String)
    ensures
        r@ == fold(key@),
{
    let c = chars_of(key);
    let n: usize = c.len();
    if n > 0 && c[n - 1] == '/' {
        let s = string_of(&c, 0, n - 1);
        assert(s@ =~= key@.drop_last());
        lowercase_string(s.as_str())
    } else {
        lowercase_string(key)
    }
}

/// Keys involved in a case-only collision, ascending.
///
/// Key identity is case-sensitive and codepoint-exact, with no Unicode
/// normalization. This detects case-only collisions - within either side's
/// list or across the two - via a Unicode lower-case fold, so a `Note.md` vs
/// `note.md` clash is never auto-paired as equal.
pub fn case_collision_keys(local: &[Entity], remote: &[Entity]) -> (r: Vec<String>)
    ensures
        ascending(text::texts(r@)),
        forall|k: Seq<char>| #[trigger]
            text::texts(r@).contains(k) == case_collided(
                entity::entities(local@),
                entity::entities(remote@),
                k,
            ),
{
    let ghost l = entity::entities(local@);
    let ghost m = entity::entities(remote@);
    let keys = union_keys(local, remote);
    let ghost all = text::texts(keys@);
    let mut folds: Vec<String> = Vec::new();
    let mut i: usize = 0;
    while i < keys.len()
        invariant
            i <= keys@.len(),
            folds@.len() == i,
            forall|j: int| 0 <= j < i ==> (#[trigger] folds@[j])@ == fold(keys@[j]@),
        decreases keys@.len() - i,
    {
        folds.push(fold_key(keys[i].as_str()));
        i = i + 1;
    }
    let mut out: Vec<String> = Vec::new();
    let mut a: usize = 0;
    while a < keys.len()
        invariant
            a <= keys@.len(),
            all == text::texts(keys@),
            ascending(all),
            forall|k: Seq<char>| #[trigger] all.contains(k) == on_either(l, m, k),
            folds@.len() == keys@.len(),
            forall|j: int| 0 <= j < keys@.len() ==> (#[trigger] folds@[j])@ == fold(keys@[j]@),
            ascending(text::texts(out@)),
            forall|k: Seq<char>| #[trigger]
                text::texts(out@).contains(k) == (all.take(a as int).contains(k) && case_collided(
                    l,
                    m,
                    k,
                )),
        decreases keys@.len() - a,
    {
        let ghost key = all[a as int];
        let mut hit = false;
        let mut b: usize = 0;
        while b < keys.len()
            invariant
                a < keys@.len(),
                b <= keys@.len(),
                folds@.len() == keys@.len(),
                all == text::texts(keys@),
                forall|j: int| 0 <= j < keys@.len() ==> (#[trigger] folds@[j])@ == fold(keys@[j]@),
                hit == exists|j: int|
                    0 <= j < b && j != a && fold(#[trigger] all[j]) == fold(all[a as int]),
            decreases keys@.len() - b,
        {
            assert(all[b as int] == keys@[b as int]@);
            assert(folds@[b as int]@ == fold(all[b as int]));
            assert(folds@[a as int]@ == fold(all[a as int]));
            if a != b && same_text(folds[a].as_str(), folds[b].as_str()) {
                hit = true;
            }
            b = b + 1;
        }
        let ghost prev = text::texts(out@);
        proof {
            assert(all.contains(key));
            if hit {
                let j = choose|j: int|
                    0 <= j < all.len() && j != a && fold(#[trigger] all[j]) == fold(key);
                assert(all.contains(all[j]));
                if j < a {
                    assert(text::before(all[j], all[a as int]));
                } else {
                    assert(text::before(all[a as int], all[j]));
                }
                text::lemma_before_irreflexive(key);
                assert(on_either(l, m, all[j]));
            }
            if case_collided(l, m, key) {
                let o = choose|o: Seq<char>| #[trigger]
                    on_either(l, m, o) && o != key && fold(o) == fold(key);
                assert(all.contains(o));
                let j = choose|j: int| 0 <= j < all.len() && all[j] == o;
                assert(fold(all[j]) == fold(key));
            }
            assert(hit == case_collided(l, m, key));
        }
        if hit {
            out.push(keys[a].clone());
        }
        proof {
            let next = text::texts(out@);
            let before_part = all.take(a as int);
            let part = all.take(a + 1);
            assert(part =~= before_part.push(key));
            if hit {
                assert(next =~= prev.push(key));
                assert forall|x: int, y: int| 0 <= x < y < next.len() implies text::before(
                    #[trigger] next[x],
                    #[trigger] next[y],
                ) by {
                    assert(next[x] == prev[x]);
                    if y < prev.len() {
                        assert(next[y] == prev[y]);
                    } else {
                        assert(prev.contains(prev[x]));
                        let j = choose|j: int|
                            0 <= j < before_part.len() && before_part[j] == prev[x];
                        assert(all[j] == prev[x]);
                        assert(text::before(all[j], all[a as int]));
                    }
                }
            }
            assert forall|k: Seq<char>| #[trigger] next.contains(k) == (part.contains(k)
                && case_collided(l, m, k)) by {
                assert(prev.contains(k) == (before_part.contains(k) && case_collided(l, m, k)));
                if before_part.contains(k) {
                    let j = choose|j: int| 0 <= j < before_part.len() && before_part[j] == k;
                    assert(part[j] == k);
                }
                if part.contains(k) {
                    let j = choose|j: int| 0 <= j < part.len() && part[j] == k;
                    if j < before_part.len() {
                        assert(before_part[j] == k);
                    } else {
                        assert(k == key);
                    }
                }
                if hit {
                    assert(next[next.len() - 1] == key);
                    assert(part[a as int] == key);
                    if prev.contains(k) {
                        let j = choose|j: int| 0 <= j < prev.len() && prev[j] == k;
                        assert(next[j] == k);
                    }
                    if next.contains(k) {
                        let j = choose|j: int| 0 <= j < next.len() && next[j] == k;
                        if j < prev.len() {
                            assert(prev[j] == k);
                        }
                    }
                }
            }
        }
        a = a + 1;
    }
    assert(all.take(keys@.len() as int) =~= all);
    out
}

} // verus!
