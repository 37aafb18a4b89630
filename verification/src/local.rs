//! The local side: reserved names, key paths, the vault walk and the checks
//! around opening a file.
//!
//! The walk reads no directory itself: it is told of each node it meets and
//! answers what to do next. Its omissions:
//! - symlinks below the root are skipped and counted, unless they are
//!   followed; a followed one that leaves the vault is skipped with a warning;
//! - device, FIFO and socket nodes are skipped, whatever their names;
//! - nodes that vanish during the walk are skipped;
//! - the control plane (`.vaultsync/`) is never walked;
//! - reserved temp and probe files are skipped and counted;
//! - ignored files are skipped, ignored folders pruned, and both counted;
//! - a file or folder whose name is no valid key fails the walk.

use vstd::prelude::*;
use crate::entity;
use crate::entity::{ensure_valid_key, Entity, EntityView};
use crate::error::{Error, ErrorView};
use crate::ignore;
use crate::ignore::{final_segment_of, IgnoreSet};
use crate::inventory;
use crate::laws;
use crate::manifest;
use crate::manifest::clone_entities;
use crate::plan;
use crate::sort;
use crate::text;
use crate::text::{
    cat2, cat3, chars_contain, chars_of, chars_start_with, debug_string, decimal, ends_with_slash,
    same_text, string_of, text_among, text_before, text_starts_with,
};

verus! {

/// The key of the remote inventory manifest.
pub const MANIFEST_KEY: &'static str = ".vaultsync/manifest/v1.json";

/// Whether a key lies in the control plane, which is never synced.
pub open spec fn control_plane(key: Seq<char>) -> bool {
    text::starts_with_text(key, ".vaultsync/"@)
}

/// Whether a key lies in the control plane (`.vaultsync/...`).
pub fn is_vaultsync_control_plane_key(key: &str) -> (r: bool)
    ensures
        r == control_plane(key@),
{
    text_starts_with(key, ".vaultsync/")
}

/// Whether a file name is reserved: a connectivity probe or a temp buffer.
pub open spec fn reserved_name(name: Seq<char>) -> bool {
    ||| text::starts_with_text(name, ".vaultsync-check-"@)
    ||| text::starts_with_text(name, "."@) && text::contains_text(name, ".vaultsync-tmp-"@)
}

/// Whether the final-segment name is reserved (`.vaultsync-check-*` probes and
/// `.*.vaultsync-tmp-*` temp buffers).
pub fn is_reserved_vaultsync_key_name(name: &str) -> (r: bool)
    ensures
        r == reserved_name(name@),
{
    let c = chars_of(name);
    chars_reserved(&c)
}

/// Whether the characters spell a reserved name.
pub fn chars_reserved(c: &Vec<char>) -> (r: bool)
    ensures
        r == reserved_name(c@),
{
    let check = chars_of(".vaultsync-check-");
    let dot = chars_of(".");
    let tmp = chars_of(".vaultsync-tmp-");
    chars_start_with(c, &check) || (chars_start_with(c, &dot) && chars_contain(c, &tmp))
}

/// A path joined to a base: an absolute path stands alone, and a base that is
/// empty or ends with `/` gets no separator.
pub open spec fn joined(base: Seq<char>, rel: Seq<char>) -> Seq<char> {
    if rel.len() > 0 && rel[0] == '/' {
        rel
    } else if base.len() == 0 || base.last() == '/' {
        base + rel
    } else {
        base.push('/') + rel
    }
}

/// Joins a path to a base.
pub fn join_path(base: &str, rel: &str) -> (r: String)
    ensures
        r@ == joined(base@, rel@),
{
    let b = chars_of(base);
    let c = chars_of(rel);
    if c.len() > 0 && c[0] == '/' {
        return rel.to_owned();
    }
    let mut out = base.to_owned();
    if b.len() > 0 && b[b.len() - 1] != '/' {
        out.push('/');
    }
    out.append(rel);
    out
}

/// What [`key_to_local_path`] returns.
pub open spec fn local_path(root: Seq<char>, key: Seq<char>) -> Result<Seq<char>, ErrorView> {
    match entity::key_fault(key) {
        Some(m) => Err(ErrorView::InvalidKey(m)),
        None => if text::ends_with_char(key, '/') {
            Err(
                ErrorView::InvalidKey(
                    "folder keys are not valid for file operations: "@ + text::debug_text(key),
                ),
            )
        } else {
            Ok(joined(root, key))
        },
    }
}

/// The view of a result that carries a text.
pub open spec fn text_result(r: Result<String, Error>) -> Result<Seq<char>, ErrorView> {
    match r {
        Ok(s) => Ok(s@),
        Err(e) => Err(e@),
    }
}

/// The single vault-relative -> local-path join site: every file operation
/// goes through here, so that a key is validated before any file system
/// action. Rejects invalid keys and folder keys.
pub fn key_to_local_path(root: &str, key: &str) -> (r: Result<String, Error>)
    ensures
        text_result(r) == local_path(root@, key@),
{
    if let Err(e) = ensure_valid_key(key) {
        return Err(e);
    }
    if ends_with_slash(key) {
        let d = debug_string(key);
        return Err(
            Error::InvalidKey(
                cat2("folder keys are not valid for file operations: ", d.as_str()),
            ),
        );
    }
    Ok(join_path(root, key))
}

/// One component of a relative path.
#[derive(Debug)]
pub enum PathPart {
    /// An ordinary name.
    Normal(String),
    /// A name that is not valid UTF-8, in its debug form.
    NotUtf8(String),
    /// `.`, `..`, a root or a prefix.
    Special,
}

/// The mathematical view of a [`PathPart`].
pub enum PartView {
    Normal(Seq<char>),
    NotUtf8(Seq<char>),
    Special,
}

impl View for PathPart {
    type V = PartView;

    open spec fn view(&self) -> PartView {
        match *self {
            PathPart::Normal(s) => PartView::Normal(s@),
            PathPart::NotUtf8(s) => PartView::NotUtf8(s@),
            PathPart::Special => PartView::Special,
        }
    }
}

/// The views of a sequence of path components.
pub open spec fn parts(v: Seq<PathPart>) -> Seq<PartView> {
    Seq::new(v.len(), |i: int| v[i]@)
}

/// The components joined with `/`, or the fault of the first that has no
/// place in a key. `shown` is the debug form of the path.
pub open spec fn joined_parts(p: Seq<PartView>, shown: Seq<char>) -> Result<Seq<char>, ErrorView>
    decreases p.len(),
{
    if p.len() == 0 {
        Ok(Seq::<char>::empty())
    } else {
        match joined_parts(p.drop_last(), shown) {
            Err(e) => Err(e),
            Ok(s) => match p.last() {
                PartView::Normal(name) => Ok(
                    if p.len() == 1 {
                        name
                    } else {
                        s.push('/') + name
                    },
                ),
                PartView::NotUtf8(name) => Err(
                    ErrorView::InvalidKey("key component is not valid UTF-8: "@ + name),
                ),
                PartView::Special => Err(
                    ErrorView::InvalidKey("key contains a non-normal path component: "@ + shown),
                ),
            },
        }
    }
}

/// What [`path_to_key`] returns.
pub open spec fn key_of_path(p: Seq<PartView>, shown: Seq<char>) -> Result<Seq<char>, ErrorView> {
    match joined_parts(p, shown) {
        Err(e) => Err(e),
        Ok(key) => match entity::key_fault(key) {
            Some(m) => Err(ErrorView::InvalidKey(m)),
            None => Ok(key),
        },
    }
}

proof fn lemma_part_error_stays(p: Seq<PartView>, shown: Seq<char>, i: int)
    requires
        0 <= i <= p.len(),
        joined_parts(p.take(i), shown) is Err,
    ensures
        joined_parts(p, shown) == joined_parts(p.take(i), shown),
    decreases p.len() - i,
{
    if i < p.len() {
        assert(p.take(i + 1).drop_last() =~= p.take(i));
        lemma_part_error_stays(p, shown, i + 1);
    } else {
        assert(p.take(i) =~= p);
    }
}

/// Build a vault-relative key from the components of a relative path, and
/// validate it. A component that is not UTF-8, or not an ordinary name, fails;
/// a name with a backslash stays one component and fails validation.
pub fn path_to_key(rel: &Vec<PathPart>, shown: &str) -> (r: Result<String, Error>)
    ensures
        text_result(r) == key_of_path(parts(rel@), shown@),
{
    let ghost all = parts(rel@);
    let mut key = String::new();
    let mut i: usize = 0;
    assert(all.take(0) =~= Seq::<PartView>::empty());
    while i < rel.len()
        invariant
            i <= rel@.len(),
            all == parts(rel@),
            joined_parts(all.take(i as int), shown@) == Ok::<_, ErrorView>(key@),
        decreases rel@.len() - i,
    {
        let ghost part = all.take(i + 1);
        assert(part.drop_last() =~= all.take(i as int));
        assert(part.last() == rel@[i as int]@);
        match &rel[i] {
            PathPart::Normal(name) => {
                if i > 0 {
                    key.push('/');
                    key.append(name.as_str());
                } else {
                    key = name.clone();
                }
            },
            PathPart::NotUtf8(name) => {
                proof {
                    lemma_part_error_stays(all, shown@, i + 1);
                }
                return Err(
                    Error::InvalidKey(cat2("key component is not valid UTF-8: ", name.as_str())),
                );
            },
            PathPart::Special => {
                proof {
                    lemma_part_error_stays(all, shown@, i + 1);
                }
                return Err(
                    Error::InvalidKey(cat2("key contains a non-normal path component: ", shown)),
                );
            },
        }
        i = i + 1;
    }
    assert(all.take(i as int) =~= all);
    match ensure_valid_key(key.as_str()) {
        Ok(()) => Ok(key),
        Err(e) => Err(e),
    }
}

/// Milliseconds since the epoch, modulo 2^64: always known. Times before the
/// epoch are 0 (known, very old) rather than "unknown".
pub fn system_time_to_ms(ms: i128) -> (r: Option<u64>)
    ensures
        r == Some(
            if ms < 0 {
                0u64
            } else {
                (ms % 0x1_0000_0000_0000_0000) as u64
            },
        ),
{
    if ms < 0 {
        Some(0)
    } else {
        Some((ms % 0x1_0000_0000_0000_0000) as u64)
    }
}

/// Report surfaced from a walk. Counters are modulo 2^32.
#[derive(Debug, PartialEq)]
pub struct WalkReport {
    /// Symlinks skipped (not followed, or with a target outside the vault).
    pub skipped_symlinks: u32,
    /// Reserved temp/probe files skipped (crash leftovers).
    pub skipped_temp_files: u32,
    /// Paths skipped by ignore patterns; a pruned folder counts once.
    pub skipped_ignored: u32,
    /// Keys of followed file symlinks: listed, but never transferred.
    pub followed_files: Vec<String>,
    /// Human warnings.
    pub warnings: Vec<String>,
}

/// The mathematical view of a [`WalkReport`].
pub struct ReportView {
    pub skipped_symlinks: u32,
    pub skipped_temp_files: u32,
    pub skipped_ignored: u32,
    pub followed_files: Seq<Seq<char>>,
    pub warnings: Seq<Seq<char>>,
}

impl View for WalkReport {
    type V = ReportView;

    open spec fn view(&self) -> ReportView {
        ReportView {
            skipped_symlinks: self.skipped_symlinks,
            skipped_temp_files: self.skipped_temp_files,
            skipped_ignored: self.skipped_ignored,
            followed_files: text::texts(self.followed_files@),
            warnings: text::texts(self.warnings@),
        }
    }
}

/// The report of a walk that met nothing of note.
pub open spec fn empty_report() -> ReportView {
    ReportView {
        skipped_symlinks: 0,
        skipped_temp_files: 0,
        skipped_ignored: 0,
        followed_files: Seq::<Seq<char>>::empty(),
        warnings: Seq::<Seq<char>>::empty(),
    }
}

impl Default for WalkReport {
    fn default() -> (r: Self)
        ensures
            r@ == empty_report(),
    {
        let r = WalkReport {
            skipped_symlinks: 0,
            skipped_temp_files: 0,
            skipped_ignored: 0,
            followed_files: Vec::new(),
            warnings: Vec::new(),
        };
        assert(r@.followed_files =~= empty_report().followed_files);
        assert(r@.warnings =~= empty_report().warnings);
        r
    }
}

/// Copies of the strings.
pub fn clone_strings(v: &Vec<String>) -> (r: Vec<String>)
    ensures
        text::texts(r@) == text::texts(v@),
        r@.len() == v@.len(),
{
    let mut out: Vec<String> = Vec::new();
    let mut i: usize = 0;
    while i < v.len()
        invariant
            i <= v@.len(),
            out@.len() == i,
            forall|j: int| 0 <= j < i ==> (#[trigger] out@[j])@ == v@[j]@,
        decreases v@.len() - i,
    {
        out.push(v[i].clone());
        i = i + 1;
    }
    assert(text::texts(out@) =~= text::texts(v@));
    out
}

impl Clone for WalkReport {
    fn clone(&self) -> (r: Self)
        ensures
            r@ == self@,
    {
        WalkReport {
            skipped_symlinks: self.skipped_symlinks,
            skipped_temp_files: self.skipped_temp_files,
            skipped_ignored: self.skipped_ignored,
            followed_files: clone_strings(&self.followed_files),
            warnings: clone_strings(&self.warnings),
        }
    }
}

/// What kind of node a directory entry is (a symlink is not followed).
#[derive(Debug, Clone, Copy, PartialEq, Eq, Structural)]
pub enum NodeKind {
    File,
    Dir,
    Symlink,
    /// A device, FIFO or socket.
    Special,
}

/// Where a followed symlink leads.
#[derive(Debug)]
pub enum LinkTarget {
    /// Nowhere: it is dangling, or vanished.
    Missing,
    /// Outside the vault root.
    Outside,
    /// A directory inside the vault, by its canonical path.
    Dir(String),
    /// A file inside the vault.
    File,
    /// Some other node inside the vault.
    Special,
}

/// The mathematical view of a [`LinkTarget`].
pub enum TargetView {
    Missing,
    Outside,
    Dir(Seq<char>),
    File,
    Special,
}

impl View for LinkTarget {
    type V = TargetView;

    open spec fn view(&self) -> TargetView {
        match *self {
            LinkTarget::Missing => TargetView::Missing,
            LinkTarget::Outside => TargetView::Outside,
            LinkTarget::Dir(s) => TargetView::Dir(s@),
            LinkTarget::File => TargetView::File,
            LinkTarget::Special => TargetView::Special,
        }
    }
}

/// What to do next about a node.
#[derive(Debug, PartialEq)]
pub enum WalkStep {
    /// Nothing.
    Skip,
    /// Find out where the symlink leads, and report it to
    /// [`LocalFs::follow_link`].
    Resolve,
    /// Stat the node and report it to [`LocalFs::record`]; descend into a
    /// folder.
    Stat { key: String, folder: bool },
}

/// The mathematical view of a [`WalkStep`].
pub enum StepView {
    Skip,
    Resolve,
    Stat { key: Seq<char>, folder: bool },
}

impl View for WalkStep {
    type V = StepView;

    open spec fn view(&self) -> StepView {
        match *self {
            WalkStep::Skip => StepView::Skip,
            WalkStep::Resolve => StepView::Resolve,
            WalkStep::Stat { key, folder } => StepView::Stat { key: key@, folder },
        }
    }
}

/// The view of a step result.
pub open spec fn step_result(r: Result<WalkStep, Error>) -> Result<StepView, ErrorView> {
    match r {
        Ok(s) => Ok(s@),
        Err(e) => Err(e@),
    }
}

/// Whether a walk may list an entity: its key is valid, a folder has no size of
/// its own, and nothing local has an etag.
pub open spec fn local_row(e: EntityView) -> bool {
    &&& entity::valid_key(e.key)
    &&& e.folder() ==> e.size == 0
    &&& e.etag is None
}

/// Whether entities are a local listing: by ascending key, so that no key
/// occurs twice.
pub open spec fn local_rows(s: Seq<EntityView>) -> bool {
    &&& plan::ascending(plan::keys_of(s))
    &&& forall|i: int| 0 <= i < s.len() ==> local_row(#[trigger] s[i])
}

/// What a walk has found.
#[derive(Debug)]
struct Found {
    rows: Vec<Entity>,
}

impl View for Found {
    type V = Seq<EntityView>;

    closed spec fn view(&self) -> Seq<EntityView> {
        entity::entities(self.rows@)
    }
}

/// Where an entity goes among ordered ones.
proof fn lemma_upsert_at(s: Seq<EntityView>, e: EntityView, i: int)
    requires
        plan::ascending(plan::keys_of(s)),
        0 <= i <= s.len(),
        forall|k: int| 0 <= k < i ==> text::before((#[trigger] s[k]).key, e.key),
        forall|k: int| i <= k < s.len() ==> !text::before((#[trigger] s[k]).key, e.key),
    ensures
        inventory::upsert(s, e) == if i < s.len() && s[i].key == e.key {
            s.update(i, e)
        } else {
            s.insert(i, e)
        },
    decreases s.len(),
{
    text::lemma_before_irreflexive(e.key);
    if s.len() == 0 {
        assert(s.insert(i, e) =~= seq![e]);
    } else {
        let d = s.drop_last();
        let l = s.last();
        let keys = plan::keys_of(s);
        assert forall|a: int, b: int| 0 <= a < b < plan::keys_of(d).len() implies text::before(
            #[trigger] plan::keys_of(d)[a],
            #[trigger] plan::keys_of(d)[b],
        ) by {
            assert(keys[a] == plan::keys_of(d)[a] && keys[b] == plan::keys_of(d)[b]);
        }
        text::lemma_before_total(e.key, l.key);
        if i == s.len() {
            if text::before(e.key, l.key) {
                text::lemma_before_transitive(e.key, l.key, e.key);
            }
            assert(s.insert(i, e) =~= s.push(e));
        } else if l.key == e.key {
            if i < s.len() - 1 {
                assert(text::before(keys[i], keys[s.len() - 1]));
                assert(!text::before(s[i].key, e.key));
            }
            assert(d.push(e) =~= s.update(i, e));
        } else {
            lemma_upsert_at(d, e, i);
            if i < d.len() && d[i].key == e.key {
                assert(d.update(i, e).push(l) =~= s.update(i, e));
            } else {
                assert(d.insert(i, e).push(l) =~= s.insert(i, e));
            }
        }
    }
}

impl Found {
    #[verifier::type_invariant]
    spec fn wf(self) -> bool {
        local_rows(entity::entities(self.rows@))
    }

    /// Nothing.
    fn none() -> (r: Self)
        ensures
            r@ == Seq::<EntityView>::empty(),
    {
        let r = Found { rows: Vec::new() };
        assert(r@ =~= Seq::<EntityView>::empty());
        r
    }

    /// A copy of the rows.
    fn rows(&self) -> (r: Vec<Entity>)
        ensures
            entity::entities(r@) == self@,
            local_rows(self@),
    {
        proof {
            use_type_invariant(self);
        }
        clone_entities(self.rows.as_slice())
    }

    /// The first position whose key does not come before `key`.
    fn slot(rows: &Vec<Entity>, key: &str) -> (r: usize)
        requires
            plan::ascending(plan::keys_of(entity::entities(rows@))),
        ensures
            r <= rows@.len(),
            forall|k: int| 0 <= k < r ==> text::before((#[trigger] rows@[k])@.key, key@),
            forall|k: int| r <= k < rows@.len() ==> !text::before((#[trigger] rows@[k])@.key, key@),
    {
        let ghost keys = plan::keys_of(entity::entities(rows@));
        let mut lo: usize = 0;
        let mut hi: usize = rows.len();
        while lo < hi
            invariant
                lo <= hi <= rows@.len(),
                keys == plan::keys_of(entity::entities(rows@)),
                plan::ascending(keys),
                forall|k: int| 0 <= k < lo ==> text::before((#[trigger] rows@[k])@.key, key@),
                forall|k: int|
                    hi <= k < rows@.len() ==> !text::before((#[trigger] rows@[k])@.key, key@),
            decreases hi - lo,
        {
            let mid: usize = lo + (hi - lo) / 2;
            if text_before(rows[mid].key.as_str(), key) {
                proof {
                    assert forall|k: int| 0 <= k < mid + 1 implies text::before(
                        (#[trigger] rows@[k])@.key,
                        key@,
                    ) by {
                        if k < mid {
                            assert(text::before(keys[k], keys[mid as int]));
                            text::lemma_before_transitive(keys[k], keys[mid as int], key@);
                        }
                    }
                }
                lo = mid + 1;
            } else {
                proof {
                    assert forall|k: int| mid <= k < rows@.len() implies !text::before(
                        (#[trigger] rows@[k])@.key,
                        key@,
                    ) by {
                        if k > mid && text::before(rows@[k]@.key, key@) {
                            assert(text::before(keys[mid as int], keys[k]));
                            text::lemma_before_transitive(keys[mid as int], keys[k], key@);
                        }
                    }
                }
                hi = mid;
            }
        }
        lo
    }

    /// Puts an entity in its place.
    fn place(&mut self, e: Entity)
        requires
            local_row(e@),
        ensures
            final(self)@ == inventory::upsert(old(self)@, e@),
    {
        proof {
            use_type_invariant(&*self);
        }
        let mut rows: Vec<Entity> = Vec::new();
        assert(entity::entities(rows@) =~= Seq::<EntityView>::empty());
        std::mem::swap(&mut rows, &mut self.rows);
        let ghost start = entity::entities(rows@);
        let i = Found::slot(&rows, e.key.as_str());
        proof {
            assert forall|k: int| 0 <= k < start.len() implies (#[trigger] start[k]) == rows@[k]@ by {}
            lemma_upsert_at(start, e@, i as int);
            laws::lemma_upsert(start, e@);
            assert forall|k: int| 0 <= k < inventory::upsert(start, e@).len() implies local_row(
                #[trigger] inventory::upsert(start, e@)[k],
            ) by {
                let x = inventory::upsert(start, e@)[k];
                assert(inventory::upsert(start, e@).contains(x));
            }
        }
        if i < rows.len() && same_text(rows[i].key.as_str(), e.key.as_str()) {
            rows.set(i, e);
            assert(entity::entities(rows@) =~= start.update(i as int, e@));
        } else {
            rows.insert(i, e);
            assert(entity::entities(rows@) =~= start.insert(i as int, e@));
        }
        self.rows = rows;
    }
}

/// A walk over a vault root directory.
#[derive(Debug)]
pub struct LocalFs {
    root: String,
    follow_symlinks: bool,
    ignore: IgnoreSet,
    found: Found,
    report: WalkReport,
    visited: Vec<String>,
}

/// The mathematical view of a [`LocalFs`]: the knobs of the walk, and what it
/// has found so far.
pub struct WalkView {
    pub root: Seq<char>,
    pub follow_symlinks: bool,
    pub ignore: Seq<Seq<char>>,
    pub found: Seq<EntityView>,
    pub report: ReportView,
    /// Canonical paths of the directories that symlinks led to.
    pub visited: Seq<Seq<char>>,
}

impl View for LocalFs {
    type V = WalkView;

    closed spec fn view(&self) -> WalkView {
        WalkView {
            root: self.root@,
            follow_symlinks: self.follow_symlinks,
            ignore: self.ignore@,
            found: self.found@,
            report: self.report@,
            visited: text::texts(self.visited@),
        }
    }
}

/// A walk that has not begun.
pub open spec fn fresh_walk(
    root: Seq<char>,
    follow_symlinks: bool,
    ignore: Seq<Seq<char>>,
) -> WalkView {
    WalkView {
        root,
        follow_symlinks,
        ignore,
        found: Seq::<EntityView>::empty(),
        report: empty_report(),
        visited: Seq::<Seq<char>>::empty(),
    }
}

/// What becomes of a file or folder with a valid key: the control plane is
/// skipped, reserved files and ignored nodes are skipped and counted, the rest
/// is to be listed.
pub open spec fn screened(w: WalkView, key: Seq<char>, folder: bool) -> (WalkView, StepView) {
    if control_plane(key) {
        (w, StepView::Skip)
    } else if !folder && reserved_name(ignore::final_segment(key)) {
        (
            WalkView {
                report: ReportView {
                    skipped_temp_files: w.report.skipped_temp_files.wrapping_add(1),
                    ..w.report
                },
                ..w
            },
            StepView::Skip,
        )
    } else if ignore::ignored(w.ignore, key) {
        (
            WalkView {
                report: ReportView {
                    skipped_ignored: w.report.skipped_ignored.wrapping_add(1),
                    ..w.report
                },
                ..w
            },
            StepView::Skip,
        )
    } else {
        (w, StepView::Stat { key, folder })
    }
}

/// The effect of meeting a node.
pub open spec fn met(w: WalkView, rel: Seq<PartView>, shown: Seq<char>, kind: NodeKind) -> (
    WalkView,
    Result<StepView, ErrorView>,
) {
    match kind {
        NodeKind::Symlink => if w.follow_symlinks {
            (w, Ok(StepView::Resolve))
        } else {
            (
                WalkView {
                    report: ReportView {
                        skipped_symlinks: w.report.skipped_symlinks.wrapping_add(1),
                        ..w.report
                    },
                    ..w
                },
                Ok(StepView::Skip),
            )
        },
        NodeKind::Special => (w, Ok(StepView::Skip)),
        NodeKind::Dir => match key_of_path(rel, shown) {
            Ok(key) => (screened(w, key.push('/'), true).0, Ok(screened(w, key.push('/'), true).1)),
            Err(e) => (w, Err(e)),
        },
        NodeKind::File => match key_of_path(rel, shown) {
            Ok(key) => (screened(w, key, false).0, Ok(screened(w, key, false).1)),
            Err(e) => (w, Err(e)),
        },
    }
}

/// The warning for a followed directory symlink.
pub open spec fn alias_warning(key: Seq<char>) -> Seq<char> {
    "symlink "@ + key
        + " aliases a directory inside the vault; its content is listed under both keys"@
}

/// The effect of learning where a followed symlink leads.
pub open spec fn followed(w: WalkView, rel: Seq<PartView>, shown: Seq<char>, target: TargetView) -> (
    WalkView,
    Result<StepView, ErrorView>,
) {
    match target {
        TargetView::Missing | TargetView::Special => (w, Ok(StepView::Skip)),
        TargetView::Outside => match key_of_path(rel, shown) {
            Ok(key) => (
                WalkView {
                    report: ReportView {
                        skipped_symlinks: w.report.skipped_symlinks.wrapping_add(1),
                        warnings: w.report.warnings.push(
                            "skipping "@ + key + " (symlink escapes vault root)"@,
                        ),
                        ..w.report
                    },
                    ..w
                },
                Ok(StepView::Skip),
            ),
            Err(e) => (w, Err(e)),
        },
        TargetView::Dir(canonical) => if w.visited.contains(canonical) {
            (w, Ok(StepView::Skip))
        } else {
            let marked = WalkView { visited: w.visited.push(canonical), ..w };
            match key_of_path(rel, shown) {
                Ok(key) => {
                    let (next, step) = screened(marked, key.push('/'), true);
                    if step is Stat {
                        (
                            WalkView {
                                report: ReportView {
                                    warnings: next.report.warnings.push(
                                        alias_warning(key.push('/')),
                                    ),
                                    ..next.report
                                },
                                ..next
                            },
                            Ok(step),
                        )
                    } else {
                        (next, Ok(step))
                    }
                },
                Err(e) => (marked, Err(e)),
            }
        },
        TargetView::File => match key_of_path(rel, shown) {
            Ok(key) => {
                let (next, step) = screened(w, key, false);
                if step is Stat {
                    (
                        WalkView {
                            report: ReportView {
                                followed_files: next.report.followed_files.push(key),
                                ..next.report
                            },
                            ..next
                        },
                        Ok(step),
                    )
                } else {
                    (next, Ok(step))
                }
            },
            Err(e) => (w, Err(e)),
        },
    }
}

/// What the stat of a node gave.
#[derive(Debug, Clone, Copy)]
pub struct NodeStat {
    pub size: u64,
    pub mtime_ms: Option<u64>,
}

/// Whether a key is one that a walk asks about: valid, and with a `/` at its
/// end if and only if it names a folder.
pub open spec fn listable(key: Seq<char>, folder: bool) -> bool {
    entity::valid_key(key) && folder == text::ends_with_char(key, '/')
}

/// The row of a node; a folder has no size of its own.
pub open spec fn row_of(key: Seq<char>, folder: bool, st: NodeStat) -> EntityView {
    EntityView {
        key,
        size: if folder {
            0
        } else {
            st.size
        },
        mtime_ms: st.mtime_ms,
        etag: None,
    }
}

/// The walk with one more entity, in its place among the others. A key that no
/// walk asks about is not listed.
pub open spec fn recorded(w: WalkView, key: Seq<char>, folder: bool, stat: Option<NodeStat>) -> WalkView {
    if stat is Some && listable(key, folder) {
        WalkView { found: inventory::upsert(w.found, row_of(key, folder, stat->0)), ..w }
    } else {
        w
    }
}

/// A local listing is in order.
proof fn lemma_rows_in_order(s: Seq<EntityView>)
    requires
        local_rows(s),
    ensures
        manifest::by_key(s) == s,
{
    let keys = plan::keys_of(s);
    assert forall|i: int, j: int| 0 <= i < j < s.len() implies !text::before(
        (#[trigger] s[j]).key,
        (#[trigger] s[i]).key,
    ) by {
        assert(text::before(keys[i], keys[j]));
        if text::before(s[j].key, s[i].key) {
            text::lemma_before_transitive(s[i].key, s[j].key, s[i].key);
            text::lemma_before_irreflexive(s[i].key);
        }
    }
    sort::lemma_sorted_fixed::<Entity>(s);
}

impl LocalFs {
    /// Default: symlinks below the root are skipped and counted.
    pub fn new(root: &str) -> (r: Self)
        ensures
            r@ == fresh_walk(root@, false, Seq::<Seq<char>>::empty()),
    {
        LocalFs::with_follow(root, false)
    }

    /// With `--follow-symlinks`: follow symlinks (loops guarded; out-of-vault
    /// targets are still skipped with a warning).
    pub fn with_follow(root: &str, follow_symlinks: bool) -> (r: Self)
        ensures
            r@ == fresh_walk(root@, follow_symlinks, Seq::<Seq<char>>::empty()),
    {
        let r = LocalFs {
            root: root.to_owned(),
            follow_symlinks,
            ignore: IgnoreSet::empty(),
            found: Found::none(),
            report: WalkReport::default(),
            visited: Vec::new(),
        };
        assert(r@.visited =~= Seq::<Seq<char>>::empty());
        r
    }

    /// The same walk under ignore patterns.
    pub fn with_ignore(self, ignore: IgnoreSet) -> (r: Self)
        ensures
            r@ == (WalkView { ignore: ignore@, ..self@ }),
    {
        LocalFs {
            root: self.root,
            follow_symlinks: self.follow_symlinks,
            ignore,
            found: self.found,
            report: self.report,
            visited: self.visited,
        }
    }

    /// The vault root.
    pub fn root(&self) -> (r: &str)
        ensures
            r@ == self@.root,
    {
        self.root.as_str()
    }

    /// The report of the walk so far.
    pub fn report(&self) -> (r: WalkReport)
        ensures
            r@ == self@.report,
    {
        self.report.clone()
    }

    /// The files and folders found so far, by ascending key.
    pub fn list(&self) -> (r: Vec<Entity>)
        ensures
            entity::entities(r@) == self@.found,
            local_rows(entity::entities(r@)),
            entity::entities(r@) == manifest::by_key(self@.found),
    {
        let r = self.found.rows();
        proof {
            lemma_rows_in_order(self@.found);
        }
        r
    }

    /// The files and folders found so far, plus the report.
    pub fn list_report(&self) -> (r: (Vec<Entity>, WalkReport))
        ensures
            entity::entities(r.0@) == self@.found,
            local_rows(entity::entities(r.0@)),
            entity::entities(r.0@) == manifest::by_key(self@.found),
            r.1@ == self@.report,
    {
        (self.list(), self.report())
    }

    /// What becomes of a file or folder with a valid key.
    fn screen_key(&mut self, key: String, folder: bool) -> (r: WalkStep)
        ensures
            (final(self)@, r@) == screened(old(self)@, key@, folder),
    {
        if is_vaultsync_control_plane_key(key.as_str()) {
            return WalkStep::Skip;
        }
        if !folder {
            let c = chars_of(key.as_str());
            let last = final_segment_of(&c);
            if chars_reserved(&last) {
                self.report.skipped_temp_files = self.report.skipped_temp_files.wrapping_add(1);
                return WalkStep::Skip;
            }
        }
        if self.ignore.matches(key.as_str()) {
            self.report.skipped_ignored = self.report.skipped_ignored.wrapping_add(1);
            return WalkStep::Skip;
        }
        WalkStep::Stat { key, folder }
    }

    /// The walk meets a node; `rel` is its path below the root, and `shown`
    /// that path's debug form.
    pub fn visit(&mut self, rel: &Vec<PathPart>, shown: &str, kind: NodeKind) -> (r: Result<
        WalkStep,
        Error,
    >)
        ensures
            (final(self)@, step_result(r)) == met(old(self)@, parts(rel@), shown@, kind),
    {
        match kind {
            NodeKind::Symlink => {
                if self.follow_symlinks {
                    Ok(WalkStep::Resolve)
                } else {
                    self.report.skipped_symlinks = self.report.skipped_symlinks.wrapping_add(1);
                    Ok(WalkStep::Skip)
                }
            },
            NodeKind::Special => Ok(WalkStep::Skip),
            NodeKind::Dir => match path_to_key(rel, shown) {
                Ok(k) => {
                    let mut key = k;
                    key.push('/');
                    Ok(self.screen_key(key, true))
                },
                Err(e) => Err(e),
            },
            NodeKind::File => match path_to_key(rel, shown) {
                Ok(key) => Ok(self.screen_key(key, false)),
                Err(e) => Err(e),
            },
        }
    }

    /// The walk learns where a symlink leads that it was told to resolve. A
    /// target outside the vault is skipped with a warning; a directory cycle
    /// is cut.
    pub fn follow_link(&mut self, rel: &Vec<PathPart>, shown: &str, target: &LinkTarget) -> (r:
        Result<WalkStep, Error>)
        ensures
            (final(self)@, step_result(r)) == followed(old(self)@, parts(rel@), shown@, target@),
    {
        match target {
            LinkTarget::Missing => Ok(WalkStep::Skip),
            LinkTarget::Special => Ok(WalkStep::Skip),
            LinkTarget::Outside => match path_to_key(rel, shown) {
                Ok(key) => {
                    let ghost w = text::texts(self.report.warnings@);
                    let m = cat3("skipping ", key.as_str(), " (symlink escapes vault root)");
                    self.report.warnings.push(m);
                    assert(text::texts(self.report.warnings@) =~= w.push(m@));
                    self.report.skipped_symlinks = self.report.skipped_symlinks.wrapping_add(1);
                    Ok(WalkStep::Skip)
                },
                Err(e) => Err(e),
            },
            LinkTarget::Dir(canonical) => {
                if text_among(&self.visited, canonical.as_str()) {
                    return Ok(WalkStep::Skip);
                }
                let ghost v = text::texts(self.visited@);
                self.visited.push(canonical.clone());
                assert(text::texts(self.visited@) =~= v.push(canonical@));
                match path_to_key(rel, shown) {
                    Ok(k) => {
                        let mut key = k;
                        key.push('/');
                        let m = cat3(
                            "symlink ",
                            key.as_str(),
                            " aliases a directory inside the vault; its content is listed under both keys",
                        );
                        let step = self.screen_key(key, true);
                        if let WalkStep::Stat { .. } = &step {
                            let ghost w = text::texts(self.report.warnings@);
                            self.report.warnings.push(m);
                            assert(text::texts(self.report.warnings@) =~= w.push(m@));
                        }
                        Ok(step)
                    },
                    Err(e) => Err(e),
                }
            },
            LinkTarget::File => match path_to_key(rel, shown) {
                Ok(key) => {
                    let copy = key.clone();
                    let step = self.screen_key(key, false);
                    if let WalkStep::Stat { .. } = &step {
                        let ghost f = text::texts(self.report.followed_files@);
                        self.report.followed_files.push(copy);
                        assert(text::texts(self.report.followed_files@) =~= f.push(copy@));
                    }
                    Ok(step)
                },
                Err(e) => Err(e),
            },
        }
    }

    /// The walk learns the stat of a node that it was told to stat; `None` if
    /// it has vanished. A walk is told to stat valid keys only, which end with
    /// `/` if and only if they are those of folders: nothing else is recorded.
    pub fn record(&mut self, key: &str, folder: bool, stat: Option<NodeStat>)
        ensures
            final(self)@ == recorded(old(self)@, key@, folder, stat),
    {
        if let Some(st) = stat {
            if ensure_valid_key(key).is_ok() && folder == ends_with_slash(key) {
                let size = if folder {
                    0
                } else {
                    st.size
                };
                let e = Entity { key: key.to_owned(), size, mtime_ms: st.mtime_ms, etag: None };
                self.found.place(e);
            }
        }
    }
}

/// What was seen when a file was opened for upload: the path without following
/// a symlink first, then the opened descriptor.
#[derive(Debug)]
pub enum Opened {
    /// There is nothing at the path.
    Missing,
    /// Looking or opening failed, with this message.
    Failed(String),
    /// The path is a symlink; it was not opened.
    Symlink,
    /// The descriptor.
    Node { regular: bool, size: u64, mtime_ms: Option<u64> },
}

/// Whether two times are further apart than the tolerance.
pub open spec fn drifted(a: u64, b: u64, tolerance: u64) -> bool {
    if a >= b {
        a - b > tolerance
    } else {
        b - a > tolerance
    }
}

/// The error for a file whose size changed between the walk and the open.
pub open spec fn size_changed(key: Seq<char>, want: u64, have: nat) -> ErrorView {
    ErrorView::Other(
        "open_verified: size changed for "@ + key + " (expected "@ + text::dec(want as nat)
            + ", found "@ + text::dec(have) + ")"@,
    )
}

/// The error for a file whose size changed between the walk and the open.
pub fn size_changed_error(key: &str, want: u64, have: u64) -> (r: Error)
    ensures
        r@ == size_changed(key@, want, have as nat),
{
    Error::Other(changed("open_verified: size changed for ", key, want, have))
}

/// Whether a file may be uploaded as planned.
pub open spec fn verified(
    root: Seq<char>,
    key: Seq<char>,
    expected_size: u64,
    expected_mtime_ms: Option<u64>,
    tolerance_ms: u64,
    seen: Opened,
) -> Result<(), ErrorView> {
    match local_path(root, key) {
        Err(e) => Err(e),
        Ok(path) => match seen {
            Opened::Missing => Err(ErrorView::NotFound(key)),
            Opened::Failed(m) => Err(ErrorView::Io(m@)),
            Opened::Symlink => Err(
                ErrorView::Other("refusing to open symlink (was listed as a file): "@ + path),
            ),
            Opened::Node { regular, size, mtime_ms } => if !regular {
                Err(ErrorView::Other("open_verified: not a regular file: "@ + path))
            } else if size != expected_size {
                Err(size_changed(key, expected_size, size as nat))
            } else {
                match (expected_mtime_ms, mtime_ms) {
                    (Some(want), Some(have)) => if drifted(have, want, tolerance_ms) {
                        Err(
                            ErrorView::Other(
                                "open_verified: mtime changed for "@ + key + " (expected "@
                                    + text::dec(want as nat) + ", found "@ + text::dec(have as nat)
                                    + ")"@,
                            ),
                        )
                    } else {
                        Ok(())
                    },
                    _ => Ok(()),
                }
            },
        },
    }
}

/// The message for a property that changed between the walk and the open.
fn changed(what: &str, key: &str, want: u64, have: u64) -> (r: String)
    ensures
        r@ == what@ + key@ + " (expected "@ + text::dec(want as nat) + ", found "@ + text::dec(
            have as nat,
        ) + ")"@,
{
    let mut m = cat3(what, key, " (expected ");
    m.append(decimal(want).as_str());
    m.append(", found ");
    m.append(decimal(have).as_str());
    m.append(")");
    m
}

impl LocalFs {
    /// Verifies an opened file (upload side): still a regular, non-symlink
    /// file of the expected size and, if it is known, mtime after walking. The
    /// size and mtime are those of the opened descriptor.
    pub fn open_verified(
        &self,
        key: &str,
        expected_size: u64,
        expected_mtime_ms: Option<u64>,
        tolerance_ms: u64,
        seen: &Opened,
    ) -> (r: Result<(), Error>)
        ensures
            crate::error::unit_view(r) == verified(
                self@.root,
                key@,
                expected_size,
                expected_mtime_ms,
                tolerance_ms,
                *seen,
            ),
    {
        let path = match key_to_local_path(self.root.as_str(), key) {
            Ok(p) => p,
            Err(e) => return Err(e),
        };
        match seen {
            Opened::Missing => Err(Error::NotFound(key.to_owned())),
            Opened::Failed(m) => Err(Error::Io(m.clone())),
            Opened::Symlink => Err(
                Error::Other(
                    cat2("refusing to open symlink (was listed as a file): ", path.as_str()),
                ),
            ),
            Opened::Node { regular, size, mtime_ms } => {
                if !*regular {
                    return Err(
                        Error::Other(
                            cat2("open_verified: not a regular file: ", path.as_str()),
                        ),
                    );
                }
                if *size != expected_size {
                    return Err(size_changed_error(key, expected_size, *size));
                }
                if let (Some(want), Some(have)) = (expected_mtime_ms, *mtime_ms) {
                    let apart: u64 = if have >= want {
                        have - want
                    } else {
                        want - have
                    };
                    if apart > tolerance_ms {
                        return Err(
                            Error::Other(
                                changed("open_verified: mtime changed for ", key, want, have),
                            ),
                        );
                    }
                }
                Ok(())
            },
        }
    }
}

/// The name of a temp buffer beside a file: `.name.vaultsync-tmp-<pid>-<n>`.
pub open spec fn temp_name(name: Seq<char>, pid: nat, n: nat) -> Seq<char> {
    "."@ + name + ".vaultsync-tmp-"@ + text::dec(pid) + "-"@ + text::dec(n)
}

/// The key with another final segment.
pub open spec fn sibling(key: Seq<char>, name: Seq<char>) -> Seq<char> {
    key.take(key.len() - text::last_segment(key).len()) + name
}

/// The last segment of a text is its end.
pub proof fn lemma_last_segment(s: Seq<char>)
    ensures
        text::last_segment(s).len() <= s.len(),
        s.skip(s.len() - text::last_segment(s).len()) == text::last_segment(s),
        forall|i: int|
            s.len() - text::last_segment(s).len() <= i < s.len() ==> s[i] != '/',
        text::last_segment(s).len() < s.len() ==> s[s.len() - text::last_segment(s).len() - 1]
            == '/',
    decreases s.len(),
{
    text::lemma_segments_nonempty(s);
    if s.len() > 0 {
        lemma_last_segment(s.drop_last());
        text::lemma_segments_nonempty(s.drop_last());
        let n = s.len() - text::last_segment(s).len();
        assert(s.skip(n) =~= text::last_segment(s));
        if s.last() != '/' {
            assert forall|i: int| n <= i < s.len() implies s[i] != '/' by {
                if i < s.len() - 1 {
                    assert(s.drop_last()[i] == s[i]);
                }
            }
            if n > 0 {
                assert(s.drop_last()[n - 1] == s[n - 1]);
            }
        }
    }
}

/// A temp buffer's name is reserved, whatever file it stands beside: the walk
/// never lists one.
pub proof fn law_temp_names_are_reserved(name: Seq<char>, pid: nat, n: nat)
    ensures
        reserved_name(temp_name(name, pid, n)),
{
    let t = temp_name(name, pid, n);
    reveal_strlit(".");
    assert(t.take(1) =~= "."@);
    let at = 1 + name.len();
    let tmp = ".vaultsync-tmp-"@;
    assert(t.subrange(at as int, (at + tmp.len()) as int) =~= tmp);
    assert(text::starts_with_text_at(t, tmp, at as int));
}

/// Temp buffers of one file from different turns of the counter have
/// different names.
pub proof fn law_temp_names_differ(name: Seq<char>, pid: nat, n: nat, m: nat)
    requires
        n != m,
    ensures
        temp_name(name, pid, n) != temp_name(name, pid, m),
{
    let front = "."@ + name + ".vaultsync-tmp-"@ + text::dec(pid) + "-"@;
    text::lemma_dec_injective(n, m);
    if temp_name(name, pid, n) == temp_name(name, pid, m) {
        assert(temp_name(name, pid, n).skip(front.len() as int) =~= text::dec(n));
        assert(temp_name(name, pid, m).skip(front.len() as int) =~= text::dec(m));
    }
}

/// What was found at a directory on the way to the root, from the parent of
/// the file upwards.
#[derive(Debug)]
pub struct Ancestor {
    /// The path, as it is shown.
    pub shown: String,
    /// The components of the canonical path; `None` if nothing is there.
    pub canonical: Option<Vec<String>>,
}

/// Whether a path, given by its components, lies at or below another.
pub open spec fn within(path: Seq<Seq<char>>, base: Seq<Seq<char>>) -> bool {
    base.len() <= path.len() && path.take(base.len() as int) == base
}

/// Whether a directory stays in the vault: its deepest existing ancestor
/// decides.
pub open spec fn locality(root: Seq<Seq<char>>, chain: Seq<Ancestor>) -> Result<(), ErrorView>
    decreases chain.len(),
{
    if chain.len() == 0 {
        Ok(())
    } else {
        match chain[0].canonical {
            Some(path) => if within(text::texts(path@), root) {
                Ok(())
            } else {
                Err(
                    ErrorView::Other(
                        "refusing to write outside the vault root: "@ + chain[0].shown@,
                    ),
                )
            },
            None => locality(root, chain.skip(1)),
        }
    }
}

/// Whether the components of one path begin those of another.
fn is_within(path: &Vec<String>, base: &Vec<String>) -> (r: bool)
    ensures
        r == within(text::texts(path@), text::texts(base@)),
{
    if base.len() > path.len() {
        return false;
    }
    let ghost p = text::texts(path@);
    let ghost b = text::texts(base@);
    let mut i: usize = 0;
    while i < base.len()
        invariant
            i <= base@.len() <= path@.len(),
            p == text::texts(path@),
            b == text::texts(base@),
            forall|j: int| 0 <= j < i ==> p[j] == #[trigger] b[j],
        decreases base@.len() - i,
    {
        if !same_text(path[i].as_str(), base[i].as_str()) {
            assert(p[i as int] != b[i as int]);
            assert(p.take(b.len() as int)[i as int] != b[i as int]);
            return false;
        }
        assert(p[i as int] == b[i as int]);
        i = i + 1;
    }
    assert(p.take(b.len() as int) =~= b);
    true
}

/// Guard: the deepest existing ancestor of a directory must stay under the
/// canonical vault root, so that a parent swapped for an out-of-vault symlink
/// is refused before anything is made or written.
pub fn ensure_locality(root: &Vec<String>, chain: &Vec<Ancestor>) -> (r: Result<(), Error>)
    ensures
        crate::error::unit_view(r) == locality(text::texts(root@), chain@),
{
    let mut i: usize = 0;
    assert(chain@.skip(0) =~= chain@);
    while i < chain.len()
        invariant
            i <= chain@.len(),
            locality(text::texts(root@), chain@) == locality(
                text::texts(root@),
                chain@.skip(i as int),
            ),
        decreases chain@.len() - i,
    {
        assert(chain@.skip(i as int)[0] == chain@[i as int]);
        assert(chain@.skip(i as int).skip(1) =~= chain@.skip(i + 1));
        if let Some(path) = &chain[i].canonical {
            if is_within(path, root) {
                return Ok(());
            }
            return Err(
                Error::Other(
                    cat2("refusing to write outside the vault root: ", chain[i].shown.as_str()),
                ),
            );
        }
        i = i + 1;
    }
    Ok(())
}

/// Whether all the bytes that were planned were written.
pub open spec fn written(key: Seq<char>, expected: u64, copied: u64) -> Result<(), ErrorView> {
    if copied == expected {
        Ok(())
    } else {
        Err(
            ErrorView::Other(
                "write_atomic: short write for "@ + key + " (expected "@ + text::dec(
                    expected as nat,
                ) + ", got "@ + text::dec(copied as nat) + ")"@,
            ),
        )
    }
}

impl LocalFs {
    /// The root must exist and be a directory: a missing vault is a loud
    /// error, not an empty plan.
    pub fn check_root(&self, is_dir: bool) -> (r: Result<(), Error>)
        ensures
            crate::error::unit_view(r) == (if is_dir {
                Ok::<(), ErrorView>(())
            } else {
                Err(ErrorView::Other("vault root is not a directory: "@ + self@.root))
            }),
    {
        if is_dir {
            Ok(())
        } else {
            Err(Error::Other(cat2("vault root is not a directory: ", self.root.as_str())))
        }
    }

    /// The path of a temp buffer for a download, beside its target; the later
    /// rename is the atomic commit.
    pub fn tmp_path_for(&self, key: &str, pid: u64, n: u64) -> (r: Result<String, Error>)
        ensures
            text_result(r) == (match local_path(self@.root, key@) {
                Err(e) => Err(e),
                Ok(_) => Ok(
                    joined(
                        self@.root,
                        sibling(
                            key@,
                            temp_name(text::last_segment(key@), pid as nat, n as nat),
                        ),
                    ),
                ),
            }),
    {
        if let Err(e) = key_to_local_path(self.root.as_str(), key) {
            return Err(e);
        }
        let c = chars_of(key);
        let mut from: usize = c.len();
        proof {
            lemma_last_segment(key@);
        }
        let ghost start = key@.len() - text::last_segment(key@).len();
        while from > 0 && c[from - 1] != '/'
            invariant
                start <= from <= c@.len(),
                c@ == key@,
                start > 0 ==> key@[start - 1] == '/',
                forall|i: int| start <= i < c@.len() ==> key@[i] != '/',
                0 <= start,
            decreases from,
        {
            from = from - 1;
        }
        assert(from == start);
        let name = string_of(&c, from, c.len());
        let mut t = string_of(&c, 0, from);
        t.append(".");
        t.append(name.as_str());
        t.append(".vaultsync-tmp-");
        t.append(decimal(pid).as_str());
        t.append("-");
        t.append(decimal(n).as_str());
        proof {
            assert(name@ =~= text::last_segment(key@));
            assert(t@ =~= sibling(
                key@,
                temp_name(text::last_segment(key@), pid as nat, n as nat),
            ));
        }
        Ok(join_path(self.root.as_str(), t.as_str()))
    }

    /// Whether a write is whole: the target must be a file key, and `copied`
    /// bytes, the number written to the temp buffer, the number expected.
    pub fn check_written(&self, key: &str, expected_size: u64, copied: u64) -> (r: Result<
        (),
        Error,
    >)
        ensures
            crate::error::unit_view(r) == (match local_path(self@.root, key@) {
                Err(e) => Err(e),
                Ok(_) => written(key@, expected_size, copied),
            }),
    {
        if let Err(e) = key_to_local_path(self.root.as_str(), key) {
            return Err(e);
        }
        if copied != expected_size {
            let mut m = cat3("write_atomic: short write for ", key, " (expected ");
            m.append(decimal(expected_size).as_str());
            m.append(", got ");
            m.append(decimal(copied).as_str());
            m.append(")");
            return Err(Error::Other(m));
        }
        Ok(())
    }
}

/// The walk lists only what may be synced: a node that it asks to stat is
/// outside the control plane, is not ignored, has a valid name and, if it is a
/// file, no reserved one. A folder's key is its name with a `/`.
pub proof fn law_walk_lists_what_may_be_synced(
    w: WalkView,
    rel: Seq<PartView>,
    shown: Seq<char>,
    kind: NodeKind,
    target: TargetView,
    key: Seq<char>,
    folder: bool,
)
    requires
        met(w, rel, shown, kind).1 == Ok::<StepView, ErrorView>(StepView::Stat { key, folder })
            || followed(w, rel, shown, target).1 == Ok::<StepView, ErrorView>(
            StepView::Stat { key, folder },
        ),
    ensures
        !control_plane(key),
        !ignore::ignored(w.ignore, key),
        folder ==> key.len() > 0 && key.last() == '/' && entity::valid_key(key.drop_last()),
        !folder ==> entity::valid_key(key) && !reserved_name(ignore::final_segment(key)),
{
    match key_of_path(rel, shown) {
        Ok(k) => {
            assert(k.push('/').drop_last() =~= k);
        },
        Err(_) => {},
    }
}

/// Whether everything that a walk has listed may be synced.
pub open spec fn listing_screened(w: WalkView) -> bool {
    forall|i: int|
        0 <= i < w.found.len() ==> {
            let key = (#[trigger] w.found[i]).key;
            &&& !control_plane(key)
            &&& !ignore::ignored(w.ignore, key)
            &&& w.found[i].folder() || !reserved_name(ignore::final_segment(key))
        }
}

/// An entity among others after one was put in.
proof fn lemma_upsert_element(s: Seq<EntityView>, e: EntityView, i: int)
    requires
        0 <= i < inventory::upsert(s, e).len(),
    ensures
        inventory::upsert(s, e)[i] == e || s.contains(inventory::upsert(s, e)[i]),
    decreases s.len(),
{
    if s.len() > 0 {
        let d = s.drop_last();
        let x = inventory::upsert(s, e)[i];
        if text::before(e.key, s.last().key) {
            if i < inventory::upsert(d, e).len() {
                lemma_upsert_element(d, e, i);
                if x != e {
                    let j = choose|j: int| 0 <= j < d.len() && d[j] == x;
                    assert(s[j] == x);
                }
            } else {
                assert(s[s.len() - 1] == x);
            }
        } else if i < s.len() - 1 || (i == s.len() - 1 && s.last().key != e.key) {
            assert(s[i] == x);
        }
    }
}

/// Whether a path is made of ordinary names: not empty, and without a `/`.
pub open spec fn ordinary(p: Seq<PartView>) -> bool {
    forall|i: int|
        0 <= i < p.len() ==> (#[trigger] p[i] matches PartView::Normal(name) ==> name.len() > 0
            && !name.contains('/'))
}

/// Whatever a walk asks to stat, it lists when it learns the stat: under the
/// key that it asked about, without an etag and, for a folder, without a size.
/// (The names of a path on disk are ordinary.)
pub proof fn law_asked_nodes_are_listed(
    w: WalkView,
    rel: Seq<PartView>,
    shown: Seq<char>,
    kind: NodeKind,
    target: TargetView,
    key: Seq<char>,
    folder: bool,
    st: NodeStat,
)
    requires
        ordinary(rel),
        local_rows(w.found),
        met(w, rel, shown, kind).1 == Ok::<StepView, ErrorView>(StepView::Stat { key, folder })
            || followed(w, rel, shown, target).1 == Ok::<StepView, ErrorView>(
            StepView::Stat { key, folder },
        ),
    ensures
        listable(key, folder),
        plan::find(recorded(w, key, folder, Some(st)).found, key) == Some(
            row_of(key, folder, st),
        ),
        local_rows(recorded(w, key, folder, Some(st)).found),
{
    let k = key_of_path(rel, shown)->Ok_0;
    lemma_ordinary_key(rel, shown);
    entity::law_folder_keys_are_valid(k);
    let row = row_of(key, folder, st);
    laws::lemma_upsert(w.found, row);
    let next = inventory::upsert(w.found, row);
    assert forall|i: int| 0 <= i < next.len() implies local_row(#[trigger] next[i]) by {
        assert(next.contains(next[i]));
    }
}

proof fn lemma_ordinary_key(rel: Seq<PartView>, shown: Seq<char>)
    requires
        ordinary(rel),
        joined_parts(rel, shown) is Ok,
    ensures
        !text::ends_with_char(joined_parts(rel, shown)->Ok_0, '/'),
{
    if rel.len() > 0 {
        let l = rel.last();
        assert(rel[rel.len() - 1] == l);
        if let PartView::Normal(name) = l {
            assert(name[name.len() - 1] == name.last());
            assert(name.contains(name.last()));
        }
    }
}

/// A walk that starts with nothing and records what it asked to stat lists
/// only what may be synced.
pub proof fn law_walk_stays_screened(
    w: WalkView,
    rel: Seq<PartView>,
    shown: Seq<char>,
    kind: NodeKind,
    target: TargetView,
    key: Seq<char>,
    folder: bool,
    stat: Option<NodeStat>,
)
    requires
        listing_screened(w),
    ensures
        listing_screened(fresh_walk(w.root, w.follow_symlinks, w.ignore)),
        listing_screened(met(w, rel, shown, kind).0),
        listing_screened(followed(w, rel, shown, target).0),
        met(w, rel, shown, kind).1 == Ok::<StepView, ErrorView>(StepView::Stat { key, folder })
            ==> listing_screened(recorded(met(w, rel, shown, kind).0, key, folder, stat)),
        followed(w, rel, shown, target).1 == Ok::<StepView, ErrorView>(
            StepView::Stat { key, folder },
        ) ==> listing_screened(recorded(followed(w, rel, shown, target).0, key, folder, stat)),
{
    let m = met(w, rel, shown, kind);
    let f = followed(w, rel, shown, target);
    assert(m.0.found == w.found && m.0.ignore == w.ignore);
    assert(f.0.found == w.found && f.0.ignore == w.ignore);
    let asked = Ok::<StepView, ErrorView>(StepView::Stat { key, folder });
    if m.1 == asked || f.1 == asked {
        law_walk_lists_what_may_be_synced(w, rel, shown, kind, target, key, folder);
        if stat is Some && listable(key, folder) {
            let row = row_of(key, folder, stat->0);
            let next = inventory::upsert(w.found, row);
            assert forall|i: int| 0 <= i < next.len() implies {
                let key = (#[trigger] next[i]).key;
                &&& !control_plane(key)
                &&& !ignore::ignored(w.ignore, key)
                &&& next[i].folder() || !reserved_name(ignore::final_segment(key))
            } by {
                lemma_upsert_element(w.found, row, i);
                if next[i] != row {
                    let j = choose|j: int| 0 <= j < w.found.len() && w.found[j] == next[i];
                    assert(w.found[j].key == next[i].key);
                }
            }
        }
    }
}

/// A symlink is never listed unless symlinks are followed: it is counted.
pub proof fn law_symlinks_are_counted_not_followed(
    w: WalkView,
    rel: Seq<PartView>,
    shown: Seq<char>,
)
    requires
        !w.follow_symlinks,
    ensures
        met(w, rel, shown, NodeKind::Symlink).1 == Ok::<StepView, ErrorView>(StepView::Skip),
        met(w, rel, shown, NodeKind::Symlink).0.found == w.found,
        met(w, rel, shown, NodeKind::Symlink).0.report.skipped_symlinks
            == w.report.skipped_symlinks.wrapping_add(1),
{
}

/// A symlink that leads out of the vault is never listed: it is counted, with
/// a warning.
pub proof fn law_escaping_symlinks_are_skipped(
    w: WalkView,
    rel: Seq<PartView>,
    shown: Seq<char>,
)
    ensures
        followed(w, rel, shown, TargetView::Outside).1 != Ok::<StepView, ErrorView>(
            StepView::Resolve,
        ),
        followed(w, rel, shown, TargetView::Outside).0.found == w.found,
        followed(w, rel, shown, TargetView::Outside).1 matches Ok(step) ==> step == StepView::Skip
            && followed(w, rel, shown, TargetView::Outside).0.report.warnings.len()
            == w.report.warnings.len() + 1,
{
}

/// A directory cycle is cut: a directory that a symlink led to before is not
/// entered through a symlink again.
pub proof fn law_cycles_are_cut(
    w: WalkView,
    rel: Seq<PartView>,
    shown: Seq<char>,
    canonical: Seq<char>,
)
    requires
        w.visited.contains(canonical),
    ensures
        followed(w, rel, shown, TargetView::Dir(canonical)) == (w, Ok::<StepView, ErrorView>(
            StepView::Skip,
        )),
{
}

/// Both sides see the same files: the walk screens out a file key if and only
/// if the remote filter drops it as reserved or ignored.
pub proof fn law_sides_agree_on_files(w: WalkView, key: Seq<char>)
    ensures
        screened(w, key, false).1 is Stat == (!crate::reserved_key(key) && !ignore::ignored(
            w.ignore,
            key,
        )),
{
}

/// A relative path joined to a base is the base, one `/` unless the base ends
/// with one or is empty, and the path. An absolute path stands for itself.
pub proof fn law_paths_join(base: Seq<char>, rel: Seq<char>)
    ensures
        rel.len() > 0 && rel[0] == '/' ==> joined(base, rel) == rel,
        rel.len() == 0 || rel[0] != '/' ==> {
            let p = joined(base, rel);
            &&& p.len() >= base.len() + rel.len()
            &&& p.take(base.len() as int) == base
            &&& p.skip(p.len() - rel.len()) == rel
            &&& base.len() == 0 || base[base.len() - 1] == '/' ==> p.len() == base.len()
                + rel.len()
            &&& base.len() > 0 && base[base.len() - 1] != '/' ==> p.len() == base.len() + 1
                + rel.len() && p[base.len() as int] == '/'
        },
{
    let p = joined(base, rel);
    if rel.len() == 0 || rel[0] != '/' {
        assert(p.take(base.len() as int) =~= base);
        assert(p.skip(p.len() - rel.len()) =~= rel);
    }
}

/// A key has a path in the vault if and only if it is a valid file key; the path
/// is below the root.
pub proof fn law_file_keys_have_paths(root: Seq<char>, key: Seq<char>)
    ensures
        local_path(root, key) is Ok <==> entity::valid_key(key) && key[key.len() - 1] != '/',
        local_path(root, key) matches Ok(p) ==> p.len() >= root.len() + key.len() && p.take(
            root.len() as int,
        ) == root && p.skip(p.len() - key.len()) == key,
{
    law_paths_join(root, key);
}

/// A name is reserved if and only if it starts as that of a probe, or is hidden
/// and holds the mark of a temp buffer. A key is in the control plane if and only
/// if it lies in `.vaultsync/`.
pub proof fn law_reserved_names(name: Seq<char>)
    ensures
        reserved_name(name) <==> {
            ||| name.len() >= 17 && name.take(17) == ".vaultsync-check-"@
            ||| name.len() >= 1 && name[0] == '.' && exists|i: int|
                0 <= i <= name.len() - 15 && #[trigger] name.subrange(i, i + 15)
                    == ".vaultsync-tmp-"@
        },
        control_plane(name) <==> name.len() >= 11 && name.take(11) == ".vaultsync/"@,
{
    reveal_strlit(".vaultsync-check-");
    reveal_strlit(".vaultsync-tmp-");
    reveal_strlit(".vaultsync/");
    reveal_strlit(".");
    let mark = ".vaultsync-tmp-"@;
    assert(mark.len() == 15);
    assert(".vaultsync-check-"@.len() == 17);
    assert(".vaultsync/"@.len() == 11);
    assert(text::starts_with_text(name, "."@) == (name.len() >= 1 && name[0] == '.')) by {
        if name.len() >= 1 {
            assert(name.take(1)[0] == name[0]);
            if name[0] == '.' {
                assert(name.take(1) =~= "."@);
            }
        }
    }
    if text::contains_text(name, mark) {
        let i = choose|i: int| #[trigger] text::starts_with_text_at(name, mark, i);
        assert(name.subrange(i, i + 15) == mark);
    }
    if exists|i: int| 0 <= i <= name.len() - 15 && #[trigger] name.subrange(i, i + 15) == mark {
        let i = choose|i: int|
            0 <= i <= name.len() - 15 && #[trigger] name.subrange(i, i + 15) == mark;
        assert(text::starts_with_text_at(name, mark, i));
    }
}

/// The names of the parts of a path.
pub open spec fn names_of(p: Seq<PartView>) -> Seq<Seq<char>> {
    Seq::new(p.len(), |i: int| p[i]->Normal_0)
}

/// The key of a path is its names with a `/` between each two, and a path has a
/// key if and only if all its parts are names and that is a valid key.
pub proof fn law_key_of_a_path(p: Seq<PartView>, shown: Seq<char>)
    ensures
        key_of_path(p, shown) is Ok <==> (forall|i: int|
            0 <= i < p.len() ==> #[trigger] p[i] is Normal) && entity::valid_key(
            text::rejoined(names_of(p)),
        ),
        key_of_path(p, shown) matches Ok(key) ==> key == text::rejoined(names_of(p)),
{
    lemma_joined_parts(p, shown);
}

proof fn lemma_joined_parts(p: Seq<PartView>, shown: Seq<char>)
    ensures
        joined_parts(p, shown) is Ok <==> forall|i: int|
            0 <= i < p.len() ==> #[trigger] p[i] is Normal,
        joined_parts(p, shown) matches Ok(s) ==> s == text::rejoined(names_of(p)),
    decreases p.len(),
{
    if p.len() > 0 {
        let d = p.drop_last();
        lemma_joined_parts(d, shown);
        assert(p.last() == p[p.len() - 1]);
        assert(names_of(p).drop_last() =~= names_of(d));
        if forall|i: int| 0 <= i < d.len() ==> #[trigger] d[i] is Normal {
            if p.last() is Normal {
                assert forall|i: int| 0 <= i < p.len() implies #[trigger] p[i] is Normal by {
                    if i < d.len() {
                        assert(d[i] == p[i]);
                    }
                }
            }
        }
        if forall|i: int| 0 <= i < p.len() ==> #[trigger] p[i] is Normal {
            assert forall|i: int| 0 <= i < d.len() implies #[trigger] d[i] is Normal by {
                assert(d[i] == p[i]);
            }
        }
    }
}

/// The walk asks for the stat of every file and folder that may be synced: one
/// with a valid key outside the control plane that is not ignored and, for a
/// file, not reserved. It asks under its key, with a `/` for a folder, and counts
/// nothing as skipped. What it leaves out because it is reserved or ignored it
/// counts, once.
pub proof fn law_walk_asks_for_all_that_may_be_synced(
    w: WalkView,
    rel: Seq<PartView>,
    shown: Seq<char>,
    kind: NodeKind,
    name: Seq<char>,
)
    requires
        kind == NodeKind::File || kind == NodeKind::Dir,
        key_of_path(rel, shown) == Ok::<Seq<char>, ErrorView>(name),
    ensures
        ({
            let folder = kind == NodeKind::Dir;
            let key = if folder {
                name.push('/')
            } else {
                name
            };
            let (next, step) = met(w, rel, shown, kind);
            let reserved = !folder && reserved_name(ignore::final_segment(key));
            let ignored = ignore::ignored(w.ignore, key);
            &&& step is Ok
            &&& !control_plane(key) && !reserved && !ignored ==> step->Ok_0 == (StepView::Stat {
                key,
                folder,
            }) && next == w
            &&& control_plane(key) || reserved || ignored ==> step->Ok_0 is Skip && next.found
                == w.found
            &&& control_plane(key) ==> next == w
            &&& !control_plane(key) && reserved && w.report.skipped_temp_files < u32::MAX
                ==> next.report == (ReportView {
                skipped_temp_files: (w.report.skipped_temp_files + 1) as u32,
                ..w.report
            })
            &&& !control_plane(key) && !reserved && ignored && w.report.skipped_ignored < u32::MAX
                ==> next.report == (ReportView {
                skipped_ignored: (w.report.skipped_ignored + 1) as u32,
                ..w.report
            })
        }),
{
}

/// A node that has no key stops the walk with an error; a special file is passed
/// over. A symlink is passed over and counted, or resolved if symlinks are
/// followed.
pub proof fn law_walk_of_other_nodes(w: WalkView, rel: Seq<PartView>, shown: Seq<char>)
    ensures
        key_of_path(rel, shown) is Err ==> met(w, rel, shown, NodeKind::File).1 is Err && met(
            w,
            rel,
            shown,
            NodeKind::Dir,
        ).1 is Err,
        met(w, rel, shown, NodeKind::Special) == (w, Ok::<StepView, ErrorView>(StepView::Skip)),
        w.follow_symlinks ==> met(w, rel, shown, NodeKind::Symlink) == (
            w,
            Ok::<StepView, ErrorView>(StepView::Resolve),
        ),
        !w.follow_symlinks && w.report.skipped_symlinks < u32::MAX ==> {
            let (next, step) = met(w, rel, shown, NodeKind::Symlink);
            &&& step == Ok::<StepView, ErrorView>(StepView::Skip)
            &&& next == (WalkView {
                report: ReportView {
                    skipped_symlinks: (w.report.skipped_symlinks + 1) as u32,
                    ..w.report
                },
                ..w
            })
        },
{
}

/// What is done with a followed symlink. One to a file or a folder of the vault
/// is asked about as the walk asks about files and folders; a file is noted as
/// followed, a folder is warned of, and entered once only. One that leads out of
/// the vault is counted and warned of. A dangling one, or one to a special file,
/// is passed over.
pub proof fn law_followed_symlinks(
    w: WalkView,
    rel: Seq<PartView>,
    shown: Seq<char>,
    name: Seq<char>,
    dir: Seq<char>,
)
    requires
        key_of_path(rel, shown) == Ok::<Seq<char>, ErrorView>(name),
        w.report.skipped_symlinks < u32::MAX,
    ensures
        followed(w, rel, shown, TargetView::Missing) == (
            w,
            Ok::<StepView, ErrorView>(StepView::Skip),
        ),
        followed(w, rel, shown, TargetView::Special) == (
            w,
            Ok::<StepView, ErrorView>(StepView::Skip),
        ),
        ({
            let (next, step) = followed(w, rel, shown, TargetView::Outside);
            &&& step == Ok::<StepView, ErrorView>(StepView::Skip)
            &&& next.report.skipped_symlinks == w.report.skipped_symlinks + 1
            &&& next.report.warnings == w.report.warnings.push(
                "skipping "@ + name + " (symlink escapes vault root)"@,
            )
            &&& next.found == w.found
            &&& next.visited == w.visited
        }),
        ({
            let (next, step) = followed(w, rel, shown, TargetView::File);
            let asked = !control_plane(name) && !reserved_name(ignore::final_segment(name))
                && !ignore::ignored(w.ignore, name);
            &&& asked ==> step == Ok::<StepView, ErrorView>(
                StepView::Stat { key: name, folder: false },
            ) && next.report.followed_files == w.report.followed_files.push(name)
            &&& !asked ==> step == Ok::<StepView, ErrorView>(StepView::Skip)
                && next.report.followed_files == w.report.followed_files
        }),
        ({
            let (next, step) = followed(w, rel, shown, TargetView::Dir(dir));
            let key = name.push('/');
            let asked = !control_plane(key) && !ignore::ignored(w.ignore, key);
            &&& w.visited.contains(dir) ==> step == Ok::<StepView, ErrorView>(StepView::Skip)
                && next == w
            &&& !w.visited.contains(dir) ==> next.visited == w.visited.push(dir)
            &&& !w.visited.contains(dir) && asked ==> step == Ok::<StepView, ErrorView>(
                StepView::Stat { key, folder: true },
            ) && next.report.warnings == w.report.warnings.push(
                "symlink "@ + key
                    + " aliases a directory inside the vault; its content is listed under both keys"@,
            )
            &&& !w.visited.contains(dir) && !asked ==> step == Ok::<StepView, ErrorView>(
                StepView::Skip,
            ) && next.report.warnings == w.report.warnings
        }),
{
}

/// A stat that the walk learns becomes the row of its key, with the size of a
/// file, the mtime and no etag; every other row stays. A node that has vanished
/// leaves the rows as they are.
pub proof fn law_stats_become_rows(w: WalkView, key: Seq<char>, folder: bool, st: NodeStat)
    requires
        local_rows(w.found),
        entity::valid_key(key),
        folder == (key[key.len() - 1] == '/'),
    ensures
        ({
            let next = recorded(w, key, folder, Some(st));
            let row = EntityView {
                key,
                size: if folder {
                    0
                } else {
                    st.size
                },
                mtime_ms: st.mtime_ms,
                etag: None,
            };
            &&& next.found.contains(row)
            &&& forall|e: EntityView| #[trigger]
                next.found.contains(e) ==> e == row || (w.found.contains(e) && e.key != key)
            &&& forall|e: EntityView|
                w.found.contains(e) && e.key != key ==> #[trigger] next.found.contains(e)
            &&& next.report == w.report
            &&& next.visited == w.visited
        }),
        recorded(w, key, folder, None) == w,
{
    let row = row_of(key, folder, st);
    let next = recorded(w, key, folder, Some(st)).found;
    laws::lemma_upsert(w.found, row);
    plan::lemma_find(next, key);
    assert(plan::find(next, key) == Some(row));
    let keys = plan::keys_of(next);
    assert forall|e: EntityView| #[trigger] next.contains(e) implies e == row || (w.found.contains(e)
        && e.key != key) by {
        if e != row && e.key == key {
            let i = choose|i: int| 0 <= i < next.len() && next[i] == e;
            let j = choose|j: int| 0 <= j < next.len() && next[j] == row;
            text::lemma_before_irreflexive(key);
            if i < j {
                assert(text::before(keys[i], keys[j]));
            } else {
                assert(text::before(keys[j], keys[i]));
            }
        }
    }
    let old_keys = plan::keys_of(w.found);
    assert forall|e: EntityView| w.found.contains(e) && e.key != key implies #[trigger] next.contains(
        e,
    ) by {
        let i = choose|i: int| 0 <= i < w.found.len() && w.found[i] == e;
        assert(w.found[i].key == e.key);
        plan::lemma_find(w.found, e.key);
        let f = plan::find(w.found, e.key)->0;
        let j = choose|j: int| 0 <= j < w.found.len() && w.found[j] == f;
        text::lemma_before_irreflexive(e.key);
        if i < j {
            assert(text::before(old_keys[i], old_keys[j]));
        } else if j < i {
            assert(text::before(old_keys[j], old_keys[i]));
        }
        assert(plan::find(next, e.key) == Some(e));
        plan::lemma_find(next, e.key);
    }
}

/// A write stays in the vault: it is allowed if and only if the nearest folder on
/// its way that exists is the root or below it. (With none that exists there is
/// nothing to leave the vault by.)
pub proof fn law_writes_stay_below_the_root(root: Seq<Seq<char>>, chain: Seq<Ancestor>, i: int)
    requires
        0 <= i < chain.len(),
        chain[i].canonical is Some,
        forall|j: int| 0 <= j < i ==> (#[trigger] chain[j]).canonical is None,
    ensures
        ({
            let path = text::texts(chain[i].canonical->0@);
            locality(root, chain) is Ok <==> path.len() >= root.len() && forall|j: int|
                0 <= j < root.len() ==> path[j] == #[trigger] root[j]
        }),
    decreases i,
{
    let path = text::texts(chain[i].canonical->0@);
    if i == 0 {
        if within(path, root) {
            assert forall|j: int| 0 <= j < root.len() implies path[j] == #[trigger] root[j] by {
                assert(path.take(root.len() as int)[j] == path[j]);
            }
        }
        if path.len() >= root.len() && forall|j: int|
            0 <= j < root.len() ==> path[j] == #[trigger] root[j] {
            assert(path.take(root.len() as int) =~= root);
        }
    } else {
        let rest = chain.skip(1);
        assert(chain[0].canonical is None);
        assert forall|j: int| 0 <= j < i - 1 implies (#[trigger] rest[j]).canonical is None by {
            assert(rest[j] == chain[j + 1]);
        }
        assert(rest[i - 1] == chain[i]);
        law_writes_stay_below_the_root(root, rest, i - 1);
    }
}

/// A time before the epoch is taken as the epoch itself, and one that fits as it
/// is; a time is always known.
pub proof fn law_times_are_known(ms: i128, r: Option<u64>)
    requires
        call_ensures(system_time_to_ms, (ms,), r),
    ensures
        ms < 0 ==> r == Some(0u64),
        0 <= ms <= u64::MAX ==> r == Some(ms as u64),
        r is Some,
{
}

/// A temp buffer lies beside its target, under a hidden name with the mark of a
/// temp buffer.
pub proof fn law_temp_buffers_are_siblings(key: Seq<char>, pid: nat, n: nat)
    ensures
        ({
            let name = text::last_segment(key);
            let dir = key.take(key.len() - name.len());
            sibling(key, temp_name(name, pid, n)) == dir + "."@ + name + ".vaultsync-tmp-"@
                + text::dec(pid) + "-"@ + text::dec(n)
        }),
        forall|i: int| 0 <= i < text::last_segment(key).len() ==> #[trigger] text::last_segment(
            key,
        )[i] != '/',
        key.len() >= text::last_segment(key).len(),
        key.skip(key.len() - text::last_segment(key).len()) == text::last_segment(key),
{
    let name = text::last_segment(key);
    let dir = key.take(key.len() - name.len());
    assert(sibling(key, temp_name(name, pid, n)) =~= dir + "."@ + name + ".vaultsync-tmp-"@
        + text::dec(pid) + "-"@ + text::dec(n));
    text::law_segments_rejoin(key);
    let k = text::segments(key);
    assert forall|i: int| 0 <= i < name.len() implies #[trigger] name[i] != '/' by {
        assert(k[k.len() - 1][i] != '/');
    }
    if k.len() == 1 {
        assert(key.skip(0) =~= key);
    } else {
        assert(key.skip(key.len() - name.len()) =~= name);
    }
}

/// A write counts only if the whole body was copied, to the path of a file.
pub proof fn law_short_writes_fail(
    fs: &LocalFs,
    key: &str,
    expected_size: u64,
    copied: u64,
    r: Result<(), Error>,
)
    requires
        call_ensures(LocalFs::check_written, (fs, key, expected_size, copied), r),
    ensures
        r is Ok <==> copied == expected_size && entity::valid_key(key@) && key@[key@.len() - 1]
            != '/',
{
}

/// A walk begins with nothing found, nothing skipped and nothing visited, at its
/// root, and follows symlinks only if it was asked to.
pub proof fn law_walks_begin_empty(root: &str, follow_symlinks: bool, fs: LocalFs)
    requires
        call_ensures(LocalFs::with_follow, (root, follow_symlinks), fs),
    ensures
        fs@.root == root@,
        fs@.follow_symlinks == follow_symlinks,
        fs@.ignore.len() == 0,
        fs@.found.len() == 0,
        fs@.visited.len() == 0,
        fs@.report.skipped_symlinks == 0,
        fs@.report.skipped_temp_files == 0,
        fs@.report.skipped_ignored == 0,
        fs@.report.followed_files.len() == 0,
        fs@.report.warnings.len() == 0,
{
}

} // verus!
