//! Commands and their dispatch: what each command asks of the store, prints
//! and returns as its exit code.
//!
//! A command that transfers runs in two phases around the file work of the
//! program: [`run_with_io`] plans and prints, and [`finish_transfer`] reports
//! and commits.

use vstd::prelude::*;
use crate::config::{InventoryBootstrap, InventoryMode, Settings};
use crate::error::{Error, ErrorView};
use crate::exec;
use crate::exec::{execute_plan, ExecFailure, FailureView, StepOutcome};
use crate::ignore::IgnoreSet;
use crate::inventory;
use crate::inventory::{
    commit_manifest, ensure_remote_manifest, repair_manifest, update_after, BaseView,
    CacheSnapshot, CacheUpdate, CacheUpdateView, CommitOutcome, EnsureOutcome, InventoryBase,
    InventorySource, OutcomeView, RepairOpts, RepairReport, RepairView, SourceView,
};
use crate::local;
use crate::local::{LocalFs, ReportView, WalkReport, MANIFEST_KEY};
use crate::plan;
use crate::plan::{ActionKind, ActionView, Mode, Plan, PlanOpts, PlanStats};
use crate::progress;
use crate::progress::{push_progress, resolve_progress_mode, ProgressMode, ResolvedMode};
use crate::store;
use crate::store::{ObjectStore, Session, StoreEvent};
use crate::text;
use crate::text::{
    char_is_whitespace, chars_of, chars_start_with, decimal, lowercase_string,
    split_segments, string_of,
};
use crate::{build_plan, check_store, format_plan_human_verbose, PlanReport, PlanReportView};

verus! {

broadcast use crate::store::group_runs;

/// The `--vault` value that means "not given", so that a config `vault_root`
/// can win. An explicit `--vault .` is indistinguishable from it.
pub const VAULT_UNSET: &'static str = ".";

/// A parsed command.
#[derive(Debug, PartialEq)]
pub enum Command {
    Status {
        vault: String,
        json: bool,
        config: Option<String>,
        verbose: u8,
        follow_symlinks: bool,
        write_manifest: bool,
    },
    Push {
        vault: String,
        delete: bool,
        dry_run: bool,
        force_local: bool,
        force_remote: bool,
        json: bool,
        config: Option<String>,
        verbose: u8,
        follow_symlinks: bool,
    },
    Pull {
        vault: String,
        delete: bool,
        dry_run: bool,
        force_local: bool,
        force_remote: bool,
        json: bool,
        config: Option<String>,
        verbose: u8,
        follow_symlinks: bool,
    },
    Check { config: Option<String>, verbose: u8, json: bool },
    Repair {
        vault: String,
        json: bool,
        config: Option<String>,
        verbose: u8,
        dry_run: bool,
        force: bool,
    },
    Version,
    Help,
}

impl Command {
    /// Status with a vault; remaining flags at defaults.
    pub fn status(vault: String) -> (r: Command)
        ensures
            r == (Command::Status {
                vault,
                json: false,
                config: None,
                verbose: 0,
                follow_symlinks: false,
                write_manifest: false,
            }),
    {
        Command::Status {
            vault,
            json: false,
            config: None,
            verbose: 0,
            follow_symlinks: false,
            write_manifest: false,
        }
    }

    /// Push with a vault and delete; remaining flags at defaults.
    pub fn push(vault: String, delete: bool) -> (r: Command)
        ensures
            r == (Command::Push {
                vault,
                delete,
                dry_run: false,
                force_local: false,
                force_remote: false,
                json: false,
                config: None,
                verbose: 0,
                follow_symlinks: false,
            }),
    {
        Command::Push {
            vault,
            delete,
            dry_run: false,
            force_local: false,
            force_remote: false,
            json: false,
            config: None,
            verbose: 0,
            follow_symlinks: false,
        }
    }

    /// Pull with a vault and delete; remaining flags at defaults.
    pub fn pull(vault: String, delete: bool) -> (r: Command)
        ensures
            r == (Command::Pull {
                vault,
                delete,
                dry_run: false,
                force_local: false,
                force_remote: false,
                json: false,
                config: None,
                verbose: 0,
                follow_symlinks: false,
            }),
    {
        Command::Pull {
            vault,
            delete,
            dry_run: false,
            force_local: false,
            force_remote: false,
            json: false,
            config: None,
            verbose: 0,
            follow_symlinks: false,
        }
    }

    /// Check with defaults.
    pub fn check() -> (r: Command)
        ensures
            r == (Command::Check { config: None, verbose: 0, json: false }),
    {
        Command::Check { config: None, verbose: 0, json: false }
    }

    /// Repair with defaults; the vault is not given.
    pub fn repair() -> (r: Command)
        ensures
            r matches Command::Repair { vault, json, config, verbose, dry_run, force } && vault@
                == VAULT_UNSET@ && !json && config is None && verbose == 0 && !dry_run && !force,
    {
        Command::Repair {
            vault: VAULT_UNSET.to_owned(),
            json: false,
            config: None,
            verbose: 0,
            dry_run: false,
            force: false,
        }
    }
}

/// Status flags.
#[derive(Debug, Clone, Copy)]
pub struct StatusArgs {
    pub write_manifest: bool,
}

/// Push/pull shared transfer flags.
#[derive(Debug, Clone, Copy)]
pub struct TransferArgs {
    pub delete: bool,
    pub dry_run: bool,
    pub force_local: bool,
    pub force_remote: bool,
}

/// Repair flags.
#[derive(Debug, Clone, Copy)]
pub struct RepairArgs {
    pub dry_run: bool,
    pub force: bool,
}

/// The subcommands.
#[derive(Debug, Clone, Copy)]
pub enum Commands {
    Status(StatusArgs),
    Push(TransferArgs),
    Pull(TransferArgs),
    Check,
    Repair(RepairArgs),
    Version,
    Help,
}

/// The parsed arguments: the global ones and the subcommand.
#[derive(Debug)]
pub struct Cli {
    pub config: Option<String>,
    pub vault: String,
    pub json: bool,
    pub verbose: u8,
    pub follow_symlinks: bool,
    pub command: Option<Commands>,
}

impl Cli {
    /// The command that the arguments name; no subcommand means help.
    pub open spec fn named(self) -> Command {
        match self.command {
            None => Command::Help,
            Some(Commands::Status(a)) => Command::Status {
                vault: self.vault,
                json: self.json,
                config: self.config,
                verbose: self.verbose,
                follow_symlinks: self.follow_symlinks,
                write_manifest: a.write_manifest,
            },
            Some(Commands::Push(a)) => Command::Push {
                vault: self.vault,
                delete: a.delete,
                dry_run: a.dry_run,
                force_local: a.force_local,
                force_remote: a.force_remote,
                json: self.json,
                config: self.config,
                verbose: self.verbose,
                follow_symlinks: self.follow_symlinks,
            },
            Some(Commands::Pull(a)) => Command::Pull {
                vault: self.vault,
                delete: a.delete,
                dry_run: a.dry_run,
                force_local: a.force_local,
                force_remote: a.force_remote,
                json: self.json,
                config: self.config,
                verbose: self.verbose,
                follow_symlinks: self.follow_symlinks,
            },
            Some(Commands::Check) => Command::Check {
                config: self.config,
                verbose: self.verbose,
                json: self.json,
            },
            Some(Commands::Repair(a)) => Command::Repair {
                vault: self.vault,
                json: self.json,
                config: self.config,
                verbose: self.verbose,
                dry_run: a.dry_run,
                force: a.force,
            },
            Some(Commands::Version) => Command::Version,
            Some(Commands::Help) => Command::Help,
        }
    }

    /// The command that the arguments name; no subcommand means help.
    pub fn into_command(self) -> (r: Command)
        ensures
            r == self.named(),
    {
        let config = self.config;
        let verbose = self.verbose;
        match self.command {
            None => Command::Help,
            Some(Commands::Status(a)) => Command::Status {
                vault: self.vault,
                json: self.json,
                config,
                verbose,
                follow_symlinks: self.follow_symlinks,
                write_manifest: a.write_manifest,
            },
            Some(Commands::Push(a)) => Command::Push {
                vault: self.vault,
                delete: a.delete,
                dry_run: a.dry_run,
                force_local: a.force_local,
                force_remote: a.force_remote,
                json: self.json,
                config,
                verbose,
                follow_symlinks: self.follow_symlinks,
            },
            Some(Commands::Pull(a)) => Command::Pull {
                vault: self.vault,
                delete: a.delete,
                dry_run: a.dry_run,
                force_local: a.force_local,
                force_remote: a.force_remote,
                json: self.json,
                config,
                verbose,
                follow_symlinks: self.follow_symlinks,
            },
            Some(Commands::Check) => Command::Check { config, verbose, json: self.json },
            Some(Commands::Repair(a)) => Command::Repair {
                vault: self.vault,
                json: self.json,
                config,
                verbose,
                dry_run: a.dry_run,
                force: a.force,
            },
            Some(Commands::Version) => Command::Version,
            Some(Commands::Help) => Command::Help,
        }
    }
}

/// Whether `s[i..j]` is a line of the text.
pub open spec fn is_line(s: Seq<char>, i: int, j: int) -> bool {
    &&& 0 <= i <= j <= s.len()
    &&& i == 0 || s[i - 1] == '\n'
    &&& j == s.len() || s[j] == '\n'
    &&& forall|k: int| i <= k < j ==> s[k] != '\n'
}

/// How many whitespace characters a text starts with.
pub open spec fn indent(s: Seq<char>) -> nat
    decreases s.len(),
{
    if s.len() > 0 && text::is_whitespace(s[0]) {
        1 + indent(s.skip(1))
    } else {
        0
    }
}

/// Whether a line says how the program is used.
pub open spec fn usage_line(line: Seq<char>) -> bool {
    text::starts_with_text(text::lowercase_text(line.skip(indent(line) as int)), "usage:"@)
}

/// Whether some line of the text says how the program is used.
pub open spec fn has_usage(s: Seq<char>) -> bool {
    exists|i: int, j: int| #[trigger] is_line(s, i, j) && usage_line(s.subrange(i, j))
}

/// Whether the characters `c[i..j]` are a usage line.
fn is_usage_line(c: &Vec<char>, i: usize, j: usize) -> (r: bool)
    requires
        i <= j <= c@.len(),
    ensures
        r == usage_line(c@.subrange(i as int, j as int)),
{
    let ghost line = c@.subrange(i as int, j as int);
    let mut k: usize = i;
    assert(line.skip(0) =~= line);
    while k < j && char_is_whitespace(c[k])
        invariant
            i <= k <= j <= c@.len(),
            line == c@.subrange(i as int, j as int),
            indent(line) == (k - i) + indent(line.skip(k - i)),
        decreases j - k,
    {
        assert(line.skip(k - i)[0] == c@[k as int]);
        assert(line.skip(k - i).skip(1) =~= line.skip(k + 1 - i));
        k = k + 1;
    }
    proof {
        if k < j {
            assert(line.skip(k - i)[0] == c@[k as int]);
        }
        assert(indent(line.skip(k - i)) == 0);
        assert(line.skip(k - i) =~= c@.subrange(k as int, j as int));
    }
    let rest = string_of(c, k, j);
    let low = lowercase_string(rest.as_str());
    let low_chars = chars_of(low.as_str());
    let want = chars_of("usage:");
    chars_start_with(&low_chars, &want)
}

/// Whether some line of the characters is a usage line.
fn usage_among(c: &Vec<char>) -> (r: bool)
    ensures
        r == has_usage(c@),
{
    let mut start: usize = 0;
    let mut i: usize = 0;
    while i < c.len()
        invariant
            start <= i <= c@.len(),
            start == 0 || c@[start - 1] == '\n',
            forall|k: int| start <= k < i ==> c@[k] != '\n',
            forall|x: int, y: int| #[trigger]
                is_line(c@, x, y) && y < start ==> !usage_line(c@.subrange(x, y)),
        decreases c@.len() - i,
    {
        if c[i] == '\n' {
            if is_usage_line(c, start, i) {
                assert(is_line(c@, start as int, i as int));
                return true;
            }
            proof {
                assert forall|x: int, y: int| #[trigger] is_line(c@, x, y) && y < i
                    + 1 implies !usage_line(c@.subrange(x, y)) by {
                    if y >= start {
                        if y < i {
                            assert(c@[y] == '\n');
                        }
                        assert(y == i);
                        if x < start {
                            assert(c@[start - 1] == '\n');
                        }
                        if x > start {
                            assert(c@[x - 1] == '\n');
                        }
                        assert(x == start);
                    }
                }
            }
            start = i + 1;
        }
        i = i + 1;
    }
    let last = is_usage_line(c, start, c.len());
    proof {
        if last {
            assert(is_line(c@, start as int, c@.len() as int));
        } else {
            assert forall|x: int, y: int| #[trigger] is_line(c@, x, y) implies !usage_line(
                c@.subrange(x, y),
            ) by {
                if y >= start {
                    if y < c@.len() {
                        assert(c@[y] == '\n');
                    }
                    assert(y == c@.len());
                    if x < start {
                        assert(c@[start - 1] == '\n');
                    }
                    if x > start {
                        assert(c@[x - 1] == '\n');
                    }
                    assert(x == start);
                }
            }
        }
    }
    last
}

/// Every argument error carries a usage line: one without gets `usage`
/// appended.
pub fn ensure_usage(message: &str, usage: &str) -> (r: String)
    ensures
        r@ == (if has_usage(message@) {
            message@
        } else {
            message@ + "\n\n"@ + usage@
        }),
{
    let c = chars_of(message);
    let mut out = message.to_owned();
    if !usage_among(&c) {
        out.append("\n\n");
        out.append(usage);
    }
    out
}

/// Whether a plan plans nothing but skips (its counters are all 0).
pub open spec fn clean(s: PlanStats) -> bool {
    s.upload == 0 && s.download == 0 && s.delete_local == 0 && s.delete_remote == 0 && s.conflict
        == 0
}

/// Whether a plan plans nothing but skips.
pub fn is_clean(p: &Plan) -> (r: bool)
    ensures
        r == clean(p.stats),
{
    p.stats.upload == 0 && p.stats.download == 0 && p.stats.delete_local == 0
        && p.stats.delete_remote == 0 && p.stats.conflict == 0
}

/// The refusal of `--json`.
pub open spec fn json_refused(err: Seq<char>) -> Seq<char> {
    err + "error: --json is not implemented (Phase 3)\n"@
}

/// Reject `--json` at dispatch time.
fn reject_json(err: &mut String) -> (code: i32)
    ensures
        final(err)@ == json_refused(old(err)@),
        code == 1,
{
    err.append("error: --json is not implemented (Phase 3)\n");
    1
}

/// Appends an error line.
pub open spec fn with_error(err: Seq<char>, e: ErrorView) -> Seq<char> {
    err + "error: "@ + e.text() + "\n"@
}

/// Appends an error line.
fn push_error(err: &mut String, e: &Error)
    ensures
        final(err)@ == with_error(old(err)@, e@),
{
    err.append("error: ");
    err.append(e.to_string().as_str());
    err.append("\n");
}

/// Appends one warning line for each text.
pub open spec fn with_warnings(err: Seq<char>, w: Seq<Seq<char>>) -> Seq<char>
    decreases w.len(),
{
    if w.len() == 0 {
        err
    } else {
        with_warnings(err, w.drop_last()) + "warning: "@ + w.last() + "\n"@
    }
}

/// Appends one warning line for each text.
fn push_warnings(err: &mut String, w: &Vec<String>)
    ensures
        final(err)@ == with_warnings(old(err)@, text::texts(w@)),
{
    let ghost all = text::texts(w@);
    let ghost start = err@;
    let mut i: usize = 0;
    assert(all.take(0) =~= Seq::<Seq<char>>::empty());
    while i < w.len()
        invariant
            i <= w@.len(),
            all == text::texts(w@),
            err@ == with_warnings(start, all.take(i as int)),
        decreases w@.len() - i,
    {
        assert(all.take(i + 1).drop_last() =~= all.take(i as int));
        assert(all.take(i + 1).last() == w@[i as int]@);
        err.append("warning: ");
        err.append(w[i].as_str());
        err.append("\n");
        i = i + 1;
    }
    assert(all.take(i as int) =~= all);
}

/// Appends the line that names the inventory source.
pub open spec fn with_inventory_line(err: Seq<char>, base: BaseView) -> Seq<char> {
    match base.source {
        SourceView::Manifest { .. } => err + "inventory: manifest ("@ + text::dec(
            base.file_entities.len(),
        ) + " entries)\n"@,
        SourceView::LiveListHead => err + "inventory: list+head (cold)\n"@,
    }
}

/// Print the inventory source line: one per plan build, always on.
fn print_inventory_line(base: &InventoryBase, err: &mut String)
    ensures
        final(err)@ == with_inventory_line(old(err)@, base@),
{
    match &base.source {
        InventorySource::Manifest { .. } => {
            err.append("inventory: manifest (");
            err.append(decimal(base.file_entities.len() as u64).as_str());
            err.append(" entries)\n");
        },
        InventorySource::LiveListHead => {
            err.append("inventory: list+head (cold)\n");
        },
    }
}

/// Appends a counted warning, unless the count is 0.
pub open spec fn with_count(err: Seq<char>, head: Seq<char>, n: u32, tail: Seq<char>) -> Seq<char> {
    if n == 0 {
        err
    } else {
        err + head + text::dec(n as nat) + tail
    }
}

/// Appends a counted warning, unless the count is 0.
fn push_count(err: &mut String, head: &str, n: u32, tail: &str)
    ensures
        final(err)@ == with_count(old(err)@, head@, n, tail@),
{
    if n > 0 {
        err.append(head);
        err.append(decimal(n as u64).as_str());
        err.append(tail);
    }
}

/// Appends the warnings of a walk: its own, the hint on skipped symlinks
/// (unless they are followed), and the counts of skipped leftovers and of
/// ignored paths.
pub open spec fn with_walk_warnings(err: Seq<char>, rep: ReportView, follow: bool) -> Seq<char> {
    let e1 = with_warnings(err, rep.warnings);
    let e2 = if follow {
        e1
    } else {
        with_count(
            e1,
            "warning: skipped "@,
            rep.skipped_symlinks,
            " symlink(s); use --follow-symlinks to list them (status only; transfers skip followed symlinks in v1)\n"@,
        )
    };
    let e3 = with_count(
        e2,
        "warning: skipped "@,
        rep.skipped_temp_files,
        " vaultsync temp/probe file(s) (crash leftovers); remove them manually\n"@,
    );
    with_count(
        e3,
        "warning: ignored "@,
        rep.skipped_ignored,
        " local path(s) by ignore patterns\n"@,
    )
}

/// Print walk-report warnings.
fn print_walk_warnings(local: &LocalFs, follow: bool, err: &mut String)
    ensures
        final(err)@ == with_walk_warnings(old(err)@, local@.report, follow),
{
    let rep: WalkReport = local.report();
    push_warnings(err, &rep.warnings);
    if !follow {
        push_count(
            err,
            "warning: skipped ",
            rep.skipped_symlinks,
            " symlink(s); use --follow-symlinks to list them (status only; transfers skip followed symlinks in v1)\n",
        );
    }
    push_count(
        err,
        "warning: skipped ",
        rep.skipped_temp_files,
        " vaultsync temp/probe file(s) (crash leftovers); remove them manually\n",
    );
    push_count(
        err,
        "warning: ignored ",
        rep.skipped_ignored,
        " local path(s) by ignore patterns\n",
    );
}

/// Resolved dispatch knobs. The one ignore set serves the local walk
/// ([`walk_for`]) and the remote filter, so that the two never disagree.
#[derive(Debug)]
pub struct DispatchCtx {
    /// Resolved `transfer.mtime_tolerance_ms`.
    pub tolerance_ms: u64,
    /// Bounds the transfer passes (1 = sequential).
    pub concurrency: u32,
    pub progress_mode: ProgressMode,
    /// The compiled `[ignore]` set.
    pub ignore: IgnoreSet,
    /// Resolved `[inventory].mode`.
    pub inventory_mode: InventoryMode,
    /// Resolved `[inventory].bootstrap`.
    pub inventory_bootstrap: InventoryBootstrap,
    /// The help text.
    pub help: String,
}

/// The vault that a command plans for and whether it follows symlinks, if it
/// plans.
pub open spec fn vault_to_walk(cmd: Command) -> Option<(Seq<char>, bool)> {
    match cmd {
        Command::Status { vault, json, follow_symlinks, .. } => if json {
            None
        } else {
            Some((vault@, follow_symlinks))
        },
        Command::Push { vault, json, follow_symlinks, .. } => if json {
            None
        } else {
            Some((vault@, follow_symlinks))
        },
        Command::Pull { vault, json, follow_symlinks, .. } => if json {
            None
        } else {
            Some((vault@, follow_symlinks))
        },
        _ => None,
    }
}

/// The walk that a command needs before it is dispatched, if it needs one: it
/// has not begun.
pub fn walk_for(cmd: &Command, ctx: &DispatchCtx) -> (r: Option<LocalFs>)
    ensures
        match r {
            Some(fs) => vault_to_walk(*cmd) is Some && fs@ == local::fresh_walk(
                (vault_to_walk(*cmd)->0).0,
                (vault_to_walk(*cmd)->0).1,
                ctx.ignore@,
            ),
            None => vault_to_walk(*cmd) is None,
        },
{
    match cmd {
        Command::Status { vault, json, follow_symlinks, .. } => {
            if *json {
                None
            } else {
                Some(
                    LocalFs::with_follow(vault.as_str(), *follow_symlinks).with_ignore(
                        ctx.ignore.clone(),
                    ),
                )
            }
        },
        Command::Push { vault, json, follow_symlinks, .. } => {
            if *json {
                None
            } else {
                Some(
                    LocalFs::with_follow(vault.as_str(), *follow_symlinks).with_ignore(
                        ctx.ignore.clone(),
                    ),
                )
            }
        },
        Command::Pull { vault, json, follow_symlinks, .. } => {
            if *json {
                None
            } else {
                Some(
                    LocalFs::with_follow(vault.as_str(), *follow_symlinks).with_ignore(
                        ctx.ignore.clone(),
                    ),
                )
            }
        },
        _ => None,
    }
}

/// What the program found out before a dispatch.
#[derive(Debug)]
pub struct Inputs {
    /// The finished walk of [`walk_for`], or its failure; `None` if the
    /// command needs none.
    pub walk: Option<Result<LocalFs, Error>>,
    /// What the manifest cache holds.
    pub cache: Option<CacheSnapshot>,
    /// The wall clock.
    pub now_ms: u64,
    /// A fresh probe key.
    pub probe_key: String,
    /// Whether standard error is a terminal.
    pub terminal: bool,
}

/// A plan whose transfers are to be carried out.
#[derive(Debug)]
pub struct Pending {
    pub local: LocalFs,
    pub plan: Plan,
    pub mode: Mode,
    pub tolerance_ms: u64,
    pub concurrency: u32,
    pub inventory_base: InventoryBase,
    pub progress: ResolvedMode,
}

/// The mathematical view of a [`Pending`].
pub struct PendingView {
    pub local: local::WalkView,
    pub actions: Seq<ActionView>,
    pub stats: PlanStats,
    pub mode: Mode,
    pub tolerance_ms: u64,
    pub concurrency: u32,
    pub inventory_base: BaseView,
    pub progress: ResolvedMode,
}

impl View for Pending {
    type V = PendingView;

    open spec fn view(&self) -> PendingView {
        PendingView {
            local: self.local@,
            actions: plan::actions(self.plan.actions@),
            stats: self.plan.stats,
            mode: self.mode,
            tolerance_ms: self.tolerance_ms,
            concurrency: self.concurrency,
            inventory_base: self.inventory_base@,
            progress: self.progress,
        }
    }
}

/// What a dispatch leads to.
#[derive(Debug)]
pub enum Dispatch {
    /// The command is done, with this exit code.
    Exit(i32),
    /// Transfers are to be carried out, then [`finish_transfer`].
    Transfer(Pending),
}

/// The mathematical view of a [`Dispatch`].
pub enum DispatchView {
    Exit(i32),
    Transfer(PendingView),
}

impl View for Dispatch {
    type V = DispatchView;

    open spec fn view(&self) -> DispatchView {
        match *self {
            Dispatch::Exit(c) => DispatchView::Exit(c),
            Dispatch::Transfer(p) => DispatchView::Transfer(p@),
        }
    }
}

/// What a command shows and leads to.
pub struct Shown {
    pub out: Seq<char>,
    pub err: Seq<char>,
    pub dispatch: DispatchView,
    pub cache: CacheUpdateView,
}

/// The outcome of a command that ends at once.
pub open spec fn ended(out: Seq<char>, err: Seq<char>, code: i32) -> Shown {
    Shown { out, err, dispatch: DispatchView::Exit(code), cache: CacheUpdateView::Keep }
}

/// The outcome of a check.
pub open spec fn check_shown(out: Seq<char>, err: Seq<char>, t: Seq<StoreEvent>, key: Seq<char>) -> Shown {
    match crate::check_result(t, key) {
        Ok(_) => ended(out + "check: ok\n"@, err, 0),
        Err(e) => if e is Unauthorized {
            ended(
                out,
                err + "check failed: credentials or permissions rejected\n"@
                    + "hint: check your credentials/bucket/region (expired keys, wrong region, bad bucket)\n"@,
                1,
            )
        } else {
            ended(out, err + "check failed: "@ + e.text() + "\n"@, 1)
        },
    }
}

/// Run a check and print its outcome.
fn run_check<S: ObjectStore>(
    store: &mut Session<S>,
    key: &str,
    out: &mut String,
    err: &mut String,
) -> (code: i32)
    ensures
        store::runs(*old(store), *final(store)),
        store::extends(final(store).trace(), old(store).trace()),
        ({
            let t = store::since(final(store).trace(), old(store).trace());
            &&& crate::check_requests(t, key@)
            &&& check_shown(old(out)@, old(err)@, t, key@) == ended(
                final(out)@,
                final(err)@,
                code,
            )
        }),
{
    match check_store(store, key) {
        Ok(()) => {
            out.append("check: ok\n");
            0
        },
        Err(Error::Unauthorized(_)) => {
            err.append("check failed: credentials or permissions rejected\n");
            err.append(
                "hint: check your credentials/bucket/region (expired keys, wrong region, bad bucket)\n",
            );
            1
        },
        Err(e) => {
            err.append("check failed: ");
            err.append(e.to_string().as_str());
            err.append("\n");
            1
        },
    }
}

/// Appends the summary of a repair.
pub open spec fn with_repair(out: Seq<char>, r: RepairView) -> Seq<char> {
    let listed = text::dec(r.listed as nat);
    let head = out + "repair: listed "@ + listed + " objects via list+head\n"@;
    if r.dry_run {
        head + "repair: dry-run ("@ + listed + " entries would be written)\n"@
    } else {
        let wrote = head + "repair: wrote "@ + MANIFEST_KEY@ + " ("@ + listed + " entries"@;
        match r.etag {
            Some(e) => wrote + " etag="@ + e + ")\n"@,
            None => wrote + ")\n"@,
        }
    }
}

/// The outcome of a repair.
pub open spec fn repair_shown(
    out: Seq<char>,
    err: Seq<char>,
    t: Seq<StoreEvent>,
    opts: RepairOpts,
    now_ms: u64,
) -> Shown {
    match inventory::repair_result(t, opts, now_ms) {
        Ok(r) => Shown {
            out: with_repair(out, r),
            err: with_warnings(err, r.warnings),
            dispatch: DispatchView::Exit(0),
            cache: inventory::repair_update(t, opts, now_ms),
        },
        Err(e) => Shown {
            out,
            err: with_error(err, e),
            dispatch: DispatchView::Exit(1),
            cache: inventory::repair_update(t, opts, now_ms),
        },
    }
}

/// Print the summary of a repair.
fn print_repair(r: &RepairReport, out: &mut String)
    ensures
        final(out)@ == with_repair(old(out)@, r@),
{
    let listed = decimal(r.listed as u64);
    out.append("repair: listed ");
    out.append(listed.as_str());
    out.append(" objects via list+head\n");
    if r.dry_run {
        out.append("repair: dry-run (");
        out.append(listed.as_str());
        out.append(" entries would be written)\n");
    } else {
        out.append("repair: wrote ");
        out.append(MANIFEST_KEY);
        out.append(" (");
        out.append(listed.as_str());
        out.append(" entries");
        if let Some(e) = &r.etag {
            out.append(" etag=");
            out.append(e.as_str());
        }
        out.append(")\n");
    }
}

/// Run a repair and print its outcome.
fn run_repair<S: ObjectStore>(
    store: &mut Session<S>,
    opts: &RepairOpts,
    now_ms: u64,
    out: &mut String,
    err: &mut String,
) -> (r: (i32, CacheUpdate))
    ensures
        store::runs(*old(store), *final(store)),
        store::extends(final(store).trace(), old(store).trace()),
        ({
            let t = store::since(final(store).trace(), old(store).trace());
            &&& inventory::repair_requests(t, *opts, now_ms)
            &&& repair_shown(old(out)@, old(err)@, t, *opts, now_ms) == (Shown {
                out: final(out)@,
                err: final(err)@,
                dispatch: DispatchView::Exit(r.0),
                cache: r.1@,
            })
        }),
{
    let (outcome, update) = repair_manifest(store, opts, now_ms);
    match outcome {
        Ok(report) => {
            push_warnings(err, &report.warnings);
            print_repair(&report, out);
            (0, update)
        },
        Err(e) => {
            push_error(err, &e);
            (1, update)
        },
    }
}

/// The flags of a command that plans.
pub struct PlanFlags {
    pub mode: Mode,
    pub opts: PlanOpts,
    pub dry_run: bool,
    pub verbose: u8,
    pub follow_symlinks: bool,
    /// Whether a status is to publish a missing manifest.
    pub write_manifest: bool,
}

/// The flags of a command that plans.
pub open spec fn plan_flags(cmd: Command, tolerance_ms: u64) -> Option<PlanFlags> {
    match cmd {
        Command::Status { verbose, follow_symlinks, write_manifest, .. } => Some(
            PlanFlags {
                mode: Mode::Status,
                opts: PlanOpts {
                    mtime_tolerance_ms: tolerance_ms,
                    delete: false,
                    force_local: false,
                    force_remote: false,
                },
                dry_run: true,
                verbose,
                follow_symlinks,
                write_manifest,
            },
        ),
        Command::Push {
            delete,
            dry_run,
            force_local,
            force_remote,
            verbose,
            follow_symlinks,
            ..
        } => Some(
            PlanFlags {
                mode: Mode::Push,
                opts: PlanOpts {
                    mtime_tolerance_ms: tolerance_ms,
                    delete,
                    force_local,
                    force_remote,
                },
                dry_run,
                verbose,
                follow_symlinks,
                write_manifest: false,
            },
        ),
        Command::Pull {
            delete,
            dry_run,
            force_local,
            force_remote,
            verbose,
            follow_symlinks,
            ..
        } => Some(
            PlanFlags {
                mode: Mode::Pull,
                opts: PlanOpts {
                    mtime_tolerance_ms: tolerance_ms,
                    delete,
                    force_local,
                    force_remote,
                },
                dry_run,
                verbose,
                follow_symlinks,
                write_manifest: false,
            },
        ),
        _ => None,
    }
}

/// What is shown of a plan on standard error.
pub open spec fn with_plan_notes(
    err: Seq<char>,
    report: PlanReportView,
    rep: ReportView,
    follow: bool,
) -> Seq<char> {
    with_walk_warnings(
        with_inventory_line(with_warnings(err, report.warnings), report.inventory_base),
        rep,
        follow,
    )
}

/// Whether a bootstrap of the inventory is due: the mode is `auto`, no usable
/// manifest was found, and the command is a push that is to publish one before
/// its transfers, or a status that was asked to.
pub open spec fn bootstraps(flags: PlanFlags, ctx: DispatchCtx, base: BaseView) -> bool {
    &&& ctx.inventory_mode == InventoryMode::Auto
    &&& base.source is LiveListHead
    &&& match flags.mode {
        Mode::Push => !flags.dry_run && ctx.inventory_bootstrap == InventoryBootstrap::PushEnsure,
        Mode::Status => flags.write_manifest,
        Mode::Pull => false,
    }
}

/// Whether a bootstrap is due.
fn is_bootstrap_due(flags: &PlanFlags, ctx: &DispatchCtx, base: &InventoryBase) -> (r: bool)
    ensures
        r == bootstraps(*flags, *ctx, base@),
{
    if ctx.inventory_mode != InventoryMode::Auto {
        return false;
    }
    if let InventorySource::Manifest { .. } = &base.source {
        return false;
    }
    match flags.mode {
        Mode::Push => !flags.dry_run && ctx.inventory_bootstrap == InventoryBootstrap::PushEnsure,
        Mode::Status => flags.write_manifest,
        Mode::Pull => false,
    }
}

/// Appends what is shown of a bootstrap. One that fails or loses its race is
/// given up with a warning by a push, which goes on; a status fails.
pub open spec fn with_bootstrap(
    err: Seq<char>,
    mode: Mode,
    outcome: Result<OutcomeView, ErrorView>,
) -> Seq<char> {
    let head = if mode == Mode::Push {
        "warning: "@
    } else {
        "error: "@
    };
    match outcome {
        Ok(OutcomeView::Written { entry_count, .. }) => err + "inventory: published manifest ("@
            + text::dec(entry_count as nat) + " entries)\n"@,
        Ok(OutcomeView::Adopted { entry_count, .. }) => err + "inventory: adopted manifest ("@
            + text::dec(entry_count as nat) + " entries)\n"@,
        Ok(_) => err + head
            + "inventory bootstrap aborted (another writer won the race); run vaultsync repair if status looks wrong\n"@,
        Err(e) => err + head + "inventory bootstrap failed: "@ + e.text() + "\n"@,
    }
}

/// Whether a bootstrap left a manifest in place.
pub open spec fn secured(outcome: Result<OutcomeView, ErrorView>) -> bool {
    outcome is Ok && (outcome->Ok_0 is Written || outcome->Ok_0 is Adopted)
}

/// Prints the outcome of a bootstrap; returns whether a manifest is in place.
fn print_bootstrap(err: &mut String, mode: Mode, outcome: &Result<EnsureOutcome, Error>) -> (r:
    bool)
    ensures
        final(err)@ == with_bootstrap(old(err)@, mode, inventory::ensure_view(*outcome)),
        r == secured(inventory::ensure_view(*outcome)),
{
    let head = if mode == Mode::Push {
        "warning: "
    } else {
        "error: "
    };
    match outcome {
        Ok(EnsureOutcome::Written { entry_count, .. }) => {
            err.append("inventory: published manifest (");
            err.append(decimal(*entry_count as u64).as_str());
            err.append(" entries)\n");
            true
        },
        Ok(EnsureOutcome::Adopted { entry_count, .. }) => {
            err.append("inventory: adopted manifest (");
            err.append(decimal(*entry_count as u64).as_str());
            err.append(" entries)\n");
            true
        },
        Ok(EnsureOutcome::PreconditionFailed) => {
            err.append(head);
            err.append(
                "inventory bootstrap aborted (another writer won the race); run vaultsync repair if status looks wrong\n",
            );
            false
        },
        Err(e) => {
            err.append(head);
            err.append("inventory bootstrap failed: ");
            err.append(e.to_string().as_str());
            err.append("\n");
            false
        },
    }
}

/// The plan that the requests `t` come to, or what stopped it.
pub open spec fn planned(
    t: Seq<StoreEvent>,
    local: local::WalkView,
    flags: PlanFlags,
    ctx: DispatchCtx,
    cache: Option<inventory::CacheView>,
) -> Result<PlanReportView, ErrorView> {
    crate::build_result(
        local,
        inventory::load_part(t, ctx.inventory_mode),
        flags.mode,
        flags.opts,
        ctx.ignore@,
        ctx.inventory_mode,
        cache,
    )
}

/// The requests of planning: those of a load, then those of a bootstrap if one
/// is due.
pub open spec fn plan_requests(
    t: Seq<StoreEvent>,
    local: local::WalkView,
    flags: PlanFlags,
    ctx: DispatchCtx,
    cache: Option<inventory::CacheView>,
    now_ms: u64,
) -> bool {
    let rest = inventory::after_load(t, ctx.inventory_mode);
    let p = planned(t, local, flags, ctx, cache);
    &&& inventory::load_requests(
        inventory::load_part(t, ctx.inventory_mode),
        ctx.inventory_mode,
        cache,
    )
    &&& if p is Ok && bootstraps(flags, ctx, p->Ok_0.inventory_base) {
        inventory::ensure_requests(rest, p->Ok_0.inventory_base.file_entities, now_ms)
    } else {
        rest.len() == 0
    }
}

/// The outcome of planning and, if it is due, of the bootstrap. A status or dry
/// run ends here: 0 if the plan is clean, else 2; a bootstrap that a status was
/// asked for and that fails makes it 1.
#[verifier::opaque]
pub open spec fn plan_shown(
    out: Seq<char>,
    err: Seq<char>,
    t: Seq<StoreEvent>,
    local: local::WalkView,
    flags: PlanFlags,
    ctx: DispatchCtx,
    cache: Option<inventory::CacheView>,
    now_ms: u64,
    terminal: bool,
) -> Shown {
    let loaded = inventory::load_part(t, ctx.inventory_mode);
    let rest = inventory::after_load(t, ctx.inventory_mode);
    let update = inventory::load_update(loaded, ctx.inventory_mode, cache, now_ms);
    match planned(t, local, flags, ctx, cache) {
        Err(e) => Shown {
            out,
            err: with_error(err, e),
            dispatch: DispatchView::Exit(1),
            cache: update,
        },
        Ok(report) => {
            let base = report.inventory_base;
            let notes = with_plan_notes(err, report, local.report, flags.follow_symlinks);
            let due = bootstraps(flags, ctx, base);
            let outcome = inventory::ensure_result(rest, base.file_entities, now_ms);
            Shown {
                out: out + crate::plan_text(report.actions, report.stats, flags.verbose),
                err: if due {
                    with_bootstrap(notes, flags.mode, outcome)
                } else {
                    notes
                },
                dispatch: if flags.dry_run {
                    DispatchView::Exit(
                        if due && !secured(outcome) {
                            1
                        } else if clean(report.stats) {
                            0
                        } else {
                            2
                        },
                    )
                } else {
                    DispatchView::Transfer(
                        PendingView {
                            local,
                            actions: report.actions,
                            stats: report.stats,
                            mode: flags.mode,
                            tolerance_ms: flags.opts.mtime_tolerance_ms,
                            concurrency: ctx.concurrency,
                            inventory_base: if due {
                                inventory::ensured_base(rest, base, now_ms)
                            } else {
                                base
                            },
                            progress: progress::resolved_mode(ctx.progress_mode, terminal),
                        },
                    )
                },
                cache: if due {
                    inventory::then_update(
                        update,
                        inventory::ensure_update(rest, base.file_entities, now_ms),
                    )
                } else {
                    update
                },
            }
        },
    }
}

/// Build a plan and print it; then bootstrap the inventory if that is due.
fn dispatch_plan<S: ObjectStore>(
    local: LocalFs,
    store: &mut Session<S>,
    flags: PlanFlags,
    ctx: &DispatchCtx,
    cache: Option<&CacheSnapshot>,
    now_ms: u64,
    terminal: bool,
    out: &mut String,
    err: &mut String,
) -> (r: (Dispatch, CacheUpdate))
    ensures
        store::runs(*old(store), *final(store)),
        store::extends(final(store).trace(), old(store).trace()),
        ({
            let t = store::since(final(store).trace(), old(store).trace());
            let c = inventory::opt_cache(cache);
            &&& plan_requests(t, local@, flags, *ctx, c, now_ms)
            &&& plan_shown(
                old(out)@,
                old(err)@,
                t,
                local@,
                flags,
                *ctx,
                c,
                now_ms,
                terminal,
            ) == (Shown {
                out: final(out)@,
                err: final(err)@,
                dispatch: r.0@,
                cache: r.1@,
            })
        }),
{
    let ghost start = store.trace();
    let (built, load_update) = build_plan(
        &local,
        store,
        flags.mode,
        &flags.opts,
        &ctx.ignore,
        ctx.inventory_mode,
        cache,
        now_ms,
    );
    let ghost middle = store.trace();
    let ghost loaded = store::since(middle, start);
    proof {
        reveal(plan_shown);
        let nothing = Seq::<StoreEvent>::empty();
        inventory::lemma_load_parts(
            loaded,
            nothing,
            ctx.inventory_mode,
            inventory::opt_cache(cache),
        );
        assert(loaded + nothing =~= loaded);
    }
    let report = match built {
        Ok(report) => report,
        Err(e) => {
            push_error(err, &e);
            return (Dispatch::Exit(1), load_update);
        },
    };
    push_warnings(err, &report.warnings);
    print_inventory_line(&report.inventory_base, err);
    print_walk_warnings(&local, flags.follow_symlinks, err);
    let shown = format_plan_human_verbose(&report.plan, flags.verbose);
    out.append(shown.as_str());
    let mut failed = false;
    let mut update = load_update;
    let PlanReport { plan, warnings: _, inventory_base } = report;
    let mut base = inventory_base;
    if is_bootstrap_due(&flags, ctx, &base) {
        let (outcome, ensured, ensure_update) = ensure_remote_manifest(store, &base, now_ms);
        proof {
            let rest = store::since(store.trace(), middle);
            inventory::lemma_load_parts(
                loaded,
                rest,
                ctx.inventory_mode,
                inventory::opt_cache(cache),
            );
            store::lemma_since(start, middle, store.trace());
        }
        failed = !print_bootstrap(err, flags.mode, &outcome);
        update = update_after(update, ensure_update);
        if let Some(b) = ensured {
            base = b;
        }
    }
    if flags.dry_run {
        let code: i32 = if failed {
            1
        } else if is_clean(&plan) {
            0
        } else {
            2
        };
        return (Dispatch::Exit(code), update);
    }
    (
        Dispatch::Transfer(
            Pending {
                local,
                plan,
                mode: flags.mode,
                tolerance_ms: flags.opts.mtime_tolerance_ms,
                concurrency: ctx.concurrency,
                inventory_base: base,
                progress: resolve_progress_mode(ctx.progress_mode, terminal),
            },
        ),
        update,
    )
}

/// The flags of a command that plans.
pub fn flags_of(cmd: &Command, tolerance_ms: u64) -> (r: Option<PlanFlags>)
    ensures
        r == plan_flags(*cmd, tolerance_ms),
{
    match cmd {
        Command::Status { verbose, follow_symlinks, write_manifest, .. } => Some(
            PlanFlags {
                mode: Mode::Status,
                opts: PlanOpts {
                    mtime_tolerance_ms: tolerance_ms,
                    delete: false,
                    force_local: false,
                    force_remote: false,
                },
                dry_run: true,
                verbose: *verbose,
                follow_symlinks: *follow_symlinks,
                write_manifest: *write_manifest,
            },
        ),
        Command::Push {
            delete,
            dry_run,
            force_local,
            force_remote,
            verbose,
            follow_symlinks,
            ..
        } => Some(
            PlanFlags {
                mode: Mode::Push,
                opts: PlanOpts {
                    mtime_tolerance_ms: tolerance_ms,
                    delete: *delete,
                    force_local: *force_local,
                    force_remote: *force_remote,
                },
                dry_run: *dry_run,
                verbose: *verbose,
                follow_symlinks: *follow_symlinks,
                write_manifest: false,
            },
        ),
        Command::Pull {
            delete,
            dry_run,
            force_local,
            force_remote,
            verbose,
            follow_symlinks,
            ..
        } => Some(
            PlanFlags {
                mode: Mode::Pull,
                opts: PlanOpts {
                    mtime_tolerance_ms: tolerance_ms,
                    delete: *delete,
                    force_local: *force_local,
                    force_remote: *force_remote,
                },
                dry_run: *dry_run,
                verbose: *verbose,
                follow_symlinks: *follow_symlinks,
                write_manifest: false,
            },
        ),
        _ => None,
    }
}

/// Whether a command asks for `--json`.
pub open spec fn wants_json(cmd: Command) -> bool {
    match cmd {
        Command::Status { json, .. } => json,
        Command::Push { json, .. } => json,
        Command::Pull { json, .. } => json,
        Command::Check { json, .. } => json,
        Command::Repair { json, .. } => json,
        Command::Version | Command::Help => false,
    }
}

/// Whether a command asks for `--json`.
fn asks_json(cmd: &Command) -> (r: bool)
    ensures
        r == wants_json(*cmd),
{
    match cmd {
        Command::Status { json, .. } => *json,
        Command::Push { json, .. } => *json,
        Command::Pull { json, .. } => *json,
        Command::Check { json, .. } => *json,
        Command::Repair { json, .. } => *json,
        Command::Version | Command::Help => false,
    }
}

/// The walk that a planning command is given.
pub open spec fn walked(inputs: Inputs) -> Result<local::WalkView, ErrorView> {
    match inputs.walk {
        Some(Ok(fs)) => Ok(fs@),
        Some(Err(e)) => Err(e@),
        None => Err(ErrorView::Other("the vault was not walked"@)),
    }
}

/// The view of the cache that a command is given.
pub open spec fn cached(inputs: Inputs) -> Option<inventory::CacheView> {
    match inputs.cache {
        Some(c) => Some(c@),
        None => None,
    }
}

/// The requests that a command makes of the store before any transfer.
pub open spec fn dispatch_requests(
    cmd: Command,
    t: Seq<StoreEvent>,
    ctx: DispatchCtx,
    inputs: Inputs,
) -> bool {
    if wants_json(cmd) {
        t.len() == 0
    } else {
        match cmd {
            Command::Version | Command::Help => t.len() == 0,
            Command::Check { .. } => crate::check_requests(t, inputs.probe_key@),
            Command::Repair { dry_run, force, .. } => inventory::repair_requests(
                t,
                RepairOpts { force, dry_run },
                inputs.now_ms,
            ),
            _ => match walked(inputs) {
                Err(_) => t.len() == 0,
                Ok(local) => plan_requests(
                    t,
                    local,
                    plan_flags(cmd, ctx.tolerance_ms)->0,
                    ctx,
                    cached(inputs),
                    inputs.now_ms,
                ),
            },
        }
    }
}

/// What a command shows and leads to, after the requests `t`.
pub open spec fn dispatched(
    cmd: Command,
    t: Seq<StoreEvent>,
    ctx: DispatchCtx,
    inputs: Inputs,
    out: Seq<char>,
    err: Seq<char>,
) -> Shown {
    if wants_json(cmd) {
        ended(out, json_refused(err), 1)
    } else {
        match cmd {
            Command::Version => ended(out + "vaultsync "@ + "0.1.0"@ + "\n"@, err, 0),
            Command::Help => ended(out + ctx.help@ + "\n"@, err, 0),
            Command::Check { .. } => check_shown(out, err, t, inputs.probe_key@),
            Command::Repair { dry_run, force, .. } => repair_shown(
                out,
                err,
                t,
                RepairOpts { force, dry_run },
                inputs.now_ms,
            ),
            _ => match walked(inputs) {
                Err(e) => ended(out, with_error(err, e), 1),
                Ok(local) => plan_shown(
                    out,
                    err,
                    t,
                    local,
                    plan_flags(cmd, ctx.tolerance_ms)->0,
                    ctx,
                    cached(inputs),
                    inputs.now_ms,
                    inputs.terminal,
                ),
            },
        }
    }
}

/// Dispatch a command against a store, adding to `out` and `err`. Returns
/// where it leads, and what is to become of the manifest cache now.
pub fn run_with_io<S: ObjectStore>(
    cmd: Command,
    store: &mut Session<S>,
    ctx: &DispatchCtx,
    inputs: Inputs,
    out: &mut String,
    err: &mut String,
) -> (r: (Dispatch, CacheUpdate))
    ensures
        store::runs(*old(store), *final(store)),
        store::extends(final(store).trace(), old(store).trace()),
        ({
            let t = store::since(final(store).trace(), old(store).trace());
            &&& dispatch_requests(cmd, t, *ctx, inputs)
            &&& dispatched(cmd, t, *ctx, inputs, old(out)@, old(err)@) == (Shown {
                out: final(out)@,
                err: final(err)@,
                dispatch: r.0@,
                cache: r.1@,
            })
        }),
{
    let ghost start = store.trace();
    proof {
        assert(store::since(start, start) =~= Seq::<StoreEvent>::empty());
        assert(start.take(start.len() as int) =~= start);
    }
    if asks_json(&cmd) {
        let code = reject_json(err);
        return (Dispatch::Exit(code), CacheUpdate::Keep);
    }
    let flags = flags_of(&cmd, ctx.tolerance_ms);
    let Inputs { walk, cache, now_ms, probe_key, terminal } = inputs;
    match cmd {
        Command::Version => {
            out.append("vaultsync ");
            out.append(crate::version());
            out.append("\n");
            return (Dispatch::Exit(0), CacheUpdate::Keep);
        },
        Command::Help => {
            out.append(ctx.help.as_str());
            out.append("\n");
            return (Dispatch::Exit(0), CacheUpdate::Keep);
        },
        Command::Check { .. } => {
            let code = run_check(store, probe_key.as_str(), out, err);
            return (Dispatch::Exit(code), CacheUpdate::Keep);
        },
        Command::Repair { dry_run, force, .. } => {
            let opts = RepairOpts { force, dry_run };
            let (code, update) = run_repair(store, &opts, now_ms, out, err);
            return (Dispatch::Exit(code), update);
        },
        _ => {},
    }
    let local = match walk {
        Some(Ok(fs)) => fs,
        Some(Err(e)) => {
            push_error(err, &e);
            return (Dispatch::Exit(1), CacheUpdate::Keep);
        },
        None => {
            push_error(err, &Error::Other("the vault was not walked".to_owned()));
            return (Dispatch::Exit(1), CacheUpdate::Keep);
        },
    };
    match flags {
        Some(flags) => dispatch_plan(
            local,
            store,
            flags,
            ctx,
            cache.as_ref(),
            now_ms,
            terminal,
            out,
            err,
        ),
        None => (Dispatch::Exit(1), CacheUpdate::Keep),
    }
}

/// Appends the failures of a run.
pub open spec fn with_failures(err: Seq<char>, f: Seq<FailureView>) -> Seq<char>
    decreases f.len(),
{
    if f.len() == 0 {
        err
    } else {
        with_failures(err, f.drop_last()) + "error: "@ + f.last().key + "\n  "@ + f.last().message
            + "\n"@
    }
}

/// Appends the failures of a run.
fn push_failures(err: &mut String, f: &Vec<ExecFailure>)
    ensures
        final(err)@ == with_failures(old(err)@, exec::failures(f@)),
{
    let ghost all = exec::failures(f@);
    let ghost start = err@;
    let mut i: usize = 0;
    assert(all.take(0) =~= Seq::<FailureView>::empty());
    while i < f.len()
        invariant
            i <= f@.len(),
            all == exec::failures(f@),
            err@ == with_failures(start, all.take(i as int)),
        decreases f@.len() - i,
    {
        assert(all.take(i + 1).drop_last() =~= all.take(i as int));
        assert(all.take(i + 1).last() == f@[i as int]@);
        err.append("error: ");
        err.append(f[i].key.as_str());
        err.append("\n  ");
        err.append(f[i].message.as_str());
        err.append("\n");
        i = i + 1;
    }
    assert(all.take(i as int) =~= all);
}

/// Whether a plan holds a conflict.
pub open spec fn has_conflict(a: Seq<ActionView>) -> bool {
    exists|i: int| 0 <= i < a.len() && (#[trigger] a[i]).kind == ActionKind::Conflict
}

/// Whether a plan holds a conflict.
fn conflicted(p: &Plan) -> (r: bool)
    ensures
        r == has_conflict(plan::actions(p.actions@)),
{
    let ghost all = plan::actions(p.actions@);
    let mut i: usize = 0;
    while i < p.actions.len()
        invariant
            i <= p.actions@.len(),
            all == plan::actions(p.actions@),
            forall|j: int| 0 <= j < i ==> (#[trigger] all[j]).kind != ActionKind::Conflict,
        decreases p.actions@.len() - i,
    {
        assert(all[i as int].kind == p.actions@[i as int].kind);
        if p.actions[i].kind == ActionKind::Conflict {
            return true;
        }
        i = i + 1;
    }
    false
}

/// Appends what is shown of a commit: a lost race and a failure are warnings,
/// since the transfers are done.
pub open spec fn with_commit(err: Seq<char>, outcome: Result<OutcomeView, ErrorView>) -> Seq<char> {
    match outcome {
        Ok(o) => if o is PreconditionFailed {
            err
                + "warning: manifest not committed (lost race or changed under us); run vaultsync repair if status looks wrong\n"@
        } else {
            err
        },
        Err(e) => err + "warning: manifest commit failed: "@ + e.text() + "\n"@,
    }
}

/// The report of the transfers of a pending plan.
pub open spec fn transfer_report(p: PendingView, o: Seq<exec::StepView>) -> exec::ExecView {
    let order = exec::steps(p.actions, p.mode);
    exec::report_of(p.actions, order, o, exec::carried_out(order, o))
}

/// The mutations that are committed: those of a push.
pub open spec fn committed(p: PendingView, o: Seq<exec::StepView>) -> Seq<
    inventory::MutationView,
> {
    if p.mode == Mode::Push {
        transfer_report(p, o).mutations
    } else {
        Seq::<inventory::MutationView>::empty()
    }
}

/// What the end of a transfer shows on standard error.
pub open spec fn finished_err(
    err: Seq<char>,
    p: PendingView,
    o: Seq<exec::StepView>,
    warnings: Seq<Seq<char>>,
    t: Seq<StoreEvent>,
    now_ms: u64,
) -> Seq<char> {
    let e1 = if p.progress == ResolvedMode::Render {
        progress::with_progress(err, p.actions)
    } else {
        err
    };
    let e2 = with_failures(with_warnings(e1, warnings), transfer_report(p, o).failed);
    with_commit(e2, inventory::commit_result(t, p.inventory_base, committed(p, o), now_ms))
}

/// The exit code of a transfer: 1 if a key failed, else 2 if the plan holds a
/// conflict, else 0.
pub open spec fn exit_code(p: PendingView, o: Seq<exec::StepView>) -> i32 {
    if transfer_report(p, o).failed.len() > 0 {
        1
    } else if has_conflict(p.actions) {
        2
    } else {
        0
    }
}

/// Report the transfers of a pending plan and, after a push with at least one
/// successful remote mutation, commit the manifest last. `results` are the
/// outcomes of the steps of [`exec::execution_steps`], and `warnings` those of
/// the clean-up after it. Returns the exit code and what is to become of the
/// manifest cache.
pub fn finish_transfer<S: ObjectStore>(
    pending: &Pending,
    store: &mut Session<S>,
    results: &Vec<StepOutcome>,
    warnings: &Vec<String>,
    now_ms: u64,
    err: &mut String,
) -> (r: (i32, CacheUpdate))
    ensures
        store::runs(*old(store), *final(store)),
        store::extends(final(store).trace(), old(store).trace()),
        ({
            let t = store::since(final(store).trace(), old(store).trace());
            let o = exec::outcomes(results@);
            let base = pending@.inventory_base;
            &&& inventory::commit_requests(t, base, committed(pending@, o), now_ms)
            &&& final(err)@ == finished_err(
                old(err)@,
                pending@,
                o,
                text::texts(warnings@),
                t,
                now_ms,
            )
            &&& r.0 == exit_code(pending@, o)
            &&& r.1@ == inventory::commit_update(t, base, committed(pending@, o), now_ms)
        }),
{
    let ghost start = store.trace();
    proof {
        assert(store::since(start, start) =~= Seq::<StoreEvent>::empty());
        assert(start.take(start.len() as int) =~= start);
    }
    if let ResolvedMode::Render = pending.progress {
        push_progress(err, &pending.plan);
    }
    let report = execute_plan(&pending.plan, pending.mode, results);
    push_warnings(err, warnings);
    push_failures(err, &report.failed);
    let ghost o = exec::outcomes(results@);
    assert(report@ == transfer_report(pending@, o));
    let mut update = CacheUpdate::Keep;
    if pending.mode == Mode::Push {
        let (outcome, u) = commit_manifest(
            store,
            &pending.inventory_base,
            report.mutations.as_slice(),
            now_ms,
        );
        update = u;
        match outcome {
            Ok(CommitOutcome::PreconditionFailed) => {
                err.append(
                    "warning: manifest not committed (lost race or changed under us); run vaultsync repair if status looks wrong\n",
                );
            },
            Ok(_) => {},
            Err(e) => {
                err.append("warning: manifest commit failed: ");
                err.append(e.to_string().as_str());
                err.append("\n");
            },
        }
    }
    assert(report@.failed.len() == report.failed@.len());
    let code: i32 = if report.failed.len() > 0 {
        1
    } else if conflicted(&pending.plan) {
        2
    } else {
        0
    };
    (code, update)
}

/// The explicit `--config` path carried by a command, if any.
pub open spec fn config_path(cmd: Command) -> Option<Seq<char>> {
    match cmd {
        Command::Status { config, .. } => text::opt_text(config),
        Command::Push { config, .. } => text::opt_text(config),
        Command::Pull { config, .. } => text::opt_text(config),
        Command::Check { config, .. } => text::opt_text(config),
        Command::Repair { config, .. } => text::opt_text(config),
        Command::Version | Command::Help => None,
    }
}

/// The explicit `--config` path carried by a command, if any.
pub fn cmd_config_path(cmd: &Command) -> (r: Option<&String>)
    ensures
        match r {
            Some(s) => config_path(*cmd) == Some(s@),
            None => config_path(*cmd) is None,
        },
{
    match cmd {
        Command::Status { config, .. } => config.as_ref(),
        Command::Push { config, .. } => config.as_ref(),
        Command::Pull { config, .. } => config.as_ref(),
        Command::Check { config, .. } => config.as_ref(),
        Command::Repair { config, .. } => config.as_ref(),
        Command::Version | Command::Help => None,
    }
}

/// Whether a path is `.`: further `.` components and slashes change nothing.
pub open spec fn unset_path(p: Seq<char>) -> bool {
    let s = text::segments(p);
    &&& s[0] == "."@
    &&& forall|i: int| 1 <= i < s.len() ==> (#[trigger] s[i]).len() == 0 || s[i] == "."@
}

/// Whether a path is `.`.
fn is_unset_path(p: &str) -> (r: bool)
    ensures
        r == unset_path(p@),
{
    let c = chars_of(p);
    let segs = split_segments(&c);
    let ghost all = text::segments(p@);
    proof {
        text::lemma_segments_nonempty(p@);
        reveal_strlit(".");
        assert(segs@[0]@ == text::char_seqs(segs@)[0]);
        assert("."@ =~= seq!['.']);
    }
    if segs[0].len() != 1 || segs[0][0] != '.' {
        assert(all[0] != "."@);
        return false;
    }
    assert(all[0] =~= "."@);
    let mut i: usize = 1;
    while i < segs.len()
        invariant
            1 <= i <= segs@.len(),
            text::char_seqs(segs@) == all,
            "."@ =~= seq!['.'],
            all == text::segments(p@),
            all[0] == "."@,
            forall|j: int| 1 <= j < i ==> (#[trigger] all[j]).len() == 0 || all[j] == "."@,
        decreases segs@.len() - i,
    {
        assert(segs@[i as int]@ == all[i as int]);
        let n: usize = segs[i].len();
        if n > 1 || (n == 1 && segs[i][0] != '.') {
            assert(all[i as int] != "."@);
            return false;
        }
        if n == 1 {
            assert(all[i as int] =~= "."@);
        }
        i = i + 1;
    }
    true
}

/// A command with the config's vault root in place of a vault that was not
/// given.
pub open spec fn with_vault_root(cmd: Command, root: String) -> Command {
    if unset_path(root@) {
        cmd
    } else {
        match cmd {
            Command::Status {
                vault,
                json,
                config,
                verbose,
                follow_symlinks,
                write_manifest,
            } => if unset_path(vault@) {
                Command::Status {
                    vault: root,
                    json,
                    config,
                    verbose,
                    follow_symlinks,
                    write_manifest,
                }
            } else {
                cmd
            },
            Command::Push {
                vault,
                delete,
                dry_run,
                force_local,
                force_remote,
                json,
                config,
                verbose,
                follow_symlinks,
            } => if unset_path(vault@) {
                Command::Push {
                    vault: root,
                    delete,
                    dry_run,
                    force_local,
                    force_remote,
                    json,
                    config,
                    verbose,
                    follow_symlinks,
                }
            } else {
                cmd
            },
            Command::Pull {
                vault,
                delete,
                dry_run,
                force_local,
                force_remote,
                json,
                config,
                verbose,
                follow_symlinks,
            } => if unset_path(vault@) {
                Command::Pull {
                    vault: root,
                    delete,
                    dry_run,
                    force_local,
                    force_remote,
                    json,
                    config,
                    verbose,
                    follow_symlinks,
                }
            } else {
                cmd
            },
            Command::Repair { vault, json, config, verbose, dry_run, force } => if unset_path(
                vault@,
            ) {
                Command::Repair { vault: root, json, config, verbose, dry_run, force }
            } else {
                cmd
            },
            _ => cmd,
        }
    }
}

/// Replace the vault of a command with the resolved config vault root when
/// `--vault` was not given.
pub fn resolve_vault_from_config(cmd: Command, settings: &Settings) -> (r: Command)
    ensures
        r == with_vault_root(cmd, settings.vault_root),
{
    if is_unset_path(settings.vault_root.as_str()) {
        return cmd;
    }
    let unset = match &cmd {
        Command::Status { vault, .. } => is_unset_path(vault.as_str()),
        Command::Push { vault, .. } => is_unset_path(vault.as_str()),
        Command::Pull { vault, .. } => is_unset_path(vault.as_str()),
        Command::Repair { vault, .. } => is_unset_path(vault.as_str()),
        _ => false,
    };
    if !unset {
        return cmd;
    }
    let want = settings.vault_root.clone();
    match cmd {
        Command::Status {
            vault: _,
            json,
            config,
            verbose,
            follow_symlinks,
            write_manifest,
        } => Command::Status {
            vault: want,
            json,
            config,
            verbose,
            follow_symlinks,
            write_manifest,
        },
        Command::Push {
            vault: _,
            delete,
            dry_run,
            force_local,
            force_remote,
            json,
            config,
            verbose,
            follow_symlinks,
        } => Command::Push {
            vault: want,
            delete,
            dry_run,
            force_local,
            force_remote,
            json,
            config,
            verbose,
            follow_symlinks,
        },
        Command::Pull {
            vault: _,
            delete,
            dry_run,
            force_local,
            force_remote,
            json,
            config,
            verbose,
            follow_symlinks,
        } => Command::Pull {
            vault: want,
            delete,
            dry_run,
            force_local,
            force_remote,
            json,
            config,
            verbose,
            follow_symlinks,
        },
        Command::Repair { vault: _, json, config, verbose, dry_run, force } => Command::Repair {
            vault: want,
            json,
            config,
            verbose,
            dry_run,
            force,
        },
        other => other,
    }
}

/// Whether a command mutates or probes a real store.
pub open spec fn needs_store(cmd: Command) -> bool {
    cmd is Push || cmd is Pull || cmd is Check || cmd is Repair
}

/// True when a command mutates or probes a real store and therefore must not
/// run against the in-memory one.
pub fn requires_real_store(cmd: &Command) -> (r: bool)
    ensures
        r == needs_store(*cmd),
{
    match cmd {
        Command::Push { .. } => true,
        Command::Pull { .. } => true,
        Command::Check { .. } => true,
        Command::Repair { .. } => true,
        _ => false,
    }
}

/// The name of a command in the refusal without a store.
pub open spec fn name_of(cmd: Command) -> Seq<char> {
    match cmd {
        Command::Push { .. } => "push"@,
        Command::Pull { .. } => "pull"@,
        Command::Check { .. } => "check"@,
        Command::Repair { .. } => "repair"@,
        _ => "this command"@,
    }
}

/// Stable command name used in the refusal without a store.
fn command_name(cmd: &Command) -> (r: &'static str)
    ensures
        r@ == name_of(*cmd),
{
    match cmd {
        Command::Push { .. } => "push",
        Command::Pull { .. } => "pull",
        Command::Check { .. } => "check",
        Command::Repair { .. } => "repair",
        _ => "this command",
    }
}

/// What [`run_with_settings`] prints before it refuses, if it refuses.
pub open spec fn refusal(cmd: Command, settings: Settings, err: Seq<char>) -> Option<Seq<char>> {
    if needs_store(cmd) && settings.store.bucket@.len() == 0 {
        Some(
            err + "error: "@ + name_of(cmd)
                + " requires a configured [store] (set store.bucket and AWS credentials); the in-memory mock is for `status` only\n"@,
        )
    } else {
        match crate::ignore::first_pattern_error(text::texts(settings.resolved_ignore_patterns@)) {
            Some(e) => Some(with_error(err, e)),
            None => None,
        }
    }
}

/// The pre-flight of a dispatch: refuses a command that needs a store when
/// none is configured, merges the config's vault root into the command, and
/// compiles the ignore patterns once for both sides. Gives the command and
/// the knobs for [`run_with_io`], or the exit code of the refusal.
pub fn run_with_settings(
    cmd: Command,
    settings: &Settings,
    progress_mode: ProgressMode,
    help: &str,
    err: &mut String,
) -> (r: Result<(Command, DispatchCtx), i32>)
    ensures
        match refusal(cmd, *settings, old(err)@) {
            Some(shown) => r == Err::<(Command, DispatchCtx), i32>(1) && final(err)@ == shown,
            None => {
                &&& final(err)@ == old(err)@
                &&& r is Ok
                &&& (r->Ok_0).0 == with_vault_root(cmd, settings.vault_root)
                &&& (r->Ok_0).1.tolerance_ms == settings.mtime_tolerance_ms
                &&& (r->Ok_0).1.concurrency == settings.concurrency
                &&& (r->Ok_0).1.progress_mode == progress_mode
                &&& (r->Ok_0).1.ignore@ == text::texts(settings.resolved_ignore_patterns@)
                &&& (r->Ok_0).1.inventory_mode == settings.inventory_mode
                &&& (r->Ok_0).1.inventory_bootstrap == settings.inventory_bootstrap
                &&& (r->Ok_0).1.help@ == help@
            },
        },
{
    if requires_real_store(&cmd) && settings.store.bucket.as_str().is_empty() {
        err.append("error: ");
        err.append(command_name(&cmd));
        err.append(
            " requires a configured [store] (set store.bucket and AWS credentials); the in-memory mock is for `status` only\n",
        );
        return Err(1);
    }
    let resolved = resolve_vault_from_config(cmd, settings);
    match IgnoreSet::from_patterns(settings.resolved_ignore_patterns.as_slice()) {
        Ok(ignore) => Ok(
            (
                resolved,
                DispatchCtx {
                    tolerance_ms: settings.mtime_tolerance_ms,
                    concurrency: settings.concurrency,
                    progress_mode,
                    ignore,
                    inventory_mode: settings.inventory_mode,
                    inventory_bootstrap: settings.inventory_bootstrap,
                    help: help.to_owned(),
                },
            ),
        ),
        Err(e) => {
            push_error(err, &e);
            Err(1)
        },
    }
}

/// A plan is made with exactly the options of its command.
pub proof fn law_flags_are_those_given(cmd: &Command, tolerance_ms: u64, r: Option<PlanFlags>)
    requires
        call_ensures(flags_of, (cmd, tolerance_ms), r),
    ensures
        r is Some <==> *cmd is Status || *cmd is Push || *cmd is Pull,
        r is Some ==> r->0.opts.mtime_tolerance_ms == tolerance_ms,
        *cmd matches Command::Status { verbose, follow_symlinks, write_manifest, .. } ==> {
            &&& r->0.mode == Mode::Status
            &&& !r->0.opts.delete && !r->0.opts.force_local && !r->0.opts.force_remote
            &&& r->0.dry_run
            &&& r->0.verbose == verbose
            &&& r->0.follow_symlinks == follow_symlinks
            &&& r->0.write_manifest == write_manifest
        },
        *cmd matches Command::Push {
            delete,
            dry_run,
            force_local,
            force_remote,
            verbose,
            follow_symlinks,
            ..
        } ==> {
            &&& r->0.mode == Mode::Push
            &&& r->0.opts.delete == delete
            &&& r->0.opts.force_local == force_local
            &&& r->0.opts.force_remote == force_remote
            &&& r->0.dry_run == dry_run
            &&& r->0.verbose == verbose
            &&& r->0.follow_symlinks == follow_symlinks
            &&& !r->0.write_manifest
        },
        *cmd matches Command::Pull {
            delete,
            dry_run,
            force_local,
            force_remote,
            verbose,
            follow_symlinks,
            ..
        } ==> {
            &&& r->0.mode == Mode::Pull
            &&& r->0.opts.delete == delete
            &&& r->0.opts.force_local == force_local
            &&& r->0.opts.force_remote == force_remote
            &&& r->0.dry_run == dry_run
            &&& r->0.verbose == verbose
            &&& r->0.follow_symlinks == follow_symlinks
            &&& !r->0.write_manifest
        },
{
}

/// Whether the line of a text from `i` to `j` shows a usage, behind blanks that
/// end at `k`.
pub open spec fn shows_usage(s: Seq<char>, i: int, k: int, j: int) -> bool {
    &&& 0 <= i <= k <= j <= s.len()
    &&& i == 0 || s[i - 1] == '\n'
    &&& j == s.len() || s[j] == '\n'
    &&& !s.subrange(i, j).contains('\n')
    &&& forall|x: int| i <= x < k ==> text::is_whitespace(#[trigger] s[x])
    &&& k == j || !text::is_whitespace(s[k])
    &&& text::starts_with_text(text::lowercase_text(s.subrange(k, j)), "usage:"@)
}

proof fn lemma_indent(line: Seq<char>)
    ensures
        indent(line) <= line.len(),
        forall|x: int| 0 <= x < indent(line) ==> text::is_whitespace(#[trigger] line[x]),
        indent(line) == line.len() || !text::is_whitespace(line[indent(line) as int]),
    decreases line.len(),
{
    if line.len() > 0 && text::is_whitespace(line[0]) {
        let rest = line.skip(1);
        lemma_indent(rest);
        assert forall|x: int| 0 <= x < indent(line) implies text::is_whitespace(
            #[trigger] line[x],
        ) by {
            if x > 0 {
                assert(rest[x - 1] == line[x]);
            }
        }
    }
}

/// The usage is added to a message if and only if no line of it shows one. A line
/// shows it whatever its case and however it is indented.
pub proof fn law_usage_is_shown_once(message: &str, usage: &str, r: String)
    requires
        call_ensures(ensure_usage, (message, usage), r),
    ensures
        (exists|i: int, k: int, j: int| #[trigger] shows_usage(message@, i, k, j)) ==> r@
            == message@,
        !(exists|i: int, k: int, j: int| #[trigger] shows_usage(message@, i, k, j)) ==> r@
            == message@ + "\n\n"@ + usage@,
{
    let s = message@;
    if exists|i: int, k: int, j: int| #[trigger] shows_usage(s, i, k, j) {
        let (i, k, j) = choose|i: int, k: int, j: int| #[trigger] shows_usage(s, i, k, j);
        let line = s.subrange(i, j);
        lemma_indent(line);
        assert forall|x: int| i <= x < j implies s[x] != '\n' by {
            assert(line[x - i] == s[x]);
        }
        assert(is_line(s, i, j));
        let n = indent(line) as int;
        assert(n == k - i) by {
            if n < k - i {
                assert(line[n] == s[i + n]);
            }
            if n > k - i {
                assert(line[k - i] == s[k]);
            }
        }
        assert(line.skip(n) =~= s.subrange(k, j));
        assert(has_usage(s));
    }
    if has_usage(s) {
        let (i, j) = choose|i: int, j: int| #[trigger]
            is_line(s, i, j) && usage_line(s.subrange(i, j));
        let line = s.subrange(i, j);
        lemma_indent(line);
        let k = i + indent(line);
        assert(line.skip(indent(line) as int) =~= s.subrange(k, j));
        assert forall|x: int| i <= x < k implies text::is_whitespace(#[trigger] s[x]) by {
            assert(line[x - i] == s[x]);
        }
        if k < j {
            assert(line[k - i] == s[k]);
        }
        assert(!line.contains('\n'));
        assert(shows_usage(s, i, k, j));
    }
}

} // verus!
