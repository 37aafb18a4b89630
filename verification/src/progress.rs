//! Progress of transfers: whether it is shown, and how.

use vstd::prelude::*;
use crate::exec;
use crate::exec::count_steps;
use crate::plan;
use crate::plan::{ActionKind, ActionView, Plan};
use crate::text;
use crate::text::decimal;

verus! {

/// When progress is shown.
#[derive(Debug, Clone, Copy, PartialEq, Eq, Structural)]
pub enum ProgressMode {
    /// If standard error is a terminal.
    Auto,
    Off,
    Always,
}

/// Whether progress is shown.
#[derive(Debug, Clone, Copy, PartialEq, Eq, Structural)]
pub enum ResolvedMode {
    Render,
    Quiet,
}

/// Resolve a progress mode against the terminal status of standard error.
pub fn resolve_progress_mode(mode: ProgressMode, is_terminal: bool) -> (r: ResolvedMode)
    ensures
        r == resolved_mode(mode, is_terminal),
{
    match mode {
        ProgressMode::Off => ResolvedMode::Quiet,
        ProgressMode::Always => ResolvedMode::Render,
        ProgressMode::Auto => {
            if is_terminal {
                ResolvedMode::Render
            } else {
                ResolvedMode::Quiet
            }
        },
    }
}

/// A progress mode resolved against the terminal status of standard error.
pub open spec fn resolved_mode(mode: ProgressMode, is_terminal: bool) -> ResolvedMode {
    if mode == ProgressMode::Always || (mode == ProgressMode::Auto && is_terminal) {
        ResolvedMode::Render
    } else {
        ResolvedMode::Quiet
    }
}

/// One refresh of the progress line: back to its start, the text, and the rest
/// of the line cleared.
pub open spec fn frame(verb: Seq<char>, done: nat, total: nat) -> Seq<char> {
    "\r"@ + verb + " "@ + text::dec(done) + "/"@ + text::dec(total) + "\u{1b}[K"@
}

/// One refresh of the progress line.
pub fn progress_frame(verb: &str, done: u64, total: u64) -> (r: String)
    ensures
        r@ == frame(verb@, done as nat, total as nat),
{
    let mut s = "\r".to_owned();
    s.append(verb);
    s.append(" ");
    s.append(decimal(done).as_str());
    s.append("/");
    s.append(decimal(total).as_str());
    s.append("\u{1b}[K");
    s
}

/// Appends the refreshes of the first `n` of `total` steps.
pub open spec fn with_frames(acc: Seq<char>, verb: Seq<char>, total: nat, n: nat) -> Seq<char>
    decreases n,
{
    if n == 0 {
        acc
    } else {
        with_frames(acc, verb, total, (n - 1) as nat) + frame(verb, n, total)
    }
}

/// Appends the progress of a pass; an empty pass shows nothing.
pub open spec fn with_pass(acc: Seq<char>, verb: Seq<char>, total: nat) -> Seq<char> {
    if total == 0 {
        acc
    } else {
        with_frames(acc, verb, total, total) + "\n"@
    }
}

/// Appends the progress of a whole run.
pub open spec fn with_progress(acc: Seq<char>, a: Seq<ActionView>) -> Seq<char> {
    with_pass(
        with_pass(
            with_pass(acc, "Downloading"@, exec::download_pass(a, 1).steps.len()),
            "Uploading"@,
            exec::upload_pass(a, 1).steps.len(),
        ),
        "Deleting"@,
        exec::delete_pass(a).steps.len(),
    )
}

/// Appends the progress of a pass.
fn push_pass(out: &mut String, verb: &str, total: u64)
    ensures
        final(out)@ == with_pass(old(out)@, verb@, total as nat),
{
    if total == 0 {
        return;
    }
    let ghost start = out@;
    let mut n: u64 = 0;
    while n < total
        invariant
            n <= total,
            out@ == with_frames(start, verb@, total as nat, n as nat),
        decreases total - n,
    {
        n = n + 1;
        out.append(progress_frame(verb, n, total).as_str());
    }
    out.append("\n");
}

/// Appends the progress of a whole run.
pub fn push_progress(out: &mut String, plan: &Plan)
    ensures
        final(out)@ == with_progress(old(out)@, plan::actions(plan.actions@)),
{
    push_pass(out, "Downloading", count_steps(plan, ActionKind::Download) as u64);
    push_pass(out, "Uploading", count_steps(plan, ActionKind::Upload) as u64);
    proof {
        let a = plan::actions(plan.actions@);
        exec::lemma_kinds_disjoint(a, ActionKind::DeleteRemote, ActionKind::DeleteLocal);
    }
    let remote: usize = count_steps(plan, ActionKind::DeleteRemote);
    let local: usize = count_steps(plan, ActionKind::DeleteLocal);
    assert(remote + local <= plan.actions.len());
    push_pass(out, "Deleting", (remote + local) as u64);
}

} // verus!
