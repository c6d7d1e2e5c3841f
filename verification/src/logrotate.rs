//! Size-based rotation for per-job output logs.
//!
//! Every run's output is appended to `<state>/logs/<job>.log` with a header
//! line. When the file exceeds the job's `log_max` size it is rotated to
//! `<job>.log.1`, `<job>.log.2`, ... keeping `log_keep` generations.
//!
//! A rotation is a row of [`Step`]s, each one operation on a file; this module
//! decides which step comes next.

use crate::text;
use vstd::prelude::*;
use vstd::string::*;

verus! {

/// One step of a rotation.
#[derive(Debug, Clone, Copy, PartialEq, Eq, Structural)]
pub enum Step {
    /// Empty the log.
    Truncate,
    /// Delete generation `n`; that it does not exist is no error.
    Remove(u32),
    /// Find out whether generation `n` exists.
    Probe(u32),
    /// Rename generation `n` to `n + 1`.
    Shift(u32),
    /// Rename the log to generation 1.
    Retire,
    /// Nothing is left to do; whether the log was rotated.
    Done(bool),
}

// ---------------------------------------------------------------------------
// Paths and entries
// ---------------------------------------------------------------------------

/// The path of generation `n` of a log.
pub fn rotated_path(base: &str, n: u32) -> (r: String)
    ensures
        r@ == base@.push('.') + text::decimal(n as nat),
{
    let mut out = base.to_owned();
    out.push('.');
    text::push_decimal(&mut out, n as u64);
    out
}

/// The path of a job's log.
pub fn log_path(logs_dir: &str, job: &str) -> (r: String)
    ensures
        r@ == text::joined(logs_dir@, job@ + ".log"@),
{
    let mut name = job.to_owned();
    name.append(".log");
    text::join_path(logs_dir, name.as_str())
}

/// What is appended to the log for one run: a header line, and the output,
/// which ends in a line end.
pub open spec fn entry_of(header: Seq<char>, output: Seq<char>) -> Seq<char> {
    let head = "=== "@ + header + "\n"@;
    if output.len() == 0 {
        head
    } else if output.last() == '\n' {
        head + output
    } else {
        head + output + "\n"@
    }
}

/// What is appended to the log for one run.
pub fn log_entry(header: &str, output: &str) -> (r: String)
    ensures
        r@ == entry_of(header@, output@),
{
    let mut out = "=== ".to_owned();
    out.append(header);
    out.append("\n");
    let o = text::chars_of(output);
    if o.len() > 0 {
        out.append(output);
        if o[o.len() - 1] != '\n' {
            out.append("\n");
        }
    }
    out
}

// ---------------------------------------------------------------------------
// Steps
// ---------------------------------------------------------------------------

/// The step after generation `n` is out of the way.
pub open spec fn step_below(n: u32) -> Step {
    if n > 1 {
        Step::Probe((n - 1) as u32)
    } else {
        Step::Retire
    }
}

/// The first step for a log of the given size (`None` where it does not exist).
pub open spec fn first_step_of(size: Option<u64>, max_bytes: u64, keep: u32) -> Step {
    match size {
        None => Step::Done(false),
        Some(n) => if n <= max_bytes {
            Step::Done(false)
        } else if keep == 0 {
            Step::Truncate
        } else {
            Step::Remove(keep)
        },
    }
}

/// The step after `step`; `exists` answers a probe.
pub open spec fn next_step_of(step: Step, exists: bool) -> Step {
    match step {
        Step::Truncate => Step::Done(true),
        Step::Remove(n) => step_below(n),
        Step::Probe(n) => if exists {
            Step::Shift(n)
        } else {
            step_below(n)
        },
        Step::Shift(n) => step_below(n),
        Step::Retire => Step::Done(true),
        Step::Done(b) => Step::Done(b),
    }
}

/// The first step for a log of the given size (`None` where it does not exist):
/// a log within `max_bytes` is left alone, and without generations to keep the
/// log is emptied.
pub fn first_step(size: Option<u64>, max_bytes: u64, keep: u32) -> (r: Step)
    ensures
        r == first_step_of(size, max_bytes, keep),
{
    match size {
        None => Step::Done(false),
        Some(n) => if n <= max_bytes {
            Step::Done(false)
        } else if keep == 0 {
            Step::Truncate
        } else {
            Step::Remove(keep)
        },
    }
}

/// The step after generation `n` is out of the way.
fn below(n: u32) -> (r: Step)
    ensures
        r == step_below(n),
{
    if n > 1 {
        Step::Probe(n - 1)
    } else {
        Step::Retire
    }
}

/// The step after `step` has been taken; `exists` says, after a probe, whether
/// the generation exists.
pub fn next_step(step: Step, exists: bool) -> (r: Step)
    ensures
        r == next_step_of(step, exists),
{
    match step {
        Step::Truncate => Step::Done(true),
        Step::Remove(n) => below(n),
        Step::Probe(n) => if exists {
            Step::Shift(n)
        } else {
            below(n)
        },
        Step::Shift(n) => below(n),
        Step::Retire => Step::Done(true),
        Step::Done(b) => Step::Done(b),
    }
}

// ---------------------------------------------------------------------------
// Laws
// ---------------------------------------------------------------------------

/// A log and its generations, by number. `A` is what a file holds.
#[verifier::reject_recursive_types(A)]
pub ghost struct Logs<A> {
    pub base: Option<A>,
    pub rotated: Map<int, A>,
}

/// What a step does to the files, where `empty` is an empty file.
pub open spec fn effect<A>(step: Step, logs: Logs<A>, empty: A) -> Logs<A> {
    match step {
        Step::Truncate => Logs { base: Some(empty), ..logs },
        Step::Remove(n) => Logs { rotated: logs.rotated.remove(n as int), ..logs },
        Step::Shift(n) => Logs {
            rotated: logs.rotated.remove(n as int).insert(n + 1, logs.rotated[n as int]),
            ..logs
        },
        Step::Retire => Logs { base: None, rotated: logs.rotated.insert(1, logs.base->0) },
        _ => logs,
    }
}

/// How many steps may be left.
pub open spec fn steps_left(step: Step) -> int {
    match step {
        Step::Truncate => 1,
        Step::Remove(n) => 2 * n + 2,
        Step::Probe(n) => 2 * n + 3,
        Step::Shift(n) => 2 * n + 2,
        Step::Retire => 1,
        Step::Done(_) => 0,
    }
}

/// The files after all steps from `step` on, at most `fuel` of them.
pub open spec fn carried_out<A>(step: Step, logs: Logs<A>, empty: A, fuel: nat) -> Logs<A>
    decreases fuel,
{
    if fuel == 0 || step is Done {
        logs
    } else {
        let exists = step is Probe && logs.rotated.dom().contains(step->Probe_0 as int);
        carried_out(
            next_step_of(step, exists),
            effect(step, logs, empty),
            empty,
            (fuel - 1) as nat,
        )
    }
}

/// The log as generation 1 and each generation below `keep` one number up; what
/// stood at `keep` is gone, and what stands beyond it is left alone.
pub open spec fn shifted<A>(logs: Logs<A>, keep: int) -> Logs<A> {
    Logs {
        base: None,
        rotated: Map::new(
            |n: int|
                if n == 1 {
                    true
                } else if 2 <= n <= keep {
                    logs.rotated.dom().contains(n - 1)
                } else {
                    logs.rotated.dom().contains(n)
                },
            |n: int|
                if n == 1 {
                    logs.base->0
                } else if 2 <= n <= keep {
                    logs.rotated[n - 1]
                } else {
                    logs.rotated[n]
                },
        ),
    }
}

/// A rotation takes no more steps than `steps_left` says.
pub proof fn rotation_ends(step: Step, exists: bool)
    requires
        !(step is Done),
    ensures
        0 <= steps_left(next_step_of(step, exists)) < steps_left(step),
{
}

proof fn lemma_shift_down<A>(n: u32, logs: Logs<A>, empty: A, fuel: nat)
    requires
        n >= 1,
        logs.base is Some,
        !logs.rotated.dom().contains(n as int),
        fuel >= 2 * n,
    ensures
        carried_out(step_below(n), logs, empty, fuel) == shifted(logs, n as int),
    decreases n,
{
    reveal_with_fuel(carried_out, 3);
    if n == 1 {
        assert(carried_out(Step::Retire, logs, empty, fuel).rotated =~= shifted(logs, 1).rotated);
    } else {
        let m = (n - 1) as u32;
        if logs.rotated.dom().contains(m as int) {
            let after = effect(Step::Shift(m), logs, empty);
            lemma_shift_down(m, after, empty, (fuel - 2) as nat);
            assert(shifted(after, m as int).rotated =~= shifted(logs, n as int).rotated);
        } else {
            lemma_shift_down(m, logs, empty, (fuel - 1) as nat);
            assert(shifted(logs, m as int).rotated =~= shifted(logs, n as int).rotated);
        }
    }
}

/// A rotation that keeps `keep` generations makes the log generation 1 and
/// moves each generation one number up, dropping the one at `keep`.
pub proof fn rotation_shifts_generations<A>(
    logs: Logs<A>,
    empty: A,
    size: u64,
    max_bytes: u64,
    keep: u32,
)
    requires
        logs.base is Some,
        size > max_bytes,
        keep > 0,
    ensures
        ({
            let first = first_step_of(Some(size), max_bytes, keep);
            carried_out(first, logs, empty, steps_left(first) as nat) == shifted(logs, keep as int)
        }),
{
    let fuel = steps_left(Step::Remove(keep)) as nat;
    let after = effect(Step::Remove(keep), logs, empty);
    lemma_shift_down(keep, after, empty, (fuel - 1) as nat);
    assert(shifted(after, keep as int).rotated =~= shifted(logs, keep as int).rotated);
}

/// A rotation that keeps no generation empties the log and touches nothing
/// else.
pub proof fn rotation_truncates<A>(logs: Logs<A>, empty: A, size: u64, max_bytes: u64)
    requires
        logs.base is Some,
        size > max_bytes,
    ensures
        ({
            let first = first_step_of(Some(size), max_bytes, 0);
            carried_out(first, logs, empty, steps_left(first) as nat) == (Logs {
                base: Some(empty),
                rotated: logs.rotated,
            })
        }),
{
    reveal_with_fuel(carried_out, 2);
}

/// A log that does not exist or is within its limit is left alone.
pub proof fn small_log_is_kept<A>(
    logs: Logs<A>,
    empty: A,
    size: Option<u64>,
    max_bytes: u64,
    keep: u32,
)
    requires
        size is Some ==> size->0 <= max_bytes,
    ensures
        first_step_of(size, max_bytes, keep) == Step::Done(false),
        carried_out(first_step_of(size, max_bytes, keep), logs, empty, 0) == logs,
{
}

/// At most `keep` generations: where there were none beyond `keep` before a
/// rotation, there are none after it.
pub proof fn generations_stay_within_keep<A>(logs: Logs<A>, keep: int)
    requires
        keep >= 1,
        forall|n: int| #[trigger] logs.rotated.dom().contains(n) ==> 1 <= n <= keep,
    ensures
        forall|n: int| #[trigger]
            shifted(logs, keep).rotated.dom().contains(n) ==> 1 <= n <= keep,
{
}

/// An entry of the log is a line with the header, then the output as it is, with
/// a line end behind it where it has none; without output it is the header alone.
pub proof fn entries_hold_the_output(header: Seq<char>, output: Seq<char>)
    ensures
        ({
            let e = entry_of(header, output);
            let head = "=== "@ + header + "\n"@;
            &&& e.len() >= head.len() + output.len()
            &&& e.take(head.len() as int) == head
            &&& e.subrange(head.len() as int, (head.len() + output.len()) as int) == output
            &&& e.last() == '\n'
            &&& e.len() > head.len() + output.len() <==> output.len() > 0 && output.last() != '\n'
            &&& e.len() <= head.len() + output.len() + 1
        }),
{
    let e = entry_of(header, output);
    let head = "=== "@ + header + "\n"@;
    reveal_strlit("\n");
    assert(e.take(head.len() as int) =~= head);
    assert(e.subrange(head.len() as int, (head.len() + output.len()) as int) =~= output);
    assert(e.last() == e[e.len() - 1]);
}

} // verus!
