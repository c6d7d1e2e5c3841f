//! Pure scheduling decisions: given a job spec, its persisted state and the
//! current time, decide which occurrences to run now, which missed
//! occurrences to catch up, and which to record as missed.
//!
//! No I/O happens here; the daemon loop applies these decisions.

use crate::cronexpr;
use crate::cronexpr::Schedule;
use crate::crontab::JobSpec;
use crate::text;
use crate::time;
use crate::time::DateTime;
use vstd::prelude::*;
use vstd::string::*;

verus! {

/// Persisted per-job state.
#[derive(Debug, Clone, Copy, Default, PartialEq, Eq)]
pub struct JobState {
    /// The last schedule occurrence that was accounted for (run, caught up,
    /// or recorded as missed).
    pub last_scheduled: Option<DateTime>,
}

impl JobState {
    /// Whether the state holds a time that exists, if any.
    pub open spec fn valid(self) -> bool {
        self.last_scheduled is Some ==> self.last_scheduled->0.valid()
    }
}

/// The states of the jobs, by name.
pub struct States {
    names: Vec<String>,
    states: Vec<JobState>,
}

impl View for States {
    type V = Map<Seq<char>, JobState>;

    closed spec fn view(&self) -> Map<Seq<char>, JobState> {
        Map::new(
            |k: Seq<char>| exists|i: int| self.names_at(i, k),
            |k: Seq<char>| self.states@[choose|i: int| self.names_at(i, k)],
        )
    }
}

impl States {
    /// Whether the name at place `i` is `k`.
    spec fn names_at(self, i: int, k: Seq<char>) -> bool {
        0 <= i < self.names@.len() && self.names@[i]@ == k
    }

    /// Whether no name occurs twice, and every state is valid.
    pub closed spec fn wf(self) -> bool {
        &&& self.names@.len() == self.states@.len()
        &&& forall|i: int, j: int|
            0 <= i < j < self.names@.len() ==> (#[trigger] self.names@[i])@ != (
            #[trigger] self.names@[j])@
        &&& forall|i: int| 0 <= i < self.states@.len() ==> (#[trigger] self.states@[i]).valid()
    }

    proof fn lemma_at(self, i: int)
        requires
            self.wf(),
            0 <= i < self.names@.len(),
        ensures
            self@.dom().contains(self.names@[i]@),
            self@[self.names@[i]@] == self.states@[i],
    {
        let k = self.names@[i]@;
        assert(self.names_at(i, k));
        let j = choose|j: int| self.names_at(j, k);
        assert(self.names_at(j, k));
        if i < j {
            assert(self.names@[i]@ != self.names@[j]@);
        } else if j < i {
            assert(self.names@[j]@ != self.names@[i]@);
        }
    }

    /// No states.
    pub fn new() -> (r: States)
        ensures
            r.wf(),
            r@ == Map::<Seq<char>, JobState>::empty(),
    {
        let r = States { names: Vec::new(), states: Vec::new() };
        assert(r@ =~= Map::<Seq<char>, JobState>::empty());
        r
    }

    /// The number of jobs that have a state.
    pub fn len(&self) -> (r: usize)
        requires
            self.wf(),
        ensures
            r == self.size(),
    {
        self.names.len()
    }

    /// The number of jobs that have a state.
    pub closed spec fn size(self) -> nat {
        self.names@.len()
    }

    /// The name at place `i`.
    pub closed spec fn name_at(self, i: int) -> Seq<char> {
        self.names@[i]@
    }

    /// The name and the state at place `i`.
    pub fn entry(&self, i: usize) -> (r: (&str, JobState))
        requires
            self.wf(),
            i < self.size(),
        ensures
            r.0@ == self.name_at(i as int),
            self@.dom().contains(r.0@),
            r.1 == self@[r.0@],
            r.1.valid(),
    {
        proof {
            self.lemma_at(i as int);
        }
        (self.names[i].as_str(), self.states[i])
    }

    /// Every name stands at one place, and every state is valid.
    pub proof fn lemma_places(self)
        requires
            self.wf(),
        ensures
            forall|i: int| 0 <= i < self.size() ==> self@.dom().contains(#[trigger] self.name_at(i)),
            forall|k: Seq<char>| #[trigger]
                self@.dom().contains(k) ==> exists|i: int|
                    0 <= i < self.size() && self.name_at(i) == k,
            forall|i: int, j: int|
                0 <= i < j < self.size() ==> self.name_at(i) != self.name_at(j),
            forall|k: Seq<char>| #[trigger] self@.dom().contains(k) ==> self@[k].valid(),
    {
        assert forall|i: int| 0 <= i < self.size() implies self@.dom().contains(
            #[trigger] self.name_at(i),
        ) by {
            self.lemma_at(i);
        }
        assert forall|k: Seq<char>| #[trigger] self@.dom().contains(k) implies exists|i: int|
            0 <= i < self.size() && self.name_at(i) == k by {
            let i = choose|i: int| self.names_at(i, k);
            assert(self.name_at(i) == k);
        }
        assert forall|k: Seq<char>| #[trigger] self@.dom().contains(k) implies self@[k].valid() by {
            let i = choose|i: int| self.names_at(i, k);
            self.lemma_at(i);
        }
    }

    /// The place of a name, or the number of names.
    fn find(&self, name: &str) -> (r: usize)
        requires
            self.wf(),
        ensures
            r <= self.names@.len(),
            r < self.names@.len() ==> self.names@[r as int]@ == name@,
            r == self.names@.len() ==> !self@.dom().contains(name@),
    {
        let mut i: usize = 0;
        while i < self.names.len()
            invariant
                i <= self.names@.len(),
                forall|j: int| 0 <= j < i ==> (#[trigger] self.names@[j])@ != name@,
            decreases self.names@.len() - i,
        {
            if text::str_eq(self.names[i].as_str(), name) {
                return i;
            }
            i = i + 1;
        }
        assert forall|j: int| !self.names_at(j, name@) by {
        }
        i
    }

    /// The state of a job; the empty state where it has none.
    pub fn get(&self, name: &str) -> (r: JobState)
        requires
            self.wf(),
        ensures
            r == if self@.dom().contains(name@) {
                self@[name@]
            } else {
                JobState { last_scheduled: None }
            },
            r.valid(),
    {
        let i = self.find(name);
        if i < self.names.len() {
            proof {
                self.lemma_at(i as int);
            }
            self.states[i]
        } else {
            JobState { last_scheduled: None }
        }
    }

    /// Sets the state of a job.
    pub fn set(&mut self, name: &str, state: JobState)
        requires
            old(self).wf(),
            state.valid(),
        ensures
            final(self).wf(),
            final(self)@ == old(self)@.insert(name@, state),
    {
        let i = self.find(name);
        let ghost before = *self;
        if i < self.names.len() {
            self.states.set(i, state);
            proof {
                assert forall|k: Seq<char>|
                    self@.dom().contains(k) == before@.insert(name@, state).dom().contains(k) by {
                    before.lemma_at(i as int);
                    if before@.dom().contains(k) {
                        let j = choose|j: int| before.names_at(j, k);
                        assert(self.names_at(j, k));
                    }
                    if self@.dom().contains(k) {
                        let j = choose|j: int| self.names_at(j, k);
                        assert(before.names_at(j, k));
                    }
                }
                assert forall|k: Seq<char>| #[trigger]
                    self@.dom().contains(k) implies self@[k] == before@.insert(name@, state)[k] by {
                    let j = choose|j: int| self.names_at(j, k);
                    self.lemma_at(j);
                    before.lemma_at(j);
                    if j < i {
                        assert(self.names@[j]@ != self.names@[i as int]@);
                    } else if i < j {
                        assert(self.names@[i as int]@ != self.names@[j]@);
                    }
                }
                assert(self@ =~= before@.insert(name@, state));
            }
        } else {
            self.names.push(name.to_owned());
            self.states.push(state);
            proof {
                assert forall|j: int| 0 <= j < before.names@.len() implies (
                #[trigger] before.names@[j])@ != name@ by {
                    if before.names@[j]@ == name@ {
                        assert(before.names_at(j, name@));
                    }
                }
                assert(self.wf());
                assert forall|k: Seq<char>|
                    self@.dom().contains(k) == before@.insert(name@, state).dom().contains(k) by {
                    if before@.dom().contains(k) {
                        let j = choose|j: int| before.names_at(j, k);
                        assert(self.names_at(j, k));
                    }
                    if k == name@ {
                        assert(self.names_at(i as int, k));
                    }
                    if self@.dom().contains(k) && k != name@ {
                        let j = choose|j: int| self.names_at(j, k);
                        assert(before.names_at(j, k));
                    }
                }
                assert forall|k: Seq<char>| #[trigger]
                    self@.dom().contains(k) implies self@[k] == before@.insert(name@, state)[k] by {
                    let j = choose|j: int| self.names_at(j, k);
                    self.lemma_at(j);
                    if j < i {
                        before.lemma_at(j);
                    }
                }
                assert(self@ =~= before@.insert(name@, state));
            }
        }
    }
}

/// The outcome of one planning pass for one job.
#[derive(Debug, Clone, Default, PartialEq, Eq)]
pub struct Plan {
    /// Occurrences to execute now, oldest first. Contains at most
    /// `max_catchup` catch-up occurrences plus the currently-due one.
    pub run: Vec<DateTime>,
    /// Missed occurrences that will NOT be executed (catch-up disabled or
    /// beyond `max_catchup`); recorded in history as `missed`.
    pub missed: Vec<DateTime>,
    /// New value for `last_scheduled` after this pass.
    pub new_last_scheduled: Option<DateTime>,
}

/// Upper bound on occurrences examined per pass, so a `* * * * *` job that
/// was down for a year cannot flood memory.
pub const MAX_OCCURRENCES: usize = 1000;

// ---------------------------------------------------------------------------
// What a plan is
// ---------------------------------------------------------------------------

/// The occurrences after `from` and up to `until`, the first `n` at most.
pub open spec fn occurrences(c: Schedule, from: DateTime, until: DateTime, n: nat) -> Seq<DateTime>
    decreases n,
{
    if n == 0 {
        seq![]
    } else {
        match c.next(from) {
            Some(t) => if until.before(t) {
                seq![]
            } else {
                seq![t] + occurrences(c, t, until, (n - 1) as nat)
            },
            None => seq![],
        }
    }
}

/// The occurrences that a pass at `now` accounts for, after `baseline`.
pub open spec fn accounted(c: Schedule, baseline: DateTime, now: DateTime) -> Seq<DateTime> {
    occurrences(c, baseline, now.minute_start(), MAX_OCCURRENCES as nat)
}

/// Those of the accounted occurrences that lie before the current minute.
pub open spec fn past_of(occ: Seq<DateTime>, now: DateTime) -> Seq<DateTime> {
    if occ.len() > 0 && occ.last() == now.minute_start() {
        occ.drop_last()
    } else {
        occ
    }
}

/// How many of the past occurrences are recorded as missed: all of them
/// without catch-up, else all but the newest `max_catchup`.
pub open spec fn missed_count(past: int, catchup: bool, max_catchup: int) -> int {
    if !catchup {
        past
    } else if past > max_catchup {
        past - max_catchup
    } else {
        0
    }
}

/// The missed occurrences of a pass.
pub open spec fn missed_of(spec: JobSpec, baseline: DateTime, now: DateTime) -> Seq<DateTime> {
    let past = past_of(accounted(spec.schedule@, baseline, now), now);
    past.take(missed_count(past.len() as int, spec.catchup, spec.max_catchup as int))
}

/// The occurrences that a pass runs: the accounted ones that are not missed.
pub open spec fn run_of(spec: JobSpec, baseline: DateTime, now: DateTime) -> Seq<DateTime> {
    let occ = accounted(spec.schedule@, baseline, now);
    occ.skip(missed_of(spec, baseline, now).len() as int)
}

/// The last accounted occurrence, or the baseline where there is none.
pub open spec fn last_of(occ: Seq<DateTime>, baseline: DateTime) -> DateTime {
    if occ.len() > 0 {
        occ.last()
    } else {
        baseline
    }
}

// ---------------------------------------------------------------------------
// Planning
// ---------------------------------------------------------------------------

/// The occurrences after `baseline` and up to `now_min`, capped.
fn collect(spec: &JobSpec, baseline: DateTime, now_min: DateTime) -> (r: Vec<DateTime>)
    requires
        baseline.valid(),
    ensures
        r@ == occurrences(spec.schedule@, baseline, now_min, MAX_OCCURRENCES as nat),
        forall|i: int| 0 <= i < r@.len() ==> (#[trigger] r@[i]).valid(),
{
    let mut out: Vec<DateTime> = Vec::new();
    let mut cursor = baseline;
    let ghost c = spec.schedule@;
    let ghost all = occurrences(c, baseline, now_min, MAX_OCCURRENCES as nat);
    assert(out@ + all =~= all);
    while out.len() < MAX_OCCURRENCES
        invariant
            cursor.valid(),
            c == spec.schedule@,
            all == occurrences(c, baseline, now_min, MAX_OCCURRENCES as nat),
            out@.len() <= MAX_OCCURRENCES,
            out@ + occurrences(c, cursor, now_min, (MAX_OCCURRENCES - out@.len()) as nat) == all,
            forall|i: int| 0 <= i < out@.len() ==> (#[trigger] out@[i]).valid(),
        decreases MAX_OCCURRENCES - out@.len(),
    {
        match spec.schedule.next_after(cursor) {
            Some(next) => {
                if now_min.is_before(&next) {
                    assert(out@ + seq![] =~= out@);
                    return out;
                }
                let ghost before = out@;
                out.push(next);
                cursor = next;
                assert(out@ + occurrences(
                    c,
                    next,
                    now_min,
                    (MAX_OCCURRENCES - out@.len()) as nat,
                ) =~= before + (seq![next] + occurrences(
                    c,
                    next,
                    now_min,
                    (MAX_OCCURRENCES - out@.len()) as nat,
                )));
            },
            None => {
                assert(out@ + seq![] =~= out@);
                return out;
            },
        }
    }
    assert(out@ + seq![] =~= out@);
    out
}

/// Compute the plan for one job.
///
/// * First sighting of a job (no state): nothing runs; `last_scheduled` is
///   initialized to the current minute so future passes have a baseline.
///   (`@reboot` jobs are handled by the daemon at startup, not here.)
/// * Occurrences in `(last_scheduled, now)` are "missed" (the daemon was
///   down or busy): run the newest `max_catchup` of them when `catchup` is
///   enabled, record the rest as missed.
/// * An occurrence equal to the current minute is normally due and runs. Only
///   a pass that is cut at `MAX_OCCURRENCES` older occurrences, or a gap of
///   more than five calendar years before it, keeps it out of the pass.
pub fn plan(spec: &JobSpec, state: &JobState, now: DateTime) -> (r: Plan)
    requires
        state.valid(),
        now.valid(),
    ensures
        match state.last_scheduled {
            None => r.run@.len() == 0 && r.missed@.len() == 0 && r.new_last_scheduled == Some(
                now.minute_start(),
            ),
            Some(baseline) => r.run@ == run_of(*spec, baseline, now) && r.missed@ == missed_of(
                *spec,
                baseline,
                now,
            ) && r.new_last_scheduled == Some(
                last_of(accounted(spec.schedule@, baseline, now), baseline),
            ),
        },
        r.new_last_scheduled->0.valid(),
        forall|i: int| 0 <= i < r.run@.len() ==> (#[trigger] r.run@[i]).valid(),
        forall|i: int| 0 <= i < r.missed@.len() ==> (#[trigger] r.missed@[i]).valid(),
{
    let now_min = time::truncate_minute(now);
    let baseline = match state.last_scheduled {
        Some(t) => t,
        None => {
            return Plan { run: Vec::new(), missed: Vec::new(), new_last_scheduled: Some(now_min) };
        },
    };
    let occ = collect(spec, baseline, now_min);
    let n = occ.len();
    if n == 0 {
        let p = Plan { run: Vec::new(), missed: Vec::new(), new_last_scheduled: Some(baseline) };
        assert(p.run@ =~= run_of(*spec, baseline, now));
        assert(p.missed@ =~= missed_of(*spec, baseline, now));
        return p;
    }
    let new_last = occ[n - 1];
    let past: usize = if new_last == now_min {
        n - 1
    } else {
        n
    };
    let split: usize = if !spec.catchup {
        past
    } else if past as u64 > spec.max_catchup as u64 {
        past - spec.max_catchup as usize
    } else {
        0
    };
    let mut missed: Vec<DateTime> = Vec::new();
    let mut run: Vec<DateTime> = Vec::new();
    let mut i: usize = 0;
    while i < n
        invariant
            n == occ@.len(),
            i <= n,
            split <= n,
            missed@ == occ@.take(if i <= split {
                i as int
            } else {
                split as int
            }),
            run@ == if i <= split {
                seq![]
            } else {
                occ@.subrange(split as int, i as int)
            },
        decreases n - i,
    {
        if i < split {
            missed.push(occ[i]);
        } else {
            run.push(occ[i]);
        }
        i = i + 1;
        assert(missed@ =~= occ@.take(if i <= split {
            i as int
        } else {
            split as int
        }));
        assert(run@ =~= if i <= split {
            seq![]
        } else {
            occ@.subrange(split as int, i as int)
        });
    }
    assert(missed@ =~= missed_of(*spec, baseline, now));
    assert(run@ =~= run_of(*spec, baseline, now));
    Plan { run, missed, new_last_scheduled: Some(new_last) }
}

// ---------------------------------------------------------------------------
// Laws
// ---------------------------------------------------------------------------

/// The listed occurrences are occurrences of the schedule, each after the one
/// before it, all after `from` and none after `until`.
pub proof fn occurrences_in_order(c: Schedule, from: DateTime, until: DateTime, n: nat)
    ensures
        occurrences(c, from, until, n).len() <= n,
        forall|i: int|
            0 <= i < occurrences(c, from, until, n).len() ==> {
                let t = #[trigger] occurrences(c, from, until, n)[i];
                c.occurs(t) && from.before(t) && !until.before(t)
            },
        forall|i: int, j: int|
            0 <= i < j < occurrences(c, from, until, n).len() ==> (#[trigger] occurrences(
                c,
                from,
                until,
                n,
            )[i]).before(#[trigger] occurrences(c, from, until, n)[j]),
    decreases n,
{
    if n > 0 {
        match c.next(from) {
            Some(t) => {
                if !until.before(t) {
                    let rest = occurrences(c, t, until, (n - 1) as nat);
                    let all = occurrences(c, from, until, n);
                    occurrences_in_order(c, t, until, (n - 1) as nat);
                    assert(c.is_next(from, t));
                    assert(all =~= seq![t] + rest);
                    assert forall|i: int| 0 <= i < all.len() implies c.occurs(#[trigger] all[i])
                        && from.before(all[i]) && !until.before(all[i]) by {
                        if i > 0 {
                            assert(all[i] == rest[i - 1]);
                        }
                    }
                    assert forall|i: int, j: int| 0 <= i < j < all.len() implies (
                    #[trigger] all[i]).before(#[trigger] all[j]) by {
                        assert(all[j] == rest[j - 1]);
                        if i > 0 {
                            assert(all[i] == rest[i - 1]);
                        }
                    }
                }
            },
            None => {},
        }
    }
}

/// No occurrence after `from` and up to `until` is left out, unless the list
/// is full or the occurrence comes more than five calendar years after the
/// last one before it.
pub proof fn occurrences_complete(
    c: Schedule,
    from: DateTime,
    until: DateTime,
    n: nat,
    u: DateTime,
)
    requires
        from.valid(),
        c.occurs(u),
        from.before(u),
        !until.before(u),
    ensures
        ({
            let occ = occurrences(c, from, until, n);
            let last = last_of(occ, from);
            ||| occ.contains(u)
            ||| occ.len() == n && last.before(u)
            ||| last.before(u) && u.year > last.year + 5
        }),
    decreases n,
{
    if n > 0 {
        let occ = occurrences(c, from, until, n);
        if u.year <= from.year + 5 {
            cronexpr::next_is_found(c, from, u);
        }
        match c.next(from) {
            Some(t) => {
                assert(c.is_next(from, t));
                assert(!u.before(t));
                if until.before(t) {
                    assert(false);
                } else {
                    let rest = occurrences(c, t, until, (n - 1) as nat);
                    assert(occ == seq![t] + rest);
                    if u == t {
                        assert(occ[0] == u);
                    } else {
                        occurrences_complete(c, t, until, (n - 1) as nat, u);
                        assert(last_of(occ, from) == last_of(rest, t));
                        if rest.contains(u) {
                            let i = choose|i: int| 0 <= i < rest.len() && rest[i] == u;
                            assert(occ[i + 1] == u);
                        }
                    }
                }
            },
            None => {},
        }
    }
}

/// Passes join up: what a pass up to `first` and a pass from its last
/// occurrence up to `later` account for is, in the same order, what one pass
/// up to `later` would account for. So every occurrence is accounted for once,
/// however the time is cut into passes.
pub proof fn passes_join(
    c: Schedule,
    from: DateTime,
    first: DateTime,
    later: DateTime,
    n: nat,
    k: nat,
)
    requires
        !later.before(first),
        k >= occurrences(c, from, first, n).len(),
    ensures
        ({
            let occ = occurrences(c, from, first, n);
            occurrences(c, from, later, k) == occ + occurrences(
                c,
                last_of(occ, from),
                later,
                (k - occ.len()) as nat,
            )
        }),
    decreases n,
{
    let occ = occurrences(c, from, first, n);
    let whole = occurrences(c, from, later, k);
    if occ.len() == 0 {
        assert(whole =~= occ + whole);
    } else {
        let t = c.next(from)->0;
        let rest = occurrences(c, t, first, (n - 1) as nat);
        assert(occ == seq![t] + rest);
        passes_join(c, t, first, later, (n - 1) as nat, (k - 1) as nat);
        assert(last_of(occ, from) == last_of(rest, t));
        assert(whole =~= occ + occurrences(
            c,
            last_of(occ, from),
            later,
            (k - occ.len()) as nat,
        ));
    }
}

/// A pass runs or records as missed every occurrence that it accounts for,
/// each once: the missed ones first, then those that run.
pub proof fn plan_accounts_for_all(spec: JobSpec, baseline: DateTime, now: DateTime)
    ensures
        missed_of(spec, baseline, now) + run_of(spec, baseline, now) == accounted(
            spec.schedule@,
            baseline,
            now,
        ),
{
    assert(missed_of(spec, baseline, now) + run_of(spec, baseline, now) =~= accounted(
        spec.schedule@,
        baseline,
        now,
    ));
}

/// An occurrence in the current minute runs, and is never recorded as missed.
pub proof fn due_occurrence_runs(spec: JobSpec, baseline: DateTime, now: DateTime)
    requires
        accounted(spec.schedule@, baseline, now).contains(now.minute_start()),
    ensures
        run_of(spec, baseline, now).len() > 0,
        run_of(spec, baseline, now).last() == now.minute_start(),
        !missed_of(spec, baseline, now).contains(now.minute_start()),
{
    let c = spec.schedule@;
    let m = now.minute_start();
    let occ = accounted(c, baseline, now);
    occurrences_in_order(c, baseline, m, MAX_OCCURRENCES as nat);
    let i = choose|i: int| 0 <= i < occ.len() && occ[i] == m;
    if i < occ.len() - 1 {
        assert(occ[i].before(occ[occ.len() - 1]));
    }
    assert(occ.last() == m);
    let missed = missed_of(spec, baseline, now);
    if missed.contains(m) {
        let j = choose|j: int| 0 <= j < missed.len() && missed[j] == m;
        assert(missed[j] == occ[j]);
        assert(occ[j].before(occ[occ.len() - 1]));
    }
}

/// The last listed occurrence is the next one after the one before it.
proof fn lemma_last_is_next(c: Schedule, from: DateTime, until: DateTime, n: nat)
    requires
        occurrences(c, from, until, n).len() > 0,
    ensures
        ({
            let occ = occurrences(c, from, until, n);
            c.next(last_of(occ.drop_last(), from)) == Some(occ.last())
        }),
    decreases n,
{
    let occ = occurrences(c, from, until, n);
    let t = c.next(from)->0;
    let rest = occurrences(c, t, until, (n - 1) as nat);
    assert(occ == seq![t] + rest);
    if rest.len() > 0 {
        lemma_last_is_next(c, t, until, (n - 1) as nat);
        assert(occ.drop_last() =~= seq![t] + rest.drop_last());
        assert(last_of(occ.drop_last(), from) == last_of(rest.drop_last(), t));
    } else {
        assert(occ.drop_last() =~= seq![]);
    }
}

/// An occurrence in the current minute runs, as the last one of the pass, and is
/// not recorded as missed, exactly where the pass is not cut by the cap before
/// it and it lies within five calendar years of the last accounted occurrence
/// before it (or of the state, where there is none).
pub proof fn current_minute_runs(spec: JobSpec, baseline: DateTime, now: DateTime)
    requires
        baseline.valid(),
        spec.schedule@.occurs(now.minute_start()),
        baseline.before(now.minute_start()),
    ensures
        ({
            let m = now.minute_start();
            let run = run_of(spec, baseline, now);
            let past = past_of(accounted(spec.schedule@, baseline, now), now);
            let reached = past.len() < MAX_OCCURRENCES && now.year <= last_of(past, baseline).year
                + 5;
            &&& run.contains(m) <==> reached
            &&& reached ==> run.len() > 0 && run.last() == m
            &&& !missed_of(spec, baseline, now).contains(m)
        }),
{
    let c = spec.schedule@;
    let m = now.minute_start();
    let occ = accounted(c, baseline, now);
    let past = past_of(occ, now);
    let run = run_of(spec, baseline, now);
    let missed = missed_of(spec, baseline, now);
    occurrences_complete(c, baseline, m, MAX_OCCURRENCES as nat, m);
    occurrences_in_order(c, baseline, m, MAX_OCCURRENCES as nat);
    plan_accounts_for_all(spec, baseline, now);
    if occ.contains(m) {
        due_occurrence_runs(spec, baseline, now);
        assert(run.last() == m);
        assert(occ.last() == run.last());
        assert(past == occ.drop_last());
        lemma_last_is_next(c, baseline, m, MAX_OCCURRENCES as nat);
        assert(c.is_next(last_of(past, baseline), m));
    } else {
        if run.contains(m) {
            let i = choose|i: int| 0 <= i < run.len() && run[i] == m;
            assert((missed + run)[missed.len() + i] == m);
        }
        if missed.contains(m) {
            let i = choose|i: int| 0 <= i < missed.len() && missed[i] == m;
            assert((missed + run)[i] == m);
        }
        if occ.len() > 0 {
            assert(occ[occ.len() - 1] != m);
        }
        assert(past == occ);
    }
}

/// A pass catches up at most `max_catchup` occurrences, none without catch-up,
/// and those are the newest ones before the current minute.
pub proof fn catchup_is_capped(spec: JobSpec, baseline: DateTime, now: DateTime)
    ensures
        ({
            let run = run_of(spec, baseline, now);
            let caught_up = past_of(run, now);
            &&& caught_up.len() <= if spec.catchup {
                spec.max_catchup as int
            } else {
                0
            }
            &&& forall|i: int|
                0 <= i < caught_up.len() ==> (#[trigger] caught_up[i]).before(now.minute_start())
            &&& forall|i: int, j: int|
                0 <= i < missed_of(spec, baseline, now).len() && 0 <= j < run.len() ==> (
                #[trigger] missed_of(spec, baseline, now)[i]).before(#[trigger] run[j])
        }),
{
    let c = spec.schedule@;
    let m = now.minute_start();
    let occ = accounted(c, baseline, now);
    let missed = missed_of(spec, baseline, now);
    let run = run_of(spec, baseline, now);
    let caught_up = past_of(run, now);
    occurrences_in_order(c, baseline, m, MAX_OCCURRENCES as nat);
    let k = missed.len() as int;
    if occ.len() > 0 && run.len() > 0 {
        assert(run.last() == occ.last());
    }
    assert forall|i: int| 0 <= i < caught_up.len() implies (#[trigger] caught_up[i]).before(m) by {
        assert(caught_up[i] == occ[k + i]);
        if k + i < occ.len() - 1 {
            assert(occ[k + i].before(occ[occ.len() - 1]));
        }
    }
    assert forall|i: int, j: int| 0 <= i < missed.len() && 0 <= j < run.len() implies (
    #[trigger] missed[i]).before(#[trigger] run[j]) by {
        assert(missed[i] == occ[i]);
        assert(run[j] == occ[k + j]);
    }
}

/// The state never moves back, and a second pass at the same time does nothing
/// unless the first one was cut short by the cap.
pub proof fn pass_is_settled(c: Schedule, baseline: DateTime, now: DateTime)
    ensures
        ({
            let occ = accounted(c, baseline, now);
            let last = last_of(occ, baseline);
            &&& !last.before(baseline)
            &&& occ.len() < MAX_OCCURRENCES ==> accounted(c, last, now).len() == 0
        }),
{
    let m = now.minute_start();
    let n = MAX_OCCURRENCES as nat;
    let occ = accounted(c, baseline, now);
    occurrences_in_order(c, baseline, m, n);
    if occ.len() > 0 {
        assert(baseline.before(occ[occ.len() - 1]));
    }
    passes_join(c, baseline, m, m, n, n);
    if occ.len() < n {
        let last = last_of(occ, baseline);
        let k = (n - occ.len()) as nat;
        assert(occ == occ + occurrences(c, last, m, k));
        assert(occurrences(c, last, m, k).len() == 0);
        assert(accounted(c, last, now) == occurrences(c, last, m, n));
    }
}

/// How many of the times come before the minute of `now`.
pub open spec fn earlier(times: Seq<DateTime>, now: DateTime) -> nat {
    times.filter(|t: DateTime| t.before(now.minute_start())).len()
}

proof fn lemma_earlier_all(times: Seq<DateTime>, now: DateTime)
    requires
        forall|i: int| 0 <= i < times.len() ==> (#[trigger] times[i]).before(now.minute_start()),
    ensures
        earlier(times, now) == times.len(),
    decreases times.len(),
{
    reveal(Seq::filter);
    if times.len() > 0 {
        let rest = times.drop_last();
        assert forall|i: int| 0 <= i < rest.len() implies (#[trigger] rest[i]).before(
            now.minute_start(),
        ) by {
            assert(rest[i] == times[i]);
        }
        lemma_earlier_all(rest, now);
        assert(times.last() == times[times.len() - 1]);
    }
}

proof fn lemma_earlier_joined(a: Seq<DateTime>, b: Seq<DateTime>, now: DateTime)
    ensures
        earlier(a + b, now) == earlier(a, now) + earlier(b, now),
{
    Seq::filter_distributes_over_add(a, b, |t: DateTime| t.before(now.minute_start()));
}

/// The times of `occ` before the current minute are all but the current minute.
proof fn lemma_earlier_past(occ: Seq<DateTime>, now: DateTime)
    requires
        forall|i: int|
            0 <= i < occ.len() ==> !now.minute_start().before(#[trigger] occ[i]),
        forall|i: int, j: int|
            0 <= i < j < occ.len() ==> (#[trigger] occ[i]).before(#[trigger] occ[j]),
    ensures
        earlier(occ, now) == past_of(occ, now).len(),
        forall|i: int|
            0 <= i < past_of(occ, now).len() ==> (#[trigger] past_of(occ, now)[i]).before(
                now.minute_start(),
            ),
{
    let m = now.minute_start();
    let past = past_of(occ, now);
    assert forall|i: int| 0 <= i < past.len() implies (#[trigger] past[i]).before(m) by {
        assert(past[i] == occ[i]);
        let last = occ[occ.len() - 1];
        if i < occ.len() - 1 {
            assert(occ[i].before(last));
        }
        assert(!m.before(occ[i]));
    }
    lemma_earlier_all(past, now);
    if past.len() < occ.len() {
        let end = seq![m];
        assert(occ =~= past + end);
        lemma_earlier_joined(past, end, now);
        reveal(Seq::filter);
        assert(end.drop_last() =~= seq![]);
        assert(end.last() == m && !m.before(m));
        assert(earlier(end.drop_last(), now) == 0);
        assert(earlier(end, now) == 0);
    }
}

/// With catch-up a pass runs exactly `max_catchup` of the occurrences before the
/// current minute, or all of them where there are fewer, and they are the newest
/// ones; without catch-up it runs none of them. What it does not run of them is
/// missed, and nothing else is.
pub proof fn catchup_is_exact(spec: JobSpec, baseline: DateTime, now: DateTime)
    ensures
        ({
            let run = run_of(spec, baseline, now);
            let missed = missed_of(spec, baseline, now);
            let all = earlier(missed + run, now);
            let wanted: int = if !spec.catchup {
                0
            } else if spec.max_catchup < all {
                spec.max_catchup as int
            } else {
                all as int
            };
            &&& earlier(run, now) == wanted
            &&& missed.len() == all - wanted
            &&& forall|i: int|
                0 <= i < missed.len() ==> (#[trigger] missed[i]).before(now.minute_start())
            &&& forall|i: int, j: int|
                0 <= i < missed.len() && 0 <= j < run.len() ==> (#[trigger] missed[i]).before(
                    #[trigger] run[j],
                )
        }),
{
    let m = now.minute_start();
    let occ = accounted(spec.schedule@, baseline, now);
    let run = run_of(spec, baseline, now);
    let missed = missed_of(spec, baseline, now);
    occurrences_in_order(spec.schedule@, baseline, m, MAX_OCCURRENCES as nat);
    plan_accounts_for_all(spec, baseline, now);
    lemma_earlier_past(occ, now);
    let past = past_of(occ, now);
    assert forall|i: int| 0 <= i < missed.len() implies (#[trigger] missed[i]).before(m) by {
        assert(missed[i] == past[i]);
    }
    lemma_earlier_all(missed, now);
    lemma_earlier_joined(missed, run, now);
    catchup_is_capped(spec, baseline, now);
}

/// Whatever comes out of a pass is an occurrence of the schedule after the last
/// accounted one and not after now, at most 1000 in all and each of them once;
/// and every such occurrence comes out, unless there are more than 1000, or more
/// than five years lie between it and the one before.
pub proof fn a_pass_looks_at_every_occurrence(
    spec: JobSpec,
    baseline: DateTime,
    now: DateTime,
    u: DateTime,
)
    requires
        baseline.valid(),
    ensures
        ({
            let all = missed_of(spec, baseline, now) + run_of(spec, baseline, now);
            let end = if all.len() > 0 {
                all.last()
            } else {
                baseline
            };
            &&& all.len() <= 1000
            &&& all.contains(u) ==> u.second == 0 && u.nanosecond == 0 && spec.schedule@.covers(u)
                && baseline.before(u) && !now.before(u)
            &&& forall|i: int, j: int|
                0 <= i < j < all.len() ==> (#[trigger] all[i]).before(#[trigger] all[j])
            &&& u.valid() && u.second == 0 && u.nanosecond == 0 && spec.schedule@.covers(u)
                && baseline.before(u) && !now.before(u) && !all.contains(u) ==> end.before(u) && (
            all.len() == 1000 || u.year > end.year + 5)
        }),
{
    let occ = accounted(spec.schedule@, baseline, now);
    plan_accounts_for_all(spec, baseline, now);
    occurrences_in_order(spec.schedule@, baseline, now.minute_start(), MAX_OCCURRENCES as nat);
    if spec.schedule@.occurs(u) && baseline.before(u) && !now.before(u) {
        occurrences_complete(
            spec.schedule@,
            baseline,
            now.minute_start(),
            MAX_OCCURRENCES as nat,
            u,
        );
    }
}

} // verus!
