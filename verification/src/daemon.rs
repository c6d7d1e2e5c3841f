//! The decisions of the scheduler daemon: what to do for each job in a pass,
//! whether a job may start while it is still running, when to pause and when
//! to stop, and what the log says of it.

use crate::crontab;
use crate::crontab::{Crontab, CrontabView, Duration, JobSpec, OverlapPolicy};
use crate::history;
use crate::history::RunRecord;
use crate::scheduler;
use crate::scheduler::{JobState, States};
use crate::text;
use crate::time;
use crate::time::DateTime;
use vstd::prelude::*;
use vstd::string::*;

verus! {

/// Daemon configuration assembled by the CLI.
#[derive(Debug, Clone)]
pub struct DaemonConfig {
    pub crontab_path: String,
    pub state_dir: String,
    pub system_mode: bool,
    pub metrics_addr: Option<String>,
    pub ntfy_url: Option<String>,
    /// Stop after this long (useful for CI, smoke tests and supervised
    /// restarts). `None` = run until killed.
    pub exit_after: Option<Duration>,
}

// ---------------------------------------------------------------------------
// Overlap
// ---------------------------------------------------------------------------

/// Whether an occurrence that is due may start.
#[derive(Debug, Clone, Copy, PartialEq, Eq, Structural)]
pub enum Dispatch {
    Start,
    /// The previous run is still in progress.
    Skip,
}

/// Whether an occurrence of a job may start while the given jobs are running:
/// only a job that may not overlap with itself is held back, and only while it
/// is running.
pub open spec fn may_start(
    running: Set<Seq<char>>,
    name: Seq<char>,
    overlap: OverlapPolicy,
) -> bool {
    overlap == OverlapPolicy::Allow || !running.contains(name)
}

/// The names of the jobs that are running.
pub struct Running {
    names: Vec<String>,
}

impl View for Running {
    type V = Set<Seq<char>>;

    closed spec fn view(&self) -> Set<Seq<char>> {
        Set::new(|k: Seq<char>| exists|i: int| self.names_at(i, k))
    }
}

impl Running {
    spec fn names_at(self, i: int, k: Seq<char>) -> bool {
        0 <= i < self.names@.len() && self.names@[i]@ == k
    }

    /// Whether no name occurs twice.
    pub closed spec fn wf(self) -> bool {
        forall|i: int, j: int|
            0 <= i < j < self.names@.len() ==> (#[trigger] self.names@[i])@ != (
            #[trigger] self.names@[j])@
    }

    /// No job is running.
    pub fn new() -> (r: Running)
        ensures
            r.wf(),
            r@ == Set::<Seq<char>>::empty(),
    {
        let r = Running { names: Vec::new() };
        assert(r@ =~= Set::<Seq<char>>::empty());
        r
    }

    /// The place of a name, or the number of names.
    fn find(&self, name: &str) -> (r: usize)
        ensures
            r <= self.names@.len(),
            r < self.names@.len() ==> self.names@[r as int]@ == name@ && self@.contains(name@),
            r == self.names@.len() ==> !self@.contains(name@),
    {
        let mut i: usize = 0;
        while i < self.names.len()
            invariant
                i <= self.names@.len(),
                forall|j: int| 0 <= j < i ==> (#[trigger] self.names@[j])@ != name@,
            decreases self.names@.len() - i,
        {
            if text::str_eq(self.names[i].as_str(), name) {
                assert(self.names_at(i as int, name@));
                return i;
            }
            i = i + 1;
        }
        assert forall|j: int| !self.names_at(j, name@) by {
        }
        i
    }

    /// Whether the job is running.
    pub fn contains(&self, name: &str) -> (r: bool)
        ensures
            r == self@.contains(name@),
    {
        self.find(name) < self.names.len()
    }

    /// Decides whether an occurrence of the job may start, and counts the job
    /// as running where it does.
    pub fn dispatch(&mut self, name: &str, overlap: OverlapPolicy) -> (r: Dispatch)
        requires
            old(self).wf(),
        ensures
            final(self).wf(),
            r == Dispatch::Start <==> may_start(old(self)@, name@, overlap),
            final(self)@ == old(self)@.insert(name@),
    {
        let i = self.find(name);
        if i < self.names.len() {
            assert(self@ =~= self@.insert(name@));
            match overlap {
                OverlapPolicy::Skip => Dispatch::Skip,
                OverlapPolicy::Allow => Dispatch::Start,
            }
        } else {
            let ghost before = *self;
            self.names.push(name.to_owned());
            proof {
                assert forall|j: int| 0 <= j < before.names@.len() implies (
                #[trigger] before.names@[j])@ != name@ by {
                    if before.names@[j]@ == name@ {
                        assert(before.names_at(j, name@));
                    }
                }
                assert forall|k: Seq<char>| self@.contains(k) == before@.insert(name@).contains(
                    k,
                ) by {
                    if before@.contains(k) {
                        let j = choose|j: int| before.names_at(j, k);
                        assert(self.names_at(j, k));
                    }
                    if k == name@ {
                        assert(self.names_at(i as int, k));
                    }
                    if self@.contains(k) && k != name@ {
                        let j = choose|j: int| self.names_at(j, k);
                        assert(before.names_at(j, k));
                    }
                }
                assert(self@ =~= before@.insert(name@));
            }
            Dispatch::Start
        }
    }

    /// Counts the job as not running any more.
    pub fn finish(&mut self, name: &str)
        requires
            old(self).wf(),
        ensures
            final(self).wf(),
            final(self)@ == old(self)@.remove(name@),
    {
        let i = self.find(name);
        let ghost before = *self;
        if i < self.names.len() {
            self.names.remove(i);
            proof {
                assert forall|a: int, b: int| 0 <= a < b < self.names@.len() implies (
                #[trigger] self.names@[a])@ != (#[trigger] self.names@[b])@ by {
                    let x = if a < i {
                        a
                    } else {
                        a + 1
                    };
                    let y = if b < i {
                        b
                    } else {
                        b + 1
                    };
                    assert(before.names@[x]@ != before.names@[y]@);
                }
                assert forall|k: Seq<char>| self@.contains(k) == before@.remove(name@).contains(
                    k,
                ) by {
                    if before@.contains(k) && k != name@ {
                        let j = choose|j: int| before.names_at(j, k);
                        if j < i {
                            assert(self.names_at(j, k));
                        } else {
                            assert(self.names_at(j - 1, k));
                        }
                    }
                    if self@.contains(k) {
                        let j = choose|j: int| self.names_at(j, k);
                        if j < i {
                            assert(before.names_at(j, k));
                            assert(before.names@[j]@ != before.names@[i as int]@);
                        } else {
                            assert(before.names_at(j + 1, k));
                            assert(before.names@[i as int]@ != before.names@[j + 1]@);
                        }
                    }
                }
            }
        }
        assert(self@ =~= before@.remove(name@));
    }
}

// ---------------------------------------------------------------------------
// Passes
// ---------------------------------------------------------------------------

/// What to do about one occurrence.
#[derive(Debug, Clone, Copy, PartialEq, Eq, Structural)]
pub enum Action {
    /// Record it as missed.
    Missed(DateTime),
    /// Run it.
    Run {
        at: DateTime,
        /// Whether it lies before the current minute.
        catchup: bool,
    },
}

impl Action {
    /// The occurrence.
    pub open spec fn at(self) -> DateTime {
        match self {
            Action::Missed(t) => t,
            Action::Run { at, .. } => at,
        }
    }
}

/// What to do about one occurrence of the job with the given index.
#[derive(Debug, Clone, Copy, PartialEq, Eq, Structural)]
pub struct Todo {
    pub job: usize,
    pub action: Action,
}

/// The state of a job; the empty state where it has none.
pub open spec fn state_in(states: Map<Seq<char>, JobState>, name: Seq<char>) -> JobState {
    if states.dom().contains(name) {
        states[name]
    } else {
        JobState { last_scheduled: None }
    }
}

/// What a pass does for one job: the missed occurrences, then those that run.
pub open spec fn actions_of(spec: JobSpec, state: JobState, now: DateTime) -> Seq<Action> {
    match state.last_scheduled {
        None => seq![],
        Some(baseline) => scheduler::missed_of(spec, baseline, now).map_values(
            |t: DateTime| Action::Missed(t),
        ) + scheduler::run_of(spec, baseline, now).map_values(
            |t: DateTime| Action::Run { at: t, catchup: t.before(now.minute_start()) },
        ),
    }
}

/// The state of a job after a pass.
pub open spec fn state_after(spec: JobSpec, state: JobState, now: DateTime) -> JobState {
    JobState {
        last_scheduled: Some(
            match state.last_scheduled {
                None => now.minute_start(),
                Some(baseline) => scheduler::last_of(
                    scheduler::accounted(spec.schedule@, baseline, now),
                    baseline,
                ),
            },
        ),
    }
}

/// The result of a pass.
pub struct Pass {
    pub todo: Seq<Todo>,
    pub states: Map<Seq<char>, JobState>,
    /// Whether any state changed.
    pub dirty: bool,
}

/// A pass over the jobs, in their order; `@reboot` jobs are left out.
pub open spec fn pass_of(jobs: Seq<JobSpec>, states: Map<Seq<char>, JobState>, now: DateTime) -> Pass
    decreases jobs.len(),
{
    if jobs.len() == 0 {
        Pass { todo: seq![], states, dirty: false }
    } else {
        let before = pass_of(jobs.drop_last(), states, now);
        let spec = jobs.last();
        if spec.schedule@.reboot {
            before
        } else {
            let state = state_in(before.states, spec.name@);
            let new = state_after(spec, state, now);
            Pass {
                todo: before.todo + actions_of(spec, state, now).map_values(
                    |a: Action| Todo { job: (jobs.len() - 1) as usize, action: a },
                ),
                states: before.states.insert(spec.name@, new),
                dirty: before.dirty || state.last_scheduled != new.last_scheduled,
            }
        }
    }
}

/// Whether two optional times are the same.
fn same_time(a: Option<DateTime>, b: Option<DateTime>) -> (r: bool)
    ensures
        r == (a == b),
{
    match a {
        Some(x) => match b {
            Some(y) => x == y,
            None => false,
        },
        None => b.is_none(),
    }
}

/// Appends what a pass does for one job.
fn push_actions(
    todo: &mut Vec<Todo>,
    job: usize,
    missed: &Vec<DateTime>,
    run: &Vec<DateTime>,
    now_min: DateTime,
)
    ensures
        final(todo)@ == old(todo)@ + (missed@.map_values(|t: DateTime| Action::Missed(t))
            + run@.map_values(
            |t: DateTime| Action::Run { at: t, catchup: t.before(now_min) },
        )).map_values(|a: Action| Todo { job, action: a }),
{
    let ghost m = missed@.map_values(|t: DateTime| Action::Missed(t));
    let ghost r = run@.map_values(
        |t: DateTime| Action::Run { at: t, catchup: t.before(now_min) },
    );
    let ghost f = |a: Action| Todo { job, action: a };
    let mut i: usize = 0;
    while i < missed.len()
        invariant
            i <= missed@.len(),
            m == missed@.map_values(|t: DateTime| Action::Missed(t)),
            f == (|a: Action| Todo { job, action: a }),
            todo@ =~= old(todo)@ + m.take(i as int).map_values(f),
        decreases missed@.len() - i,
    {
        todo.push(Todo { job, action: Action::Missed(missed[i]) });
        i = i + 1;
    }
    let mut k: usize = 0;
    while k < run.len()
        invariant
            k <= run@.len(),
            r == run@.map_values(
                |t: DateTime| Action::Run { at: t, catchup: t.before(now_min) },
            ),
            f == (|a: Action| Todo { job, action: a }),
            todo@ =~= old(todo)@ + m.map_values(f) + r.take(k as int).map_values(f),
        decreases run@.len() - k,
    {
        let at = run[k];
        todo.push(Todo { job, action: Action::Run { at, catchup: at.is_before(&now_min) } });
        k = k + 1;
    }
    assert(todo@ =~= old(todo)@ + (m + r).map_values(f));
}

/// One pass over the jobs: what to do, in order, and whether any state changed.
pub fn tick(jobs: &Vec<JobSpec>, states: &mut States, now: DateTime) -> (r: (Vec<Todo>, bool))
    requires
        old(states).wf(),
        now.valid(),
    ensures
        final(states).wf(),
        r.0@ == pass_of(jobs@, old(states)@, now).todo,
        r.1 == pass_of(jobs@, old(states)@, now).dirty,
        final(states)@ == pass_of(jobs@, old(states)@, now).states,
        forall|i: int|
            0 <= i < r.0@.len() ==> (#[trigger] r.0@[i]).job < jobs@.len()
                && r.0@[i].action.at().valid(),
{
    let mut todo: Vec<Todo> = Vec::new();
    let mut dirty = false;
    let now_min = time::truncate_minute(now);
    let mut i: usize = 0;
    while i < jobs.len()
        invariant
            i <= jobs@.len(),
            now.valid(),
            now_min == now.minute_start(),
            states.wf(),
            ({
                let p = pass_of(jobs@.take(i as int), old(states)@, now);
                todo@ == p.todo && dirty == p.dirty && states@ == p.states
            }),
            forall|j: int|
                0 <= j < todo@.len() ==> (#[trigger] todo@[j]).job < jobs@.len()
                    && todo@[j].action.at().valid(),
        decreases jobs@.len() - i,
    {
        assert(jobs@.take(i + 1).drop_last() =~= jobs@.take(i as int));
        let spec = &jobs[i];
        if !spec.schedule.is_reboot() {
            let state = states.get(spec.name.as_str());
            let p = scheduler::plan(spec, &state, now);
            let ghost before = todo@;
            push_actions(&mut todo, i, &p.missed, &p.run, now_min);
            let new = JobState { last_scheduled: p.new_last_scheduled };
            assert(new == state_after(*spec, state, now));
            states.set(spec.name.as_str(), new);
            dirty = dirty || !same_time(state.last_scheduled, p.new_last_scheduled);
            proof {
                let m = p.missed@.map_values(|t: DateTime| Action::Missed(t));
                let r = p.run@.map_values(
                    |t: DateTime| Action::Run { at: t, catchup: t.before(now_min) },
                );
                assert(m + r =~= actions_of(*spec, state, now));
                assert forall|j: int| 0 <= j < todo@.len() implies (#[trigger] todo@[j]).job
                    < jobs@.len() && todo@[j].action.at().valid() by {
                    if j < before.len() {
                        assert(todo@[j] == before[j]);
                    } else {
                        let k = j - before.len();
                        if k < m.len() {
                            assert(todo@[j].action == Action::Missed(p.missed@[k]));
                        } else {
                            assert(todo@[j].action.at() == p.run@[k - m.len()]);
                        }
                    }
                }
            }
        }
        i = i + 1;
    }
    assert(jobs@.take(jobs@.len() as int) =~= jobs@);
    (todo, dirty)
}


/// The indices of the `@reboot` jobs, in their order.
pub open spec fn reboot_jobs(jobs: Seq<JobSpec>) -> Seq<usize>
    decreases jobs.len(),
{
    if jobs.len() == 0 {
        seq![]
    } else if jobs.last().schedule@.reboot {
        reboot_jobs(jobs.drop_last()).push((jobs.len() - 1) as usize)
    } else {
        reboot_jobs(jobs.drop_last())
    }
}

/// The indices of the jobs that run once at startup, in their order.
pub fn startup_jobs(jobs: &Vec<JobSpec>) -> (r: Vec<usize>)
    ensures
        r@ == reboot_jobs(jobs@),
        forall|i: int| 0 <= i < r@.len() ==> #[trigger] r@[i] < jobs@.len(),
{
    let mut out: Vec<usize> = Vec::new();
    let mut i: usize = 0;
    while i < jobs.len()
        invariant
            i <= jobs@.len(),
            out@ == reboot_jobs(jobs@.take(i as int)),
            forall|k: int| 0 <= k < out@.len() ==> #[trigger] out@[k] < jobs@.len(),
        decreases jobs@.len() - i,
    {
        assert(jobs@.take(i + 1).drop_last() =~= jobs@.take(i as int));
        if jobs[i].schedule.is_reboot() {
            out.push(i);
        }
        i = i + 1;
    }
    assert(jobs@.take(jobs@.len() as int) =~= jobs@);
    out
}

// ---------------------------------------------------------------------------
// Pauses
// ---------------------------------------------------------------------------

/// What to do between two passes.
#[derive(Debug, Clone, Copy, PartialEq, Eq, Structural)]
pub enum Pause {
    /// The time to run is over.
    Exit,
    /// The next minute has begun.
    Tick,
    /// Look again in a moment.
    Sleep,
}

/// What to do between two passes, `elapsed_secs` whole seconds after the start:
/// the end of the run comes before the next pass.
pub fn pause(
    elapsed_secs: u64,
    exit_after: Option<Duration>,
    now: DateTime,
    next_minute: DateTime,
) -> (r: Pause)
    ensures
        r == Pause::Exit <==> exit_after is Some && elapsed_secs >= exit_after->0.secs,
        r == Pause::Tick <==> r != Pause::Exit && !now.before(next_minute),
{
    if let Some(d) = exit_after {
        if elapsed_secs >= d.as_secs() {
            return Pause::Exit;
        }
    }
    if now.is_before(&next_minute) {
        Pause::Sleep
    } else {
        Pause::Tick
    }
}

// ---------------------------------------------------------------------------
// Log lines
// ---------------------------------------------------------------------------

/// The log line of a job that starts.
pub fn started_message(job: &str, scheduled: DateTime, is_catchup: bool) -> (r: String)
    requires
        scheduled.valid(),
    ensures
        r@ == "job "@ + job@ + " started (scheduled "@ + time::time_text(scheduled) + ")"@ + (
        if is_catchup {
            " (catch-up)"@
        } else {
            seq![]
        }),
{
    let mut out = "job ".to_owned();
    out.append(job);
    out.append(" started (scheduled ");
    let t = time::format_time(scheduled);
    out.append(t.as_str());
    out.append(")");
    let ghost head = out@;
    if is_catchup {
        out.append(" (catch-up)");
    } else {
        assert(head + seq![] =~= head);
    }
    out
}

/// The duration of a record as shown to the user; 0 where it has none.
pub open spec fn shown_ms(ms: Option<u64>) -> Seq<char> {
    match ms {
        Some(n) => text::decimal(n as nat),
        None => text::decimal(0),
    }
}

/// Appends the duration of a record; 0 where it has none.
fn push_ms(out: &mut String, ms: Option<u64>)
    ensures
        final(out)@ == old(out)@ + shown_ms(ms),
{
    match ms {
        Some(n) => text::push_decimal(out, n),
        None => text::push_decimal(out, 0),
    }
}

/// The log line of a job that finished.
pub fn finished_message(record: &RunRecord) -> (r: String)
    ensures
        r@ == "job "@ + record@.job + " finished: "@ + record@.status.text() + " (exit "@
            + history::exit_text_of(record@.exit_code) + ", "@ + shown_ms(record@.duration_ms)
            + "ms)"@,
{
    let mut out = "job ".to_owned();
    out.append(record.job.as_str());
    out.append(" finished: ");
    out.append(record.status.as_str());
    out.append(" (exit ");
    let exit = history::exit_text(record.exit_code);
    out.append(exit.as_str());
    out.append(", ");
    push_ms(&mut out, record.duration_ms);
    out.append("ms)");
    out
}

/// The log line of an occurrence that is skipped.
pub fn skipped_message(job: &str) -> (r: String)
    ensures
        r@ == "job "@ + job@ + " skipped (previous run still in progress)"@,
{
    let mut out = "job ".to_owned();
    out.append(job);
    out.append(" skipped (previous run still in progress)");
    out
}

/// The log line of an occurrence that is recorded as missed.
pub fn missed_message(job: &str, occurrence: DateTime) -> (r: String)
    requires
        occurrence.valid(),
    ensures
        r@ == "job "@ + job@ + " missed occurrence "@ + time::time_text(occurrence)
            + " (catch-up limit reached or disabled)"@,
{
    let mut out = "job ".to_owned();
    out.append(job);
    out.append(" missed occurrence ");
    let t = time::format_time(occurrence);
    out.append(t.as_str());
    out.append(" (catch-up limit reached or disabled)");
    out
}

/// The header of a run in the job's log.
pub open spec fn header_of(r: history::RecordView, is_catchup: bool) -> Seq<char> {
    let started = match r.started {
        Some(t) => t,
        None => seq![],
    };
    started + " scheduled="@ + r.scheduled + " status="@ + r.status.text() + " exit="@
        + history::exit_text_of(r.exit_code) + " duration="@ + shown_ms(r.duration_ms) + "ms"@ + (
    if is_catchup {
        " catchup=true"@
    } else {
        seq![]
    })
}

/// The header of a run in the job's log.
pub fn run_header(record: &RunRecord, is_catchup: bool) -> (r: String)
    ensures
        r@ == header_of(record@, is_catchup),
{
    let mut out = match &record.started {
        Some(t) => t.clone(),
        None => String::new(),
    };
    out.append(" scheduled=");
    out.append(record.scheduled.as_str());
    out.append(" status=");
    out.append(record.status.as_str());
    out.append(" exit=");
    let exit = history::exit_text(record.exit_code);
    out.append(exit.as_str());
    out.append(" duration=");
    push_ms(&mut out, record.duration_ms);
    out.append("ms");
    let ghost head = out@;
    if is_catchup {
        out.append(" catchup=true");
    } else {
        assert(head + seq![] =~= head);
    }
    out
}

/// The warning about a job that names another user than the one who runs the
/// daemon.
pub open spec fn user_warning(job: Seq<char>, user: Seq<char>, current: Seq<char>) -> Seq<char> {
    "warning: job "@ + job + " declares user '"@ + user + "' but chrond runs every job as '"@
        + current + "' (the user column is parsed for /etc/crontab compatibility only)"@
}

/// The warnings about jobs that name another user than `current`, in their
/// order; none where the current user is not known.
pub open spec fn user_warnings_of(jobs: Seq<JobSpec>, current: Seq<char>) -> Seq<Seq<char>>
    decreases jobs.len(),
{
    if jobs.len() == 0 {
        seq![]
    } else {
        let before = user_warnings_of(jobs.drop_last(), current);
        match jobs.last().user {
            Some(u) => if current.len() > 0 && u@ != current {
                before.push(user_warning(jobs.last().name@, u@, current))
            } else {
                before
            },
            None => before,
        }
    }
}

/// The warnings about jobs that name another user than `current`, in their
/// order; none where the current user is not known.
pub fn user_warnings(jobs: &Vec<JobSpec>, current: &str) -> (r: Vec<String>)
    ensures
        text::strings(r@) == user_warnings_of(jobs@, current@),
{
    let mut out: Vec<String> = Vec::new();
    let known = !current.is_empty();
    let mut i: usize = 0;
    assert(text::strings(out@) =~= user_warnings_of(jobs@.take(0), current@));
    while i < jobs.len()
        invariant
            i <= jobs@.len(),
            known == (current@.len() > 0),
            text::strings(out@) == user_warnings_of(jobs@.take(i as int), current@),
        decreases jobs@.len() - i,
    {
        assert(jobs@.take(i + 1).drop_last() =~= jobs@.take(i as int));
        if let Some(u) = &jobs[i].user {
            if known && !text::str_eq(u.as_str(), current) {
                let ghost before = out@;
                let mut w = "warning: job ".to_owned();
                w.append(jobs[i].name.as_str());
                w.append(" declares user '");
                w.append(u.as_str());
                w.append("' but chrond runs every job as '");
                w.append(current);
                w.append("' (the user column is parsed for /etc/crontab compatibility only)");
                out.push(w);
                assert(text::strings(out@) =~= text::strings(before).push(w@));
            }
        }
        i = i + 1;
    }
    assert(jobs@.take(jobs@.len() as int) =~= jobs@);
    out
}

// ---------------------------------------------------------------------------
// Laws
// ---------------------------------------------------------------------------

/// What happens to the jobs: an occurrence is due, or a run has ended.
pub enum Event {
    Due(Seq<char>, OverlapPolicy),
    Ended(Seq<char>),
}

/// The running jobs after the events.
pub open spec fn running_after(events: Seq<Event>) -> Set<Seq<char>>
    decreases events.len(),
{
    if events.len() == 0 {
        Set::empty()
    } else {
        let before = running_after(events.drop_last());
        match events.last() {
            Event::Due(name, _) => before.insert(name),
            Event::Ended(name) => before.remove(name),
        }
    }
}

/// The number of runs of a job that are in progress after the events.
pub open spec fn runs_in_progress(events: Seq<Event>, name: Seq<char>) -> int
    decreases events.len(),
{
    if events.len() == 0 {
        0
    } else {
        let before = runs_in_progress(events.drop_last(), name);
        match events.last() {
            Event::Due(n, overlap) => if n == name && may_start(
                running_after(events.drop_last()),
                name,
                overlap,
            ) {
                before + 1
            } else {
                before
            },
            Event::Ended(n) => if n == name {
                before - 1
            } else {
                before
            },
        }
    }
}

/// A job with `overlap=skip` never has two runs in progress, and it is counted
/// as running exactly while it has one.
pub proof fn skip_never_overlaps(events: Seq<Event>, name: Seq<char>)
    requires
        forall|i: int|
            0 <= i < events.len() ==> #[trigger] events[i] != Event::Due(
                name,
                OverlapPolicy::Allow,
            ),
        forall|i: int|
            0 <= i < events.len() && #[trigger] events[i] == Event::Ended(name)
                ==> runs_in_progress(events.take(i), name) > 0,
    ensures
        0 <= runs_in_progress(events, name) <= 1,
        running_after(events).contains(name) <==> runs_in_progress(events, name) == 1,
    decreases events.len(),
{
    if events.len() > 0 {
        let rest = events.drop_last();
        let n = rest.len() as int;
        assert(events.take(n) =~= rest);
        assert forall|i: int| 0 <= i < rest.len() implies #[trigger] rest[i] != Event::Due(
            name,
            OverlapPolicy::Allow,
        ) by {
            assert(events[i] != Event::Due(name, OverlapPolicy::Allow));
        }
        assert forall|i: int| 0 <= i < rest.len() && #[trigger] rest[i] == Event::Ended(
            name,
        ) implies runs_in_progress(rest.take(i), name) > 0 by {
            assert(events[i] == Event::Ended(name));
            assert(rest.take(i) =~= events.take(i));
        }
        skip_never_overlaps(rest, name);
        assert(events[n] == events.last());
    }
}

/// Whether no two jobs have the same name.
pub open spec fn names_differ(jobs: Seq<JobSpec>) -> bool {
    forall|i: int, j: int|
        0 <= i < j < jobs.len() ==> (#[trigger] jobs[i]).name@ != (#[trigger] jobs[j]).name@
}

/// The jobs of a crontab that was accepted have different names.
pub proof fn crontab_names_differ(tab: Crontab, content: Seq<char>, system_mode: bool)
    requires
        crontab::crontab_of(content, system_mode) == Ok::<CrontabView, (int, Seq<char>)>(tab@),
    ensures
        names_differ(tab.jobs@),
{
    crontab::accepted_jobs_are_sound(content, system_mode);
    let views = crontab::job_views(tab.jobs@);
    assert forall|i: int, j: int| 0 <= i < j < tab.jobs@.len() implies (
    #[trigger] tab.jobs@[i]).name@ != (#[trigger] tab.jobs@[j]).name@ by {
        assert(views[i].name != views[j].name);
    }
}

/// What a pass does about the job with index `i`.
pub open spec fn todo_for(todo: Seq<Todo>, i: int) -> Seq<Todo> {
    todo.filter(|t: Todo| t.job == i)
}

/// The occurrences that a list of actions is about.
pub open spec fn times_of(todo: Seq<Todo>) -> Seq<DateTime> {
    todo.map_values(|t: Todo| t.action.at())
}

proof fn lemma_pass_jobs(jobs: Seq<JobSpec>, states: Map<Seq<char>, JobState>, now: DateTime)
    requires
        jobs.len() <= usize::MAX,
    ensures
        forall|k: int|
            0 <= k < pass_of(jobs, states, now).todo.len() ==> (#[trigger] pass_of(
                jobs,
                states,
                now,
            ).todo[k]).job < jobs.len(),
    decreases jobs.len(),
{
    if jobs.len() > 0 {
        lemma_pass_jobs(jobs.drop_last(), states, now);
        let before = pass_of(jobs.drop_last(), states, now).todo;
        let all = pass_of(jobs, states, now).todo;
        assert forall|k: int| 0 <= k < all.len() implies (#[trigger] all[k]).job < jobs.len() by {
            if k < before.len() {
                assert(all[k] == before[k]);
            }
        }
    }
}

proof fn lemma_filter_none(todo: Seq<Todo>, i: int)
    requires
        forall|k: int| 0 <= k < todo.len() ==> (#[trigger] todo[k]).job != i,
    ensures
        todo_for(todo, i) == Seq::<Todo>::empty(),
    decreases todo.len(),
{
    reveal(Seq::filter);
    if todo.len() > 0 {
        assert(todo[todo.len() - 1].job != i);
        assert forall|k: int| 0 <= k < todo.drop_last().len() implies (
        #[trigger] todo.drop_last()[k]).job != i by {
            assert(todo[k].job != i);
        }
        lemma_filter_none(todo.drop_last(), i);
    }
}

proof fn lemma_filter_all(todo: Seq<Todo>, i: int)
    requires
        forall|k: int| 0 <= k < todo.len() ==> (#[trigger] todo[k]).job == i,
    ensures
        todo_for(todo, i) == todo,
    decreases todo.len(),
{
    reveal(Seq::filter);
    if todo.len() > 0 {
        assert(todo[todo.len() - 1].job == i);
        assert forall|k: int| 0 <= k < todo.drop_last().len() implies (
        #[trigger] todo.drop_last()[k]).job == i by {
            assert(todo[k].job == i);
        }
        lemma_filter_all(todo.drop_last(), i);
        assert(todo.drop_last().push(todo.last()) =~= todo);
    }
}

/// A pass over jobs with different names treats each job by itself: it does for
/// a job what its own state asks for, and leaves it in the state after that.
pub proof fn jobs_are_independent(
    jobs: Seq<JobSpec>,
    states: Map<Seq<char>, JobState>,
    now: DateTime,
    i: int,
)
    requires
        jobs.len() <= usize::MAX,
        names_differ(jobs),
        0 <= i < jobs.len(),
        !jobs[i].schedule@.reboot,
    ensures
        ({
            let p = pass_of(jobs, states, now);
            let state = state_in(states, jobs[i].name@);
            &&& todo_for(p.todo, i) == actions_of(jobs[i], state, now).map_values(
                |a: Action| Todo { job: i as usize, action: a },
            )
            &&& state_in(p.states, jobs[i].name@) == state_after(jobs[i], state, now)
            &&& p.states.dom().contains(jobs[i].name@)
        }),
    decreases jobs.len(),
{
    let n = jobs.len() - 1;
    let rest = jobs.drop_last();
    let before = pass_of(rest, states, now);
    let p = pass_of(jobs, states, now);
    let spec = jobs.last();
    assert(names_differ(rest)) by {
        assert forall|a: int, b: int| 0 <= a < b < rest.len() implies (#[trigger] rest[a]).name@
            != (#[trigger] rest[b]).name@ by {
            assert(jobs[a].name@ != jobs[b].name@);
        }
    }
    lemma_pass_jobs(rest, states, now);
    let state = state_in(before.states, spec.name@);
    let added = actions_of(spec, state, now).map_values(
        |a: Action| Todo { job: n as usize, action: a },
    );
    if i < n {
        jobs_are_independent(rest, states, now, i);
        assert(rest[i] == jobs[i]);
        assert(jobs[i].name@ != jobs[n].name@);
        if !spec.schedule@.reboot {
            Seq::filter_distributes_over_add(before.todo, added, |t: Todo| t.job == i);
            lemma_filter_none(added, i);
            assert(todo_for(p.todo, i) =~= todo_for(before.todo, i));
        }
    } else {
        lemma_untouched(rest, states, now, spec.name@);
        Seq::filter_distributes_over_add(before.todo, added, |t: Todo| t.job == i);
        lemma_filter_none(before.todo, i);
        lemma_filter_all(added, i);
        assert(todo_for(p.todo, i) =~= added);
    }
}

proof fn lemma_untouched(
    jobs: Seq<JobSpec>,
    states: Map<Seq<char>, JobState>,
    now: DateTime,
    name: Seq<char>,
)
    requires
        forall|i: int| 0 <= i < jobs.len() ==> (#[trigger] jobs[i]).name@ != name,
    ensures
        state_in(pass_of(jobs, states, now).states, name) == state_in(states, name),
    decreases jobs.len(),
{
    if jobs.len() > 0 {
        let rest = jobs.drop_last();
        assert forall|i: int| 0 <= i < rest.len() implies (#[trigger] rest[i]).name@ != name by {
            assert(jobs[i].name@ != name);
        }
        assert(jobs[jobs.len() - 1].name@ != name);
        lemma_untouched(rest, states, now, name);
    }
}

/// Every occurrence that a pass accounts for is recorded as missed or run, each
/// once and in its order, for every job that has been seen before.
pub proof fn each_occurrence_once(
    jobs: Seq<JobSpec>,
    states: Map<Seq<char>, JobState>,
    now: DateTime,
    i: int,
    baseline: DateTime,
)
    requires
        jobs.len() <= usize::MAX,
        names_differ(jobs),
        0 <= i < jobs.len(),
        !jobs[i].schedule@.reboot,
        state_in(states, jobs[i].name@).last_scheduled == Some(baseline),
    ensures
        times_of(todo_for(pass_of(jobs, states, now).todo, i)) == scheduler::accounted(
            jobs[i].schedule@,
            baseline,
            now,
        ),
{
    jobs_are_independent(jobs, states, now, i);
    scheduler::plan_accounts_for_all(jobs[i], baseline, now);
    let state = state_in(states, jobs[i].name@);
    let missed = scheduler::missed_of(jobs[i], baseline, now);
    let run = scheduler::run_of(jobs[i], baseline, now);
    let todo = todo_for(pass_of(jobs, states, now).todo, i);
    assert(times_of(todo) =~= missed + run) by {
        assert(todo.len() == missed.len() + run.len());
        assert forall|k: int| 0 <= k < todo.len() implies #[trigger] times_of(todo)[k] == (missed
            + run)[k] by {
            assert(todo[k].action == actions_of(jobs[i], state, now)[k]);
        }
    }
}

proof fn lemma_quiet(jobs: Seq<JobSpec>, states: Map<Seq<char>, JobState>, now: DateTime)
    requires
        forall|i: int|
            0 <= i < jobs.len() && !(#[trigger] jobs[i]).schedule@.reboot ==> {
                let state = state_in(states, jobs[i].name@);
                &&& states.dom().contains(jobs[i].name@)
                &&& actions_of(jobs[i], state, now).len() == 0
                &&& state_after(jobs[i], state, now) == state
            },
    ensures
        pass_of(jobs, states, now) == (Pass { todo: seq![], states, dirty: false }),
    decreases jobs.len(),
{
    if jobs.len() > 0 {
        let rest = jobs.drop_last();
        assert forall|i: int|
            0 <= i < rest.len() && !(#[trigger] rest[i]).schedule@.reboot implies {
            let state = state_in(states, rest[i].name@);
            &&& states.dom().contains(rest[i].name@)
            &&& actions_of(rest[i], state, now).len() == 0
            &&& state_after(rest[i], state, now) == state
        } by {
            assert(rest[i] == jobs[i]);
        }
        lemma_quiet(rest, states, now);
        let p = pass_of(jobs, states, now);
        assert(jobs[jobs.len() - 1] == jobs.last());
        if !jobs.last().schedule@.reboot {
            assert(p.states =~= states);
            assert(p.todo =~= seq![]);
        }
    }
}

/// A second pass in the same minute does nothing: no occurrence is run or
/// recorded twice. (A job with more occurrences to account for than one pass
/// takes goes on in the second pass.)
pub proof fn second_pass_is_quiet(
    jobs: Seq<JobSpec>,
    states: Map<Seq<char>, JobState>,
    now: DateTime,
    later: DateTime,
)
    requires
        jobs.len() <= usize::MAX,
        names_differ(jobs),
        later.minute_start() == now.minute_start(),
        forall|i: int, baseline: DateTime|
            0 <= i < jobs.len() && state_in(states, (#[trigger] jobs[i]).name@).last_scheduled
                == Some(baseline) ==> (#[trigger] scheduler::accounted(
                jobs[i].schedule@,
                baseline,
                now,
            )).len() < scheduler::MAX_OCCURRENCES,
    ensures
        ({
            let first = pass_of(jobs, states, now);
            let second = pass_of(jobs, first.states, later);
            second.todo.len() == 0 && !second.dirty && second.states == first.states
        }),
{
    let after = pass_of(jobs, states, now).states;
    assert forall|i: int| 0 <= i < jobs.len() && !(#[trigger] jobs[i]).schedule@.reboot implies {
        let state = state_in(after, jobs[i].name@);
        &&& after.dom().contains(jobs[i].name@)
        &&& actions_of(jobs[i], state, later).len() == 0
        &&& state_after(jobs[i], state, later) == state
    } by {
        jobs_are_independent(jobs, states, now, i);
        let c = jobs[i].schedule@;
        let old_state = state_in(states, jobs[i].name@);
        let state = state_in(after, jobs[i].name@);
        let last = state.last_scheduled->0;
        match old_state.last_scheduled {
            Some(baseline) => {
                assert(scheduler::accounted(c, baseline, now).len() < scheduler::MAX_OCCURRENCES);
                scheduler::pass_is_settled(c, baseline, now);
            },
            None => {
                scheduler::occurrences_in_order(
                    c,
                    last,
                    now.minute_start(),
                    scheduler::MAX_OCCURRENCES as nat,
                );
                let occ = scheduler::accounted(c, last, now);
                if occ.len() > 0 {
                    assert(last.before(occ[0]) && !last.before(occ[0]));
                }
            },
        }
        assert(scheduler::accounted(c, last, later) == scheduler::accounted(c, last, now));
    }
    lemma_quiet(jobs, after, later);
}

/// A job whose runs may overlap always starts, and one whose runs are skipped
/// starts exactly where none of its runs is in progress.
pub proof fn overlap_decides_what_starts(running: Set<Seq<char>>, name: Seq<char>)
    ensures
        may_start(running, name, OverlapPolicy::Allow),
        may_start(running, name, OverlapPolicy::Skip) <==> !running.contains(name),
{
}

/// What a pass does with a job: the missed occurrences of the plan are recorded
/// and the others run, in the order of their times, and a run is a catch-up
/// exactly where its time lies before the current minute. A job that was never
/// looked at has nothing to do.
pub proof fn actions_follow_the_plan(spec: JobSpec, baseline: DateTime, now: DateTime)
    ensures
        ({
            let actions = actions_of(spec, JobState { last_scheduled: Some(baseline) }, now);
            let missed = scheduler::missed_of(spec, baseline, now);
            let run = scheduler::run_of(spec, baseline, now);
            &&& actions.len() == missed.len() + run.len()
            &&& forall|i: int|
                0 <= i < missed.len() ==> (#[trigger] actions[i] matches Action::Missed(t) && t
                    == missed[i])
            &&& forall|i: int|
                missed.len() <= i < actions.len() ==> (#[trigger] actions[i] matches Action::Run {
                    at,
                    catchup,
                } && at == run[i - missed.len()] && (catchup <==> at.before(now.minute_start())))
        }),
        actions_of(spec, JobState { last_scheduled: None }, now).len() == 0,
{
}

/// How many of the actions are catch-up runs.
pub open spec fn caught_up(actions: Seq<Action>) -> nat {
    actions.filter(|a: Action| a matches Action::Run { catchup, .. } && catchup).len()
}

proof fn lemma_caught_up(times: Seq<DateTime>, now: DateTime)
    ensures
        caught_up(
            times.map_values(
                |t: DateTime| Action::Run { at: t, catchup: t.before(now.minute_start()) },
            ),
        ) == scheduler::earlier(times, now),
    decreases times.len(),
{
    reveal(Seq::filter);
    let f = |t: DateTime| Action::Run { at: t, catchup: t.before(now.minute_start()) };
    if times.len() > 0 {
        lemma_caught_up(times.drop_last(), now);
        assert(times.map_values(f).drop_last() =~= times.drop_last().map_values(f));
        assert(times.map_values(f).last() == f(times.last()));
    }
}

proof fn lemma_none_caught_up(times: Seq<DateTime>)
    ensures
        caught_up(times.map_values(|t: DateTime| Action::Missed(t))) == 0,
    decreases times.len(),
{
    reveal(Seq::filter);
    let f = |t: DateTime| Action::Missed(t);
    if times.len() > 0 {
        lemma_none_caught_up(times.drop_last());
        assert(times.map_values(f).drop_last() =~= times.drop_last().map_values(f));
        assert(times.map_values(f).last() == f(times.last()));
    }
}

/// A pass catches up no more runs of a job than its annotation allows, and none
/// without catch-up; with catch-up it catches up that many wherever at least that
/// many occurrences lie before the current minute.
pub proof fn catchup_runs_are_counted(spec: JobSpec, baseline: DateTime, now: DateTime)
    ensures
        ({
            let actions = actions_of(spec, JobState { last_scheduled: Some(baseline) }, now);
            let past = scheduler::earlier(actions.map_values(|a: Action| a.at()), now);
            caught_up(actions) == if !spec.catchup {
                0
            } else if spec.max_catchup < past {
                spec.max_catchup as nat
            } else {
                past
            }
        }),
{
    let actions = actions_of(spec, JobState { last_scheduled: Some(baseline) }, now);
    let missed = scheduler::missed_of(spec, baseline, now);
    let run = scheduler::run_of(spec, baseline, now);
    let m = missed.map_values(|t: DateTime| Action::Missed(t));
    let r = run.map_values(
        |t: DateTime| Action::Run { at: t, catchup: t.before(now.minute_start()) },
    );
    assert(actions =~= m + r);
    assert(actions.map_values(|a: Action| a.at()) =~= missed + run);
    Seq::filter_distributes_over_add(
        m,
        r,
        |a: Action| a matches Action::Run { catchup, .. } && catchup,
    );
    lemma_none_caught_up(missed);
    lemma_caught_up(run, now);
    scheduler::catchup_is_exact(spec, baseline, now);
}

/// After a pass the last accounted occurrence of a job is the last one that the
/// pass looked at, and the one before where there was none; a job that was never
/// looked at starts with the current minute.
pub proof fn a_pass_remembers_its_last_occurrence(
    spec: JobSpec,
    baseline: DateTime,
    now: DateTime,
)
    ensures
        ({
            let actions = actions_of(spec, JobState { last_scheduled: Some(baseline) }, now);
            state_after(spec, JobState { last_scheduled: Some(baseline) }, now).last_scheduled
                == Some(if actions.len() > 0 {
                actions.last().at()
            } else {
                baseline
            })
        }),
        state_after(spec, JobState { last_scheduled: None }, now).last_scheduled == Some(
            DateTime { second: 0, nanosecond: 0, ..now },
        ),
{
    let missed = scheduler::missed_of(spec, baseline, now);
    let run = scheduler::run_of(spec, baseline, now);
    let actions = actions_of(spec, JobState { last_scheduled: Some(baseline) }, now);
    scheduler::plan_accounts_for_all(spec, baseline, now);
    actions_follow_the_plan(spec, baseline, now);
    let all = missed + run;
    if actions.len() > 0 {
        let k = actions.len() - 1;
        assert(actions.last() == actions[k]);
        assert(all[k] == actions[k].at());
    }
}

/// A pass leaves jobs that run at startup, and names that are no job's, alone.
pub proof fn a_pass_leaves_startup_jobs_alone(
    jobs: Seq<JobSpec>,
    states: Map<Seq<char>, JobState>,
    now: DateTime,
    name: Seq<char>,
)
    requires
        jobs.len() <= usize::MAX,
        forall|i: int|
            0 <= i < jobs.len() && (#[trigger] jobs[i]).name@ == name ==> jobs[i].schedule@.reboot,
    ensures
        ({
            let p = pass_of(jobs, states, now);
            &&& p.states.dom().contains(name) <==> states.dom().contains(name)
            &&& states.dom().contains(name) ==> p.states[name] == states[name]
            &&& forall|k: int|
                0 <= k < p.todo.len() ==> (#[trigger] p.todo[k]).job < jobs.len()
                    && !jobs[p.todo[k].job as int].schedule@.reboot
        }),
    decreases jobs.len(),
{
    if jobs.len() > 0 {
        let rest = jobs.drop_last();
        assert forall|i: int|
            0 <= i < rest.len() && (#[trigger] rest[i]).name@ == name implies
            rest[i].schedule@.reboot by {
            assert(rest[i] == jobs[i]);
        }
        a_pass_leaves_startup_jobs_alone(rest, states, now, name);
        let before = pass_of(rest, states, now);
        let p = pass_of(jobs, states, now);
        let last = jobs[jobs.len() - 1];
        assert(jobs.last() == last);
        assert forall|k: int| 0 <= k < p.todo.len() implies (#[trigger] p.todo[k]).job < jobs.len()
            && !jobs[p.todo[k].job as int].schedule@.reboot by {
            if k < before.todo.len() {
                assert(p.todo[k] == before.todo[k]);
                assert(rest[before.todo[k].job as int] == jobs[before.todo[k].job as int]);
            }
        }
    }
}

/// A pass asks for the states to be saved exactly where it changed one.
pub proof fn changes_are_noticed(
    jobs: Seq<JobSpec>,
    states: Map<Seq<char>, JobState>,
    now: DateTime,
)
    requires
        jobs.len() <= usize::MAX,
        names_differ(jobs),
    ensures
        ({
            let p = pass_of(jobs, states, now);
            p.dirty <==> exists|i: int|
                0 <= i < jobs.len() && state_in(p.states, (#[trigger] jobs[i]).name@)
                    != state_in(states, jobs[i].name@)
        }),
    decreases jobs.len(),
{
    let p = pass_of(jobs, states, now);
    if jobs.len() > 0 {
        let rest = jobs.drop_last();
        let n = jobs.len() - 1;
        let last = jobs[n];
        let before = pass_of(rest, states, now);
        assert(names_differ(rest)) by {
            assert forall|i: int, j: int| 0 <= i < j < rest.len() implies (
            #[trigger] rest[i]).name@ != (#[trigger] rest[j]).name@ by {
                assert(rest[i] == jobs[i] && rest[j] == jobs[j]);
            }
        }
        changes_are_noticed(rest, states, now);
        assert forall|i: int| 0 <= i < rest.len() && (#[trigger] rest[i]).name@
            == last.name@ implies rest[i].schedule@.reboot by {
            assert(rest[i] == jobs[i]);
        }
        a_pass_leaves_startup_jobs_alone(rest, states, now, last.name@);
        assert(state_in(before.states, last.name@) == state_in(states, last.name@));
        assert forall|i: int| 0 <= i < n implies state_in(p.states, (#[trigger] jobs[i]).name@)
            == state_in(before.states, rest[i].name@) by {
            assert(rest[i] == jobs[i]);
            assert(jobs[i].name@ != jobs[n].name@);
        }
        if before.dirty {
            let i = choose|i: int|
                0 <= i < rest.len() && state_in(before.states, (#[trigger] rest[i]).name@)
                    != state_in(states, rest[i].name@);
            assert(rest[i] == jobs[i]);
            assert(state_in(p.states, jobs[i].name@) != state_in(states, jobs[i].name@));
        }
        if exists|i: int|
            0 <= i < jobs.len() && state_in(p.states, (#[trigger] jobs[i]).name@) != state_in(
                states,
                jobs[i].name@,
            ) {
            let i = choose|i: int|
                0 <= i < jobs.len() && state_in(p.states, (#[trigger] jobs[i]).name@) != state_in(
                    states,
                    jobs[i].name@,
                );
            if i < n {
                assert(rest[i] == jobs[i]);
                assert(state_in(before.states, rest[i].name@) != state_in(states, rest[i].name@));
            }
        }
        if p.dirty && !before.dirty {
            assert(state_in(p.states, jobs[n].name@) != state_in(states, jobs[n].name@));
        }
    }
}

/// The jobs that run at startup are those with `@reboot`, each once and in the
/// order of the crontab.
pub proof fn startup_runs_every_reboot_job(jobs: Seq<JobSpec>, i: int)
    requires
        jobs.len() <= usize::MAX,
        0 <= i < jobs.len(),
    ensures
        reboot_jobs(jobs).contains(i as usize) <==> jobs[i].schedule@.reboot,
        forall|k: int| 0 <= k < reboot_jobs(jobs).len() ==> #[trigger] reboot_jobs(jobs)[k]
            < jobs.len(),
        forall|k: int, l: int|
            0 <= k < l < reboot_jobs(jobs).len() ==> #[trigger] reboot_jobs(jobs)[k]
                < #[trigger] reboot_jobs(jobs)[l],
    decreases jobs.len(),
{
    let n = jobs.len() - 1;
    let rest = jobs.drop_last();
    let before = reboot_jobs(rest);
    let all = reboot_jobs(jobs);
    assert(jobs.last() == jobs[n]);
    if n > 0 {
        startup_runs_every_reboot_job(
            rest,
            if i < n {
                i
            } else {
                0
            },
        );
    } else {
        assert(before.len() == 0);
    }
    if jobs[n].schedule@.reboot {
        assert(all == before.push(n as usize));
        assert(all[before.len() as int] == n as usize);
        if i < n && before.contains(i as usize) {
            let k = choose|k: int| 0 <= k < before.len() && before[k] == i as usize;
            assert(all[k] == i as usize);
        }
        if i < n && all.contains(i as usize) {
            let k = choose|k: int| 0 <= k < all.len() && all[k] == i as usize;
            assert(k < before.len());
            assert(before[k] == i as usize);
        }
    }
    if i < n {
        assert(rest[i] == jobs[i]);
    }
}

/// The header of a run: when it started and what it was scheduled for, how it
/// ended, its exit code and its duration, and that it was a catch-up where it was.
pub proof fn headers_tell_the_run(
    r: history::RecordView,
    started: Seq<char>,
    ms: u64,
    is_catchup: bool,
)
    ensures
        ({
            let told = history::RecordView {
                started: Some(started),
                duration_ms: Some(ms),
                ..r
            };
            let untold = history::RecordView { started: None, duration_ms: None, ..r };
            &&& header_of(r, true) == header_of(r, false) + " catchup=true"@
            &&& header_of(told, false) == started + " scheduled="@ + r.scheduled + " status="@
                + r.status.text() + " exit="@ + history::exit_text_of(r.exit_code) + " duration="@
                + text::decimal(ms as nat) + "ms"@
            &&& header_of(untold, is_catchup) == header_of(
                history::RecordView { started: Some(seq![]), duration_ms: Some(0), ..r },
                is_catchup,
            )
        }),
{
    let told = history::RecordView { started: Some(started), duration_ms: Some(ms), ..r };
    assert(header_of(r, false) =~= header_of(r, false) + Seq::<char>::empty());
    assert(header_of(r, true) =~= header_of(r, false) + " catchup=true"@);
    assert(header_of(told, false) =~= started + " scheduled="@ + r.scheduled + " status="@
        + r.status.text() + " exit="@ + history::exit_text_of(r.exit_code) + " duration="@
        + text::decimal(ms as nat) + "ms"@);
}

/// There is a warning about a job exactly where it names a user and the current
/// one is known and another; the warnings of more jobs are those of each in turn.
pub proof fn other_users_are_warned_about(
    a: Seq<JobSpec>,
    b: Seq<JobSpec>,
    job: JobSpec,
    current: Seq<char>,
)
    ensures
        user_warnings_of(a + b, current) == user_warnings_of(a, current) + user_warnings_of(
            b,
            current,
        ),
        user_warnings_of(seq![job], current) == (match job.user {
            None => seq![],
            Some(u) => if current.len() == 0 || u@ == current {
                seq![]
            } else {
                seq![
                    "warning: job "@ + job.name@ + " declares user '"@ + u@
                        + "' but chrond runs every job as '"@ + current
                        + "' (the user column is parsed for /etc/crontab compatibility only)"@,
                ]
            },
        }),
    decreases b.len(),
{
    let one = seq![job];
    assert(one.drop_last() =~= seq![]);
    assert(one.last() == job);
    assert(user_warnings_of(one.drop_last(), current) =~= seq![]);
    assert(user_warnings_of(one, current) =~= match job.user {
        None => seq![],
        Some(u) => if current.len() == 0 || u@ == current {
            seq![]
        } else {
            seq![user_warning(job.name@, u@, current)]
        },
    });
    if b.len() == 0 {
        assert(a + b =~= a);
        assert(user_warnings_of(a, current) + user_warnings_of(b, current) =~= user_warnings_of(
            a,
            current,
        ));
    } else {
        other_users_are_warned_about(a, b.drop_last(), job, current);
        assert((a + b).drop_last() =~= a + b.drop_last());
        assert((a + b).last() == b.last());
        assert(user_warnings_of(a + b, current) =~= user_warnings_of(a, current)
            + user_warnings_of(b, current));
    }
}

} // verus!
