//! Structured run history and persisted daemon state.
//!
//! Every schedule occurrence produces exactly one record — including the
//! ones that never ran (`missed`, `skipped_overlap`). This is what makes
//! "did last night's backup run?" answerable with one command.

use crate::crontab;
use crate::scheduler::{JobState, States};
use crate::text;
use crate::time;
use crate::time::DateTime;
use vstd::prelude::*;
use vstd::string::*;

pub use crate::time::format_time;
pub use crate::time::TIME_FMT;

verus! {

/// Outcome of a schedule occurrence.
#[derive(Debug, Clone, Copy, PartialEq, Eq, Structural)]
pub enum RunStatus {
    /// Command exited 0.
    Succeeded,
    /// Command exited non-zero.
    Failed,
    /// Command was killed after exceeding its timeout.
    Timeout,
    /// Occurrence passed while the daemon was down and was not caught up.
    Missed,
    /// Occurrence skipped because the previous run was still going
    /// (overlap=skip).
    SkippedOverlap,
    /// Command could not be spawned at all.
    SpawnError,
}

impl RunStatus {
    /// The name of the status in the history and in metrics.
    pub open spec fn text(self) -> Seq<char> {
        match self {
            RunStatus::Succeeded => "ok"@,
            RunStatus::Failed => "failed"@,
            RunStatus::Timeout => "timeout"@,
            RunStatus::Missed => "missed"@,
            RunStatus::SkippedOverlap => "skipped_overlap"@,
            RunStatus::SpawnError => "spawn_error"@,
        }
    }

    /// Whether the job was run, or was to be run, and did not succeed.
    pub open spec fn failure(self) -> bool {
        self == RunStatus::Failed || self == RunStatus::Timeout || self == RunStatus::SpawnError
    }

    /// The name of the status in the history and in metrics.
    pub fn as_str(&self) -> (r: &'static str)
        ensures
            r@ == self.text(),
    {
        match self {
            RunStatus::Succeeded => "ok",
            RunStatus::Failed => "failed",
            RunStatus::Timeout => "timeout",
            RunStatus::Missed => "missed",
            RunStatus::SkippedOverlap => "skipped_overlap",
            RunStatus::SpawnError => "spawn_error",
        }
    }

    /// Whether this counts as a failure.
    pub fn is_failure(&self) -> (r: bool)
        ensures
            r == self.failure(),
    {
        matches!(self, RunStatus::Failed | RunStatus::Timeout | RunStatus::SpawnError)
    }
}

/// One structured record per schedule occurrence.
#[derive(Debug, Clone)]
pub struct RunRecord {
    pub job: String,
    /// The schedule occurrence this record accounts for (local time).
    pub scheduled: String,
    pub status: RunStatus,
    /// True when this execution was a catch-up of a missed occurrence.
    pub catchup: bool,
    pub started: Option<String>,
    pub finished: Option<String>,
    pub duration_ms: Option<u64>,
    pub exit_code: Option<i32>,
    /// Last bytes of combined stdout/stderr (capped).
    pub output_tail: String,
}

/// What a record says.
pub struct RecordView {
    pub job: Seq<char>,
    pub scheduled: Seq<char>,
    pub status: RunStatus,
    pub catchup: bool,
    pub started: Option<Seq<char>>,
    pub finished: Option<Seq<char>>,
    pub duration_ms: Option<u64>,
    pub exit_code: Option<i32>,
    pub output_tail: Seq<char>,
}

impl View for RunRecord {
    type V = RecordView;

    open spec fn view(&self) -> RecordView {
        RecordView {
            job: self.job@,
            scheduled: self.scheduled@,
            status: self.status,
            catchup: self.catchup,
            started: crontab::opt_text(self.started),
            finished: crontab::opt_text(self.finished),
            duration_ms: self.duration_ms,
            exit_code: self.exit_code,
            output_tail: self.output_tail@,
        }
    }
}

/// The record of an occurrence that was not run.
pub open spec fn unrun_record(
    job: Seq<char>,
    scheduled: DateTime,
    status: RunStatus,
    catchup: bool,
) -> RecordView {
    RecordView {
        job,
        scheduled: time::time_text(scheduled),
        status,
        catchup,
        started: None,
        finished: None,
        duration_ms: None,
        exit_code: None,
        output_tail: seq![],
    }
}

/// The record of an occurrence that was not run.
pub fn record_unrun(job: &String, scheduled: DateTime, status: RunStatus, catchup: bool) -> (r:
    RunRecord)
    requires
        scheduled.valid(),
    ensures
        r@ == unrun_record(job@, scheduled, status, catchup),
{
    RunRecord {
        job: job.clone(),
        scheduled: time::format_time(scheduled),
        status,
        catchup,
        started: None,
        finished: None,
        duration_ms: None,
        exit_code: None,
        output_tail: String::new(),
    }
}

/// An exit code as shown to the user; `-` where there is none.
pub open spec fn exit_text_of(code: Option<i32>) -> Seq<char> {
    match code {
        Some(c) => text::signed_decimal(c as int),
        None => "-"@,
    }
}

/// An exit code as shown to the user; `-` where there is none.
pub fn exit_text(code: Option<i32>) -> (r: String)
    ensures
        r@ == exit_text_of(code),
{
    match code {
        Some(c) => {
            let mut out = String::new();
            text::push_signed(&mut out, c as i64);
            assert(out@ =~= text::signed_decimal(c as int));
            out
        },
        None => "-".to_owned(),
    }
}

// ---------------------------------------------------------------------------
// Queries
// ---------------------------------------------------------------------------

/// The text of an optional string slice.
pub open spec fn opt_str(s: Option<&str>) -> Option<Seq<char>> {
    match s {
        Some(x) => Some(x@),
        None => None,
    }
}

/// The records that the lines of the history hold.
pub open spec fn held(lines: Seq<Option<RunRecord>>) -> Seq<RunRecord>
    decreases lines.len(),
{
    if lines.len() == 0 {
        seq![]
    } else {
        match lines.last() {
            Some(r) => held(lines.drop_last()).push(r),
            None => held(lines.drop_last()),
        }
    }
}

/// Whether a query asks for the record `r`, whose `scheduled` text denotes the
/// time `scheduled`: the query may name one job, ask for records scheduled at
/// `since` or later, and for failures only.
pub open spec fn wanted(
    r: RunRecord,
    scheduled: Option<DateTime>,
    job: Option<Seq<char>>,
    since: Option<DateTime>,
    failed_only: bool,
) -> bool {
    &&& job is Some ==> r.job@ == job->0
    &&& since is Some ==> (scheduled is Some && !scheduled->0.before(since->0))
    &&& failed_only ==> r.status.failure()
}

/// The predicate "the query asks for the record".
pub open spec fn wanted_by(
    job: Option<Seq<char>>,
    since: Option<DateTime>,
    failed_only: bool,
) -> spec_fn(RunRecord) -> bool {
    |r: RunRecord|
        wanted(r, time::parsed_time(r.scheduled@, TIME_FMT@), job, since, failed_only)
}

/// The last `limit` of the records, or all of them.
pub open spec fn newest(records: Seq<RunRecord>, limit: Option<usize>) -> Seq<RunRecord> {
    match limit {
        Some(n) => if records.len() > n {
            records.skip(records.len() - n)
        } else {
            records
        },
        None => records,
    }
}

/// Whether a query asks for the record `r`, whose `scheduled` text denotes the
/// time `scheduled`.
pub fn is_wanted(
    r: &RunRecord,
    scheduled: Option<DateTime>,
    job: Option<&str>,
    since: Option<DateTime>,
    failed_only: bool,
) -> (b: bool)
    ensures
        b == wanted(*r, scheduled, opt_str(job), since, failed_only),
{
    let job_ok = match job {
        Some(j) => text::str_eq(r.job.as_str(), j),
        None => true,
    };
    let since_ok = match since {
        Some(s) => match scheduled {
            Some(t) => !t.is_before(&s),
            None => false,
        },
        None => true,
    };
    job_ok && since_ok && (!failed_only || r.status.is_failure())
}

/// Append-only JSONL history plus the state file, rooted in a state dir.
pub struct Store {
    dir: String,
}

impl View for Store {
    type V = Seq<char>;

    closed spec fn view(&self) -> Seq<char> {
        self.dir@
    }
}

impl Store {
    /// The store rooted in the directory `dir`.
    pub fn new(dir: &str) -> (r: Store)
        ensures
            r@ == dir@,
    {
        Store { dir: dir.to_owned() }
    }

    /// The state directory.
    pub fn dir(&self) -> (r: &str)
        ensures
            r@ == self@,
    {
        self.dir.as_str()
    }

    /// The history file.
    pub fn history_path(&self) -> (r: String)
        ensures
            r@ == text::joined(self@, "history.jsonl"@),
    {
        text::join_path(self.dir.as_str(), "history.jsonl")
    }

    /// The state file.
    pub fn state_path(&self) -> (r: String)
        ensures
            r@ == text::joined(self@, "state.json"@),
    {
        text::join_path(self.dir.as_str(), "state.json")
    }

    /// The file that a new state is written to before it replaces the old one.
    pub fn state_tmp_path(&self) -> (r: String)
        ensures
            r@ == text::joined(self@, "state.json.tmp"@),
    {
        text::join_path(self.dir.as_str(), "state.json.tmp")
    }

    /// The directory of the job logs.
    pub fn logs_dir(&self) -> (r: String)
        ensures
            r@ == text::joined(self@, "logs"@),
    {
        text::join_path(self.dir.as_str(), "logs")
    }

    /// The records of the history, oldest first, from what each of its lines
    /// holds. Lines that hold no record are skipped.
    pub fn read_all(lines: Vec<Option<RunRecord>>) -> (r: Vec<RunRecord>)
        ensures
            r@ == held(lines@),
    {
        let mut out: Vec<RunRecord> = Vec::new();
        let ghost all = lines@;
        for line in it: lines
            invariant
                it.seq() == all,
                out@ == held(all.take(it.index())),
        {
            assert(all.take(it.index() + 1).drop_last() =~= all.take(it.index()));
            assert(all.take(it.index() + 1).last() == line);
            if let Some(r) = line {
                out.push(r);
            }
        }
        assert(all.take(all.len() as int) =~= all);
        out
    }

    /// Query records with optional filters. Returns newest-last, capped to
    /// the newest `limit` when given.
    pub fn query(
        records: Vec<RunRecord>,
        job: Option<&str>,
        since: Option<DateTime>,
        failed_only: bool,
        limit: Option<usize>,
    ) -> (r: Vec<RunRecord>)
        ensures
            r@ == newest(
                records@.filter(wanted_by(opt_str(job), since, failed_only)),
                limit,
            ),
    {
        let mut kept: Vec<RunRecord> = Vec::new();
        let ghost p = wanted_by(opt_str(job), since, failed_only);
        let ghost all = records@;
        assert(all.take(0).filter(p) =~= seq![]) by {
            reveal(Seq::filter);
        }
        for r in it: records
            invariant
                it.seq() == all,
                p == wanted_by(opt_str(job), since, failed_only),
                kept@ == all.take(it.index()).filter(p),
        {
            let scheduled = time::parse_time(r.scheduled.as_str());
            let keep = is_wanted(&r, scheduled, job, since, failed_only);
            proof {
                let i = it.index();
                assert(all.take(i + 1).drop_last() =~= all.take(i));
                assert(all.take(i + 1).last() == r);
                reveal(Seq::filter);
            }
            if keep {
                kept.push(r);
            }
        }
        assert(all.take(all.len() as int) =~= all);
        match limit {
            Some(n) => {
                if kept.len() > n {
                    let at = kept.len() - n;
                    return kept.split_off(at);
                }
                kept
            },
            None => kept,
        }
    }
}

// ---------------------------------------------------------------------------
// Persisted state
// ---------------------------------------------------------------------------

/// What the state file holds of a job's state.
pub open spec fn state_text(s: JobState) -> Option<Seq<char>> {
    match s.last_scheduled {
        Some(t) => Some(time::time_text(t)),
        None => None,
    }
}

/// A state without fractions of seconds, which the state file does not hold.
pub open spec fn whole_seconds(s: JobState) -> JobState {
    match s.last_scheduled {
        Some(t) => JobState { last_scheduled: Some(time::whole_second(t)) },
        None => s,
    }
}

/// What the state file holds of a job's state.
pub fn save_state(s: &JobState) -> (r: Option<String>)
    requires
        s.valid(),
    ensures
        crontab::opt_text(r) == state_text(*s),
{
    match s.last_scheduled {
        Some(t) => Some(time::format_time(t)),
        None => None,
    }
}

/// The state that an entry of the state file denotes. A time that cannot be
/// read counts as none. What saving wrote is read back.
pub fn load_state(entry: Option<&str>) -> (r: JobState)
    ensures
        r.last_scheduled == match entry {
            Some(s) => time::parsed_time(s@, TIME_FMT@),
            None => None,
        },
        r.valid(),
        forall|s: JobState|
            s.valid() && opt_str(entry) == #[trigger] state_text(s) ==> r == whole_seconds(s),
{
    let last_scheduled = match entry {
        Some(s) => time::parse_time(s),
        None => None,
    };
    JobState { last_scheduled }
}

/// An entry of the state file: a job's name and its last accounted time.
pub open spec fn entry_view(e: (String, Option<String>)) -> (Seq<char>, Option<Seq<char>>) {
    (e.0@, crontab::opt_text(e.1))
}

/// The state that an entry of the state file denotes.
pub open spec fn entry_state(entry: Option<Seq<char>>) -> JobState {
    JobState {
        last_scheduled: match entry {
            Some(s) => time::parsed_time(s, TIME_FMT@),
            None => None,
        },
    }
}

/// The states that the entries of the state file denote; of two entries for
/// one job the later one counts.
pub open spec fn entry_states(entries: Seq<(String, Option<String>)>) -> Map<Seq<char>, JobState>
    decreases entries.len(),
{
    if entries.len() == 0 {
        Map::empty()
    } else {
        let e = entry_view(entries.last());
        entry_states(entries.drop_last()).insert(e.0, entry_state(e.1))
    }
}

/// Whether the entries write down the states `m`, which are valid: one entry for
/// each job.
pub open spec fn written(m: Map<Seq<char>, JobState>, entries: Seq<(String, Option<String>)>) -> bool {
    &&& forall|k: Seq<char>| #[trigger] m.dom().contains(k) ==> m[k].valid()
    &&& forall|i: int|
        0 <= i < entries.len() ==> {
            let e = #[trigger] entry_view(entries[i]);
            m.dom().contains(e.0) && e.1 == state_text(m[e.0])
        }
    &&& forall|k: Seq<char>| #[trigger]
        m.dom().contains(k) ==> exists|i: int|
            0 <= i < entries.len() && (#[trigger] entry_view(entries[i])).0 == k
    &&& forall|i: int, j: int|
        0 <= i < j < entries.len() ==> (#[trigger] entry_view(entries[i])).0 != (
        #[trigger] entry_view(entries[j])).0
}

proof fn lemma_entry_states(entries: Seq<(String, Option<String>)>, m: Map<Seq<char>, JobState>)
    requires
        forall|i: int|
            0 <= i < entries.len() ==> {
                let e = #[trigger] entry_view(entries[i]);
                m.dom().contains(e.0) && entry_state(e.1) == m[e.0]
            },
    ensures
        forall|k: Seq<char>| #[trigger]
            entry_states(entries).dom().contains(k) <==> exists|i: int|
                0 <= i < entries.len() && (#[trigger] entry_view(entries[i])).0 == k,
        forall|k: Seq<char>| #[trigger]
            entry_states(entries).dom().contains(k) ==> entry_states(entries)[k] == m[k],
    decreases entries.len(),
{
    if entries.len() > 0 {
        let rest = entries.drop_last();
        let n = rest.len();
        assert forall|i: int| 0 <= i < rest.len() implies {
            let e = #[trigger] entry_view(rest[i]);
            m.dom().contains(e.0) && entry_state(e.1) == m[e.0]
        } by {
            let e = entry_view(entries[i]);
        }
        lemma_entry_states(rest, m);
        let last = entry_view(entries[n as int]);
        assert forall|k: Seq<char>|
            #[trigger] entry_states(entries).dom().contains(k) <==> exists|i: int|
                0 <= i < entries.len() && (#[trigger] entry_view(entries[i])).0 == k by {
            if entry_states(rest).dom().contains(k) {
                let i = choose|i: int| 0 <= i < rest.len() && (#[trigger] entry_view(rest[i])).0
                    == k;
                assert(entry_view(entries[i]).0 == k);
            }
            if exists|i: int|
                0 <= i < entries.len() && (#[trigger] entry_view(entries[i])).0 == k {
                let i = choose|i: int|
                    0 <= i < entries.len() && (#[trigger] entry_view(entries[i])).0 == k;
                if i < n {
                    assert(entry_view(rest[i]).0 == k);
                }
            }
        }
        assert forall|k: Seq<char>| #[trigger]
            entry_states(entries).dom().contains(k) implies entry_states(entries)[k] == m[k] by {
            if k != last.0 {
                assert(entry_states(rest).dom().contains(k));
            }
        }
    }
}

impl Store {
    /// The entries of the state file for the states.
    pub fn save_states(states: &States) -> (r: Vec<(String, Option<String>)>)
        requires
            states.wf(),
        ensures
            written(states@, r@),
    {
        let mut out: Vec<(String, Option<String>)> = Vec::new();
        let n = states.len();
        let mut i: usize = 0;
        while i < n
            invariant
                states.wf(),
                n == states.size(),
                i <= n,
                out@.len() == i,
                forall|j: int|
                    0 <= j < i ==> {
                        let e = #[trigger] entry_view(out@[j]);
                        &&& e.0 == states.name_at(j)
                        &&& states@.dom().contains(e.0)
                        &&& e.1 == state_text(states@[e.0])
                    },
            decreases n - i,
        {
            let (name, state) = states.entry(i);
            let entry = (name.to_owned(), save_state(&state));
            let ghost before = out@;
            out.push(entry);
            assert forall|j: int| 0 <= j < i + 1 implies {
                let e = #[trigger] entry_view(out@[j]);
                &&& e.0 == states.name_at(j)
                &&& states@.dom().contains(e.0)
                &&& e.1 == state_text(states@[e.0])
            } by {
                if j < i {
                    assert(out@[j] == before[j]);
                    let e = entry_view(before[j]);
                }
            }
            i = i + 1;
        }
        proof {
            states.lemma_places();
            assert forall|k: Seq<char>| #[trigger] states@.dom().contains(k) implies exists|j: int|
                0 <= j < out@.len() && (#[trigger] entry_view(out@[j])).0 == k by {
                let j = choose|j: int| 0 <= j < states.size() && states.name_at(j) == k;
                assert(entry_view(out@[j]).0 == k);
            }
        }
        out
    }

    /// The states that the entries of the state file denote. What saving wrote is
    /// read back, up to fractions of seconds.
    pub fn load_states(entries: &Vec<(String, Option<String>)>) -> (r: States)
        ensures
            r.wf(),
            r@ == entry_states(entries@),
            forall|m: Map<Seq<char>, JobState>| #[trigger]
                written(m, entries@) ==> r@ == m.map_values(
                    |s: JobState| whole_seconds(s),
                ),
    {
        let mut out = States::new();
        let mut i: usize = 0;
        while i < entries.len()
            invariant
                i <= entries@.len(),
                out.wf(),
                out@ == entry_states(entries@.take(i as int)),
                forall|j: int, s: JobState|
                    0 <= j < i && s.valid() && (#[trigger] entry_view(entries@[j])).1
                        == #[trigger] state_text(s) ==> entry_state(entry_view(entries@[j]).1)
                        == whole_seconds(s),
            decreases entries@.len() - i,
        {
            let e = &entries[i];
            let text: Option<&str> = match &e.1 {
                Some(s) => Some(s.as_str()),
                None => None,
            };
            let state = load_state(text);
            assert(opt_str(text) == entry_view(entries@[i as int]).1);
            assert(state == entry_state(opt_str(text)));
            out.set(e.0.as_str(), state);
            assert(entries@.take(i + 1).drop_last() =~= entries@.take(i as int));
            i = i + 1;
        }
        assert(entries@.take(entries@.len() as int) =~= entries@);
        proof {
            assert forall|m: Map<Seq<char>, JobState>| #[trigger]
                written(m, entries@) implies out@ == m.map_values(
                |s: JobState| whole_seconds(s),
            ) by {
                let w = m.map_values(|s: JobState| whole_seconds(s));
                assert forall|j: int| 0 <= j < entries@.len() implies {
                    let e = #[trigger] entry_view(entries@[j]);
                    w.dom().contains(e.0) && entry_state(e.1) == w[e.0]
                } by {
                    let e = entry_view(entries@[j]);
                    assert(m.dom().contains(e.0));
                    assert(e.1 == state_text(m[e.0]));
                }
                lemma_entry_states(entries@, w);
                assert(out@ =~= w);
            }
        }
        out
    }
}


// ---------------------------------------------------------------------------
// Laws
// ---------------------------------------------------------------------------

/// A query returns only records that it asks for, no more than its limit, and
/// of those that it asks for the newest; without a limit it returns all that it
/// asks for.
pub proof fn queries_return_the_newest_wanted(
    records: Seq<RunRecord>,
    job: Option<Seq<char>>,
    since: Option<DateTime>,
    failed_only: bool,
    limit: Option<usize>,
)
    ensures
        ({
            let p = wanted_by(job, since, failed_only);
            let all = records.filter(p);
            let r = newest(all, limit);
            &&& forall|i: int| 0 <= i < r.len() ==> p(#[trigger] r[i])
            &&& limit is Some ==> r.len() <= limit->0
            &&& exists|k: int| 0 <= k <= all.len() && r == #[trigger] all.skip(k)
            &&& limit is None ==> forall|i: int|
                0 <= i < records.len() && p(#[trigger] records[i]) ==> r.contains(records[i])
        }),
{
    broadcast use vstd::seq_lib::group_filter_ensures;

    let p = wanted_by(job, since, failed_only);
    let all = records.filter(p);
    let r = newest(all, limit);
    let k = all.len() - r.len();
    assert(all.skip(0) =~= all);
    assert(r == all.skip(k));
    assert forall|i: int| 0 <= i < r.len() implies p(#[trigger] r[i]) by {
        assert(r[i] == all[k + i]);
    }
}

/// A query without a job, a time and a wish for failures asks for every record.
pub proof fn empty_query_wants_everything(r: RunRecord)
    ensures
        wanted_by(None, None, false)(r),
{
}

/// The filters of a query are independent: a record is wanted exactly where each
/// filter, given alone, wants it.
pub proof fn filters_are_independent(
    r: RunRecord,
    job: Option<Seq<char>>,
    since: Option<DateTime>,
    failed_only: bool,
)
    ensures
        wanted_by(job, since, failed_only)(r) <==> wanted_by(job, None, false)(r) && wanted_by(
            None,
            since,
            false,
        )(r) && wanted_by(None, None, failed_only)(r),
{
}

/// What each filter wants: the records of the job; the records whose scheduled
/// time can be read and is not before the given one; the records of runs that
/// failed, were killed for their time or could not start. A filter that is not
/// given wants every record.
pub proof fn each_filter_is_exact(r: RunRecord, job: Seq<char>, since: DateTime)
    ensures
        wanted_by(Some(job), None, false)(r) <==> r.job@ == job,
        wanted_by(None, Some(since), false)(r) <==> (time::parsed_time(
            r.scheduled@,
            "%Y-%m-%dT%H:%M:%S"@,
        ) is Some && !time::parsed_time(r.scheduled@, "%Y-%m-%dT%H:%M:%S"@)->0.before(since)),
        wanted_by(None, None, true)(r) <==> (r.status == RunStatus::Failed || r.status
            == RunStatus::Timeout || r.status == RunStatus::SpawnError),
        wanted_by(None, None, false)(r),
{
}

proof fn lemma_filtered_was_there(
    records: Seq<RunRecord>,
    p: spec_fn(RunRecord) -> bool,
    i: int,
)
    requires
        0 <= i < records.filter(p).len(),
    ensures
        records.contains(records.filter(p)[i]),
    decreases records.len(),
{
    reveal(Seq::filter);
    let before = records.drop_last();
    if i < before.filter(p).len() {
        lemma_filtered_was_there(before, p, i);
        let j = choose|j: int| 0 <= j < before.len() && before[j] == before.filter(p)[i];
        assert(records[j] == records.filter(p)[i]);
    } else {
        assert(records[records.len() - 1] == records.filter(p)[i]);
    }
}

/// Every record that a query with a job returns is one of that job, every one
/// that a query for failures returns is a failure, and every one that a query
/// since a time returns is of that time or later, whatever else is asked for.
/// Without a limit a record is returned exactly where all this holds of it.
pub proof fn a_query_returns_what_was_asked_for(
    records: Seq<RunRecord>,
    job: Option<Seq<char>>,
    since: Option<DateTime>,
    failed_only: bool,
    limit: Option<usize>,
    r: RunRecord,
)
    ensures
        ({
            let all = newest(records.filter(wanted_by(job, since, failed_only)), limit);
            let at = time::parsed_time(r.scheduled@, "%Y-%m-%dT%H:%M:%S"@);
            let of_the_job = job is Some ==> r.job@ == job->0;
            let late_enough = since is Some ==> at is Some && !at->0.before(since->0);
            let a_failure = failed_only ==> r.status != RunStatus::Succeeded && r.status
                != RunStatus::Missed && r.status != RunStatus::SkippedOverlap;
            &&& all.contains(r) ==> records.contains(r)
            &&& all.contains(r) ==> of_the_job
            &&& all.contains(r) ==> late_enough
            &&& all.contains(r) ==> a_failure
            &&& limit is None ==> (all.contains(r) <==> records.contains(r) && of_the_job
                && late_enough && a_failure)
        }),
{
    broadcast use vstd::seq_lib::group_filter_ensures;

    let p = wanted_by(job, since, failed_only);
    let found = records.filter(p);
    let all = newest(found, limit);
    if all.contains(r) {
        let i = choose|i: int| 0 <= i < all.len() && all[i] == r;
        let k = found.len() - all.len();
        assert(found[k + i] == r);
        assert(p(found[k + i]));
        lemma_filtered_was_there(records, p, k + i);
    }
    if records.contains(r) && p(r) {
        let i = choose|i: int| 0 <= i < records.len() && records[i] == r;
        assert(found.contains(records[i]));
    }
}

/// A limit keeps as many records as it says, or all where there are fewer, and
/// those it keeps are the last ones.
pub proof fn limit_keeps_the_last(records: Seq<RunRecord>, limit: usize)
    ensures
        newest(records, Some(limit)).len() == (if limit < records.len() {
            limit as nat
        } else {
            records.len()
        }),
        newest(records, Some(limit)) == records.skip(
            records.len() - newest(records, Some(limit)).len(),
        ),
        newest(records, None) == records,
{
    assert(records.skip(0) =~= records);
}

/// Lines that hold no record say nothing, wherever they stand: what is held of
/// two groups of lines is what is held of the first and then of the second.
pub proof fn held_records_join(a: Seq<Option<RunRecord>>, b: Seq<Option<RunRecord>>, r: RunRecord)
    ensures
        held(a + b) == held(a) + held(b),
        held(seq![Some(r)]) == seq![r],
        held(seq![None::<RunRecord>]) == Seq::<RunRecord>::empty(),
        held(seq![]) == Seq::<RunRecord>::empty(),
    decreases b.len(),
{
    reveal_with_fuel(held, 2);
    assert(seq![Some(r)].drop_last() =~= seq![]);
    assert(held(seq![Some(r)]) =~= seq![r]);
    assert(seq![None::<RunRecord>].drop_last() =~= seq![]);
    if b.len() == 0 {
        assert(a + b =~= a);
        assert(held(a) + held(b) =~= held(a));
    } else {
        held_records_join(a, b.drop_last(), r);
        assert((a + b).drop_last() =~= a + b.drop_last());
        assert((a + b).last() == b.last());
        assert(held(a + b) =~= held(a) + held(b));
    }
}

/// A record of an occurrence that was not run tells its job, its time and why,
/// and nothing of a run.
pub proof fn unrun_record_tells_no_run(
    job: Seq<char>,
    scheduled: DateTime,
    status: RunStatus,
    catchup: bool,
)
    ensures
        ({
            let r = unrun_record(job, scheduled, status, catchup);
            &&& r.job == job
            &&& r.scheduled == time::time_text(scheduled)
            &&& r.status == status
            &&& r.catchup == catchup
            &&& r.started is None && r.finished is None && r.duration_ms is None
            &&& r.exit_code is None
            &&& r.output_tail.len() == 0
        }),
{
}

/// Exit codes read back: the text of a code is its decimal digits, after `-`
/// where it is negative, and `-` alone where there is none.
pub proof fn exit_codes_read_back(code: i32)
    ensures
        code >= 0 ==> text::unsigned_of(exit_text_of(Some(code)), i32::MAX as nat) == Some(
            code as nat,
        ),
        code < 0 ==> exit_text_of(Some(code)).len() > 1 && exit_text_of(Some(code))[0] == '-'
            && text::unsigned_of(exit_text_of(Some(code)).skip(1), 0x8000_0000) == Some(
            (-code) as nat,
        ),
        exit_text_of(None) == "-"@,
{
    if code >= 0 {
        text::numbers_read_back(code as nat, i32::MAX as nat);
    } else {
        let n = (-code) as nat;
        text::numbers_read_back(n, 0x8000_0000);
        text::numbers_lack_other_characters(n, '-');
        assert(exit_text_of(Some(code)).skip(1) =~= text::decimal(n));
    }
}

/// Of two entries for a job the later one counts, and an entry says nothing of
/// other jobs.
pub proof fn the_later_entry_counts(
    entries: Seq<(String, Option<String>)>,
    e: (String, Option<String>),
    other: Seq<char>,
)
    ensures
        ({
            let before = entry_states(entries);
            let after = entry_states(entries.push(e));
            &&& after.dom().contains(e.0@)
            &&& after[e.0@].last_scheduled == (match e.1 {
                Some(s) => time::parsed_time(s@, "%Y-%m-%dT%H:%M:%S"@),
                None => None,
            })
            &&& other != e.0@ ==> (after.dom().contains(other) <==> before.dom().contains(other))
            &&& other != e.0@ && before.dom().contains(other) ==> after[other] == before[other]
        }),
{
    assert(entries.push(e).drop_last() =~= entries);
}

/// A state that is written and read again tells the same second.
pub proof fn a_state_keeps_its_second(s: JobState)
    requires
        s.valid(),
    ensures
        whole_seconds(s).valid(),
        whole_seconds(s).last_scheduled is Some <==> s.last_scheduled is Some,
        s.last_scheduled is Some ==> whole_seconds(s).last_scheduled->0.seconds()
            == s.last_scheduled->0.seconds(),
        s.last_scheduled is Some && s.last_scheduled->0.nanosecond == 0 ==> whole_seconds(s) == s,
        state_text(s) is Some <==> s.last_scheduled is Some,
{
}

/// The names of the statuses, and which of them are failures.
pub proof fn statuses_have_their_names(s: RunStatus)
    ensures
        RunStatus::Succeeded.text() == "ok"@,
        RunStatus::Failed.text() == "failed"@,
        RunStatus::Timeout.text() == "timeout"@,
        RunStatus::Missed.text() == "missed"@,
        RunStatus::SkippedOverlap.text() == "skipped_overlap"@,
        RunStatus::SpawnError.text() == "spawn_error"@,
        s.failure() <==> s != RunStatus::Succeeded && s != RunStatus::Missed && s
            != RunStatus::SkippedOverlap,
{
}

} // verus!
