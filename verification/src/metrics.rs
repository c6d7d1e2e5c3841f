//! Prometheus metrics: a registry of what became of each job's occurrences,
//! its text form (text format 0.0.4), and the responses of the endpoint that
//! serves it.

use crate::history::RunStatus;
use crate::text;
use vstd::prelude::*;
use vstd::string::*;

verus! {

/// What is counted and kept for one job.
#[derive(Debug, Clone, Copy)]
pub struct JobMetrics {
    pub failed: u64,
    pub missed: u64,
    pub succeeded: u64,
    pub skipped_overlap: u64,
    pub spawn_error: u64,
    pub timeout: u64,
    /// Unix time of the last execution.
    pub last_run_epoch: Option<u64>,
    /// Duration of the last execution in milliseconds.
    pub last_duration_ms: Option<u64>,
    pub last_exit_code: Option<i32>,
}

/// Nothing counted yet.
pub open spec fn no_metrics() -> JobMetrics {
    JobMetrics {
        failed: 0,
        missed: 0,
        succeeded: 0,
        skipped_overlap: 0,
        spawn_error: 0,
        timeout: 0,
        last_run_epoch: None,
        last_duration_ms: None,
        last_exit_code: None,
    }
}

impl JobMetrics {
    /// The number of occurrences with the given status.
    pub open spec fn counted(self, status: RunStatus) -> u64 {
        match status {
            RunStatus::Succeeded => self.succeeded,
            RunStatus::Failed => self.failed,
            RunStatus::Timeout => self.timeout,
            RunStatus::Missed => self.missed,
            RunStatus::SkippedOverlap => self.skipped_overlap,
            RunStatus::SpawnError => self.spawn_error,
        }
    }

    /// One more occurrence with the given status.
    pub open spec fn plus_one(self, status: RunStatus) -> JobMetrics {
        match status {
            RunStatus::Succeeded => JobMetrics { succeeded: (self.succeeded + 1) as u64, ..self },
            RunStatus::Failed => JobMetrics { failed: (self.failed + 1) as u64, ..self },
            RunStatus::Timeout => JobMetrics { timeout: (self.timeout + 1) as u64, ..self },
            RunStatus::Missed => JobMetrics { missed: (self.missed + 1) as u64, ..self },
            RunStatus::SkippedOverlap => JobMetrics {
                skipped_overlap: (self.skipped_overlap + 1) as u64,
                ..self
            },
            RunStatus::SpawnError => JobMetrics {
                spawn_error: (self.spawn_error + 1) as u64,
                ..self
            },
        }
    }

    /// The metrics after an occurrence: it is counted and, where the job was
    /// executed, it is the last execution.
    pub open spec fn after(
        self,
        status: RunStatus,
        duration_ms: Option<u64>,
        exit_code: Option<i32>,
        now: Option<u64>,
    ) -> JobMetrics {
        let m = self.plus_one(status);
        if executed(status) {
            JobMetrics {
                last_run_epoch: now,
                last_duration_ms: duration_ms,
                last_exit_code: exit_code,
                ..m
            }
        } else {
            m
        }
    }

    fn new() -> (r: JobMetrics)
        ensures
            r == no_metrics(),
    {
        JobMetrics {
            failed: 0,
            missed: 0,
            succeeded: 0,
            skipped_overlap: 0,
            spawn_error: 0,
            timeout: 0,
            last_run_epoch: None,
            last_duration_ms: None,
            last_exit_code: None,
        }
    }

    /// The number of occurrences with the given status.
    pub fn count(&self, status: RunStatus) -> (r: u64)
        ensures
            r == self.counted(status),
    {
        match status {
            RunStatus::Succeeded => self.succeeded,
            RunStatus::Failed => self.failed,
            RunStatus::Timeout => self.timeout,
            RunStatus::Missed => self.missed,
            RunStatus::SkippedOverlap => self.skipped_overlap,
            RunStatus::SpawnError => self.spawn_error,
        }
    }

    fn updated(
        &self,
        status: RunStatus,
        duration_ms: Option<u64>,
        exit_code: Option<i32>,
        now: Option<u64>,
    ) -> (r: JobMetrics)
        requires
            self.counted(status) < u64::MAX,
        ensures
            r == self.after(status, duration_ms, exit_code, now),
    {
        let mut m = *self;
        match status {
            RunStatus::Succeeded => {
                m.succeeded = m.succeeded + 1;
            },
            RunStatus::Failed => {
                m.failed = m.failed + 1;
            },
            RunStatus::Timeout => {
                m.timeout = m.timeout + 1;
            },
            RunStatus::Missed => {
                m.missed = m.missed + 1;
            },
            RunStatus::SkippedOverlap => {
                m.skipped_overlap = m.skipped_overlap + 1;
            },
            RunStatus::SpawnError => {
                m.spawn_error = m.spawn_error + 1;
            },
        }
        if !matches!(status, RunStatus::Missed | RunStatus::SkippedOverlap) {
            m.last_run_epoch = now;
            m.last_duration_ms = duration_ms;
            m.last_exit_code = exit_code;
        }
        m
    }
}

/// Whether an occurrence with the given status was executed.
pub open spec fn executed(status: RunStatus) -> bool {
    status != RunStatus::Missed && status != RunStatus::SkippedOverlap
}

/// A job's name and its metrics.
pub struct Entry {
    pub job: Seq<char>,
    pub metrics: JobMetrics,
}

/// The metrics of a job among the entries.
pub open spec fn metrics_of(entries: Seq<Entry>, job: Seq<char>) -> JobMetrics
    decreases entries.len(),
{
    if entries.len() == 0 {
        no_metrics()
    } else if entries[0].job == job {
        entries[0].metrics
    } else {
        metrics_of(entries.skip(1), job)
    }
}

/// The entries with the metrics of a job replaced; a new job stands before the
/// first one that follows it in the order of names.
pub open spec fn with_metrics(entries: Seq<Entry>, job: Seq<char>, m: JobMetrics) -> Seq<Entry>
    decreases entries.len(),
{
    if entries.len() == 0 || text::precedes(job, entries[0].job) {
        seq![Entry { job, metrics: m }] + entries
    } else if entries[0].job == job {
        entries.update(0, Entry { job, metrics: m })
    } else {
        seq![entries[0]] + with_metrics(entries.skip(1), job, m)
    }
}

/// Whether the entries stand in the order of names, each name once.
pub open spec fn in_order(entries: Seq<Entry>) -> bool {
    forall|i: int, j: int|
        0 <= i < j < entries.len() ==> text::precedes(
            (#[trigger] entries[i]).job,
            (#[trigger] entries[j]).job,
        )
}

// ---------------------------------------------------------------------------
// Text format
// ---------------------------------------------------------------------------

/// The decimal text of `ms` thousandths, without trailing zeros.
pub open spec fn seconds_text(ms: nat) -> Seq<char> {
    let whole = text::decimal(ms / 1000);
    let rest = ms % 1000;
    let d1 = ('0' as u32 + rest / 100) as char;
    let d2 = ('0' as u32 + rest / 10 % 10) as char;
    let d3 = ('0' as u32 + rest % 10) as char;
    if rest == 0 {
        whole
    } else if rest % 100 == 0 {
        whole + seq!['.', d1]
    } else if rest % 10 == 0 {
        whole + seq!['.', d1, d2]
    } else {
        whole + seq!['.', d1, d2, d3]
    }
}

/// A line of the counter, where anything was counted.
pub open spec fn count_line(e: Entry, status: RunStatus) -> Seq<char> {
    if e.metrics.counted(status) == 0 {
        seq![]
    } else {
        "chrond_job_runs_total{job=\""@ + e.job + "\",status=\""@ + status.text() + "\"} "@
            + text::decimal(e.metrics.counted(status) as nat) + "\n"@
    }
}

/// The lines of the counter for one job, in the order of the statuses' names.
pub open spec fn count_lines(e: Entry) -> Seq<char> {
    count_line(e, RunStatus::Failed) + count_line(e, RunStatus::Missed) + count_line(
        e,
        RunStatus::Succeeded,
    ) + count_line(e, RunStatus::SkippedOverlap) + count_line(e, RunStatus::SpawnError)
        + count_line(e, RunStatus::Timeout)
}

/// A line of a gauge.
pub open spec fn gauge_line(name: Seq<char>, job: Seq<char>, value: Option<Seq<char>>) -> Seq<
    char,
> {
    match value {
        Some(v) => name + "{job=\""@ + job + "\"} "@ + v + "\n"@,
        None => seq![],
    }
}

/// The line of the time of the last execution.
pub open spec fn timestamp_line(e: Entry) -> Seq<char> {
    gauge_line(
        "chrond_job_last_run_timestamp_seconds"@,
        e.job,
        match e.metrics.last_run_epoch {
            Some(t) => Some(text::decimal(t as nat)),
            None => None,
        },
    )
}

/// The line of the duration of the last execution.
pub open spec fn duration_line(e: Entry) -> Seq<char> {
    gauge_line(
        "chrond_job_last_run_duration_seconds"@,
        e.job,
        match e.metrics.last_duration_ms {
            Some(ms) => Some(seconds_text(ms as nat)),
            None => None,
        },
    )
}

/// The line of the exit code of the last execution.
pub open spec fn exit_code_line(e: Entry) -> Seq<char> {
    gauge_line(
        "chrond_job_last_exit_code"@,
        e.job,
        match e.metrics.last_exit_code {
            Some(c) => Some(text::signed_decimal(c as int)),
            None => None,
        },
    )
}

/// One text for all entries.
pub open spec fn for_all(entries: Seq<Entry>, line: spec_fn(Entry) -> Seq<char>) -> Seq<char>
    decreases entries.len(),
{
    if entries.len() == 0 {
        seq![]
    } else {
        for_all(entries.drop_last(), line) + line(entries.last())
    }
}

/// The text form of the registry.
pub open spec fn exposition(entries: Seq<Entry>) -> Seq<char> {
    "# HELP chrond_job_runs_total Schedule occurrences accounted for, by job and status.\n"@
        + "# TYPE chrond_job_runs_total counter\n"@
        + for_all(entries, |e: Entry| count_lines(e))
        + "# HELP chrond_job_last_run_timestamp_seconds Unix time of the last execution per job.\n"@
        + "# TYPE chrond_job_last_run_timestamp_seconds gauge\n"@
        + for_all(entries, |e: Entry| timestamp_line(e))
        + "# HELP chrond_job_last_run_duration_seconds Duration of the last execution per job.\n"@
        + "# TYPE chrond_job_last_run_duration_seconds gauge\n"@
        + for_all(entries, |e: Entry| duration_line(e))
        + "# HELP chrond_job_last_exit_code Exit code of the last execution per job.\n"@
        + "# TYPE chrond_job_last_exit_code gauge\n"@
        + for_all(entries, |e: Entry| exit_code_line(e))
        + "chrond_jobs "@ + text::decimal(entries.len()) + "\n"@
}

/// Appends the decimal text of `ms` thousandths, without trailing zeros.
fn push_seconds(out: &mut String, ms: u64)
    ensures
        final(out)@ == old(out)@ + seconds_text(ms as nat),
{
    text::push_decimal(out, ms / 1000);
    let rest: u64 = ms % 1000;
    if rest != 0 {
        out.push('.');
        out.push((48 + (rest / 100) as u8) as char);
        if rest % 100 != 0 {
            out.push((48 + (rest / 10 % 10) as u8) as char);
            if rest % 10 != 0 {
                out.push((48 + (rest % 10) as u8) as char);
            }
        }
    }
    assert(out@ =~= old(out)@ + seconds_text(ms as nat));
}

/// A line of the counter, where anything was counted.
fn count_text(job: &str, m: &JobMetrics, status: RunStatus) -> (r: String)
    ensures
        r@ == count_line(Entry { job: job@, metrics: *m }, status),
{
    let n = m.count(status);
    if n == 0 {
        return String::new();
    }
    let mut out = "chrond_job_runs_total{job=\"".to_owned();
    out.append(job);
    out.append("\",status=\"");
    out.append(status.as_str());
    out.append("\"} ");
    text::push_decimal(&mut out, n);
    out.append("\n");
    out
}

/// The lines of the counter for one job.
fn counts_text(job: &str, m: &JobMetrics) -> (r: String)
    ensures
        r@ == count_lines(Entry { job: job@, metrics: *m }),
{
    let mut out = count_text(job, m, RunStatus::Failed);
    let missed = count_text(job, m, RunStatus::Missed);
    out.append(missed.as_str());
    let succeeded = count_text(job, m, RunStatus::Succeeded);
    out.append(succeeded.as_str());
    let skipped = count_text(job, m, RunStatus::SkippedOverlap);
    out.append(skipped.as_str());
    let unstarted = count_text(job, m, RunStatus::SpawnError);
    out.append(unstarted.as_str());
    let timed_out = count_text(job, m, RunStatus::Timeout);
    out.append(timed_out.as_str());
    out
}

/// A line of a gauge up to its value.
fn gauge_text(name: &str, job: &str) -> (r: String)
    ensures
        r@ == name@ + "{job=\""@ + job@ + "\"} "@,
{
    let mut out = name.to_owned();
    out.append("{job=\"");
    out.append(job);
    out.append("\"} ");
    out
}

/// `UNIX_EPOCH.elapsed()`: the seconds since the epoch by the system's clock;
/// none where the clock stands before it. Nothing is stated of the result.
#[verifier::external_body]
fn epoch_seconds() -> (r: Option<u64>) {
    std::time::UNIX_EPOCH.elapsed().ok().map(|d| d.as_secs())
}

// ---------------------------------------------------------------------------
// Registry
// ---------------------------------------------------------------------------

/// The metrics of all jobs that anything was recorded of, in the order of
/// their names.
pub struct Registry {
    names: Vec<String>,
    metrics: Vec<JobMetrics>,
}

impl View for Registry {
    type V = Seq<Entry>;

    closed spec fn view(&self) -> Seq<Entry> {
        Seq::new(
            self.names@.len(),
            |i: int| Entry { job: self.names@[i]@, metrics: self.metrics@[i] },
        )
    }
}

/// Where a job stands among entries in order, or would stand.
proof fn lemma_place(entries: Seq<Entry>, job: Seq<char>, m: JobMetrics, i: int)
    requires
        0 <= i <= entries.len(),
        forall|j: int| 0 <= j < i ==> text::precedes((#[trigger] entries[j]).job, job),
        i < entries.len() ==> entries[i].job == job || text::precedes(job, entries[i].job),
        in_order(entries),
    ensures
        i < entries.len() && entries[i].job == job ==> {
            &&& metrics_of(entries, job) == entries[i].metrics
            &&& with_metrics(entries, job, m) == entries.update(i, Entry { job, metrics: m })
        },
        !(i < entries.len() && entries[i].job == job) ==> {
            &&& metrics_of(entries, job) == no_metrics()
            &&& with_metrics(entries, job, m) == entries.insert(i, Entry { job, metrics: m })
        },
    decreases entries.len(),
{
    text::order_is_total(job, job);
    if entries.len() > 0 {
        text::order_is_total(entries[0].job, job);
        let rest = entries.skip(1);
        assert(in_order(rest)) by {
            assert forall|a: int, b: int| 0 <= a < b < rest.len() implies text::precedes(
                (#[trigger] rest[a]).job,
                (#[trigger] rest[b]).job,
            ) by {
                assert(text::precedes(entries[a + 1].job, entries[b + 1].job));
            }
        }
        if i > 0 {
            assert forall|j: int| 0 <= j < i - 1 implies text::precedes(
                (#[trigger] rest[j]).job,
                job,
            ) by {
                assert(rest[j] == entries[j + 1]);
            }
            lemma_place(rest, job, m, i - 1);
            if i < entries.len() && entries[i].job == job {
                assert(seq![entries[0]] + rest.update(i - 1, Entry { job, metrics: m })
                    =~= entries.update(i, Entry { job, metrics: m }));
            } else {
                assert(seq![entries[0]] + rest.insert(i - 1, Entry { job, metrics: m })
                    =~= entries.insert(i, Entry { job, metrics: m }));
            }
        } else if entries[0].job != job {
            assert(seq![Entry { job, metrics: m }] + entries =~= entries.insert(
                0,
                Entry { job, metrics: m },
            ));
            lemma_absent(entries, job);
        }
    } else {
        assert(seq![Entry { job, metrics: m }] + entries =~= entries.insert(
            0,
            Entry { job, metrics: m },
        ));
    }
}

/// A job that comes before all entries has none.
proof fn lemma_absent(entries: Seq<Entry>, job: Seq<char>)
    requires
        in_order(entries),
        entries.len() > 0 ==> text::precedes(job, entries[0].job),
    ensures
        metrics_of(entries, job) == no_metrics(),
    decreases entries.len(),
{
    text::order_is_total(job, job);
    if entries.len() > 0 {
        let rest = entries.skip(1);
        assert forall|a: int, b: int| 0 <= a < b < rest.len() implies text::precedes(
            (#[trigger] rest[a]).job,
            (#[trigger] rest[b]).job,
        ) by {
            assert(text::precedes(entries[a + 1].job, entries[b + 1].job));
        }
        if rest.len() > 0 {
            assert(text::precedes(entries[0].job, entries[1].job));
            text::order_is_transitive(job, entries[0].job, entries[1].job);
        }
        lemma_absent(rest, job);
    }
}

impl Registry {
    /// Whether the names stand in order, each once.
    pub closed spec fn wf(self) -> bool {
        self.names@.len() == self.metrics@.len() && in_order(self@)
    }

    /// The entries of a registry stand in the order of names, each name once.
    pub proof fn lemma_in_order(self)
        requires
            self.wf(),
        ensures
            in_order(self@),
    {
    }

    /// A registry with nothing recorded.
    pub fn new() -> (r: Registry)
        ensures
            r.wf(),
            r@ == Seq::<Entry>::empty(),
    {
        let r = Registry { names: Vec::new(), metrics: Vec::new() };
        assert(r@ =~= Seq::<Entry>::empty());
        r
    }

    /// The place of a job among the names, or where it belongs.
    fn place(&self, job: &str) -> (r: usize)
        requires
            self.wf(),
        ensures
            r <= self@.len(),
            forall|j: int| 0 <= j < r ==> text::precedes((#[trigger] self@[j]).job, job@),
            r < self@.len() ==> self@[r as int].job == job@ || text::precedes(
                job@,
                self@[r as int].job,
            ),
    {
        let mut i: usize = 0;
        while i < self.names.len()
            invariant
                self.wf(),
                i <= self@.len(),
                forall|j: int| 0 <= j < i ==> text::precedes((#[trigger] self@[j]).job, job@),
            decreases self@.len() - i,
        {
            assert(self@[i as int].job == self.names@[i as int]@);
            if !text::text_precedes(self.names[i].as_str(), job) {
                proof {
                    text::order_is_total(self@[i as int].job, job@);
                }
                return i;
            }
            i = i + 1;
        }
        i
    }

    /// How often a status has been recorded for a job.
    pub fn count(&self, job: &str, status: RunStatus) -> (r: u64)
        requires
            self.wf(),
        ensures
            r == metrics_of(self@, job@).counted(status),
    {
        let i = self.place(job);
        proof {
            lemma_place(self@, job@, no_metrics(), i as int);
        }
        if i < self.names.len() && text::str_eq(self.names[i].as_str(), job) {
            self.metrics[i].count(status)
        } else {
            0
        }
    }

    /// Record one finished (or skipped/missed) occurrence at the Unix time
    /// `now`.
    pub fn record_at(
        &mut self,
        job: &str,
        status: RunStatus,
        duration_ms: Option<u64>,
        exit_code: Option<i32>,
        now: Option<u64>,
    )
        requires
            old(self).wf(),
            metrics_of(old(self)@, job@).counted(status) < u64::MAX,
        ensures
            final(self).wf(),
            final(self)@ == with_metrics(
                old(self)@,
                job@,
                metrics_of(old(self)@, job@).after(status, duration_ms, exit_code, now),
            ),
    {
        let i = self.place(job);
        let ghost before = self@;
        let ghost m = metrics_of(before, job@).after(status, duration_ms, exit_code, now);
        proof {
            lemma_place(before, job@, m, i as int);
        }
        if i < self.names.len() && text::str_eq(self.names[i].as_str(), job) {
            let new = self.metrics[i].updated(status, duration_ms, exit_code, now);
            self.metrics.set(i, new);
            assert(self@ =~= before.update(i as int, Entry { job: job@, metrics: m }));
        } else {
            let new = JobMetrics::new().updated(status, duration_ms, exit_code, now);
            self.names.insert(i, job.to_owned());
            self.metrics.insert(i, new);
            assert(self@ =~= before.insert(i as int, Entry { job: job@, metrics: m }));
            assert forall|a: int, b: int| 0 <= a < b < self@.len() implies text::precedes(
                (#[trigger] self@[a]).job,
                (#[trigger] self@[b]).job,
            ) by {
                if b == i {
                    assert(self@[a] == before[a]);
                } else if a == i {
                    assert(self@[b] == before[b - 1]);
                    if b - 1 > i {
                        assert(text::precedes(before[i as int].job, before[b - 1].job));
                        text::order_is_transitive(job@, before[i as int].job, before[b - 1].job);
                    }
                } else {
                    let x = if a < i {
                        a
                    } else {
                        a - 1
                    };
                    let y = if b < i {
                        b
                    } else {
                        b - 1
                    };
                    assert(text::precedes(before[x].job, before[y].job));
                }
            }
        }
    }

    /// Record one finished (or skipped/missed) occurrence, now.
    pub fn record(
        &mut self,
        job: &str,
        status: RunStatus,
        duration_ms: Option<u64>,
        exit_code: Option<i32>,
    )
        requires
            old(self).wf(),
            metrics_of(old(self)@, job@).counted(status) < u64::MAX,
        ensures
            final(self).wf(),
            exists|now: Option<u64>|
                final(self)@ == with_metrics(
                    old(self)@,
                    job@,
                    #[trigger] metrics_of(old(self)@, job@).after(
                        status,
                        duration_ms,
                        exit_code,
                        now,
                    ),
                ),
    {
        let now = epoch_seconds();
        self.record_at(job, status, duration_ms, exit_code, now);
    }

    /// The counter's lines.
    fn counts(&self) -> (r: String)
        requires
            self.wf(),
        ensures
            r@ == for_all(self@, |e: Entry| count_lines(e)),
    {
        let ghost line = |e: Entry| count_lines(e);
        let mut out = String::new();
        let mut i: usize = 0;
        while i < self.names.len()
            invariant
                self.names@.len() == self.metrics@.len(),
                i <= self@.len(),
                line == (|e: Entry| count_lines(e)),
                out@ == for_all(self@.take(i as int), line),
            decreases self@.len() - i,
        {
            assert(self@.take(i + 1).drop_last() =~= self@.take(i as int));
            let text = counts_text(self.names[i].as_str(), &self.metrics[i]);
            out.append(text.as_str());
            i = i + 1;
        }
        assert(self@.take(self@.len() as int) =~= self@);
        out
    }

    /// The lines of the times of the last executions.
    fn timestamps(&self) -> (r: String)
        requires
            self.wf(),
        ensures
            r@ == for_all(self@, |e: Entry| timestamp_line(e)),
    {
        let ghost line = |e: Entry| timestamp_line(e);
        let mut out = String::new();
        let mut i: usize = 0;
        while i < self.names.len()
            invariant
                self.names@.len() == self.metrics@.len(),
                i <= self@.len(),
                line == (|e: Entry| timestamp_line(e)),
                out@ == for_all(self@.take(i as int), line),
            decreases self@.len() - i,
        {
            assert(self@.take(i + 1).drop_last() =~= self@.take(i as int));
            let mut text = String::new();
            if let Some(t) = self.metrics[i].last_run_epoch {
                text = gauge_text(
                    "chrond_job_last_run_timestamp_seconds",
                    self.names[i].as_str(),
                );
                text::push_decimal(&mut text, t);
                text.append("\n");
            }
            out.append(text.as_str());
            i = i + 1;
        }
        assert(self@.take(self@.len() as int) =~= self@);
        out
    }

    /// The lines of the durations of the last executions.
    fn durations(&self) -> (r: String)
        requires
            self.wf(),
        ensures
            r@ == for_all(self@, |e: Entry| duration_line(e)),
    {
        let ghost line = |e: Entry| duration_line(e);
        let mut out = String::new();
        let mut i: usize = 0;
        while i < self.names.len()
            invariant
                self.names@.len() == self.metrics@.len(),
                i <= self@.len(),
                line == (|e: Entry| duration_line(e)),
                out@ == for_all(self@.take(i as int), line),
            decreases self@.len() - i,
        {
            assert(self@.take(i + 1).drop_last() =~= self@.take(i as int));
            let mut text = String::new();
            if let Some(ms) = self.metrics[i].last_duration_ms {
                text = gauge_text("chrond_job_last_run_duration_seconds", self.names[i].as_str());
                push_seconds(&mut text, ms);
                text.append("\n");
            }
            out.append(text.as_str());
            i = i + 1;
        }
        assert(self@.take(self@.len() as int) =~= self@);
        out
    }

    /// The lines of the exit codes of the last executions.
    fn exit_codes(&self) -> (r: String)
        requires
            self.wf(),
        ensures
            r@ == for_all(self@, |e: Entry| exit_code_line(e)),
    {
        let ghost line = |e: Entry| exit_code_line(e);
        let mut out = String::new();
        let mut i: usize = 0;
        while i < self.names.len()
            invariant
                self.names@.len() == self.metrics@.len(),
                i <= self@.len(),
                line == (|e: Entry| exit_code_line(e)),
                out@ == for_all(self@.take(i as int), line),
            decreases self@.len() - i,
        {
            assert(self@.take(i + 1).drop_last() =~= self@.take(i as int));
            let mut text = String::new();
            if let Some(c) = self.metrics[i].last_exit_code {
                text = gauge_text("chrond_job_last_exit_code", self.names[i].as_str());
                text::push_signed(&mut text, c as i64);
                text.append("\n");
            }
            out.append(text.as_str());
            i = i + 1;
        }
        assert(self@.take(self@.len() as int) =~= self@);
        out
    }

    /// Render the Prometheus text exposition format.
    pub fn render(&self) -> (r: String)
        requires
            self.wf(),
        ensures
            r@ == exposition(self@),
    {
        let counts = self.counts();
        let timestamps = self.timestamps();
        let durations = self.durations();
        let exit_codes = self.exit_codes();
        let mut out =
            "# HELP chrond_job_runs_total Schedule occurrences accounted for, by job and status.\n".to_owned();
        out.append("# TYPE chrond_job_runs_total counter\n");
        out.append(counts.as_str());
        out.append(
            "# HELP chrond_job_last_run_timestamp_seconds Unix time of the last execution per job.\n",
        );
        out.append("# TYPE chrond_job_last_run_timestamp_seconds gauge\n");
        out.append(timestamps.as_str());
        out.append(
            "# HELP chrond_job_last_run_duration_seconds Duration of the last execution per job.\n",
        );
        out.append("# TYPE chrond_job_last_run_duration_seconds gauge\n");
        out.append(durations.as_str());
        out.append("# HELP chrond_job_last_exit_code Exit code of the last execution per job.\n");
        out.append("# TYPE chrond_job_last_exit_code gauge\n");
        out.append(exit_codes.as_str());
        out.append("chrond_jobs ");
        text::push_decimal(&mut out, self.names.len() as u64);
        out.append("\n");
        out
    }
}

// ---------------------------------------------------------------------------
// The endpoint
// ---------------------------------------------------------------------------

/// The path that a request line asks for: its second word.
pub open spec fn path_of(request_line: Seq<char>) -> Seq<char> {
    let words = text::words_of(request_line);
    if words.len() > 1 {
        words[1]
    } else {
        "/"@
    }
}

/// A response with the given body.
pub open spec fn response_with(status: Seq<char>, content_type: Seq<char>, body: Seq<char>) -> Seq<
    char,
> {
    "HTTP/1.1 "@ + status + "\r\nContent-Type: "@ + content_type + "\r\nContent-Length: "@
        + text::decimal(text::byte_len(body)) + "\r\nConnection: close\r\n\r\n"@ + body
}

/// The response to a request.
pub open spec fn response_of(request_line: Seq<char>, entries: Seq<Entry>) -> Seq<char> {
    let path = path_of(request_line);
    if path == "/metrics"@ {
        response_with(
            "200 OK"@,
            "text/plain; version=0.0.4; charset=utf-8"@,
            exposition(entries),
        )
    } else if path == "/health"@ {
        response_with("200 OK"@, "text/plain; charset=utf-8"@, "ok\n"@)
    } else {
        response_with("404 Not Found"@, "text/plain; charset=utf-8"@, "not found\n"@)
    }
}

/// A response with the given body.
fn respond(status: &str, content_type: &str, body: &str) -> (r: String)
    ensures
        r@ == response_with(status@, content_type@, body@),
{
    let mut out = "HTTP/1.1 ".to_owned();
    out.append(status);
    out.append("\r\nContent-Type: ");
    out.append(content_type);
    out.append("\r\nContent-Length: ");
    text::push_decimal(&mut out, text::count_bytes(body) as u64);
    out.append("\r\nConnection: close\r\n\r\n");
    out.append(body);
    out
}

/// The response to a request: the metrics, a sign of life, or "not found".
pub fn response(request_line: &str, registry: &Registry) -> (r: String)
    requires
        registry.wf(),
    ensures
        r@ == response_of(request_line@, registry@),
{
    let chars = text::chars_of(request_line);
    let words = text::words(chars.as_slice());
    let ghost all = text::words_of(request_line@);
    assert(all == text::texts(words@));
    if words.len() > 1 {
        assert(words@[1]@ == all[1]);
        if text::is_text(words[1], "/metrics") {
            let body = registry.render();
            return respond(
                "200 OK",
                "text/plain; version=0.0.4; charset=utf-8",
                body.as_str(),
            );
        }
        if text::is_text(words[1], "/health") {
            return respond("200 OK", "text/plain; charset=utf-8", "ok\n");
        }
    } else {
        proof {
            reveal_strlit("/");
            reveal_strlit("/metrics");
            reveal_strlit("/health");
            assert("/"@.len() == 1 && "/metrics"@.len() == 8 && "/health"@.len() == 7);
        }
    }
    respond("404 Not Found", "text/plain; charset=utf-8", "not found\n")
}

// ---------------------------------------------------------------------------
// Laws
// ---------------------------------------------------------------------------

/// The counter's lines stand in the order of the statuses' names.
pub proof fn status_names_in_order()
    ensures
        text::precedes(RunStatus::Failed.text(), RunStatus::Missed.text()),
        text::precedes(RunStatus::Missed.text(), RunStatus::Succeeded.text()),
        text::precedes(RunStatus::Succeeded.text(), RunStatus::SkippedOverlap.text()),
        text::precedes(RunStatus::SkippedOverlap.text(), RunStatus::SpawnError.text()),
        text::precedes(RunStatus::SpawnError.text(), RunStatus::Timeout.text()),
{
    reveal_with_fuel(text::precedes, 3);
    reveal_strlit("failed");
    reveal_strlit("missed");
    reveal_strlit("ok");
    reveal_strlit("skipped_overlap");
    reveal_strlit("spawn_error");
    reveal_strlit("timeout");
}

/// A record is read back: it sets the metrics of its job and leaves those of
/// every other job alone.
pub proof fn recorded_metrics(entries: Seq<Entry>, job: Seq<char>, m: JobMetrics, other: Seq<char>)
    requires
        in_order(entries),
    ensures
        metrics_of(with_metrics(entries, job, m), job) == m,
        other != job ==> metrics_of(with_metrics(entries, job, m), other) == metrics_of(
            entries,
            other,
        ),
    decreases entries.len(),
{
    let new = with_metrics(entries, job, m);
    if entries.len() == 0 || text::precedes(job, entries[0].job) {
        assert(new.skip(1) =~= entries);
    } else if entries[0].job == job {
        assert(new.skip(1) =~= entries.skip(1));
    } else {
        let rest = entries.skip(1);
        assert forall|a: int, b: int| 0 <= a < b < rest.len() implies text::precedes(
            (#[trigger] rest[a]).job,
            (#[trigger] rest[b]).job,
        ) by {
            assert(text::precedes(entries[a + 1].job, entries[b + 1].job));
        }
        recorded_metrics(rest, job, m, other);
        assert(new.skip(1) =~= with_metrics(rest, job, m));
    }
}

/// Each record counts once, under its status only.
pub proof fn record_counts_once(
    m: JobMetrics,
    status: RunStatus,
    duration_ms: Option<u64>,
    exit_code: Option<i32>,
    now: Option<u64>,
    other: RunStatus,
)
    requires
        m.counted(status) < u64::MAX,
    ensures
        m.after(status, duration_ms, exit_code, now).counted(status) == m.counted(status) + 1,
        other != status ==> m.after(status, duration_ms, exit_code, now).counted(other)
            == m.counted(other),
{
}

/// A missed or skipped occurrence does not change what is kept of the last
/// execution.
pub proof fn unrun_keeps_last_run(
    m: JobMetrics,
    status: RunStatus,
    duration_ms: Option<u64>,
    exit_code: Option<i32>,
    now: Option<u64>,
)
    requires
        !executed(status),
    ensures
        m.after(status, duration_ms, exit_code, now).last_run_epoch == m.last_run_epoch,
        m.after(status, duration_ms, exit_code, now).last_duration_ms == m.last_duration_ms,
        m.after(status, duration_ms, exit_code, now).last_exit_code == m.last_exit_code,
{
}

/// After a record of an execution (any status but those of occurrences that were
/// not run) the time, the duration and the exit code kept of the last execution
/// are those of that record, whatever was kept before; after a record of an
/// occurrence that was missed or skipped they are those that were kept before.
pub proof fn last_execution_is_kept(
    m: JobMetrics,
    status: RunStatus,
    duration_ms: Option<u64>,
    exit_code: Option<i32>,
    now: Option<u64>,
)
    ensures
        ({
            let n = m.after(status, duration_ms, exit_code, now);
            let run = status == RunStatus::Succeeded || status == RunStatus::Failed || status
                == RunStatus::Timeout || status == RunStatus::SpawnError;
            &&& n.last_run_epoch == if run {
                now
            } else {
                m.last_run_epoch
            }
            &&& n.last_duration_ms == if run {
                duration_ms
            } else {
                m.last_duration_ms
            }
            &&& n.last_exit_code == if run {
                exit_code
            } else {
                m.last_exit_code
            }
        }),
{
}

/// What a registry knows of a job after a record: one more of that status, and
/// the record itself where the occurrence was executed. Of other jobs it knows
/// what it knew, and of a job without a record nothing.
pub proof fn a_record_is_found_again(
    entries: Seq<Entry>,
    job: Seq<char>,
    status: RunStatus,
    duration_ms: Option<u64>,
    exit_code: Option<i32>,
    now: Option<u64>,
    other: Seq<char>,
)
    requires
        in_order(entries),
        metrics_of(entries, job).counted(status) < u64::MAX,
    ensures
        ({
            let m = metrics_of(entries, job).after(status, duration_ms, exit_code, now);
            let after = with_metrics(entries, job, m);
            let n = metrics_of(after, job);
            &&& n.counted(status) == metrics_of(entries, job).counted(status) + 1
            &&& status != RunStatus::Missed && status != RunStatus::SkippedOverlap
                ==> n.last_run_epoch == now && n.last_duration_ms == duration_ms
                && n.last_exit_code == exit_code
            &&& other != job ==> metrics_of(after, other) == metrics_of(entries, other)
        }),
{
    let m = metrics_of(entries, job).after(status, duration_ms, exit_code, now);
    recorded_metrics(entries, job, m, other);
    record_counts_once(metrics_of(entries, job), status, duration_ms, exit_code, now, status);
    last_execution_is_kept(metrics_of(entries, job), status, duration_ms, exit_code, now);
}

/// Nothing is counted, and no execution known, of a job without a record.
pub proof fn nothing_is_known_at_first(job: Seq<char>, status: RunStatus)
    ensures
        metrics_of(seq![], job).counted(status) == 0,
        metrics_of(seq![], job).last_run_epoch is None,
        metrics_of(seq![], job).last_duration_ms is None,
        metrics_of(seq![], job).last_exit_code is None,
{
}

/// Whether a text occurs in another.
pub open spec fn occurs_in(x: Seq<char>, s: Seq<char>) -> bool {
    exists|a: Seq<char>, b: Seq<char>| s == #[trigger] (a + x + b)
}

proof fn lemma_occurs_around(x: Seq<char>, s: Seq<char>, a: Seq<char>, b: Seq<char>)
    requires
        occurs_in(x, s),
    ensures
        occurs_in(x, a + s + b),
{
    let (c, d) = choose|c: Seq<char>, d: Seq<char>| s == #[trigger] (c + x + d);
    assert(a + s + b =~= (a + c) + x + (d + b));
}

proof fn lemma_occurs_self(x: Seq<char>)
    ensures
        occurs_in(x, x),
{
    assert(x =~= Seq::<char>::empty() + x + Seq::<char>::empty());
}

proof fn lemma_line_occurs(
    entries: Seq<Entry>,
    line: spec_fn(Entry) -> Seq<char>,
    i: int,
    x: Seq<char>,
)
    requires
        0 <= i < entries.len(),
        occurs_in(x, line(entries[i])),
    ensures
        occurs_in(x, for_all(entries, line)),
    decreases entries.len(),
{
    let none = Seq::<char>::empty();
    let before = for_all(entries.drop_last(), line);
    let last = line(entries.last());
    if i == entries.len() - 1 {
        lemma_occurs_around(x, last, before, none);
        assert(before + last + none =~= before + last);
    } else {
        lemma_line_occurs(entries.drop_last(), line, i, x);
        lemma_occurs_around(x, before, none, last);
        assert(none + before + last =~= before + last);
    }
}

proof fn lemma_six(
    a: Seq<char>,
    b: Seq<char>,
    c: Seq<char>,
    d: Seq<char>,
    e: Seq<char>,
    f: Seq<char>,
)
    ensures
        occurs_in(a, a + b + c + d + e + f),
        occurs_in(b, a + b + c + d + e + f),
        occurs_in(c, a + b + c + d + e + f),
        occurs_in(d, a + b + c + d + e + f),
        occurs_in(e, a + b + c + d + e + f),
        occurs_in(f, a + b + c + d + e + f),
{
    let none = Seq::<char>::empty();
    let all = a + b + c + d + e + f;
    assert(all =~= none + a + (b + c + d + e + f));
    assert(all =~= a + b + (c + d + e + f));
    assert(all =~= (a + b) + c + (d + e + f));
    assert(all =~= (a + b + c) + d + (e + f));
    assert(all =~= (a + b + c + d) + e + f);
    assert(all =~= (a + b + c + d + e) + f + none);
}

/// Every count of a job that is not 0 has its line: the job, the status and the
/// count.
pub proof fn every_count_is_exposed(entries: Seq<Entry>, i: int, status: RunStatus)
    requires
        0 <= i < entries.len(),
        entries[i].metrics.counted(status) > 0,
    ensures
        occurs_in(
            "chrond_job_runs_total{job=\""@ + entries[i].job + "\",status=\""@ + status.text()
                + "\"} "@ + text::decimal(entries[i].metrics.counted(status) as nat) + "\n"@,
            exposition(entries),
        ),
{
    let e = entries[i];
    let x = count_line(e, status);
    lemma_six(
        count_line(e, RunStatus::Failed),
        count_line(e, RunStatus::Missed),
        count_line(e, RunStatus::Succeeded),
        count_line(e, RunStatus::SkippedOverlap),
        count_line(e, RunStatus::SpawnError),
        count_line(e, RunStatus::Timeout),
    );
    assert(occurs_in(x, count_lines(e)));
    lemma_line_occurs(entries, |e: Entry| count_lines(e), i, x);
    lemma_sections(entries, x);
}

/// The sections that the lines of the jobs stand in are part of the text.
#[verifier::rlimit(30)]
proof fn lemma_sections(entries: Seq<Entry>, x: Seq<char>)
    ensures
        occurs_in(x, for_all(entries, |e: Entry| count_lines(e))) ==> occurs_in(
            x,
            exposition(entries),
        ),
        occurs_in(x, for_all(entries, |e: Entry| timestamp_line(e))) ==> occurs_in(
            x,
            exposition(entries),
        ),
        occurs_in(x, for_all(entries, |e: Entry| duration_line(e))) ==> occurs_in(
            x,
            exposition(entries),
        ),
        occurs_in(x, for_all(entries, |e: Entry| exit_code_line(e))) ==> occurs_in(
            x,
            exposition(entries),
        ),
{
    let c = for_all(entries, |e: Entry| count_lines(e));
    let t = for_all(entries, |e: Entry| timestamp_line(e));
    let d = for_all(entries, |e: Entry| duration_line(e));
    let z = for_all(entries, |e: Entry| exit_code_line(e));
    let whole = exposition(entries);
    let h0 =
        "# HELP chrond_job_runs_total Schedule occurrences accounted for, by job and status.\n"@
        + "# TYPE chrond_job_runs_total counter\n"@;
    let h1 =
        "# HELP chrond_job_last_run_timestamp_seconds Unix time of the last execution per job.\n"@;
    let h2 = "# TYPE chrond_job_last_run_timestamp_seconds gauge\n"@;
    let h3 =
        "# HELP chrond_job_last_run_duration_seconds Duration of the last execution per job.\n"@;
    let h4 = "# TYPE chrond_job_last_run_duration_seconds gauge\n"@;
    let h5 = "# HELP chrond_job_last_exit_code Exit code of the last execution per job.\n"@;
    let h6 = "# TYPE chrond_job_last_exit_code gauge\n"@;
    let end = "chrond_jobs "@ + text::decimal(entries.len()) + "\n"@;
    let p1 = h0 + c + h1 + h2;
    let p2 = p1 + t + h3 + h4;
    let p3 = p2 + d + h5 + h6;
    let s3 = end;
    let s2 = h5 + h6 + z + end;
    let s1 = h3 + h4 + d + s2;
    let s0 = h1 + h2 + t + s1;
    assert(whole =~= p3 + z + s3);
    assert(p3 + z + s3 =~= p2 + d + s2);
    assert(p2 + d + s2 =~= p1 + t + s1);
    assert(p1 + t + s1 =~= h0 + c + s0);
    if occurs_in(x, c) {
        lemma_occurs_around(x, c, h0, s0);
    }
    if occurs_in(x, t) {
        lemma_occurs_around(x, t, p1, s1);
    }
    if occurs_in(x, d) {
        lemma_occurs_around(x, d, p2, s2);
    }
    if occurs_in(x, z) {
        lemma_occurs_around(x, z, p3, s3);
    }
}

/// What is known of the last execution of a job has its lines: the time, the
/// duration and the exit code, each where it is known.
#[verifier::rlimit(30)]
pub proof fn last_executions_are_exposed(entries: Seq<Entry>, i: int)
    requires
        0 <= i < entries.len(),
    ensures
        ({
            let job = "{job=\""@ + entries[i].job + "\"} "@;
            let m = entries[i].metrics;
            let all = exposition(entries);
            &&& m.last_run_epoch is Some ==> occurs_in(
                "chrond_job_last_run_timestamp_seconds"@ + job + text::decimal(
                    m.last_run_epoch->0 as nat,
                ) + "\n"@,
                all,
            )
            &&& m.last_duration_ms is Some ==> occurs_in(
                "chrond_job_last_run_duration_seconds"@ + job + seconds_text(
                    m.last_duration_ms->0 as nat,
                ) + "\n"@,
                all,
            )
            &&& m.last_exit_code is Some ==> occurs_in(
                "chrond_job_last_exit_code"@ + job + text::signed_decimal(
                    m.last_exit_code->0 as int,
                ) + "\n"@,
                all,
            )
        }),
{
    let e = entries[i];
    let job = "{job=\""@ + e.job + "\"} "@;
    let m = e.metrics;
    if m.last_run_epoch is Some {
        let x = timestamp_line(e);
        assert(x =~= "chrond_job_last_run_timestamp_seconds"@ + job + text::decimal(
            m.last_run_epoch->0 as nat,
        ) + "\n"@);
        lemma_occurs_self(x);
        lemma_line_occurs(entries, |e: Entry| timestamp_line(e), i, x);
        lemma_sections(entries, x);
    }
    if m.last_duration_ms is Some {
        let x = duration_line(e);
        assert(x =~= "chrond_job_last_run_duration_seconds"@ + job + seconds_text(
            m.last_duration_ms->0 as nat,
        ) + "\n"@);
        lemma_occurs_self(x);
        lemma_line_occurs(entries, |e: Entry| duration_line(e), i, x);
        lemma_sections(entries, x);
    }
    if m.last_exit_code is Some {
        let x = exit_code_line(e);
        assert(x =~= "chrond_job_last_exit_code"@ + job + text::signed_decimal(
            m.last_exit_code->0 as int,
        ) + "\n"@);
        lemma_occurs_self(x);
        lemma_line_occurs(entries, |e: Entry| exit_code_line(e), i, x);
        lemma_sections(entries, x);
    }
}

/// A job of which nothing is known adds no line: with it and without it the text
/// is the same up to the number of jobs at its end, which is that of the entries.
pub proof fn unknown_executions_are_not_exposed(entries: Seq<Entry>, job: Seq<char>)
    ensures
        ({
            let more = entries.push(Entry { job, metrics: no_metrics() });
            exists|text: Seq<char>|
                exposition(entries) == #[trigger] (text + ("chrond_jobs "@ + text::decimal(
                    entries.len(),
                ) + "\n"@)) && exposition(more) == text + ("chrond_jobs "@ + text::decimal(
                    entries.len() + 1,
                ) + "\n"@)
        }),
{
    let e = Entry { job, metrics: no_metrics() };
    let more = entries.push(e);
    assert(more.drop_last() =~= entries);
    let c = for_all(entries, |e: Entry| count_lines(e));
    let t = for_all(entries, |e: Entry| timestamp_line(e));
    let d = for_all(entries, |e: Entry| duration_line(e));
    let z = for_all(entries, |e: Entry| exit_code_line(e));
    assert(count_lines(e) =~= seq![]);
    assert(for_all(more, |e: Entry| count_lines(e)) =~= c);
    assert(for_all(more, |e: Entry| timestamp_line(e)) =~= t);
    assert(for_all(more, |e: Entry| duration_line(e)) =~= d);
    assert(for_all(more, |e: Entry| exit_code_line(e)) =~= z);
    let end = "chrond_jobs "@ + text::decimal(entries.len()) + "\n"@;
    let end_more = "chrond_jobs "@ + text::decimal(entries.len() + 1) + "\n"@;
    let text = exposition(entries).take(exposition(entries).len() - end.len());
    assert(exposition(entries) =~= text + end);
    assert(exposition(more) =~= text + end_more);
}

/// Durations read back: the text of a number of milliseconds is that number of
/// seconds, as decimal digits without a point where it is whole, and else with up
/// to three digits behind the point, the last of which is not 0.
pub proof fn milliseconds_read_back(ms: nat)
    ensures
        match text::split_once_of(seconds_text(ms), '.') {
            None => text::all_digits(seconds_text(ms)) && text::digits_value(seconds_text(ms))
                * 1000 == ms,
            Some(parts) => {
                let (whole, rest) = parts;
                &&& text::all_digits(whole) && text::all_digits(rest)
                &&& 1 <= rest.len() <= 3
                &&& rest.last() != '0'
                &&& text::digits_value(whole) * 1000 + text::digits_value(rest) * (if rest.len()
                    == 1 {
                    100int
                } else if rest.len() == 2 {
                    10
                } else {
                    1
                }) == ms
            },
        },
{
    let whole = text::decimal(ms / 1000);
    let rest = ms % 1000;
    text::numbers_read_back(ms / 1000, ms / 1000);
    text::numbers_lack_other_characters(ms / 1000, '.');
    text::numbers_lack_other_characters(ms / 1000, '+');
    let d1 = ('0' as u32 + rest / 100) as char;
    let d2 = ('0' as u32 + rest / 10 % 10) as char;
    let d3 = ('0' as u32 + rest % 10) as char;
    reveal_with_fuel(text::digits_value, 4);
    if rest == 0 {
        text::uncut_text_is_one_piece(whole, '.');
    } else if rest % 100 == 0 {
        let f = seq![d1];
        assert(whole + seq!['.', d1] =~= whole + seq!['.'] + f);
        text::cut_texts_read_back(whole, '.', f);
        assert(f.drop_last() =~= seq![]);
    } else if rest % 10 == 0 {
        let f = seq![d1, d2];
        assert(whole + seq!['.', d1, d2] =~= whole + seq!['.'] + f);
        text::cut_texts_read_back(whole, '.', f);
        assert(f.drop_last() =~= seq![d1]);
        assert(f.drop_last().drop_last() =~= seq![]);
    } else {
        let f = seq![d1, d2, d3];
        assert(whole + seq!['.', d1, d2, d3] =~= whole + seq!['.'] + f);
        text::cut_texts_read_back(whole, '.', f);
        assert(f.drop_last() =~= seq![d1, d2]);
        assert(f.drop_last().drop_last() =~= seq![d1]);
        assert(f.drop_last().drop_last().drop_last() =~= seq![]);
    }
}

/// Whether an answer begins with a status line and ends with a body, after a
/// head that gives the length of the body in bytes.
pub open spec fn answers(answer: Seq<char>, status: Seq<char>, body: Seq<char>) -> bool {
    let length = "Content-Length: "@ + text::decimal(text::byte_len(body)) + "\r\n"@;
    &&& answer.len() >= status.len() && answer.take(status.len() as int) == status
    &&& exists|head: Seq<char>|
        answer == #[trigger] (head + length + "Connection: close\r\n\r\n"@ + body)
}

/// The answer to a request: the metrics at `/metrics`, a sign of life at
/// `/health`, and that there is nothing anywhere else.
pub proof fn every_path_has_its_answer(request_line: Seq<char>, entries: Seq<Entry>)
    ensures
        ({
            let words = text::words_of(request_line);
            let asks = |path: Seq<char>| words.len() >= 2 && words[1] == path;
            let body = if asks("/metrics"@) {
                exposition(entries)
            } else if asks("/health"@) {
                "ok\n"@
            } else {
                "not found\n"@
            };
            let status = if asks("/metrics"@) || asks("/health"@) {
                "HTTP/1.1 200 OK\r\n"@
            } else {
                "HTTP/1.1 404 Not Found\r\n"@
            };
            answers(response_of(request_line, entries), status, body)
        }),
{
    reveal_strlit("/");
    reveal_strlit("/metrics");
    reveal_strlit("/health");
    assert("/metrics"@.len() == 8 && "/health"@.len() == 7 && "/"@.len() == 1);
    if path_of(request_line) == "/metrics"@ {
        lemma_response(
            "200 OK"@,
            "text/plain; version=0.0.4; charset=utf-8"@,
            exposition(entries),
        );
        lemma_found();
    } else if path_of(request_line) == "/health"@ {
        lemma_response("200 OK"@, "text/plain; charset=utf-8"@, "ok\n"@);
        lemma_found();
    } else {
        lemma_response("404 Not Found"@, "text/plain; charset=utf-8"@, "not found\n"@);
        lemma_not_found();
    }
}

proof fn lemma_found()
    ensures
        "HTTP/1.1 "@ + "200 OK"@ + "\r\n"@ == "HTTP/1.1 200 OK\r\n"@,
{
    reveal_strlit("HTTP/1.1 ");
    reveal_strlit("200 OK");
    reveal_strlit("\r\n");
    reveal_strlit("HTTP/1.1 200 OK\r\n");
    assert("HTTP/1.1 "@ + "200 OK"@ + "\r\n"@ =~= "HTTP/1.1 200 OK\r\n"@);
}

proof fn lemma_not_found()
    ensures
        "HTTP/1.1 "@ + "404 Not Found"@ + "\r\n"@ == "HTTP/1.1 404 Not Found\r\n"@,
{
    reveal_strlit("HTTP/1.1 ");
    reveal_strlit("404 Not Found");
    reveal_strlit("\r\n");
    reveal_strlit("HTTP/1.1 404 Not Found\r\n");
    assert("HTTP/1.1 "@ + "404 Not Found"@ + "\r\n"@ =~= "HTTP/1.1 404 Not Found\r\n"@);
}

proof fn lemma_response(status: Seq<char>, kind: Seq<char>, body: Seq<char>)
    ensures
        ({
            let first = "HTTP/1.1 "@ + status + "\r\n"@;
            answers(response_with(status, kind, body), first, body)
        }),
{
    let answer = response_with(status, kind, body);
    let first = "HTTP/1.1 "@ + status + "\r\n"@;
    let n = text::decimal(text::byte_len(body));
    let length = "Content-Length: "@ + n + "\r\n"@;
    let end = "Connection: close\r\n\r\n"@;
    reveal_strlit("\r\n");
    reveal_strlit("Content-Type: ");
    reveal_strlit("\r\nContent-Type: ");
    assert("\r\nContent-Type: "@ =~= "\r\n"@ + "Content-Type: "@);
    reveal_strlit("Content-Length: ");
    reveal_strlit("\r\nContent-Length: ");
    assert("\r\nContent-Length: "@ =~= "\r\n"@ + "Content-Length: "@);
    reveal_strlit("Connection: close\r\n\r\n");
    reveal_strlit("\r\nConnection: close\r\n\r\n");
    assert("\r\nConnection: close\r\n\r\n"@ =~= "\r\n"@ + end);
    let head = first + "Content-Type: "@ + kind + "\r\n"@;
    assert(answer =~= head + length + end + body);
    assert(answer.take(first.len() as int) =~= first);
}

/// Each count is kept under the name of its status.
pub proof fn counts_go_by_their_names(m: JobMetrics)
    ensures
        m.counted(RunStatus::Succeeded) == m.succeeded,
        m.counted(RunStatus::Failed) == m.failed,
        m.counted(RunStatus::Timeout) == m.timeout,
        m.counted(RunStatus::Missed) == m.missed,
        m.counted(RunStatus::SkippedOverlap) == m.skipped_overlap,
        m.counted(RunStatus::SpawnError) == m.spawn_error,
{
}

} // verus!
