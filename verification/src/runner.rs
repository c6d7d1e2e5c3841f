//! Job execution: the shell and the environment of a job's process, when to
//! stop waiting for it, and what is recorded of it.
//!
//! Starting the process and reading its pipes is up to the caller.

use crate::crontab;
use crate::crontab::{Duration, JobSpec};
use crate::history::{RecordView, RunRecord, RunStatus};
use crate::text;
use crate::time;
use crate::time::DateTime;
use vstd::prelude::*;
use vstd::string::*;
use vstd::utf8;

verus! {

/// Cap on the output tail stored per run record.
pub const OUTPUT_TAIL_BYTES: usize = 8192;

/// Result of executing one occurrence, plus the full captured output for
/// the job log.
pub struct RunOutcome {
    pub record: RunRecord,
    pub full_output: String,
}

// ---------------------------------------------------------------------------
// Output
// ---------------------------------------------------------------------------

/// The end of `s` within `max` bytes, marked with `...` where something is
/// left out.
pub open spec fn tail_of(s: Seq<char>, max: nat) -> Seq<char> {
    if text::byte_len(s) <= max {
        s
    } else {
        "..."@ + text::end_within(s, max)
    }
}

/// Keeps the last `max` bytes of `s`, on a character boundary.
pub fn tail(s: &str, max: usize) -> (r: String)
    ensures
        r@ == tail_of(s@, max as nat),
{
    if text::count_bytes(s) <= max {
        return s.to_owned();
    }
    let chars = text::chars_of(s);
    let mut out = "...".to_owned();
    text::push_chars(&mut out, text::end_of_bytes(chars.as_slice(), max));
    out
}

/// The text that bytes hold, whatever is not UTF-8 in them replaced.
pub uninterp spec fn lossy_text(bytes: Seq<u8>) -> Seq<char>;

/// `String::from_utf8_lossy`: the text of the bytes. Bytes that are UTF-8 give
/// the text that they encode. What stands in the place of other bytes is not
/// stated.
#[verifier::external_body]
fn decode(bytes: &[u8]) -> (r: String)
    ensures
        r@ == lossy_text(bytes@),
        utf8::valid_utf8(bytes@) ==> r@ == utf8::decode_utf8(bytes@),
{
    String::from_utf8_lossy(bytes).into_owned()
}

/// Standard output, then standard error on a line of its own.
pub open spec fn combined_of(stdout: Seq<char>, stderr: Seq<char>) -> Seq<char> {
    if stdout.len() > 0 && stderr.len() > 0 && stdout.last() != '\n' {
        stdout.push('\n') + stderr
    } else {
        stdout + stderr
    }
}

/// Standard output, then standard error on a line of its own.
pub fn combine(stdout: &str, stderr: &str) -> (r: String)
    ensures
        r@ == combined_of(stdout@, stderr@),
{
    let o = text::chars_of(stdout);
    let mut out = stdout.to_owned();
    if !stderr.is_empty() && o.len() > 0 && o[o.len() - 1] != '\n' {
        out.push('\n');
    }
    out.append(stderr);
    out
}

/// The combined output of a process, from the bytes of its two pipes.
pub fn combine_output(stdout: &[u8], stderr: &[u8]) -> (r: String)
    ensures
        r@ == combined_of(lossy_text(stdout@), lossy_text(stderr@)),
        utf8::valid_utf8(stdout@) && utf8::valid_utf8(stderr@) ==> r@ == combined_of(
            utf8::decode_utf8(stdout@),
            utf8::decode_utf8(stderr@),
        ),
{
    let out = decode(stdout);
    let err = decode(stderr);
    combine(out.as_str(), err.as_str())
}

// ---------------------------------------------------------------------------
// Shell and environment
// ---------------------------------------------------------------------------

/// The value that a list of assignments gives to a name: that of the last
/// assignment to it.
pub open spec fn assigned(env: Seq<(Seq<char>, Seq<char>)>, name: Seq<char>) -> Option<Seq<char>>
    decreases env.len(),
{
    if env.len() == 0 {
        None
    } else if env.last().0 == name {
        Some(env.last().1)
    } else {
        assigned(env.drop_last(), name)
    }
}

/// The shell that runs the jobs: the last `SHELL` of the crontab, or `/bin/sh`.
pub open spec fn shell_in(env: Seq<(Seq<char>, Seq<char>)>) -> Seq<char> {
    match assigned(env, "SHELL"@) {
        Some(v) => v,
        None => "/bin/sh"@,
    }
}

/// The assignments to other names than `SHELL`, in their order.
pub open spec fn without_shell(env: Seq<(Seq<char>, Seq<char>)>) -> Seq<(Seq<char>, Seq<char>)>
    decreases env.len(),
{
    if env.len() == 0 {
        seq![]
    } else if env.last().0 == "SHELL"@ {
        without_shell(env.drop_last())
    } else {
        without_shell(env.drop_last()).push(env.last())
    }
}

/// The assignments made for a job's process, in their order.
pub open spec fn job_env_of(
    env: Seq<(Seq<char>, Seq<char>)>,
    job: Seq<char>,
    scheduled: DateTime,
) -> Seq<(Seq<char>, Seq<char>)> {
    without_shell(env).push(("SHELL"@, shell_in(env))).push(("CHROND_JOB"@, job)).push(
        ("CHROND_SCHEDULED"@, time::time_text(scheduled)),
    )
}

/// The shell that runs the jobs: the last `SHELL` of the crontab, or `/bin/sh`.
pub fn shell_of(env: &Vec<(String, String)>) -> (r: String)
    ensures
        r@ == shell_in(crontab::env_views(env@)),
{
    let mut i: usize = env.len();
    let ghost all = crontab::env_views(env@);
    assert(all.take(all.len() as int) =~= all);
    while i > 0
        invariant
            i <= env@.len(),
            all == crontab::env_views(env@),
            assigned(all, "SHELL"@) == assigned(all.take(i as int), "SHELL"@),
        decreases i,
    {
        assert(all.take(i as int).drop_last() =~= all.take(i - 1));
        if text::str_eq(env[i - 1].0.as_str(), "SHELL") {
            return env[i - 1].1.clone();
        }
        i = i - 1;
    }
    "/bin/sh".to_owned()
}

/// The assignments made for a job's process, in their order: those of the
/// crontab, then the shell, the job's name and the time it was scheduled for.
pub fn job_env(env: &Vec<(String, String)>, job: &str, scheduled: DateTime) -> (r: Vec<
    (String, String),
>)
    requires
        scheduled.valid(),
    ensures
        crontab::env_views(r@) == job_env_of(crontab::env_views(env@), job@, scheduled),
{
    let mut out: Vec<(String, String)> = Vec::new();
    let ghost all = crontab::env_views(env@);
    let mut i: usize = 0;
    assert(crontab::env_views(out@) =~= without_shell(all.take(0)));
    while i < env.len()
        invariant
            i <= env@.len(),
            all == crontab::env_views(env@),
            crontab::env_views(out@) == without_shell(all.take(i as int)),
        decreases env@.len() - i,
    {
        assert(all.take(i + 1).drop_last() =~= all.take(i as int));
        if !text::str_eq(env[i].0.as_str(), "SHELL") {
            let ghost before = out@;
            out.push((env[i].0.clone(), env[i].1.clone()));
            assert(crontab::env_views(out@) =~= crontab::env_views(before).push(all[i as int]));
        }
        i = i + 1;
    }
    assert(all.take(all.len() as int) =~= all);
    let ghost before = out@;
    let shell = shell_of(env);
    out.push(("SHELL".to_owned(), shell));
    out.push(("CHROND_JOB".to_owned(), job.to_owned()));
    out.push(("CHROND_SCHEDULED".to_owned(), time::format_time(scheduled)));
    assert(crontab::env_views(out@) =~= job_env_of(all, job@, scheduled));
    out
}

// ---------------------------------------------------------------------------
// Waiting
// ---------------------------------------------------------------------------

/// What is known of the job's process.
#[derive(Debug, Clone, Copy, PartialEq, Eq, Structural)]
pub enum Poll {
    Running,
    Exited,
    /// Its state could not be found out.
    Lost,
}

/// What to do next while waiting for the job's process.
#[derive(Debug, Clone, Copy, PartialEq, Eq, Structural)]
pub enum Wait {
    /// The process has ended, or nothing more can be learnt of it.
    Finish,
    /// The process has exceeded its time and is to be killed.
    Kill,
    /// Look again in a moment.
    Sleep,
}

/// What to do next while waiting for a process that was started
/// `elapsed_secs` whole seconds ago: a process that still runs at its limit is
/// killed.
pub fn wait_step(poll: Poll, elapsed_secs: u64, timeout: Option<Duration>) -> (r: Wait)
    ensures
        r == Wait::Finish <==> poll != Poll::Running,
        r == Wait::Kill <==> poll == Poll::Running && timeout is Some && elapsed_secs
            >= timeout->0.secs,
{
    match poll {
        Poll::Running => match timeout {
            Some(limit) => if elapsed_secs >= limit.as_secs() {
                Wait::Kill
            } else {
                Wait::Sleep
            },
            None => Wait::Sleep,
        },
        Poll::Exited => Wait::Finish,
        Poll::Lost => Wait::Finish,
    }
}

// ---------------------------------------------------------------------------
// Outcomes
// ---------------------------------------------------------------------------

/// How a process ended.
#[derive(Debug, Clone, Copy)]
pub struct Ending {
    pub started: DateTime,
    pub finished: DateTime,
    pub duration_ms: u64,
    /// Whether the process was killed for exceeding its time.
    pub timed_out: bool,
    /// The exit code; none where a signal ended the process.
    pub exit_code: Option<i32>,
}

impl Ending {
    /// Whether the times exist.
    pub open spec fn valid(self) -> bool {
        self.started.valid() && self.finished.valid()
    }
}

/// The status of a process that ended.
pub open spec fn status_of(timed_out: bool, exit_code: Option<i32>) -> RunStatus {
    if timed_out {
        RunStatus::Timeout
    } else if exit_code == Some(0i32) {
        RunStatus::Succeeded
    } else {
        RunStatus::Failed
    }
}

/// The record of a process that ended with the given output.
pub open spec fn ended_record(
    job: Seq<char>,
    scheduled: DateTime,
    catchup: bool,
    ending: Ending,
    output: Seq<char>,
) -> RecordView {
    RecordView {
        job,
        scheduled: time::time_text(scheduled),
        status: status_of(ending.timed_out, ending.exit_code),
        catchup,
        started: Some(time::time_text(ending.started)),
        finished: Some(time::time_text(ending.finished)),
        duration_ms: Some(ending.duration_ms),
        exit_code: ending.exit_code,
        output_tail: tail_of(text::trim_end_of(output), OUTPUT_TAIL_BYTES as nat),
    }
}

/// The record of a process that could not be started.
pub open spec fn unstarted_record(
    job: Seq<char>,
    scheduled: DateTime,
    catchup: bool,
    started: DateTime,
    finished: DateTime,
    shell: Seq<char>,
    error: Seq<char>,
) -> RecordView {
    RecordView {
        job,
        scheduled: time::time_text(scheduled),
        status: RunStatus::SpawnError,
        catchup,
        started: Some(time::time_text(started)),
        finished: Some(time::time_text(finished)),
        duration_ms: Some(0),
        exit_code: None,
        output_tail: "failed to spawn '"@ + shell + "': "@ + error,
    }
}

/// The status of a process that ended.
pub fn classify(timed_out: bool, exit_code: Option<i32>) -> (r: RunStatus)
    ensures
        r == status_of(timed_out, exit_code),
{
    if timed_out {
        return RunStatus::Timeout;
    }
    match exit_code {
        Some(c) => if c == 0 {
            RunStatus::Succeeded
        } else {
            RunStatus::Failed
        },
        None => RunStatus::Failed,
    }
}

/// The outcome of a process that ended with the given output.
pub fn conclude(
    spec: &JobSpec,
    scheduled: DateTime,
    is_catchup: bool,
    ending: Ending,
    output: String,
) -> (r: RunOutcome)
    requires
        scheduled.valid(),
        ending.valid(),
    ensures
        r.record@ == ended_record(spec.name@, scheduled, is_catchup, ending, output@),
        r.full_output@ == output@,
{
    let chars = text::chars_of(output.as_str());
    let trimmed = text::string_of(text::trim_end(chars.as_slice()));
    let record = RunRecord {
        job: spec.name.clone(),
        scheduled: time::format_time(scheduled),
        status: classify(ending.timed_out, ending.exit_code),
        catchup: is_catchup,
        started: Some(time::format_time(ending.started)),
        finished: Some(time::format_time(ending.finished)),
        duration_ms: Some(ending.duration_ms),
        exit_code: ending.exit_code,
        output_tail: tail(trimmed.as_str(), OUTPUT_TAIL_BYTES),
    };
    RunOutcome { record, full_output: output }
}

/// The outcome of a process that ended, from the bytes of its two pipes.
pub fn finish_run(
    spec: &JobSpec,
    scheduled: DateTime,
    is_catchup: bool,
    ending: Ending,
    stdout: &[u8],
    stderr: &[u8],
) -> (r: RunOutcome)
    requires
        scheduled.valid(),
        ending.valid(),
    ensures
        ({
            let output = combined_of(lossy_text(stdout@), lossy_text(stderr@));
            &&& r.record@ == ended_record(spec.name@, scheduled, is_catchup, ending, output)
            &&& r.full_output@ == output
        }),
        utf8::valid_utf8(stdout@) && utf8::valid_utf8(stderr@) ==> {
            let output = combined_of(utf8::decode_utf8(stdout@), utf8::decode_utf8(stderr@));
            &&& r.record@ == ended_record(spec.name@, scheduled, is_catchup, ending, output)
            &&& r.full_output@ == output
        },
{
    let output = combine_output(stdout, stderr);
    conclude(spec, scheduled, is_catchup, ending, output)
}

/// The outcome of a process that could not be started.
pub fn spawn_failure(
    spec: &JobSpec,
    scheduled: DateTime,
    is_catchup: bool,
    started: DateTime,
    finished: DateTime,
    shell: &str,
    error: &str,
) -> (r: RunOutcome)
    requires
        scheduled.valid(),
        started.valid(),
        finished.valid(),
    ensures
        r.record@ == unstarted_record(
            spec.name@,
            scheduled,
            is_catchup,
            started,
            finished,
            shell@,
            error@,
        ),
        r.full_output@ == Seq::<char>::empty(),
{
    let mut message = "failed to spawn '".to_owned();
    message.append(shell);
    message.append("': ");
    message.append(error);
    let record = RunRecord {
        job: spec.name.clone(),
        scheduled: time::format_time(scheduled),
        status: RunStatus::SpawnError,
        catchup: is_catchup,
        started: Some(time::format_time(started)),
        finished: Some(time::format_time(finished)),
        duration_ms: Some(0),
        exit_code: None,
        output_tail: message,
    };
    RunOutcome { record, full_output: String::new() }
}

// ---------------------------------------------------------------------------
// Laws
// ---------------------------------------------------------------------------

proof fn lemma_without_shell(env: Seq<(Seq<char>, Seq<char>)>, name: Seq<char>)
    requires
        name != "SHELL"@,
    ensures
        assigned(without_shell(env), name) == assigned(env, name),
    decreases env.len(),
{
    if env.len() > 0 {
        lemma_without_shell(env.drop_last(), name);
        let rest = without_shell(env.drop_last());
        assert(rest.push(env.last()).drop_last() =~= rest);
    }
}

/// The job's process sees its own name, the time it was scheduled for and the
/// shell that runs it, whatever the crontab assigns; any other name has the
/// value that the crontab assigns to it last.
pub proof fn job_sees_its_context(
    env: Seq<(Seq<char>, Seq<char>)>,
    job: Seq<char>,
    scheduled: DateTime,
    name: Seq<char>,
)
    ensures
        assigned(job_env_of(env, job, scheduled), "SHELL"@) == Some(shell_in(env)),
        assigned(job_env_of(env, job, scheduled), "CHROND_JOB"@) == Some(job),
        assigned(job_env_of(env, job, scheduled), "CHROND_SCHEDULED"@) == Some(
            time::time_text(scheduled),
        ),
        name != "SHELL"@ && name != "CHROND_JOB"@ && name != "CHROND_SCHEDULED"@ ==> assigned(
            job_env_of(env, job, scheduled),
            name,
        ) == assigned(env, name),
{
    reveal_strlit("SHELL");
    reveal_strlit("CHROND_JOB");
    reveal_strlit("CHROND_SCHEDULED");
    reveal_with_fuel(assigned, 4);
    assert("SHELL"@.len() == 5 && "CHROND_JOB"@.len() == 10 && "CHROND_SCHEDULED"@.len() == 16);
    let e0 = without_shell(env);
    let e1 = e0.push(("SHELL"@, shell_in(env)));
    let e2 = e1.push(("CHROND_JOB"@, job));
    let e3 = job_env_of(env, job, scheduled);
    assert(e3.drop_last() =~= e2);
    assert(e2.drop_last() =~= e1);
    assert(e1.drop_last() =~= e0);
    if name != "SHELL"@ {
        lemma_without_shell(env, name);
    }
}

proof fn lemma_end_is_end(s: Seq<char>, max: nat)
    ensures
        text::byte_len(text::end_within(s, max)) <= max,
        exists|k: int| 0 <= k <= s.len() && text::end_within(s, max) == #[trigger] s.skip(k),
    decreases s.len(),
{
    if s.len() == 0 || text::byte_len(s) <= max {
        assert(s.skip(0) =~= s);
        if s.len() == 0 {
            assert(utf8::encode_utf8(s).len() == 0);
        }
    } else {
        lemma_end_is_end(s.skip(1), max);
        let k = choose|k: int|
            0 <= k <= s.len() - 1 && text::end_within(s, max) == #[trigger] s.skip(1).skip(k);
        assert(s.skip(1).skip(k) =~= s.skip(k + 1));
    }
}

/// A tail is the text itself or, after `...`, an end of it; the end has at most
/// `max` bytes.
pub proof fn tail_is_an_end(s: Seq<char>, max: nat)
    ensures
        tail_of(s, max) == s || exists|k: int|
            0 <= k <= s.len() && tail_of(s, max) == "..."@ + #[trigger] s.skip(k)
                && text::byte_len(s.skip(k)) <= max,
        tail_of(s, max) == s <== text::byte_len(s) <= max,
{
    lemma_end_is_end(s, max);
}

/// A job that was killed for its time is never recorded as a success, and one
/// that exited with another code than 0 is recorded as a failure.
pub proof fn only_success_succeeds(timed_out: bool, exit_code: Option<i32>)
    ensures
        status_of(timed_out, exit_code) == RunStatus::Succeeded <==> !timed_out && exit_code
            == Some(0i32),
        status_of(timed_out, exit_code) == RunStatus::Succeeded || status_of(
            timed_out,
            exit_code,
        ).failure(),
{
}

/// A long output is cut to its longest end that fits, after `...`; one that fits
/// is kept.
pub proof fn tail_is_the_longest_end(s: Seq<char>, max: nat)
    ensures
        text::byte_len(s) <= max ==> tail_of(s, max) == s,
        text::byte_len(s) > max ==> exists|k: int| #![trigger s.skip(k)]
            0 < k <= s.len() && tail_of(s, max) == "..."@ + s.skip(k) && text::byte_len(s.skip(k))
                <= max && text::byte_len(s.skip(k - 1)) > max,
{
    text::end_within_is_the_longest(s, max);
    if text::byte_len(s) > max {
        let k = choose|k: int| #![trigger s.skip(k)]
            0 <= k <= s.len() && text::end_within(s, max) == s.skip(k) && text::byte_len(s.skip(k))
                <= max && (k > 0 ==> text::byte_len(s.skip(k - 1)) > max);
        assert(s.skip(0) =~= s);
        assert(k > 0);
        assert(tail_of(s, max) == "..."@ + s.skip(k));
    }
}

/// The output of a run is what it wrote to standard output and then what it wrote
/// to standard error; the second begins on a line of its own.
pub proof fn outputs_are_combined(stdout: Seq<char>, stderr: Seq<char>)
    ensures
        ({
            let r = combined_of(stdout, stderr);
            let gap = r.len() - stdout.len() - stderr.len();
            &&& gap == 0 || gap == 1
            &&& r.take(stdout.len() as int) == stdout
            &&& r.skip(stdout.len() + gap) == stderr
            &&& gap == 1 <==> stdout.len() > 0 && stderr.len() > 0 && stdout[stdout.len() - 1]
                != '\n'
            &&& gap == 1 ==> r[stdout.len() as int] == '\n'
        }),
{
    let r = combined_of(stdout, stderr);
    let gap = r.len() - stdout.len() - stderr.len();
    assert(r.take(stdout.len() as int) =~= stdout);
    assert(r.skip(stdout.len() + gap) =~= stderr);
}

/// The last assignment to a name counts, and a name that nothing is assigned to
/// has no value.
pub proof fn the_last_assignment_counts(
    env: Seq<(Seq<char>, Seq<char>)>,
    k: Seq<char>,
    v: Seq<char>,
    name: Seq<char>,
)
    ensures
        assigned(seq![], name) is None,
        assigned(env.push((k, v)), k) == Some(v),
        name != k ==> assigned(env.push((k, v)), name) == assigned(env, name),
{
    assert(env.push((k, v)).drop_last() =~= env);
}

/// Commands are run by the shell that the crontab assigns to `SHELL` last, and
/// else by `/bin/sh`; a job sees the same shell.
pub proof fn the_assigned_shell_runs_commands(
    env: Seq<(Seq<char>, Seq<char>)>,
    k: Seq<char>,
    v: Seq<char>,
    job: Seq<char>,
    scheduled: DateTime,
)
    ensures
        shell_in(seq![]) == "/bin/sh"@,
        shell_in(env.push(("SHELL"@, v))) == v,
        k != "SHELL"@ ==> shell_in(env.push((k, v))) == shell_in(env),
        assigned(job_env_of(env, job, scheduled), "SHELL"@) == Some(shell_in(env)),
{
    the_last_assignment_counts(env, "SHELL"@, v, "SHELL"@);
    the_last_assignment_counts(env, k, v, "SHELL"@);
    job_sees_its_context(env, job, scheduled, k);
}

/// How a run ended: killed for its time, whatever its exit code; else successful
/// with exit code 0, and failed with any other or with none.
pub proof fn endings_have_their_status(exit_code: Option<i32>, code: i32)
    ensures
        status_of(true, exit_code) == RunStatus::Timeout,
        status_of(false, Some(0i32)) == RunStatus::Succeeded,
        code != 0 ==> status_of(false, Some(code)) == RunStatus::Failed,
        status_of(false, None) == RunStatus::Failed,
{
}

/// The record of a run tells its job, the times, how it ended and the end of its
/// output without white space behind it, at most 8192 bytes of it.
pub proof fn records_tell_the_run(
    job: Seq<char>,
    scheduled: DateTime,
    catchup: bool,
    ending: Ending,
    output: Seq<char>,
)
    ensures
        ({
            let r = ended_record(job, scheduled, catchup, ending, output);
            &&& r.job == job
            &&& r.scheduled == time::time_text(scheduled)
            &&& r.catchup == catchup
            &&& r.started == Some(time::time_text(ending.started))
            &&& r.finished == Some(time::time_text(ending.finished))
            &&& r.duration_ms == Some(ending.duration_ms)
            &&& r.exit_code == ending.exit_code
            &&& r.status == RunStatus::Timeout <==> ending.timed_out
            &&& r.status == RunStatus::Succeeded <==> !ending.timed_out && ending.exit_code
                == Some(0i32)
            &&& r.status == RunStatus::Failed <==> !ending.timed_out && ending.exit_code
                != Some(0i32)
            &&& r.output_tail == tail_of(text::trim_end_of(output), 8192)
        }),
{
}

/// The record of a run that could not start tells its job, the times, the shell
/// and the error, and no exit code.
pub proof fn records_tell_why_nothing_started(
    job: Seq<char>,
    scheduled: DateTime,
    catchup: bool,
    started: DateTime,
    finished: DateTime,
    shell: Seq<char>,
    error: Seq<char>,
)
    ensures
        ({
            let r = unstarted_record(job, scheduled, catchup, started, finished, shell, error);
            &&& r.job == job
            &&& r.scheduled == time::time_text(scheduled)
            &&& r.catchup == catchup
            &&& r.started == Some(time::time_text(started))
            &&& r.finished == Some(time::time_text(finished))
            &&& r.duration_ms == Some(0u64)
            &&& r.exit_code is None
            &&& r.status == RunStatus::SpawnError
            &&& r.output_tail == "failed to spawn '"@ + shell + "': "@ + error
        }),
{
}

} // verus!
