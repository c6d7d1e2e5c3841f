//! Notifications of job outcomes: which outcomes are worth one, and what it
//! says. How a message is sent is up to the [`Notifier`].

use crate::crontab::NotifyPolicy;
use crate::history::{RecordView, RunRecord, RunStatus};
use crate::text;
use vstd::prelude::*;
use vstd::string::*;

verus! {

/// Notification transport abstraction.
pub trait Notifier: Send + Sync {
    /// Sends one message.
    fn notify(&self, title: &str, body: &str, priority: &str) -> Result<(), String>;
}

/// How much of the output tail a message quotes, in characters.
pub const QUOTED_CHARS: usize = 300;

/// Whether an outcome is worth a notification under a policy. An occurrence
/// that did not run at all never is.
pub open spec fn notifies(policy: NotifyPolicy, status: RunStatus) -> bool {
    match policy {
        NotifyPolicy::Never => false,
        NotifyPolicy::Always => status != RunStatus::Missed && status != RunStatus::SkippedOverlap,
        NotifyPolicy::OnFailure => status.failure(),
    }
}

/// What a title says of an outcome.
pub open spec fn outcome_text(status: RunStatus) -> Seq<char> {
    match status {
        RunStatus::Succeeded => " succeeded"@,
        RunStatus::Failed => " FAILED"@,
        RunStatus::Timeout => " TIMED OUT"@,
        RunStatus::SpawnError => " could not start"@,
        RunStatus::Missed => " missed a run"@,
        RunStatus::SkippedOverlap => " skipped (overlap)"@,
    }
}

/// The title of the message about a record.
pub open spec fn title_of(r: RecordView) -> Seq<char> {
    "chrond: "@ + r.job + outcome_text(r.status)
}

/// The body of the message about a record: when it was scheduled, how it
/// ended, and the end of its output.
pub open spec fn body_of(r: RecordView) -> Seq<char> {
    let scheduled = "scheduled "@ + r.scheduled;
    let exit = match r.exit_code {
        Some(c) => scheduled + ", exit "@ + text::signed_decimal(c as int),
        None => scheduled,
    };
    let took = match r.duration_ms {
        Some(ms) => exit + ", took "@ + text::decimal(ms as nat) + "ms"@,
        None => exit,
    };
    if r.output_tail.len() == 0 {
        took
    } else {
        took.push('\n') + text::last_chars(r.output_tail, QUOTED_CHARS as nat)
    }
}

/// The priority of the message about an outcome.
pub open spec fn priority_of(status: RunStatus) -> Seq<char> {
    if status.failure() {
        "high"@
    } else {
        "default"@
    }
}

/// Whether this record should produce a notification under the job's policy.
pub fn should_notify(policy: NotifyPolicy, status: RunStatus) -> (r: bool)
    ensures
        r == notifies(policy, status),
{
    match policy {
        NotifyPolicy::Never => false,
        NotifyPolicy::Always => !matches!(status, RunStatus::Missed | RunStatus::SkippedOverlap),
        NotifyPolicy::OnFailure => status.is_failure(),
    }
}

/// Build the (title, body, priority) triple for a run record.
pub fn build_message(record: &RunRecord) -> (r: (String, String, &'static str))
    ensures
        r.0@ == title_of(record@),
        r.1@ == body_of(record@),
        r.2@ == priority_of(record.status),
{
    let mut title = "chrond: ".to_owned();
    title.append(record.job.as_str());
    match record.status {
        RunStatus::Succeeded => title.append(" succeeded"),
        RunStatus::Failed => title.append(" FAILED"),
        RunStatus::Timeout => title.append(" TIMED OUT"),
        RunStatus::SpawnError => title.append(" could not start"),
        RunStatus::Missed => title.append(" missed a run"),
        RunStatus::SkippedOverlap => title.append(" skipped (overlap)"),
    }
    let mut body = "scheduled ".to_owned();
    body.append(record.scheduled.as_str());
    if let Some(code) = record.exit_code {
        body.append(", exit ");
        text::push_signed(&mut body, code as i64);
    }
    if let Some(ms) = record.duration_ms {
        body.append(", took ");
        text::push_decimal(&mut body, ms);
        body.append("ms");
    }
    let tail = text::chars_of(record.output_tail.as_str());
    if tail.len() > 0 {
        body.push('\n');
        text::push_chars(&mut body, text::last_of_chars(tail.as_slice(), QUOTED_CHARS));
    }
    let priority = if record.status.is_failure() {
        "high"
    } else {
        "default"
    };
    (title, body, priority)
}

/// The message to send about a record under the job's policy, if any.
pub fn notification(policy: NotifyPolicy, record: &RunRecord) -> (r: Option<
    (String, String, &'static str),
>)
    ensures
        r is Some <==> notifies(policy, record.status),
        r matches Some(m) ==> m.0@ == title_of(record@) && m.1@ == body_of(record@) && m.2@
            == priority_of(record.status),
{
    if should_notify(policy, record.status) {
        Some(build_message(record))
    } else {
        None
    }
}

// ---------------------------------------------------------------------------
// Laws
// ---------------------------------------------------------------------------

/// The policies are ordered: what is worth a notification on failure is worth
/// one always, and exactly the failures have high priority.
pub proof fn failures_notify_first(status: RunStatus)
    ensures
        !notifies(NotifyPolicy::Never, status),
        notifies(NotifyPolicy::OnFailure, status) ==> notifies(NotifyPolicy::Always, status),
        notifies(NotifyPolicy::OnFailure, status) <==> priority_of(status) == "high"@,
{
    reveal_strlit("high");
    reveal_strlit("default");
    assert("high"@.len() != "default"@.len());
}

/// When there is a message about an outcome: never with `Never`; with `OnFailure`
/// where the run failed, was killed for its time or could not start; with `Always`
/// where it was run, successfully or not, or could not start.
pub proof fn policies_decide(status: RunStatus)
    ensures
        ({
            let failed = status == RunStatus::Failed || status == RunStatus::Timeout || status
                == RunStatus::SpawnError;
            &&& !notifies(NotifyPolicy::Never, status)
            &&& notifies(NotifyPolicy::OnFailure, status) <==> failed
            &&& notifies(NotifyPolicy::Always, status) <==> failed || status
                == RunStatus::Succeeded
            &&& priority_of(status) == if failed {
                "high"@
            } else {
                "default"@
            }
        }),
{
}

/// The title names the job and then its outcome, and tells outcomes apart.
pub proof fn titles_name_the_job(a: RecordView, b: RecordView)
    ensures
        ({
            let n = ("chrond: "@ + a.job).len() as int;
            let m = ("chrond: "@ + b.job).len() as int;
            &&& title_of(a).len() > n && title_of(a).take(n) == "chrond: "@ + a.job
            &&& title_of(a).skip(n) == (match a.status {
                RunStatus::Succeeded => " succeeded"@,
                RunStatus::Failed => " FAILED"@,
                RunStatus::Timeout => " TIMED OUT"@,
                RunStatus::SpawnError => " could not start"@,
                RunStatus::Missed => " missed a run"@,
                RunStatus::SkippedOverlap => " skipped (overlap)"@,
            })
            &&& a.status == b.status ==> title_of(a).skip(n) == title_of(b).skip(m)
            &&& a.status != b.status ==> title_of(a).skip(n) != title_of(b).skip(m)
        }),
{
    let n = ("chrond: "@ + a.job).len() as int;
    let m = ("chrond: "@ + b.job).len() as int;
    assert(title_of(a).take(n) =~= "chrond: "@ + a.job);
    assert(title_of(a).skip(n) =~= outcome_text(a.status));
    assert(title_of(b).skip(m) =~= outcome_text(b.status));
    reveal_strlit(" succeeded");
    reveal_strlit(" FAILED");
    reveal_strlit(" TIMED OUT");
    reveal_strlit(" could not start");
    reveal_strlit(" missed a run");
    reveal_strlit(" skipped (overlap)");
    assert(" succeeded"@[1] == 's' && " TIMED OUT"@[1] == 'T');
    assert(" FAILED"@.len() == 7 && " could not start"@.len() == 16 && " missed a run"@.len() == 13
        && " skipped (overlap)"@.len() == 18 && " succeeded"@.len() == 10 && " TIMED OUT"@.len()
        == 10);
}

/// What each part of a record adds to the body: first the time, then the exit
/// code and the duration where they are known, and on a line of its own the end
/// of the output, at most 300 characters of it.
pub proof fn bodies_tell_the_record(r: RecordView, code: i32, ms: u64, tail: Seq<char>)
    requires
        tail.len() > 0,
    ensures
        ({
            let at = RecordView {
                exit_code: None,
                duration_ms: None,
                output_tail: seq![],
                ..r
            };
            let ended = RecordView { duration_ms: None, output_tail: seq![], ..r };
            let quiet = RecordView { output_tail: seq![], ..r };
            &&& body_of(at) == "scheduled "@ + r.scheduled
            &&& body_of(RecordView { exit_code: Some(code), ..at }) == body_of(at) + ", exit "@
                + text::signed_decimal(code as int)
            &&& body_of(RecordView { duration_ms: Some(ms), ..ended }) == body_of(ended)
                + ", took "@ + text::decimal(ms as nat) + "ms"@
            &&& body_of(RecordView { output_tail: tail, ..r }) == body_of(quiet) + seq!['\n']
                + text::last_chars(tail, 300)
        }),
{
    let quiet = RecordView { output_tail: seq![], ..r };
    assert(body_of(quiet).push('\n') =~= body_of(quiet) + seq!['\n']);
}

} // verus!
