use chrond::alert::{build_message, notification, should_notify, Notifier};
use chrond::crontab::NotifyPolicy;
use chrond::history::{RunRecord, RunStatus};

fn record(status: RunStatus) -> RunRecord {
    RunRecord {
        job: "backup".into(),
        scheduled: "2026-07-08T02:15:00".into(),
        status,
        catchup: false,
        started: None,
        finished: None,
        duration_ms: Some(1500),
        exit_code: Some(if status == RunStatus::Succeeded { 0 } else { 3 }),
        output_tail: "tar: /data: file changed".into(),
    }
}

#[test]
fn policy_matrix() {
    assert!(!should_notify(NotifyPolicy::Never, RunStatus::Failed));
    assert!(should_notify(NotifyPolicy::OnFailure, RunStatus::Failed));
    assert!(should_notify(NotifyPolicy::OnFailure, RunStatus::Timeout));
    assert!(should_notify(NotifyPolicy::OnFailure, RunStatus::SpawnError));
    assert!(!should_notify(NotifyPolicy::OnFailure, RunStatus::Succeeded));
    assert!(!should_notify(NotifyPolicy::OnFailure, RunStatus::Missed));
    assert!(should_notify(NotifyPolicy::Always, RunStatus::Succeeded));
    assert!(should_notify(NotifyPolicy::Always, RunStatus::Failed));
    assert!(!should_notify(NotifyPolicy::Always, RunStatus::SkippedOverlap));
}

#[test]
fn message_contents() {
    let (title, body, priority) = build_message(&record(RunStatus::Failed));
    assert_eq!(title, "chrond: backup FAILED");
    assert!(body.contains("exit 3"));
    assert!(body.contains("1500ms"));
    assert!(body.contains("file changed"));
    assert_eq!(priority, "high");

    let (title, _, priority) = build_message(&record(RunStatus::Succeeded));
    assert!(title.contains("succeeded"));
    assert_eq!(priority, "default");
}

#[test]
fn message_text_is_exact() {
    let (_, body, _) = build_message(&record(RunStatus::Failed));
    assert_eq!(
        body,
        "scheduled 2026-07-08T02:15:00, exit 3, took 1500ms\ntar: /data: file changed"
    );
    let mut bare = record(RunStatus::Missed);
    bare.duration_ms = None;
    bare.exit_code = None;
    bare.output_tail = String::new();
    let (title, body, priority) = build_message(&bare);
    assert_eq!(title, "chrond: backup missed a run");
    assert_eq!(body, "scheduled 2026-07-08T02:15:00");
    assert_eq!(priority, "default");
}

#[test]
fn every_status_has_a_title() {
    let title = |s: RunStatus| build_message(&record(s)).0;
    assert_eq!(title(RunStatus::Timeout), "chrond: backup TIMED OUT");
    assert_eq!(title(RunStatus::SpawnError), "chrond: backup could not start");
    assert_eq!(title(RunStatus::SkippedOverlap), "chrond: backup skipped (overlap)");
    assert_eq!(title(RunStatus::Succeeded), "chrond: backup succeeded");
}

#[test]
fn message_quotes_the_last_300_characters() {
    let mut r = record(RunStatus::Failed);
    r.output_tail = format!("{}{}", "あ".repeat(10), "b".repeat(300));
    let (_, body, _) = build_message(&r);
    assert!(body.ends_with(&format!("\n{}", "b".repeat(300))));
    r.output_tail = format!("あ{}", "b".repeat(299));
    let (_, body, _) = build_message(&r);
    assert!(body.ends_with(&format!("\nあ{}", "b".repeat(299))));
}

#[test]
fn negative_exit_codes_are_shown() {
    let mut r = record(RunStatus::Failed);
    r.exit_code = Some(i32::MIN);
    let (_, body, _) = build_message(&r);
    assert!(body.contains(", exit -2147483648, took"));
}

#[test]
fn notification_follows_the_policy() {
    let failed = record(RunStatus::Failed);
    assert!(notification(NotifyPolicy::Never, &failed).is_none());
    let (title, _, priority) = notification(NotifyPolicy::OnFailure, &failed).unwrap();
    assert_eq!(title, "chrond: backup FAILED");
    assert_eq!(priority, "high");
    assert!(notification(NotifyPolicy::OnFailure, &record(RunStatus::Succeeded)).is_none());
}

#[test]
fn failures_notify_first_and_with_high_priority() {
    let all = [
        RunStatus::Succeeded,
        RunStatus::Failed,
        RunStatus::Timeout,
        RunStatus::Missed,
        RunStatus::SkippedOverlap,
        RunStatus::SpawnError,
    ];
    for s in all {
        let on_failure = should_notify(NotifyPolicy::OnFailure, s);
        assert!(!on_failure || should_notify(NotifyPolicy::Always, s));
        assert_eq!(on_failure, build_message(&record(s)).2 == "high");
    }
}

struct Deaf;

impl Notifier for Deaf {
    fn notify(&self, title: &str, _body: &str, _priority: &str) -> Result<(), String> {
        Err(format!("cannot send {title}"))
    }
}

#[test]
fn a_notifier_can_be_any_transport() {
    let n: Box<dyn Notifier> = Box::new(Deaf);
    assert_eq!(n.notify("t", "b", "high").unwrap_err(), "cannot send t");
}
