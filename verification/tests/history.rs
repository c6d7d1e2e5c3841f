use chrond::history::{exit_text, format_time, record_unrun, RunRecord, RunStatus, Store};
use chrond::scheduler::{JobState, States};
use chrond::time::DateTime;

fn dt(d: u32, h: u32, mi: u32) -> DateTime {
    DateTime::new(2026, 7, d, h, mi, 0).unwrap()
}

fn record(job: &str, day: u32, status: RunStatus) -> RunRecord {
    RunRecord {
        job: job.to_string(),
        scheduled: format_time(dt(day, 2, 15)),
        status,
        catchup: false,
        started: Some(format_time(dt(day, 2, 15))),
        finished: Some(format_time(dt(day, 2, 16))),
        duration_ms: Some(60_000),
        exit_code: Some(if status == RunStatus::Succeeded { 0 } else { 1 }),
        output_tail: "done".into(),
    }
}

fn records() -> Vec<RunRecord> {
    vec![
        record("backup", 5, RunStatus::Succeeded),
        record("backup", 6, RunStatus::Failed),
        record("cleanup", 6, RunStatus::Succeeded),
        record("backup", 7, RunStatus::Timeout),
    ]
}

#[test]
fn query_filters() {
    let backups = Store::query(records(), Some("backup"), None, false, None);
    assert_eq!(backups.len(), 3);

    let failed = Store::query(records(), None, None, true, None);
    assert_eq!(failed.len(), 2);
    assert!(failed.iter().all(|r| r.status.is_failure()));

    let since = Store::query(records(), Some("backup"), Some(dt(6, 0, 0)), false, None);
    assert_eq!(since.len(), 2);

    let limited = Store::query(records(), None, None, false, Some(2));
    assert_eq!(limited.len(), 2);
    assert_eq!(limited[1].job, "backup");
    assert_eq!(limited[1].status, RunStatus::Timeout);
}

#[test]
fn query_since_is_inclusive_and_skips_unreadable_times() {
    let mut all = records();
    all[3].scheduled = "yesterday".into();
    let kept = Store::query(all, None, Some(dt(6, 2, 15)), false, None);
    assert_eq!(kept.len(), 2);
    assert_eq!(kept[0].status, RunStatus::Failed);
    assert_eq!(kept[1].job, "cleanup");
}

#[test]
fn query_limit_zero_returns_nothing() {
    assert!(Store::query(records(), None, None, false, Some(0)).is_empty());
    assert_eq!(Store::query(records(), None, None, false, Some(9)).len(), 4);
}

#[test]
fn state_roundtrip() {
    let mut states = States::new();
    states.set("backup", JobState { last_scheduled: Some(dt(7, 2, 15)) });
    states.set("fresh", JobState::default());
    let saved = Store::save_states(&states);
    assert_eq!(
        saved,
        vec![
            ("backup".to_string(), Some("2026-07-07T02:15:00".to_string())),
            ("fresh".to_string(), None),
        ]
    );
    let loaded = Store::load_states(&saved);
    assert_eq!(loaded.len(), 2);
    assert_eq!(loaded.get("backup"), states.get("backup"));
    assert_eq!(loaded.get("fresh"), JobState::default());
}

#[test]
fn fractions_of_seconds_are_not_saved() {
    let t = DateTime { nanosecond: 123_456_789, ..dt(7, 2, 15) };
    let mut states = States::new();
    states.set("a", JobState { last_scheduled: Some(t) });
    let loaded = Store::load_states(&Store::save_states(&states));
    assert_eq!(loaded.get("a").last_scheduled, Some(dt(7, 2, 15)));
}

#[test]
fn unreadable_state_counts_as_none() {
    let entries = vec![
        ("a".to_string(), Some("not a time".to_string())),
        ("b".to_string(), Some("2026-02-30T00:00:00".to_string())),
    ];
    let loaded = Store::load_states(&entries);
    assert_eq!(loaded.len(), 2);
    assert_eq!(loaded.get("a"), JobState::default());
    assert_eq!(loaded.get("b"), JobState::default());
}

#[test]
fn later_entry_replaces_an_earlier_one() {
    let entries = vec![
        ("a".to_string(), Some("2026-07-01T00:00:00".to_string())),
        ("a".to_string(), Some("2026-07-02T00:00:00".to_string())),
    ];
    let loaded = Store::load_states(&entries);
    assert_eq!(loaded.len(), 1);
    assert_eq!(loaded.get("a").last_scheduled, Some(dt(2, 0, 0)));
    assert_eq!(loaded.get("missing"), JobState::default());
}

#[test]
fn store_paths() {
    let store = Store::new("/var/lib/chrond");
    assert_eq!(store.dir(), "/var/lib/chrond");
    assert_eq!(store.history_path(), "/var/lib/chrond/history.jsonl");
    assert_eq!(store.state_path(), "/var/lib/chrond/state.json");
    assert_eq!(store.state_tmp_path(), "/var/lib/chrond/state.json.tmp");
    assert_eq!(store.logs_dir(), "/var/lib/chrond/logs");
    assert_eq!(Store::new("state/").logs_dir(), "state/logs");
    assert_eq!(Store::new("").logs_dir(), "logs");
}

#[test]
fn status_names() {
    let names: Vec<&str> = [
        RunStatus::Succeeded,
        RunStatus::Failed,
        RunStatus::Timeout,
        RunStatus::Missed,
        RunStatus::SkippedOverlap,
        RunStatus::SpawnError,
    ]
    .iter()
    .map(|s| s.as_str())
    .collect();
    assert_eq!(
        names,
        ["ok", "failed", "timeout", "missed", "skipped_overlap", "spawn_error"]
    );
    assert!(!RunStatus::Missed.is_failure());
    assert!(RunStatus::SpawnError.is_failure());
}

#[test]
fn unrun_occurrences_are_recorded() {
    let r = record_unrun(&"tick".to_string(), dt(8, 4, 0), RunStatus::SkippedOverlap, true);
    assert_eq!(r.job, "tick");
    assert_eq!(r.scheduled, "2026-07-08T04:00:00");
    assert_eq!(r.status, RunStatus::SkippedOverlap);
    assert!(r.catchup);
    assert!(r.started.is_none() && r.finished.is_none());
    assert!(r.duration_ms.is_none() && r.exit_code.is_none());
    assert_eq!(r.output_tail, "");
}

#[test]
fn exit_codes_as_shown() {
    assert_eq!(exit_text(None), "-");
    assert_eq!(exit_text(Some(0)), "0");
    assert_eq!(exit_text(Some(-17)), "-17");
    assert_eq!(exit_text(Some(2147483647)), "2147483647");
}

#[test]
fn corrupt_history_lines_are_skipped() {
    let lines = vec![Some(record("backup", 6, RunStatus::Succeeded)), None];
    assert_eq!(Store::read_all(lines).len(), 1);
}

#[test]
fn records_are_read_oldest_first() {
    let lines = vec![
        None,
        Some(record("backup", 6, RunStatus::Succeeded)),
        None,
        Some(record("cleanup", 7, RunStatus::Failed)),
    ];
    let all = Store::read_all(lines);
    assert_eq!(all.len(), 2);
    assert_eq!(all[0].job, "backup");
    assert_eq!(all[1].status, RunStatus::Failed);
    assert!(Store::read_all(vec![]).is_empty());
}
