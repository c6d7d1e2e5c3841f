use chrond::crontab::{Crontab, Duration, OverlapPolicy};
use chrond::daemon::{
    finished_message, missed_message, pause, run_header, skipped_message, started_message,
    startup_jobs, tick, user_warnings, Action, Dispatch, Pause, Running, Todo,
};
use chrond::history::{RunRecord, RunStatus};
use chrond::scheduler::{JobState, States};
use chrond::time::DateTime;

fn dt(h: u32, mi: u32) -> DateTime {
    DateTime::new(2026, 7, 8, h, mi, 0).unwrap()
}

fn record() -> RunRecord {
    RunRecord {
        job: "tick".into(),
        scheduled: "2026-07-08T04:00:00".into(),
        status: RunStatus::Failed,
        catchup: true,
        started: Some("2026-07-08T04:01:00".into()),
        finished: None,
        duration_ms: Some(12),
        exit_code: Some(3),
        output_tail: String::new(),
    }
}

#[test]
fn skip_holds_back_a_running_job() {
    let mut running = Running::new();
    assert_eq!(running.dispatch("a", OverlapPolicy::Skip), Dispatch::Start);
    assert!(running.contains("a"));
    assert_eq!(running.dispatch("a", OverlapPolicy::Skip), Dispatch::Skip);
    assert_eq!(running.dispatch("b", OverlapPolicy::Skip), Dispatch::Start);
    running.finish("a");
    assert!(!running.contains("a"));
    assert!(running.contains("b"));
    assert_eq!(running.dispatch("a", OverlapPolicy::Skip), Dispatch::Start);
}

#[test]
fn allow_starts_another_instance() {
    let mut running = Running::new();
    assert_eq!(running.dispatch("a", OverlapPolicy::Allow), Dispatch::Start);
    assert_eq!(running.dispatch("a", OverlapPolicy::Allow), Dispatch::Start);
    running.finish("a");
    running.finish("a");
    assert!(!running.contains("a"));
}

#[test]
fn tick_lists_missed_runs_before_due_ones() {
    let tab = Crontab::parse(
        "#[chrond] name=h catchup=on max_catchup=1\n0 * * * * h\n@reboot r\n#[chrond] name=m\n0 4 * * * m\n",
        false,
    )
    .unwrap();
    let mut states = States::new();
    states.set("h", JobState { last_scheduled: Some(dt(1, 0)) });
    let now = DateTime::new(2026, 7, 8, 4, 0, 37).unwrap();
    let (todo, dirty) = tick(&tab.jobs, &mut states, now);
    assert_eq!(
        todo,
        [
            Todo { job: 0, action: Action::Missed(dt(2, 0)) },
            Todo { job: 0, action: Action::Run { at: dt(3, 0), catchup: true } },
            Todo { job: 0, action: Action::Run { at: dt(4, 0), catchup: false } },
        ]
    );
    assert!(dirty);
    assert_eq!(states.get("h").last_scheduled, Some(dt(4, 0)));
    // The job that is new only gets its baseline.
    assert_eq!(states.get("m").last_scheduled, Some(dt(4, 0)));
    assert_eq!(states.len(), 2);
}

#[test]
fn second_tick_in_the_same_minute_is_quiet() {
    let tab = Crontab::parse("* * * * * a\n#[chrond] catchup=on\n*/5 * * * * b\n", false).unwrap();
    let mut states = States::new();
    states.set("b-2", JobState { last_scheduled: Some(dt(1, 0)) });
    let (todo, dirty) = tick(&tab.jobs, &mut states, dt(2, 0));
    assert_eq!(todo.len(), 12);
    assert!(dirty);
    let later = DateTime::new(2026, 7, 8, 2, 0, 59).unwrap();
    let (todo, dirty) = tick(&tab.jobs, &mut states, later);
    assert!(todo.is_empty());
    assert!(!dirty);
    let (todo, dirty) = tick(&tab.jobs, &mut states, dt(2, 1));
    assert_eq!(
        todo,
        [Todo { job: 0, action: Action::Run { at: dt(2, 1), catchup: false } }]
    );
    assert!(dirty);
}

#[test]
fn reboot_jobs_run_at_startup() {
    let tab = Crontab::parse("@reboot a\n* * * * * b\n@reboot c\n", false).unwrap();
    assert_eq!(startup_jobs(&tab.jobs), [0, 2]);
}

#[test]
fn pauses_end_with_the_minute_or_the_run() {
    let next = dt(4, 1);
    let exit = Some(Duration::from_secs(90));
    assert_eq!(pause(89, exit, dt(4, 0), next), Pause::Sleep);
    assert_eq!(pause(89, exit, dt(4, 1), next), Pause::Tick);
    assert_eq!(pause(90, exit, dt(4, 1), next), Pause::Exit);
    assert_eq!(pause(u64::MAX, None, dt(4, 0), next), Pause::Sleep);
}

#[test]
fn log_lines() {
    assert_eq!(
        started_message("tick", dt(4, 0), true),
        "job tick started (scheduled 2026-07-08T04:00:00) (catch-up)"
    );
    assert_eq!(
        started_message("tick", dt(4, 0), false),
        "job tick started (scheduled 2026-07-08T04:00:00)"
    );
    assert_eq!(
        finished_message(&record()),
        "job tick finished: failed (exit 3, 12ms)"
    );
    let mut r = record();
    r.exit_code = None;
    r.duration_ms = None;
    assert_eq!(finished_message(&r), "job tick finished: failed (exit -, 0ms)");
    assert_eq!(
        skipped_message("tick"),
        "job tick skipped (previous run still in progress)"
    );
    assert_eq!(
        missed_message("tick", dt(4, 0)),
        "job tick missed occurrence 2026-07-08T04:00:00 (catch-up limit reached or disabled)"
    );
}

#[test]
fn run_headers() {
    assert_eq!(
        run_header(&record(), true),
        "2026-07-08T04:01:00 scheduled=2026-07-08T04:00:00 status=failed exit=3 duration=12ms catchup=true"
    );
    let mut r = record();
    r.started = None;
    r.exit_code = None;
    r.duration_ms = None;
    r.status = RunStatus::Timeout;
    assert_eq!(
        run_header(&r, false),
        " scheduled=2026-07-08T04:00:00 status=timeout exit=- duration=0ms"
    );
}

#[test]
fn other_users_are_warned_about() {
    let tab = Crontab::parse("* * * * * root a\n* * * * * me b\n", true).unwrap();
    assert_eq!(
        user_warnings(&tab.jobs, "me"),
        ["warning: job a-1 declares user 'root' but chrond runs every job as 'me' (the user column is parsed for /etc/crontab compatibility only)"]
    );
    assert!(user_warnings(&tab.jobs, "").is_empty());
}
