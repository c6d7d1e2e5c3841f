use chrond::crontab::{Crontab, JobSpec};
use chrond::scheduler::{plan, JobState};
use chrond::time::DateTime;

fn dt(y: i32, mo: u32, d: u32, h: u32, mi: u32) -> DateTime {
    DateTime::new(y, mo, d, h, mi, 0).unwrap()
}

fn job(crontab_snippet: &str) -> JobSpec {
    Crontab::parse(crontab_snippet, false)
        .unwrap()
        .jobs
        .remove(0)
}

#[test]
fn first_sighting_initializes_state_without_running() {
    let spec = job("* * * * * echo hi\n");
    let p = plan(&spec, &JobState::default(), dt(2026, 7, 8, 10, 30));
    assert!(p.run.is_empty());
    assert!(p.missed.is_empty());
    assert_eq!(p.new_last_scheduled, Some(dt(2026, 7, 8, 10, 30)));
}

#[test]
fn due_now_runs() {
    let spec = job("30 10 * * * echo hi\n");
    let state = JobState {
        last_scheduled: Some(dt(2026, 7, 8, 10, 29)),
    };
    let p = plan(&spec, &state, dt(2026, 7, 8, 10, 30));
    assert_eq!(p.run, vec![dt(2026, 7, 8, 10, 30)]);
    assert!(p.missed.is_empty());
    assert_eq!(p.new_last_scheduled, Some(dt(2026, 7, 8, 10, 30)));
}

#[test]
fn nothing_due_keeps_state() {
    let spec = job("0 0 * * * echo hi\n");
    let state = JobState {
        last_scheduled: Some(dt(2026, 7, 8, 0, 0)),
    };
    let p = plan(&spec, &state, dt(2026, 7, 8, 10, 30));
    assert!(p.run.is_empty());
    assert!(p.missed.is_empty());
    assert_eq!(p.new_last_scheduled, Some(dt(2026, 7, 8, 0, 0)));
}

#[test]
fn missed_without_catchup_is_recorded_not_run() {
    // Daily 02:15 job, daemon was down for 26 hours.
    let spec = job("15 2 * * * backup.sh\n");
    let state = JobState {
        last_scheduled: Some(dt(2026, 7, 7, 2, 15)),
    };
    let p = plan(&spec, &state, dt(2026, 7, 8, 4, 15));
    assert!(p.run.is_empty());
    assert_eq!(p.missed, vec![dt(2026, 7, 8, 2, 15)]);
    assert_eq!(p.new_last_scheduled, Some(dt(2026, 7, 8, 2, 15)));
}

#[test]
fn missed_with_catchup_runs() {
    let spec = job("#[chrond] catchup=on\n15 2 * * * backup.sh\n");
    let state = JobState {
        last_scheduled: Some(dt(2026, 7, 7, 2, 15)),
    };
    let p = plan(&spec, &state, dt(2026, 7, 8, 4, 15));
    assert_eq!(p.run, vec![dt(2026, 7, 8, 2, 15)]);
    assert!(p.missed.is_empty());
}

#[test]
fn catchup_capped_by_max_catchup_keeps_newest() {
    // Hourly job, down for 5 hours, max_catchup=2: run the 2 newest
    // missed occurrences, record the 2 oldest as missed.
    let spec = job("#[chrond] catchup=on max_catchup=2\n0 * * * * tick\n");
    let state = JobState {
        last_scheduled: Some(dt(2026, 7, 8, 0, 0)),
    };
    let p = plan(&spec, &state, dt(2026, 7, 8, 4, 30));
    assert_eq!(p.run, vec![dt(2026, 7, 8, 3, 0), dt(2026, 7, 8, 4, 0)]);
    assert_eq!(p.missed, vec![dt(2026, 7, 8, 1, 0), dt(2026, 7, 8, 2, 0)]);
    assert_eq!(p.new_last_scheduled, Some(dt(2026, 7, 8, 4, 0)));
}

#[test]
fn catchup_plus_due_now() {
    // Hourly job, down since 01:30, planning exactly at 04:00: catch up
    // 02:00 and 03:00 (max 2 by default -> only 03:00), plus run 04:00.
    let spec = job("#[chrond] catchup=on max_catchup=1\n0 * * * * tick\n");
    let state = JobState {
        last_scheduled: Some(dt(2026, 7, 8, 1, 0)),
    };
    let p = plan(&spec, &state, dt(2026, 7, 8, 4, 0));
    assert_eq!(p.run, vec![dt(2026, 7, 8, 3, 0), dt(2026, 7, 8, 4, 0)]);
    assert_eq!(p.missed, vec![dt(2026, 7, 8, 2, 0)]);
}

#[test]
fn occurrence_flood_is_capped() {
    let spec = job("#[chrond] catchup=on\n* * * * * tick\n");
    // Down for a year: ~525k occurrences, capped at 1000.
    let state = JobState {
        last_scheduled: Some(dt(2025, 7, 8, 0, 0)),
    };
    let p = plan(&spec, &state, dt(2026, 7, 8, 0, 0));
    assert_eq!(p.run.len(), 1);
    assert!(p.missed.len() < 1001);
    // State advances so the next pass makes progress.
    assert!(p.new_last_scheduled.unwrap() > dt(2025, 7, 8, 0, 0));
}

#[test]
fn seconds_are_ignored() {
    let spec = job("30 10 * * * echo hi\n");
    let state = JobState {
        last_scheduled: Some(dt(2026, 7, 8, 10, 29)),
    };
    let now = DateTime::new(2026, 7, 8, 10, 30, 42).unwrap();
    let p = plan(&spec, &state, now);
    assert_eq!(p.run, vec![dt(2026, 7, 8, 10, 30)]);
}

#[test]
fn passes_account_for_each_occurrence_once() {
    let spec = job("#[chrond] catchup=on max_catchup=100\n*/7 * * * * tick\n");
    let start = dt(2026, 7, 8, 0, 0);
    let end = dt(2026, 7, 8, 6, 0);
    let one = plan(&spec, &JobState { last_scheduled: Some(start) }, end);

    let mut cut: Vec<DateTime> = Vec::new();
    let mut state = JobState { last_scheduled: Some(start) };
    for h in 1..=6 {
        let p = plan(&spec, &state, dt(2026, 7, 8, h, 0));
        cut.extend(p.missed);
        cut.extend(p.run);
        state.last_scheduled = p.new_last_scheduled;
    }
    assert_eq!(one.run, cut);
    assert_eq!(one.run.len(), 54);
    assert_eq!(one.new_last_scheduled, state.last_scheduled);
}

#[test]
fn second_pass_at_the_same_time_does_nothing() {
    let spec = job("#[chrond] catchup=on\n0 * * * * tick\n");
    let now = dt(2026, 7, 8, 4, 0);
    let first = plan(&spec, &JobState { last_scheduled: Some(dt(2026, 7, 8, 1, 0)) }, now);
    let state = JobState { last_scheduled: first.new_last_scheduled };
    let second = plan(&spec, &state, now);
    assert!(second.run.is_empty() && second.missed.is_empty());
    assert_eq!(second.new_last_scheduled, first.new_last_scheduled);
}

#[test]
fn capped_pass_records_the_oldest_occurrences() {
    let spec = job("* * * * * tick\n");
    let from = dt(2025, 7, 8, 0, 0);
    let p = plan(&spec, &JobState { last_scheduled: Some(from) }, dt(2026, 7, 8, 0, 0));
    assert_eq!(p.missed.len(), 1000);
    assert!(p.run.is_empty());
    assert_eq!(p.missed[0], dt(2025, 7, 8, 0, 1));
    assert_eq!(p.new_last_scheduled, Some(dt(2025, 7, 8, 16, 40)));
}

#[test]
fn current_minute_runs_with_and_without_catchup() {
    let now = dt(2026, 7, 8, 4, 0);
    let state = JobState { last_scheduled: Some(dt(2026, 7, 8, 0, 0)) };
    let p = plan(&job("0 * * * * tick\n"), &state, now);
    assert_eq!(p.run, vec![now]);
    assert_eq!(p.missed.len(), 3);
    let p = plan(&job("#[chrond] catchup=on max_catchup=9\n0 * * * * tick\n"), &state, now);
    assert_eq!(p.run.len(), 4);
    assert_eq!(p.run[3], now);
    assert!(p.missed.is_empty());
}

#[test]
fn current_minute_is_the_last_that_fits_into_a_pass() {
    let spec = job("* * * * * tick\n");
    let state = JobState { last_scheduled: Some(dt(2026, 7, 8, 0, 0)) };
    // The thousandth minute is the current one: 999 older ones are missed.
    let p = plan(&spec, &state, dt(2026, 7, 8, 16, 40));
    assert_eq!(p.missed.len(), 999);
    assert_eq!(p.run, vec![dt(2026, 7, 8, 16, 40)]);
    // One minute later a thousand older ones fill the pass.
    let p = plan(&spec, &state, dt(2026, 7, 8, 16, 41));
    assert_eq!(p.missed.len(), 1000);
    assert!(p.run.is_empty());
}

#[test]
fn old_state_does_not_keep_the_current_minute_out() {
    let spec = job("0 0 1 1 * yearly\n");
    let state = JobState { last_scheduled: Some(dt(2016, 1, 1, 0, 0)) };
    let now = dt(2026, 1, 1, 0, 0);
    let p = plan(&spec, &state, now);
    assert_eq!(p.run, vec![now]);
    assert_eq!(p.missed.len(), 9);
}
