use chrond::crontab::{Crontab, Duration, JobSpec};
use chrond::history::RunStatus;
use chrond::runner::{
    classify, combine, combine_output, conclude, finish_run, job_env, shell_of, spawn_failure, tail,
    wait_step, Ending, Poll, Wait,
};
use chrond::time::DateTime;

fn scheduled() -> DateTime {
    DateTime::new(2026, 7, 8, 2, 15, 0).unwrap()
}

fn job(line: &str) -> JobSpec {
    Crontab::parse(line, false).unwrap().jobs.remove(0)
}

fn ending(timed_out: bool, exit_code: Option<i32>) -> Ending {
    Ending {
        started: scheduled(),
        finished: DateTime::new(2026, 7, 8, 2, 15, 3).unwrap(),
        duration_ms: 3021,
        timed_out,
        exit_code,
    }
}

fn pairs(list: &[(&str, &str)]) -> Vec<(String, String)> {
    list.iter().map(|(k, v)| (k.to_string(), v.to_string())).collect()
}

#[test]
fn tail_truncates_on_char_boundary() {
    let s = "あいうえお".repeat(100);
    let t = tail(&s, 32);
    assert!(t.len() <= 40);
    assert!(t.starts_with("..."));
}

#[test]
fn tail_keeps_as_much_as_fits() {
    assert_eq!(tail("abcdef", 6), "abcdef");
    assert_eq!(tail("abcdef", 5), "...bcdef");
    assert_eq!(tail("aあb", 4), "...あb");
    assert_eq!(tail("aあb", 3), "...b");
    assert_eq!(tail("あ", 2), "...");
    assert_eq!(tail("", 0), "");
    let t = tail(&"あいうえお".repeat(100), 32);
    assert_eq!(t, format!("...{}", "あいうえおあいうえお".chars().collect::<String>()));
}

#[test]
fn outputs_are_combined_on_separate_lines() {
    assert_eq!(combine("out", "err"), "out\nerr");
    assert_eq!(combine("out\n", "err"), "out\nerr");
    assert_eq!(combine("", "err"), "err");
    assert_eq!(combine("out", ""), "out");
    assert_eq!(combine("", ""), "");
}

#[test]
fn bytes_are_decoded() {
    assert_eq!(combine_output("héllo".as_bytes(), b"boom\n"), "héllo\nboom\n");
    let bad = combine_output(&[b'a', 0xff, b'b'], b"");
    assert_eq!(bad, "a\u{fffd}b");
}

#[test]
fn successful_process_is_recorded() {
    let spec = job("* * * * * echo hello-from-job\n");
    let out = finish_run(&spec, scheduled(), false, ending(false, Some(0)), b"hello-from-job\n", b"");
    assert_eq!(out.record.status, RunStatus::Succeeded);
    assert_eq!(out.record.exit_code, Some(0));
    assert_eq!(out.record.output_tail, "hello-from-job");
    assert_eq!(out.full_output, "hello-from-job\n");
    assert_eq!(out.record.job, "echo-1");
    assert_eq!(out.record.scheduled, "2026-07-08T02:15:00");
    assert_eq!(out.record.started.as_deref(), Some("2026-07-08T02:15:00"));
    assert_eq!(out.record.finished.as_deref(), Some("2026-07-08T02:15:03"));
    assert_eq!(out.record.duration_ms, Some(3021));
    assert!(!out.record.catchup);
}

#[test]
fn failed_process_keeps_exit_code_and_stderr() {
    let spec = job("* * * * * x\n");
    let out = finish_run(&spec, scheduled(), true, ending(false, Some(3)), b"", b"boom\n");
    assert_eq!(out.record.status, RunStatus::Failed);
    assert_eq!(out.record.exit_code, Some(3));
    assert_eq!(out.record.output_tail, "boom");
    assert!(out.record.catchup);
}

#[test]
fn long_output_is_capped_in_the_record_only() {
    let spec = job("* * * * * x\n");
    let output = "y".repeat(10_000);
    let out = conclude(&spec, scheduled(), false, ending(false, Some(0)), output.clone());
    assert_eq!(out.record.output_tail.len(), 3 + 8192);
    assert!(out.record.output_tail.starts_with("...y"));
    assert_eq!(out.full_output, output);
}

#[test]
fn statuses_of_processes() {
    assert_eq!(classify(true, Some(0)), RunStatus::Timeout);
    assert_eq!(classify(true, None), RunStatus::Timeout);
    assert_eq!(classify(false, Some(0)), RunStatus::Succeeded);
    assert_eq!(classify(false, Some(1)), RunStatus::Failed);
    assert_eq!(classify(false, None), RunStatus::Failed);
}

#[test]
fn spawn_error_is_recorded() {
    let spec = job("* * * * * whatever\n");
    let t = scheduled();
    let out = spawn_failure(&spec, t, false, t, t, "/nonexistent/shell", "No such file");
    assert_eq!(out.record.status, RunStatus::SpawnError);
    assert_eq!(
        out.record.output_tail,
        "failed to spawn '/nonexistent/shell': No such file"
    );
    assert_eq!(out.record.duration_ms, Some(0));
    assert_eq!(out.record.exit_code, None);
    assert_eq!(out.full_output, "");
}

#[test]
fn last_shell_wins() {
    assert_eq!(shell_of(&pairs(&[])), "/bin/sh");
    assert_eq!(
        shell_of(&pairs(&[("SHELL", "/bin/a"), ("X", "1"), ("SHELL", "/bin/b"), ("Y", "2")])),
        "/bin/b"
    );
}

#[test]
fn job_environment_has_its_context_last() {
    let env = pairs(&[("SHELL", "/bin/bash"), ("GREETING", "konnichiwa"), ("CHROND_JOB", "fake")]);
    assert_eq!(
        job_env(&env, "nightly", scheduled()),
        pairs(&[
            ("GREETING", "konnichiwa"),
            ("CHROND_JOB", "fake"),
            ("SHELL", "/bin/bash"),
            ("CHROND_JOB", "nightly"),
            ("CHROND_SCHEDULED", "2026-07-08T02:15:00"),
        ])
    );
}

#[test]
fn waiting_ends_at_the_limit() {
    let limit = Some(Duration::from_secs(2));
    assert_eq!(wait_step(Poll::Running, 1, limit), Wait::Sleep);
    assert_eq!(wait_step(Poll::Running, 2, limit), Wait::Kill);
    assert_eq!(wait_step(Poll::Running, u64::MAX, None), Wait::Sleep);
    assert_eq!(wait_step(Poll::Exited, 9, limit), Wait::Finish);
    assert_eq!(wait_step(Poll::Lost, 0, None), Wait::Finish);
}

#[test]
fn empty_pipes_give_an_empty_output() {
    let spec = job("* * * * * x\n");
    let out = finish_run(&spec, scheduled(), false, ending(false, Some(0)), b"", b"");
    assert_eq!(out.full_output, "");
    assert_eq!(out.record.output_tail, "");
}
