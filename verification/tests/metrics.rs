use chrond::history::RunStatus;
use chrond::metrics::{response, Registry};

#[test]
fn render_counts_by_status() {
    let mut r = Registry::new();
    r.record("backup", RunStatus::Succeeded, Some(1200), Some(0));
    r.record("backup", RunStatus::Succeeded, Some(900), Some(0));
    r.record("backup", RunStatus::Failed, Some(50), Some(3));
    r.record("cleanup", RunStatus::Missed, None, None);
    let text = r.render();
    assert!(text.contains("chrond_job_runs_total{job=\"backup\",status=\"ok\"} 2"));
    assert!(text.contains("chrond_job_runs_total{job=\"backup\",status=\"failed\"} 1"));
    assert!(text.contains("chrond_job_runs_total{job=\"cleanup\",status=\"missed\"} 1"));
    assert!(text.contains("chrond_job_last_exit_code{job=\"backup\"} 3"));
    assert!(text.contains("chrond_jobs 2"));
    // A missed occurrence must not set a last-run timestamp.
    assert!(!text.contains("chrond_job_last_run_timestamp_seconds{job=\"cleanup\"}"));
}

#[test]
fn record_reads_the_clock() {
    let mut r = Registry::new();
    r.record("a", RunStatus::Succeeded, None, Some(0));
    let text = r.render();
    let line = text
        .lines()
        .find(|l| l.starts_with("chrond_job_last_run_timestamp_seconds{job=\"a\"} "))
        .unwrap();
    let seconds: u64 = line.rsplit(' ').next().unwrap().parse().unwrap();
    // 2020-01-01
    assert!(seconds > 1_577_836_800);
}

#[test]
fn rendered_text_is_exact() {
    let mut r = Registry::new();
    r.record_at("b", RunStatus::Timeout, Some(50), None, Some(1700000000));
    r.record_at("a", RunStatus::Missed, None, None, Some(9));
    r.record_at("b", RunStatus::Failed, Some(1250), Some(-3), Some(1700000060));
    r.record_at("b", RunStatus::SkippedOverlap, None, None, None);
    assert_eq!(
        r.render(),
        "# HELP chrond_job_runs_total Schedule occurrences accounted for, by job and status.\n\
         # TYPE chrond_job_runs_total counter\n\
         chrond_job_runs_total{job=\"a\",status=\"missed\"} 1\n\
         chrond_job_runs_total{job=\"b\",status=\"failed\"} 1\n\
         chrond_job_runs_total{job=\"b\",status=\"skipped_overlap\"} 1\n\
         chrond_job_runs_total{job=\"b\",status=\"timeout\"} 1\n\
         # HELP chrond_job_last_run_timestamp_seconds Unix time of the last execution per job.\n\
         # TYPE chrond_job_last_run_timestamp_seconds gauge\n\
         chrond_job_last_run_timestamp_seconds{job=\"b\"} 1700000060\n\
         # HELP chrond_job_last_run_duration_seconds Duration of the last execution per job.\n\
         # TYPE chrond_job_last_run_duration_seconds gauge\n\
         chrond_job_last_run_duration_seconds{job=\"b\"} 1.25\n\
         # HELP chrond_job_last_exit_code Exit code of the last execution per job.\n\
         # TYPE chrond_job_last_exit_code gauge\n\
         chrond_job_last_exit_code{job=\"b\"} -3\n\
         chrond_jobs 2\n"
    );
}

#[test]
fn durations_are_shown_as_seconds() {
    for ms in [0u64, 1, 10, 50, 100, 120, 123, 999, 1000, 1200, 60_000, 123_456_789_012_340] {
        let mut r = Registry::new();
        r.record_at("j", RunStatus::Succeeded, Some(ms), Some(0), Some(1));
        let line = format!(
            "chrond_job_last_run_duration_seconds{{job=\"j\"}} {}\n",
            ms as f64 / 1000.0
        );
        assert!(r.render().contains(&line), "{ms}");
    }
}

#[test]
fn each_record_counts_once() {
    let mut r = Registry::new();
    assert_eq!(r.count("x", RunStatus::Succeeded), 0);
    for _ in 0..3 {
        r.record_at("x", RunStatus::Succeeded, Some(1), Some(0), Some(1));
    }
    r.record_at("x", RunStatus::SpawnError, Some(0), None, Some(2));
    r.record_at("y", RunStatus::Succeeded, Some(1), Some(0), Some(3));
    assert_eq!(r.count("x", RunStatus::Succeeded), 3);
    assert_eq!(r.count("x", RunStatus::SpawnError), 1);
    assert_eq!(r.count("x", RunStatus::Failed), 0);
    assert_eq!(r.count("y", RunStatus::Succeeded), 1);
}

#[test]
fn skipped_occurrence_keeps_the_last_run() {
    let mut r = Registry::new();
    r.record_at("x", RunStatus::Failed, Some(7), Some(2), Some(100));
    let before = r.render();
    r.record_at("x", RunStatus::SkippedOverlap, None, None, Some(200));
    let after = r.render();
    assert!(before.contains("timestamp_seconds{job=\"x\"} 100\n"));
    assert!(after.contains("timestamp_seconds{job=\"x\"} 100\n"));
    assert!(after.contains("duration_seconds{job=\"x\"} 0.007\n"));
    assert!(after.contains("exit_code{job=\"x\"} 2\n"));
}

#[test]
fn jobs_stand_in_the_order_of_their_bytes() {
    let mut names = ["ab", "a", "あ", "Z", "é", "b", "\u{10000}", "\u{ffff}"];
    let mut r = Registry::new();
    for n in names {
        r.record_at(n, RunStatus::Missed, None, None, None);
    }
    names.sort();
    let text = r.render();
    let shown: Vec<&str> = text
        .lines()
        .filter_map(|l| l.strip_prefix("chrond_job_runs_total{job=\""))
        .map(|l| l.split('"').next().unwrap())
        .collect();
    assert_eq!(shown, names);
}

#[test]
fn endpoint_serves_metrics_and_health() {
    let mut r = Registry::new();
    r.record_at("job1", RunStatus::Succeeded, Some(10), Some(0), Some(5));

    let metrics = response("GET /metrics HTTP/1.1\r\n", &r);
    assert!(metrics.starts_with("HTTP/1.1 200 OK"));
    assert!(metrics.contains("chrond_job_runs_total{job=\"job1\",status=\"ok\"} 1"));
    assert!(metrics.ends_with(&r.render()));
    assert!(metrics.contains(&format!("Content-Length: {}\r\n", r.render().len())));

    let health = response("GET /health HTTP/1.1\r\n", &r);
    assert_eq!(
        health,
        "HTTP/1.1 200 OK\r\nContent-Type: text/plain; charset=utf-8\r\nContent-Length: 3\r\nConnection: close\r\n\r\nok\n"
    );

    let missing = response("GET /nope HTTP/1.1\r\n", &r);
    assert!(missing.starts_with("HTTP/1.1 404"));
    assert!(missing.ends_with("not found\n"));
    assert!(response("GET", &r).starts_with("HTTP/1.1 404"));
    assert!(response("", &r).starts_with("HTTP/1.1 404"));
}

#[test]
fn content_length_counts_bytes() {
    let mut r = Registry::new();
    r.record_at("あ", RunStatus::Missed, None, None, None);
    let metrics = response("GET /metrics HTTP/1.1", &r);
    let body = r.render();
    assert!(body.len() > body.chars().count());
    assert!(metrics.contains(&format!("Content-Length: {}\r\n", body.len())));
}
