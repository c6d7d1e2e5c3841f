use chrond::crontab::{parse_duration, parse_size, Crontab, Duration, NotifyPolicy, OverlapPolicy};

#[test]
fn parses_env_jobs_and_comments() {
    let content = "\
# a comment
SHELL=/bin/sh
PATH=/usr/bin:/bin

15 2 * * * /usr/local/bin/backup.sh --full
@hourly echo hourly-tick
";
    let tab = Crontab::parse(content, false).unwrap();
    assert_eq!(
        tab.env,
        vec![
            ("SHELL".to_string(), "/bin/sh".to_string()),
            ("PATH".to_string(), "/usr/bin:/bin".to_string()),
        ]
    );
    assert_eq!(tab.jobs.len(), 2);
    assert_eq!(tab.jobs[0].command, "/usr/local/bin/backup.sh --full");
    assert_eq!(tab.jobs[0].name, "backup.sh-1");
    assert_eq!(tab.jobs[1].command, "echo hourly-tick");
}

#[test]
fn parses_annotation() {
    let content = "\
#[chrond] name=nightly timeout=30m overlap=skip catchup=on max_catchup=3 notify=always log_max=512K log_keep=7
15 2 * * * backup.sh
5 * * * * other.sh
";
    let tab = Crontab::parse(content, false).unwrap();
    let j = &tab.jobs[0];
    assert_eq!(j.name, "nightly");
    assert_eq!(j.timeout, Some(Duration::from_secs(1800)));
    assert_eq!(j.overlap, OverlapPolicy::Skip);
    assert!(j.catchup);
    assert_eq!(j.max_catchup, 3);
    assert_eq!(j.notify, NotifyPolicy::Always);
    assert_eq!(j.log_max_bytes, 512 * 1024);
    assert_eq!(j.log_keep, 7);
    // The annotation applies only to the next job line.
    let k = &tab.jobs[1];
    assert!(!k.catchup);
    assert_eq!(k.overlap, OverlapPolicy::Allow);
    assert_eq!(k.notify, NotifyPolicy::OnFailure);
}

#[test]
fn system_mode_parses_user_column() {
    let content = "17 * * * * root cd / && run-parts /etc/cron.hourly\n";
    let tab = Crontab::parse(content, true).unwrap();
    assert_eq!(tab.jobs[0].user.as_deref(), Some("root"));
    assert_eq!(tab.jobs[0].command, "cd / && run-parts /etc/cron.hourly");
}

#[test]
fn user_mode_keeps_full_command() {
    let content = "17 * * * * root cd / && run-parts /etc/cron.hourly\n";
    let tab = Crontab::parse(content, false).unwrap();
    assert_eq!(tab.jobs[0].user, None);
    assert_eq!(
        tab.jobs[0].command,
        "root cd / && run-parts /etc/cron.hourly"
    );
}

#[test]
fn rejects_duplicate_names() {
    let content = "\
#[chrond] name=x
* * * * * a
#[chrond] name=x
* * * * * b
";
    let err = Crontab::parse(content, false).unwrap_err();
    assert!(err.message.contains("duplicate"));
}

#[test]
fn reports_line_numbers() {
    let content = "# ok\n\n61 * * * * boom\n";
    let err = Crontab::parse(content, false).unwrap_err();
    assert_eq!(err.line, 3);
}

#[test]
fn rejects_missing_command() {
    let err = Crontab::parse("* * * * *\n", false).unwrap_err();
    assert!(err.message.contains("missing command"));
}

#[test]
fn rejects_bad_annotation() {
    assert!(Crontab::parse("#[chrond] overlap=maybe\n* * * * * x\n", false).is_err());
    assert!(Crontab::parse("#[chrond] nope=1\n* * * * * x\n", false).is_err());
    assert!(Crontab::parse("#[chrond] timeout=fast\n* * * * * x\n", false).is_err());
    assert!(Crontab::parse("#[chrond] max_catchup=0\n* * * * * x\n", false).is_err());
}

#[test]
fn duration_and_size_parsers() {
    assert_eq!(parse_duration("30s").unwrap(), Duration::from_secs(30));
    assert_eq!(parse_duration("5m").unwrap(), Duration::from_secs(300));
    assert_eq!(parse_duration("2h").unwrap(), Duration::from_secs(7200));
    assert_eq!(parse_duration("1d").unwrap(), Duration::from_secs(86400));
    assert_eq!(parse_duration("45").unwrap(), Duration::from_secs(45));
    assert!(parse_duration("abc").is_err());
    assert_eq!(parse_size("512K").unwrap(), 512 * 1024);
    assert_eq!(parse_size("1M").unwrap(), 1024 * 1024);
    assert_eq!(parse_size("100").unwrap(), 100);
    assert!(parse_size("1X").is_err());
}

#[test]
fn env_line_with_quotes() {
    let tab = Crontab::parse("MAILTO=\"ops@example.com\"\n", false).unwrap();
    assert_eq!(tab.env[0].1, "ops@example.com");
}

fn error(content: &str) -> (usize, String) {
    let e = Crontab::parse(content, false).unwrap_err();
    (e.line, e.message)
}

#[test]
fn every_crontab_error_names_its_line() {
    assert_eq!(
        error("# fine\n61 * * * * boom\n"),
        (
            2,
            "invalid cron expression: value out of range in '61' (allowed 0-59)".to_string()
        )
    );
    assert_eq!(
        error("* * * * *\n"),
        (1, "missing command after schedule".to_string())
    );
    assert_eq!(
        error("#[chrond] broken\n"),
        (1, "annotation token 'broken' is not key=value".to_string())
    );
    assert_eq!(
        error("#[chrond] name=a/b\n"),
        (
            1,
            "job name 'a/b' must be non-empty [A-Za-z0-9._-]".to_string()
        )
    );
    assert_eq!(
        error("#[chrond] overlap=maybe\n"),
        (1, "overlap must be allow|skip, got 'maybe'".to_string())
    );
    assert_eq!(
        error("#[chrond] catchup=perhaps\n"),
        (1, "catchup must be on|off, got 'perhaps'".to_string())
    );
    assert_eq!(
        error("#[chrond] max_catchup=0\n"),
        (1, "max_catchup must be >= 1".to_string())
    );
    assert_eq!(
        error("#[chrond] max_catchup=x\n"),
        (1, "max_catchup must be a number, got 'x'".to_string())
    );
    assert_eq!(
        error("#[chrond] notify=loud\n"),
        (
            1,
            "notify must be never|on_failure|always, got 'loud'".to_string()
        )
    );
    assert_eq!(
        error("#[chrond] log_keep=-1\n"),
        (1, "log_keep must be a number, got '-1'".to_string())
    );
    assert_eq!(
        error("#[chrond] log_max=1X\n"),
        (1, "invalid size '1X' (use e.g. 512K, 1M)".to_string())
    );
    assert_eq!(
        error("#[chrond] nope=1\n"),
        (1, "unknown annotation key 'nope'".to_string())
    );
    assert_eq!(
        error("#[chrond] name=x\n* * * * * a\n\n#[chrond] name=x\n* * * * * b\n"),
        (
            5,
            "duplicate job name 'x' (set a unique name= annotation)".to_string()
        )
    );
}

#[test]
fn system_errors_name_the_missing_column() {
    let e = Crontab::parse("* * * * * root\n", true).unwrap_err();
    assert_eq!(e.message, "missing command after user column (system crontab)");
    assert_eq!(
        e.describe(),
        "line 1: missing command after user column (system crontab)"
    );
}

#[test]
fn accepted_jobs_have_sound_fields() {
    let tab = Crontab::parse(
        "* * * * * /usr/bin/a.sh\n\n@daily b\n#[chrond] max_catchup=9\n* * * * * (c)\n* * * * * !!!\n",
        false,
    )
    .unwrap();
    let names: Vec<&str> = tab.jobs.iter().map(|j| j.name.as_str()).collect();
    assert_eq!(names, ["a.sh-1", "b-2", "c-3", "job4"]);
    let lines: Vec<usize> = tab.jobs.iter().map(|j| j.line).collect();
    assert_eq!(lines, [1, 3, 5, 6]);
    assert_eq!(tab.jobs[0].max_catchup, 1);
    assert_eq!(tab.jobs[2].max_catchup, 9);
    assert_eq!(tab.jobs[0].log_max_bytes, 1024 * 1024);
    assert_eq!(tab.jobs[0].log_keep, 4);
    assert_eq!(tab.jobs[1].schedule_str, "@daily");
}

#[test]
fn annotation_waits_for_its_job() {
    let tab = Crontab::parse(
        "#[chrond] catchup=yes\n# a comment\nKEY='v'\nQUOTE=\"\n* * * * * a\n",
        false,
    )
    .unwrap();
    assert!(tab.jobs[0].catchup);
    // Only double quotes around a value are taken off.
    assert_eq!(tab.env[0], ("KEY".to_string(), "'v'".to_string()));
    assert_eq!(tab.env[1], ("QUOTE".to_string(), "\"".to_string()));
}

#[test]
fn durations_and_sizes_that_do_not_fit_are_errors() {
    assert_eq!(
        parse_duration("99999999999999999d").unwrap_err(),
        "invalid duration '99999999999999999d'"
    );
    assert_eq!(parse_duration(" ").unwrap_err(), "empty duration");
    assert_eq!(
        parse_duration("5x").unwrap_err(),
        "invalid duration '5x' (use e.g. 30s, 5m, 2h, 1d)"
    );
    assert_eq!(parse_duration("-5s").unwrap_err(), "invalid duration '-5s'");
    assert_eq!(
        parse_size("99999999999999G").unwrap_err(),
        "invalid size '99999999999999G'"
    );
    assert_eq!(parse_size("").unwrap_err(), "empty size");
    assert_eq!(parse_duration("18446744073709551615").unwrap().as_secs(), u64::MAX);
    assert_eq!(parse_size("2g").unwrap(), 2 * 1024 * 1024 * 1024);
}

#[test]
fn seconds_are_read_back() {
    for n in [0u64, 9, 10, 86399, u64::MAX] {
        assert_eq!(parse_duration(&n.to_string()).unwrap().as_secs(), n);
    }
}

#[test]
fn carriage_returns_end_lines_too() {
    let tab = Crontab::parse("A=1\r\n* * * * * x y \r\n", false).unwrap();
    assert_eq!(tab.env[0].1, "1");
    assert_eq!(tab.jobs[0].command, "x y");
}

#[test]
fn empty_crontab_is_accepted() {
    let tab = Crontab::parse("", false).unwrap();
    assert!(tab.jobs.is_empty());
    assert!(tab.env.is_empty());
    let d = Crontab::default();
    assert!(d.jobs.is_empty() && d.env.is_empty());
}

#[test]
fn annotations_join_field_by_field() {
    let job = |annotation: &str| {
        Crontab::parse(&format!("#[chrond] {annotation}\n* * * * * x\n"), false)
            .map(|mut tab| tab.jobs.remove(0))
    };
    let first = "name=a timeout=5m overlap=skip log_keep=2";
    let second = "name=b catchup=on timeout=1h";
    let j = job(&format!("{first} {second}")).unwrap();
    assert_eq!(j.name, "b");
    assert_eq!(j.timeout, Some(Duration::from_secs(3600)));
    assert_eq!(j.overlap, OverlapPolicy::Skip);
    assert!(j.catchup);
    assert_eq!(j.log_keep, 2);
    assert_eq!(j.max_catchup, 1);
    assert!(job(&format!("{first} name=/")).is_err());
    assert_eq!(
        job(&format!("bad {first} worse")).unwrap_err().message,
        "annotation token 'bad' is not key=value"
    );
}

#[test]
fn default_names_never_clash() {
    let tab = Crontab::parse(
        "* * * * * a-1\n* * * * * a\n* * * * * job\n* * * * * ?\n* * * * * ?\n",
        false,
    )
    .unwrap();
    let names: Vec<&str> = tab.jobs.iter().map(|j| j.name.as_str()).collect();
    assert_eq!(names, ["a-1-1", "a-2", "job-3", "job4", "job5"]);
}

#[test]
fn lines_after_an_error_are_not_read() {
    let first = error("A=1\n61 * * * * x\n");
    assert_eq!(first.0, 2);
    assert_eq!(error("A=1\n61 * * * * x\n#[chrond] broken\n* * * * *\n"), first);
}

#[test]
fn silent_lines_move_line_numbers_only() {
    let plain = "A=1\n#[chrond] name=n\n* * * * * x\n@daily y\n";
    let spaced = "A=1\n\n  # note\n#[chrond] name=n\n# [chrond] name=no\n* * * * * x\n\t\n@daily y\n";
    let a = Crontab::parse(plain, false).unwrap();
    let b = Crontab::parse(spaced, false).unwrap();
    assert_eq!(a.env, b.env);
    let shown = |tab: &Crontab| -> Vec<(String, String, usize)> {
        tab.jobs
            .iter()
            .map(|j| (j.name.clone(), j.command.clone(), j.line))
            .collect()
    };
    assert_eq!(
        shown(&a),
        [("n".into(), "x".into(), 3), ("y-2".into(), "y".into(), 4)]
    );
    assert_eq!(
        shown(&b),
        [("n".into(), "x".into(), 6), ("y-2".into(), "y".into(), 8)]
    );
    let (line, message) = error("A=1\n* * * * *\n");
    assert_eq!(error("A=1\n#\n\n* * * * *\n"), (line + 2, message));
}

#[test]
fn commands_are_trimmed_and_users_only_in_system_mode() {
    let line = " * * * * *   root \t  run  it \t\n";
    let system = Crontab::parse(line, true).unwrap().jobs.remove(0);
    assert_eq!(system.user.as_deref(), Some("root"));
    assert_eq!(system.command, "run  it");
    let user = Crontab::parse(line, false).unwrap().jobs.remove(0);
    assert_eq!(user.user, None);
    assert_eq!(user.command, "root \t  run  it");
}
