use chrond::cli::{
    check_config, command, default_state_dir, parse_since, run_config, run_err, runs_config,
    status_config, usage_err, Args, CliError, Command, CHECK_HELP, HELP, RUNS_HELP, RUN_HELP,
    STATUS_HELP, VERSION,
};
use chrond::crontab::Crontab;
use chrond::history::{RunRecord, RunStatus};
use chrond::report::{check_report, first_line, runs_report, status_report};
use chrond::time::DateTime;

fn argv(list: &[&str]) -> Vec<String> {
    list.iter().map(|s| s.to_string()).collect()
}

fn args(list: &[&str]) -> Args {
    Args::new(argv(list))
}

fn now() -> DateTime {
    DateTime::new(2026, 7, 8, 10, 30, 0).unwrap()
}

fn shown(e: CliError) -> (i32, String) {
    (e.code, e.message)
}

fn usage(message: &str) -> (i32, String) {
    (2, message.to_string())
}

fn record(job: &str, status: RunStatus) -> RunRecord {
    RunRecord {
        job: job.to_string(),
        scheduled: "2026-07-08T02:15:00".into(),
        status,
        catchup: false,
        started: None,
        finished: None,
        duration_ms: Some(1500),
        exit_code: Some(3),
        output_tail: "one\ntwo".into(),
    }
}

#[test]
fn help_mentions_every_command() {
    for cmd in ["run", "check", "runs", "status"] {
        assert!(HELP.contains(cmd), "help must mention '{cmd}'");
    }
    assert!(RUN_HELP.starts_with("chrond run — "));
    assert!(CHECK_HELP.starts_with("chrond check — "));
    assert!(RUNS_HELP.starts_with("chrond runs — "));
    assert!(STATUS_HELP.starts_with("chrond status — "));
    assert_eq!(VERSION, "0.1.0");
}

#[test]
fn commands_are_recognized() {
    let cmd = |s: &str| command(&argv(&[s])).ok().unwrap();
    assert_eq!(cmd("-h"), Command::Help);
    assert_eq!(cmd("--help"), Command::Help);
    assert_eq!(cmd("help"), Command::Help);
    assert_eq!(cmd("-V"), Command::Version);
    assert_eq!(cmd("--version"), Command::Version);
    assert_eq!(cmd("version"), Command::Version);
    assert_eq!(cmd("run"), Command::Run);
    assert_eq!(cmd("check"), Command::Check);
    assert_eq!(cmd("runs"), Command::Runs);
    assert_eq!(cmd("status"), Command::Status);
}

#[test]
fn unknown_commands_are_usage_errors() {
    let e = command(&argv(&["frobnicate"])).unwrap_err();
    assert_eq!(
        shown(e),
        usage("unknown command 'frobnicate' (try 'chrond --help')")
    );
    assert_eq!(shown(command(&argv(&[])).unwrap_err()), usage("missing command"));
}

#[test]
fn errors_carry_their_exit_code() {
    assert_eq!(usage_err("u".into()).code, 2);
    assert_eq!(run_err("r".into()).code, 1);
    assert_eq!(run_err("r".into()).message, "r");
}

#[test]
fn run_options_are_read() {
    let c = run_config(
        args(&[
            "run", "-f", "tab", "--state", "/s", "--system", "--metrics", "127.0.0.1:9", "--ntfy",
            "http://n", "--exit-after", "5m",
        ]),
        "default".into(),
    )
    .ok()
    .unwrap()
    .unwrap();
    assert_eq!(c.crontab_path, "tab");
    assert_eq!(c.state_dir, "/s");
    assert!(c.system_mode);
    assert_eq!(c.metrics_addr.as_deref(), Some("127.0.0.1:9"));
    assert_eq!(c.ntfy_url.as_deref(), Some("http://n"));
    assert_eq!(c.exit_after.unwrap().as_secs(), 300);

    let d = run_config(args(&["run", "--file", "a", "--file", "b"]), "default".into())
        .ok()
        .unwrap()
        .unwrap();
    assert_eq!(d.crontab_path, "b");
    assert_eq!(d.state_dir, "default");
    assert!(!d.system_mode && d.metrics_addr.is_none() && d.exit_after.is_none());
}

#[test]
fn run_option_errors() {
    let e = |list: &[&str]| shown(run_config(args(list), "d".into()).unwrap_err());
    assert_eq!(e(&["run"]), usage("run requires --file <CRONTAB>"));
    assert_eq!(e(&["run", "-f"]), usage("-f requires a value"));
    assert_eq!(e(&["run", "--ntfy"]), usage("--ntfy requires a value"));
    assert_eq!(e(&["run", "x"]), usage("unknown option 'x' for run"));
    assert_eq!(
        e(&["run", "--exit-after", "soon"]),
        usage("invalid duration 'soon' (use e.g. 30s, 5m, 2h, 1d)")
    );
    assert!(run_config(args(&["run", "-h", "--bad"]), "d".into()).ok().unwrap().is_none());
}

#[test]
fn check_options_are_read() {
    let o = check_config(args(&["check", "tab", "--system", "-n", "+7"]))
        .ok()
        .unwrap()
        .unwrap();
    assert_eq!(o.file.as_deref(), Some("tab"));
    assert!(o.system_mode);
    assert_eq!(o.next_n, 7);
    let o = check_config(args(&["check", "-f", "tab"])).ok().unwrap().unwrap();
    assert_eq!(o.next_n, 3);
    assert!(check_config(args(&["check", "--help"])).ok().unwrap().is_none());
}

#[test]
fn check_option_errors() {
    let e = |list: &[&str]| shown(check_config(args(list)).unwrap_err());
    assert_eq!(e(&["check"]), usage("check requires a crontab file"));
    assert_eq!(e(&["check", "a", "b"]), usage("unknown option 'b' for check"));
    assert_eq!(e(&["check", "-x"]), usage("unknown option '-x' for check"));
    assert_eq!(
        e(&["check", "-n", "many"]),
        usage("--next expects a number, got 'many'")
    );
    assert_eq!(e(&["check", "--next"]), usage("--next requires a value"));
}

#[test]
fn runs_options_are_read() {
    let o = runs_config(
        args(&[
            "runs", "-s", "/s", "--job", "backup", "--since", "24h", "--failed", "--json", "--limit",
            "5",
        ]),
        "d".into(),
        now(),
    )
    .ok()
    .unwrap()
    .unwrap();
    assert_eq!(o.state, "/s");
    assert_eq!(o.job.as_deref(), Some("backup"));
    assert_eq!(o.since, DateTime::new(2026, 7, 7, 10, 30, 0));
    assert!(o.failed && o.json);
    assert_eq!(o.limit, 5);
    let d = runs_config(args(&["runs"]), "d".into(), now()).ok().unwrap().unwrap();
    assert_eq!(d.state, "d");
    assert_eq!(d.limit, 20);
    assert!(d.since.is_none() && !d.failed && !d.json);
    assert!(runs_config(args(&["runs", "-h"]), "d".into(), now()).ok().unwrap().is_none());
}

#[test]
fn runs_option_errors() {
    let e = |list: &[&str]| shown(runs_config(args(list), "d".into(), now()).unwrap_err());
    assert_eq!(
        e(&["runs", "--limit", "x"]),
        usage("--limit expects a number, got 'x'")
    );
    assert_eq!(e(&["runs", "--since"]), usage("--since requires a value"));
    assert_eq!(e(&["runs", "--since", ""]), usage("empty duration"));
    assert_eq!(e(&["runs", "backup"]), usage("unknown option 'backup' for runs"));
}

#[test]
fn since_counts_back_from_now() {
    assert_eq!(
        parse_since("90s", now()).ok(),
        DateTime::new(2026, 7, 8, 10, 28, 30)
    );
    assert_eq!(parse_since("0", now()).ok(), Some(now()));
    assert_eq!(
        shown(parse_since("999999999d", now()).unwrap_err()),
        usage("invalid duration '999999999d'")
    );
    assert_eq!(
        shown(parse_since("18446744073709551615", now()).unwrap_err()),
        usage("invalid duration '18446744073709551615'")
    );
}

#[test]
fn status_options_are_read() {
    let o = status_config(args(&["status", "--state", "/s", "-f", "tab", "--system"]), "d".into())
        .ok()
        .unwrap()
        .unwrap();
    assert_eq!(o.state, "/s");
    assert_eq!(o.file.as_deref(), Some("tab"));
    assert!(o.system_mode);
    let e = status_config(args(&["status", "--json"]), "d".into()).unwrap_err();
    assert_eq!(shown(e), usage("unknown option '--json' for status"));
    assert!(status_config(args(&["status", "--help"]), "d".into()).ok().unwrap().is_none());
}

#[test]
fn state_directory_defaults() {
    assert_eq!(default_state_dir(Some("/c"), Some("/x"), Some("/h")), "/c");
    assert_eq!(default_state_dir(None, Some("/x"), Some("/h")), "/x/chrond");
    assert_eq!(default_state_dir(None, None, Some("/h")), "/h/.local/state/chrond");
    assert_eq!(default_state_dir(None, None, None), ".chrond-state");
}

#[test]
fn check_report_previews_runs() {
    let tab = Crontab::parse(
        "A=1\n#[chrond] name=backup catchup=on max_catchup=2 timeout=30m\n15 2 * * * backup.sh --full\n@reboot echo hi\n#[chrond] name=odd\n0 0 31 2 * never\n",
        false,
    )
    .unwrap();
    assert_eq!(
        check_report("tab", &tab, now(), 2),
        "tab: OK (3 job(s), 1 environment assignment(s))\n\
         \n  job: backup\n    schedule: 15 2 * * *\n    command:  backup.sh --full\n    catch-up: on (max 2)\n    timeout:  1800s\n    next[1]:  2026-07-09T02:15:00\n    next[2]:  2026-07-10T02:15:00\n\
         \n  job: echo-2\n    schedule: @reboot\n    command:  echo hi\n    next:     at daemon startup (@reboot)\n\
         \n  job: odd\n    schedule: 0 0 31 2 *\n    command:  never\n    next[1]:  never (schedule can never match)\n"
    );
    assert!(!check_report("tab", &tab, now(), 0).contains("next["));
}

#[test]
fn first_lines_are_cut() {
    assert_eq!(first_line("one\ntwo", 40), "one");
    assert_eq!(first_line("", 40), "");
    assert_eq!(first_line("\nx", 40), "");
    assert_eq!(first_line("abcdef", 6), "abcdef");
    assert_eq!(first_line("abcdef", 5), "abcd\u{2026}");
    assert_eq!(first_line("あいうえお", 3), "あい\u{2026}");
    assert_eq!(first_line("abc", 0), "\u{2026}");
}

#[test]
fn runs_are_shown_as_a_table() {
    let mut caught_up = record("long-job-name", RunStatus::Succeeded);
    caught_up.catchup = true;
    caught_up.exit_code = Some(0);
    let mut missed = record("a", RunStatus::Missed);
    missed.exit_code = None;
    missed.duration_ms = None;
    missed.output_tail = String::new();
    assert_eq!(
        runs_report(&vec![caught_up, missed], "/s/history.jsonl"),
        "JOB            SCHEDULED            STATUS           EXIT   DURATION  OUTPUT\n\
         long-job-name  2026-07-08T02:15:00  ok (catch-up)       0     1500ms  one\n\
         a              2026-07-08T02:15:00  missed              -          -  \n"
    );
    assert_eq!(
        runs_report(&vec![], "/s/history.jsonl"),
        "no matching run records in /s/history.jsonl\n"
    );
}

#[test]
fn table_matches_std_padding() {
    let r = record("é-job", RunStatus::SkippedOverlap);
    let width = r.job.len().max(3);
    let line = format!(
        "{:<width$}  {:<19}  {:<15}  {:>4}  {:>9}  {}\n",
        r.job, r.scheduled, "skipped_overlap", 3, "1500ms", "one"
    );
    assert!(runs_report(&vec![r], "h").ends_with(&line));
}

#[test]
fn status_lists_records_and_crontab() {
    let tab = Crontab::parse(
        "#[chrond] name=tick\n0 * * * * t\n#[chrond] name=boot\n@reboot b\n#[chrond] name=odd\n0 0 31 2 * o\n",
        false,
    )
    .unwrap();
    let records = vec![
        record("tick", RunStatus::Failed),
        record("gone", RunStatus::Timeout),
        record("tick", RunStatus::Succeeded),
    ];
    assert_eq!(
        status_report(&records, Some(&tab), "/s", now()),
        "JOB   LAST SCHEDULED       STATUS           EXIT  NEXT RUN\n\
         gone  2026-07-08T02:15:00  timeout             3  -\n\
         tick  2026-07-08T02:15:00  ok                  3  2026-07-08T11:00:00\n\
         boot  -                    never ran           -  at daemon startup\n\
         odd   -                    never ran           -  never\n"
    );
    assert_eq!(
        status_report(&records, None, "/s", now()),
        "JOB   LAST SCHEDULED       STATUS           EXIT  NEXT RUN\n\
         gone  2026-07-08T02:15:00  timeout             3  -\n\
         tick  2026-07-08T02:15:00  ok                  3  -\n"
    );
    assert_eq!(
        status_report(&vec![], None, "/s", now()),
        "no job history in /s (and no crontab given)\n"
    );
}
