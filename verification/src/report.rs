//! The text that `check`, `runs` and `status` show.

use crate::cronexpr::{CronExpr, Schedule};
use crate::crontab::{Crontab, JobSpec};
use crate::history;
use crate::history::RunRecord;
use crate::text;
use crate::time;
use crate::time::DateTime;
use vstd::prelude::*;
use vstd::slice::slice_subrange;
use vstd::string::*;

verus! {

// ---------------------------------------------------------------------------
// The report of `chrond check`
// ---------------------------------------------------------------------------

/// The lines of the next occurrences after `cursor`, from number `i + 1` up to
/// number `n`.
pub open spec fn next_lines(c: Schedule, cursor: DateTime, i: nat, n: nat) -> Seq<char>
    decreases n - i,
{
    if i >= n {
        seq![]
    } else {
        let label = "    next["@ + text::decimal(i + 1) + "]:  "@;
        match c.next(cursor) {
            Some(t) => label + time::time_text(t) + "\n"@ + next_lines(c, t, i + 1, n),
            None => label + "never (schedule can never match)\n"@,
        }
    }
}

/// What `check` shows of a job.
pub open spec fn job_block(job: JobSpec, now: DateTime, next_n: nat) -> Seq<char> {
    "\n  job: "@ + job.name@ + "\n    schedule: "@ + job.schedule_str@ + "\n    command:  "@
        + job.command@ + "\n"@ + (if job.catchup {
        "    catch-up: on (max "@ + text::decimal(job.max_catchup as nat) + ")\n"@
    } else {
        seq![]
    }) + (match job.timeout {
        Some(t) => "    timeout:  "@ + text::decimal(t.secs as nat) + "s\n"@,
        None => seq![],
    }) + (if job.schedule@.reboot {
        "    next:     at daemon startup (@reboot)\n"@
    } else {
        next_lines(job.schedule@, now, 0, next_n)
    })
}

/// What `check` shows of the jobs.
pub open spec fn job_blocks(jobs: Seq<JobSpec>, now: DateTime, next_n: nat) -> Seq<char>
    decreases jobs.len(),
{
    if jobs.len() == 0 {
        seq![]
    } else {
        job_blocks(jobs.drop_last(), now, next_n) + job_block(jobs.last(), now, next_n)
    }
}

/// What `check` shows of a crontab.
pub open spec fn check_report_of(file: Seq<char>, tab: Crontab, now: DateTime, next_n: nat) -> Seq<
    char,
> {
    file + ": OK ("@ + text::decimal(tab.jobs@.len()) + " job(s), "@ + text::decimal(
        tab.env@.len(),
    ) + " environment assignment(s))\n"@ + job_blocks(tab.jobs@, now, next_n)
}

/// The lines of the next `n` occurrences after `now`.
fn next_text(schedule: &CronExpr, now: DateTime, n: usize) -> (r: String)
    requires
        now.valid(),
    ensures
        r@ == next_lines(schedule@, now, 0, n as nat),
{
    let ghost all = next_lines(schedule@, now, 0, n as nat);
    let mut out = String::new();
    let mut cursor = now;
    let mut i: usize = 0;
    assert(out@ + all =~= all);
    while i < n
        invariant
            cursor.valid(),
            i <= n,
            all == next_lines(schedule@, now, 0, n as nat),
            out@ + next_lines(schedule@, cursor, i as nat, n as nat) == all,
        decreases n - i,
    {
        let ghost before = out@;
        let mut line = "    next[".to_owned();
        text::push_decimal(&mut line, i as u64 + 1);
        line.append("]:  ");
        match schedule.next_after(cursor) {
            Some(t) => {
                let shown = time::format_time(t);
                line.append(shown.as_str());
                line.append("\n");
                out.append(line.as_str());
                let ghost rest = next_lines(schedule@, t, (i + 1) as nat, n as nat);
                assert(next_lines(schedule@, cursor, i as nat, n as nat) == line@ + rest);
                assert(before + line@ + rest =~= before + (line@ + rest));
                cursor = t;
            },
            None => {
                line.append("never (schedule can never match)\n");
                out.append(line.as_str());
                assert(next_lines(schedule@, cursor, i as nat, n as nat) == line@);
                return out;
            },
        }
        i = i + 1;
    }
    assert(out@ + seq![] =~= out@);
    out
}

/// What `check` shows of a job.
fn job_text(job: &JobSpec, now: DateTime, next_n: usize) -> (r: String)
    requires
        now.valid(),
    ensures
        r@ == job_block(*job, now, next_n as nat),
{
    let mut catchup = String::new();
    if job.catchup {
        catchup = "    catch-up: on (max ".to_owned();
        text::push_decimal(&mut catchup, job.max_catchup as u64);
        catchup.append(")\n");
    }
    let mut timeout = String::new();
    if let Some(t) = job.timeout {
        timeout = "    timeout:  ".to_owned();
        text::push_decimal(&mut timeout, t.as_secs());
        timeout.append("s\n");
    }
    let next = if job.schedule.is_reboot() {
        "    next:     at daemon startup (@reboot)\n".to_owned()
    } else {
        next_text(&job.schedule, now, next_n)
    };
    let mut out = "\n  job: ".to_owned();
    out.append(job.name.as_str());
    out.append("\n    schedule: ");
    out.append(job.schedule_str.as_str());
    out.append("\n    command:  ");
    out.append(job.command.as_str());
    out.append("\n");
    out.append(catchup.as_str());
    out.append(timeout.as_str());
    out.append(next.as_str());
    out
}

/// What `check` shows of a crontab: how much it holds, and for each job what it
/// is and its next occurrences.
pub fn check_report(file: &str, tab: &Crontab, now: DateTime, next_n: usize) -> (r: String)
    requires
        now.valid(),
    ensures
        r@ == check_report_of(file@, *tab, now, next_n as nat),
{
    let mut blocks = String::new();
    let mut i: usize = 0;
    while i < tab.jobs.len()
        invariant
            now.valid(),
            i <= tab.jobs@.len(),
            blocks@ == job_blocks(tab.jobs@.take(i as int), now, next_n as nat),
        decreases tab.jobs@.len() - i,
    {
        assert(tab.jobs@.take(i + 1).drop_last() =~= tab.jobs@.take(i as int));
        let block = job_text(&tab.jobs[i], now, next_n);
        blocks.append(block.as_str());
        i = i + 1;
    }
    assert(tab.jobs@.take(tab.jobs@.len() as int) =~= tab.jobs@);
    let mut out = file.to_owned();
    out.append(": OK (");
    text::push_decimal(&mut out, tab.jobs.len() as u64);
    out.append(" job(s), ");
    text::push_decimal(&mut out, tab.env.len() as u64);
    out.append(" environment assignment(s))\n");
    out.append(blocks.as_str());
    out
}

// ---------------------------------------------------------------------------
// The report of `chrond runs`
// ---------------------------------------------------------------------------

/// The first line of `s`, cut to `max` characters with an ellipsis at the end
/// where it is longer.
pub open spec fn first_line_of(s: Seq<char>, max: nat) -> Seq<char> {
    let lines = text::lines_of(s);
    let line = if lines.len() > 0 {
        lines[0]
    } else {
        seq![]
    };
    if line.len() <= max {
        line
    } else if max > 0 {
        line.take(max - 1).push('\u{2026}')
    } else {
        seq!['\u{2026}']
    }
}

/// The first line of `s`, cut to `max` characters.
pub fn first_line(s: &str, max: usize) -> (r: String)
    ensures
        r@ == first_line_of(s@, max as nat),
{
    let chars = text::chars_of(s);
    let lines = text::lines(chars.as_slice());
    let ghost all = text::lines_of(s@);
    assert(all == text::texts(lines@));
    if lines.len() == 0 {
        let r = String::new();
        assert(r@ =~= first_line_of(s@, max as nat));
        return r;
    }
    let line = lines[0];
    assert(line@ == all[0]);
    if line.len() <= max {
        text::string_of(line)
    } else {
        let keep: usize = if max > 0 {
            max - 1
        } else {
            0
        };
        let mut out = text::string_of(slice_subrange(line, 0, keep));
        out.push('\u{2026}');
        assert(out@ =~= first_line_of(s@, max as nat));
        out
    }
}

/// The width of the column of names: that of the widest name, in bytes, and at
/// least 3.
pub open spec fn name_width(names: Seq<Seq<char>>) -> nat
    decreases names.len(),
{
    if names.len() == 0 {
        3
    } else {
        let before = name_width(names.drop_last());
        let last = text::byte_len(names.last());
        if last > before {
            last
        } else {
            before
        }
    }
}

/// The names of the jobs of the records.
pub open spec fn record_jobs(records: Seq<RunRecord>) -> Seq<Seq<char>> {
    records.map_values(|r: RunRecord| r.job@)
}

/// The duration of a record as shown to the user; `-` where it has none.
pub open spec fn duration_text_of(ms: Option<u64>) -> Seq<char> {
    match ms {
        Some(n) => text::decimal(n as nat) + "ms"@,
        None => "-"@,
    }
}

/// A row of the table of runs.
pub open spec fn runs_row(r: RunRecord, width: nat) -> Seq<char> {
    let status = if r.catchup {
        r.status.text() + " (catch-up)"@
    } else {
        r.status.text()
    };
    text::pad_right_of(r.job@, width) + "  "@ + text::pad_right_of(r.scheduled@, 19) + "  "@
        + text::pad_right_of(status, 15) + "  "@ + text::pad_left_of(
        history::exit_text_of(r.exit_code),
        4,
    ) + "  "@ + text::pad_left_of(duration_text_of(r.duration_ms), 9) + "  "@ + first_line_of(
        r.output_tail@,
        40,
    ) + "\n"@
}

/// The rows of the table of runs.
pub open spec fn runs_rows(records: Seq<RunRecord>, width: nat) -> Seq<char>
    decreases records.len(),
{
    if records.len() == 0 {
        seq![]
    } else {
        runs_rows(records.drop_last(), width) + runs_row(records.last(), width)
    }
}

/// The table of runs.
pub open spec fn runs_table_of(records: Seq<RunRecord>) -> Seq<char> {
    let width = name_width(record_jobs(records));
    text::pad_right_of("JOB"@, width) + "  "@ + text::pad_right_of("SCHEDULED"@, 19) + "  "@
        + text::pad_right_of("STATUS"@, 15) + "  "@ + text::pad_left_of("EXIT"@, 4) + "  "@
        + text::pad_left_of("DURATION"@, 9) + "  OUTPUT\n"@ + runs_rows(records, width)
}

/// What `runs` shows where JSON is not asked for.
pub open spec fn runs_report_of(records: Seq<RunRecord>, history_path: Seq<char>) -> Seq<char> {
    if records.len() == 0 {
        "no matching run records in "@ + history_path + "\n"@
    } else {
        runs_table_of(records)
    }
}

/// The duration of a record as shown to the user; `-` where it has none.
fn duration_text(ms: Option<u64>) -> (r: String)
    ensures
        r@ == duration_text_of(ms),
{
    match ms {
        Some(n) => {
            let mut out = String::new();
            text::push_decimal(&mut out, n);
            out.append("ms");
            assert(out@ =~= duration_text_of(ms));
            out
        },
        None => "-".to_owned(),
    }
}

/// A row of the table of runs.
fn runs_row_text(r: &RunRecord, width: usize) -> (row: String)
    ensures
        row@ == runs_row(*r, width as nat),
{
    let mut status = r.status.as_str().to_owned();
    if r.catchup {
        status.append(" (catch-up)");
    }
    let exit = history::exit_text(r.exit_code);
    let duration = duration_text(r.duration_ms);
    let output = first_line(r.output_tail.as_str(), 40);
    let mut row = text::left_aligned(r.job.as_str(), width);
    row.append("  ");
    text::push_left_aligned(&mut row, r.scheduled.as_str(), 19);
    row.append("  ");
    text::push_left_aligned(&mut row, status.as_str(), 15);
    row.append("  ");
    text::push_right_aligned(&mut row, exit.as_str(), 4);
    row.append("  ");
    text::push_right_aligned(&mut row, duration.as_str(), 9);
    row.append("  ");
    row.append(output.as_str());
    row.append("\n");
    row
}

/// The table of runs.
fn runs_table(records: &Vec<RunRecord>) -> (r: String)
    ensures
        r@ == runs_table_of(records@),
{
    let ghost jobs = record_jobs(records@);
    let mut width: usize = 3;
    let mut i: usize = 0;
    assert(name_width(jobs.take(0)) == 3);
    while i < records.len()
        invariant
            i <= records@.len(),
            jobs == record_jobs(records@),
            width == name_width(jobs.take(i as int)),
        decreases records@.len() - i,
    {
        assert(jobs.take(i + 1).drop_last() =~= jobs.take(i as int));
        let n = text::count_bytes(records[i].job.as_str());
        if n > width {
            width = n;
        }
        i = i + 1;
    }
    assert(jobs.take(jobs.len() as int) =~= jobs);
    let mut rows = String::new();
    let mut k: usize = 0;
    while k < records.len()
        invariant
            k <= records@.len(),
            rows@ == runs_rows(records@.take(k as int), width as nat),
        decreases records@.len() - k,
    {
        assert(records@.take(k + 1).drop_last() =~= records@.take(k as int));
        let row = runs_row_text(&records[k], width);
        rows.append(row.as_str());
        k = k + 1;
    }
    assert(records@.take(records@.len() as int) =~= records@);
    let mut out = text::left_aligned("JOB", width);
    out.append("  ");
    text::push_left_aligned(&mut out, "SCHEDULED", 19);
    out.append("  ");
    text::push_left_aligned(&mut out, "STATUS", 15);
    out.append("  ");
    text::push_right_aligned(&mut out, "EXIT", 4);
    out.append("  ");
    text::push_right_aligned(&mut out, "DURATION", 9);
    out.append("  OUTPUT\n");
    out.append(rows.as_str());
    out
}

/// What `runs` shows where JSON is not asked for: a table of the records, or
/// that there are none.
pub fn runs_report(records: &Vec<RunRecord>, history_path: &str) -> (r: String)
    ensures
        r@ == runs_report_of(records@, history_path@),
{
    if records.len() == 0 {
        text::surround("no matching run records in ", history_path, "\n")
    } else {
        runs_table(records)
    }
}

// ---------------------------------------------------------------------------
// The report of `chrond status`
// ---------------------------------------------------------------------------

/// The last record of a job.
pub open spec fn latest_of(records: Seq<RunRecord>, job: Seq<char>) -> Option<RunRecord>
    decreases records.len(),
{
    if records.len() == 0 {
        None
    } else if records.last().job@ == job {
        Some(records.last())
    } else {
        latest_of(records.drop_last(), job)
    }
}

/// The names with one more, before the first that follows it; a name that is
/// there already is not added again.
pub open spec fn with_name(names: Seq<Seq<char>>, name: Seq<char>) -> Seq<Seq<char>>
    decreases names.len(),
{
    if names.len() == 0 || text::precedes(name, names[0]) {
        seq![name] + names
    } else if names[0] == name {
        names
    } else {
        seq![names[0]] + with_name(names.skip(1), name)
    }
}

/// The names of the jobs that have a record, in order.
pub open spec fn recorded_names(records: Seq<RunRecord>) -> Seq<Seq<char>>
    decreases records.len(),
{
    if records.len() == 0 {
        seq![]
    } else {
        with_name(recorded_names(records.drop_last()), records.last().job@)
    }
}

/// The names followed by those of the jobs that are not among them.
pub open spec fn with_jobs(names: Seq<Seq<char>>, jobs: Seq<JobSpec>) -> Seq<Seq<char>>
    decreases jobs.len(),
{
    if jobs.len() == 0 {
        names
    } else {
        let before = with_jobs(names, jobs.drop_last());
        if before.contains(jobs.last().name@) {
            before
        } else {
            before.push(jobs.last().name@)
        }
    }
}

/// The names that `status` lists: those of the jobs that have a record, then
/// the others of the crontab.
pub open spec fn listed_names(records: Seq<RunRecord>, tab: Option<&Crontab>) -> Seq<Seq<char>> {
    match tab {
        Some(t) => with_jobs(recorded_names(records), t.jobs@),
        None => recorded_names(records),
    }
}

/// The first job with the given name.
pub open spec fn job_named(jobs: Seq<JobSpec>, name: Seq<char>) -> Option<JobSpec>
    decreases jobs.len(),
{
    if jobs.len() == 0 {
        None
    } else if jobs[0].name@ == name {
        Some(jobs[0])
    } else {
        job_named(jobs.skip(1), name)
    }
}

/// When a job runs next, as shown to the user.
pub open spec fn next_run_of(tab: Option<&Crontab>, name: Seq<char>, now: DateTime) -> Seq<char> {
    match tab {
        None => "-"@,
        Some(t) => match job_named(t.jobs@, name) {
            None => "-"@,
            Some(j) => if j.schedule@.reboot {
                "at daemon startup"@
            } else {
                match j.schedule@.next(now) {
                    Some(at) => time::time_text(at),
                    None => "never"@,
                }
            },
        },
    }
}

/// A row of the table of jobs.
pub open spec fn status_row(
    records: Seq<RunRecord>,
    tab: Option<&Crontab>,
    name: Seq<char>,
    width: nat,
    now: DateTime,
) -> Seq<char> {
    let (last, status, exit) = match latest_of(records, name) {
        Some(r) => (r.scheduled@, r.status.text(), history::exit_text_of(r.exit_code)),
        None => ("-"@, "never ran"@, "-"@),
    };
    text::pad_right_of(name, width) + "  "@ + text::pad_right_of(last, 19) + "  "@
        + text::pad_right_of(status, 15) + "  "@ + text::pad_left_of(exit, 4) + "  "@
        + next_run_of(tab, name, now) + "\n"@
}

/// The rows of the table of jobs.
pub open spec fn status_rows(
    records: Seq<RunRecord>,
    tab: Option<&Crontab>,
    names: Seq<Seq<char>>,
    width: nat,
    now: DateTime,
) -> Seq<char>
    decreases names.len(),
{
    if names.len() == 0 {
        seq![]
    } else {
        status_rows(records, tab, names.drop_last(), width, now) + status_row(
            records,
            tab,
            names.last(),
            width,
            now,
        )
    }
}

/// What `status` shows.
pub open spec fn status_report_of(
    records: Seq<RunRecord>,
    tab: Option<&Crontab>,
    state_dir: Seq<char>,
    now: DateTime,
) -> Seq<char> {
    let names = listed_names(records, tab);
    let width = name_width(names);
    if names.len() == 0 {
        "no job history in "@ + state_dir + " (and no crontab given)\n"@
    } else {
        text::pad_right_of("JOB"@, width) + "  "@ + text::pad_right_of("LAST SCHEDULED"@, 19)
            + "  "@ + text::pad_right_of("STATUS"@, 15) + "  "@ + text::pad_left_of("EXIT"@, 4)
            + "  NEXT RUN\n"@ + status_rows(records, tab, names, width, now)
    }
}

/// The last record of a job.
fn latest<'a>(records: &'a Vec<RunRecord>, job: &str) -> (r: Option<&'a RunRecord>)
    ensures
        match r {
            Some(x) => latest_of(records@, job@) == Some(*x),
            None => latest_of(records@, job@) is None,
        },
{
    let mut i: usize = records.len();
    assert(records@.take(records@.len() as int) =~= records@);
    while i > 0
        invariant
            i <= records@.len(),
            latest_of(records@, job@) == latest_of(records@.take(i as int), job@),
        decreases i,
    {
        assert(records@.take(i as int).drop_last() =~= records@.take(i - 1));
        if text::str_eq(records[i - 1].job.as_str(), job) {
            return Some(&records[i - 1]);
        }
        i = i - 1;
    }
    None
}

/// Where a name is added or found.
proof fn lemma_with_name(names: Seq<Seq<char>>, name: Seq<char>, i: int)
    requires
        0 <= i <= names.len(),
        forall|j: int| 0 <= j < i ==> text::precedes(#[trigger] names[j], name),
        i < names.len() ==> !text::precedes(names[i], name),
    ensures
        with_name(names, name) == if i < names.len() && names[i] == name {
            names
        } else {
            names.insert(i, name)
        },
    decreases names.len(),
{
    text::order_is_total(name, name);
    if names.len() > 0 {
        text::order_is_total(names[0], name);
        if i > 0 {
            let rest = names.skip(1);
            assert forall|j: int| 0 <= j < i - 1 implies text::precedes(
                #[trigger] rest[j],
                name,
            ) by {
                assert(rest[j] == names[j + 1]);
            }
            lemma_with_name(rest, name, i - 1);
            assert(with_name(names, name) =~= if i < names.len() && names[i] == name {
                names
            } else {
                names.insert(i, name)
            });
        } else {
            assert(seq![name] + names =~= names.insert(0, name));
        }
    } else {
        assert(seq![name] + names =~= names.insert(0, name));
    }
}

/// Adds a name in order, where it is not there already.
fn add_name(names: &mut Vec<String>, name: &str)
    ensures
        text::strings(final(names)@) == with_name(text::strings(old(names)@), name@),
{
    let ghost before = text::strings(names@);
    let mut i: usize = 0;
    while i < names.len() && text::text_precedes(names[i].as_str(), name)
        invariant
            i <= names@.len(),
            before == text::strings(names@),
            forall|j: int| 0 <= j < i ==> text::precedes(#[trigger] before[j], name@),
        decreases names@.len() - i,
    {
        i = i + 1;
    }
    proof {
        lemma_with_name(before, name@, i as int);
    }
    if i == names.len() || !text::str_eq(names[i].as_str(), name) {
        names.insert(i, name.to_owned());
        assert(text::strings(names@) =~= before.insert(i as int, name@));
    }
}

/// Whether a name is among the names.
fn has_name(names: &Vec<String>, name: &str) -> (r: bool)
    ensures
        r == text::strings(names@).contains(name@),
{
    let ghost all = text::strings(names@);
    let mut i: usize = 0;
    while i < names.len()
        invariant
            i <= names@.len(),
            all == text::strings(names@),
            forall|j: int| 0 <= j < i ==> #[trigger] all[j] != name@,
        decreases names@.len() - i,
    {
        if text::str_eq(names[i].as_str(), name) {
            assert(all[i as int] == name@);
            return true;
        }
        i = i + 1;
    }
    false
}

/// The names that `status` lists.
fn list_names(records: &Vec<RunRecord>, tab: Option<&Crontab>) -> (r: Vec<String>)
    ensures
        text::strings(r@) == listed_names(records@, tab),
{
    let mut names: Vec<String> = Vec::new();
    let mut i: usize = 0;
    assert(text::strings(names@) =~= recorded_names(records@.take(0)));
    while i < records.len()
        invariant
            i <= records@.len(),
            text::strings(names@) == recorded_names(records@.take(i as int)),
        decreases records@.len() - i,
    {
        assert(records@.take(i + 1).drop_last() =~= records@.take(i as int));
        add_name(&mut names, records[i].job.as_str());
        i = i + 1;
    }
    assert(records@.take(records@.len() as int) =~= records@);
    if let Some(t) = tab {
        let ghost recorded = text::strings(names@);
        let mut k: usize = 0;
        assert(with_jobs(recorded, t.jobs@.take(0)) == recorded);
        while k < t.jobs.len()
            invariant
                k <= t.jobs@.len(),
                text::strings(names@) == with_jobs(recorded, t.jobs@.take(k as int)),
            decreases t.jobs@.len() - k,
        {
            assert(t.jobs@.take(k + 1).drop_last() =~= t.jobs@.take(k as int));
            if !has_name(&names, t.jobs[k].name.as_str()) {
                let ghost before = names@;
                names.push(t.jobs[k].name.clone());
                assert(text::strings(names@) =~= text::strings(before).push(
                    t.jobs@[k as int].name@,
                ));
            }
            k = k + 1;
        }
        assert(t.jobs@.take(t.jobs@.len() as int) =~= t.jobs@);
    }
    names
}

/// When a job runs next, as shown to the user.
fn next_run(tab: Option<&Crontab>, name: &str, now: DateTime) -> (r: String)
    requires
        now.valid(),
    ensures
        r@ == next_run_of(tab, name@, now),
{
    let t = match tab {
        Some(t) => t,
        None => {
            return "-".to_owned();
        },
    };
    let mut i: usize = 0;
    assert(t.jobs@.skip(0) =~= t.jobs@);
    while i < t.jobs.len()
        invariant
            now.valid(),
            tab == Some(t),
            i <= t.jobs@.len(),
            job_named(t.jobs@, name@) == job_named(t.jobs@.skip(i as int), name@),
        decreases t.jobs@.len() - i,
    {
        assert(t.jobs@.skip(i as int).skip(1) =~= t.jobs@.skip(i + 1));
        let j = &t.jobs[i];
        if text::str_eq(j.name.as_str(), name) {
            if j.schedule.is_reboot() {
                return "at daemon startup".to_owned();
            }
            return match j.schedule.next_after(now) {
                Some(at) => time::format_time(at),
                None => "never".to_owned(),
            };
        }
        i = i + 1;
    }
    "-".to_owned()
}

/// A row of the table of jobs.
fn status_row_text(
    records: &Vec<RunRecord>,
    tab: Option<&Crontab>,
    name: &str,
    width: usize,
    now: DateTime,
) -> (row: String)
    requires
        now.valid(),
    ensures
        row@ == status_row(records@, tab, name@, width as nat, now),
{
    let (last, status, exit) = match latest(records, name) {
        Some(r) => (r.scheduled.clone(), r.status.as_str(), history::exit_text(r.exit_code)),
        None => ("-".to_owned(), "never ran", "-".to_owned()),
    };
    let next = next_run(tab, name, now);
    let mut row = text::left_aligned(name, width);
    row.append("  ");
    text::push_left_aligned(&mut row, last.as_str(), 19);
    row.append("  ");
    text::push_left_aligned(&mut row, status, 15);
    row.append("  ");
    text::push_right_aligned(&mut row, exit.as_str(), 4);
    row.append("  ");
    row.append(next.as_str());
    row.append("\n");
    row
}

/// What `status` shows: the latest outcome and the next run of every job that
/// has a record or stands in the crontab, or that there is none.
pub fn status_report(
    records: &Vec<RunRecord>,
    tab: Option<&Crontab>,
    state_dir: &str,
    now: DateTime,
) -> (r: String)
    requires
        now.valid(),
    ensures
        r@ == status_report_of(records@, tab, state_dir@, now),
{
    let names = list_names(records, tab);
    let ghost all = text::strings(names@);
    if names.len() == 0 {
        return text::surround("no job history in ", state_dir, " (and no crontab given)\n");
    }
    let mut width: usize = 3;
    let mut i: usize = 0;
    assert(name_width(all.take(0)) == 3);
    while i < names.len()
        invariant
            i <= names@.len(),
            all == text::strings(names@),
            width == name_width(all.take(i as int)),
        decreases names@.len() - i,
    {
        assert(all.take(i + 1).drop_last() =~= all.take(i as int));
        let n = text::count_bytes(names[i].as_str());
        if n > width {
            width = n;
        }
        i = i + 1;
    }
    assert(all.take(all.len() as int) =~= all);
    let mut rows = String::new();
    let mut k: usize = 0;
    while k < names.len()
        invariant
            now.valid(),
            k <= names@.len(),
            all == text::strings(names@),
            rows@ == status_rows(records@, tab, all.take(k as int), width as nat, now),
        decreases names@.len() - k,
    {
        assert(all.take(k + 1).drop_last() =~= all.take(k as int));
        let row = status_row_text(records, tab, names[k].as_str(), width, now);
        rows.append(row.as_str());
        k = k + 1;
    }
    let mut out = text::left_aligned("JOB", width);
    out.append("  ");
    text::push_left_aligned(&mut out, "LAST SCHEDULED", 19);
    out.append("  ");
    text::push_left_aligned(&mut out, "STATUS", 15);
    out.append("  ");
    text::push_right_aligned(&mut out, "EXIT", 4);
    out.append("  NEXT RUN\n");
    out.append(rows.as_str());
    out
}

// ---------------------------------------------------------------------------
// Laws
// ---------------------------------------------------------------------------

/// A first line is no longer than `max` characters, and shorter than the whole
/// line only where it ends in an ellipsis.
pub proof fn first_line_fits(s: Seq<char>, max: nat)
    requires
        max > 0,
    ensures
        first_line_of(s, max).len() <= max,
        first_line_of(s, max) == (if text::lines_of(s).len() > 0 {
            text::lines_of(s)[0]
        } else {
            seq![]
        }) || first_line_of(s, max).last() == '\u{2026}',
{
}

/// Whether the names stand in order, each once.
pub open spec fn ordered(names: Seq<Seq<char>>) -> bool {
    forall|i: int, j: int|
        0 <= i < j < names.len() ==> text::precedes(#[trigger] names[i], #[trigger] names[j])
}

proof fn lemma_with_name_ordered(names: Seq<Seq<char>>, name: Seq<char>)
    requires
        ordered(names),
    ensures
        ordered(with_name(names, name)),
        forall|x: Seq<char>| #[trigger]
            with_name(names, name).contains(x) <==> names.contains(x) || x == name,
        with_name(names, name).len() > 0,
        with_name(names, name)[0] == name || (names.len() > 0 && with_name(names, name)[0]
            == names[0]),
    decreases names.len(),
{
    let new = with_name(names, name);
    if names.len() == 0 || text::precedes(name, names[0]) {
        assert forall|i: int, j: int| 0 <= i < j < new.len() implies text::precedes(
            #[trigger] new[i],
            #[trigger] new[j],
        ) by {
            assert(new[j] == names[j - 1]);
            if i > 0 {
                assert(new[i] == names[i - 1]);
            } else if j > 1 {
                assert(text::precedes(names[0], names[j - 1]));
                text::order_is_transitive(name, names[0], names[j - 1]);
            }
        }
        assert forall|x: Seq<char>| #[trigger] new.contains(x) <==> names.contains(x) || x
            == name by {
            if names.contains(x) {
                let i = choose|i: int| 0 <= i < names.len() && names[i] == x;
                assert(new[i + 1] == x);
            }
            if x == name {
                assert(new[0] == x);
            }
            if new.contains(x) && x != name {
                let i = choose|i: int| 0 <= i < new.len() && new[i] == x;
                assert(names[i - 1] == x);
            }
        }
    } else if names[0] == name {
        assert(names.contains(name));
    } else {
        let rest = names.skip(1);
        let new_rest = with_name(rest, name);
        assert(ordered(rest)) by {
            assert forall|i: int, j: int| 0 <= i < j < rest.len() implies text::precedes(
                #[trigger] rest[i],
                #[trigger] rest[j],
            ) by {
                assert(text::precedes(names[i + 1], names[j + 1]));
            }
        }
        lemma_with_name_ordered(rest, name);
        text::order_is_total(names[0], name);
        assert(new == seq![names[0]] + new_rest);
        if rest.len() > 0 {
            assert(rest[0] == names[1]);
            assert(text::precedes(names[0], names[1]));
        }
        assert(text::precedes(names[0], new_rest[0]));
        assert forall|i: int, j: int| 0 <= i < j < new.len() implies text::precedes(
            #[trigger] new[i],
            #[trigger] new[j],
        ) by {
            assert(new[j] == new_rest[j - 1]);
            if i > 0 {
                assert(new[i] == new_rest[i - 1]);
            } else if j > 1 {
                assert(text::precedes(new_rest[0], new_rest[j - 1]));
                text::order_is_transitive(names[0], new_rest[0], new_rest[j - 1]);
            }
        }
        assert forall|x: Seq<char>| #[trigger] new.contains(x) <==> names.contains(x) || x
            == name by {
            if names.contains(x) {
                let i = choose|i: int| 0 <= i < names.len() && names[i] == x;
                if i == 0 {
                    assert(new[0] == x);
                } else {
                    assert(rest[i - 1] == x);
                    assert(new_rest.contains(x));
                }
            }
            if x == name {
                assert(new_rest.contains(x));
            }
            if new_rest.contains(x) {
                let i = choose|i: int| 0 <= i < new_rest.len() && new_rest[i] == x;
                assert(new[i + 1] == x);
            }
            if new.contains(x) {
                let i = choose|i: int| 0 <= i < new.len() && new[i] == x;
                if i == 0 {
                    assert(names[0] == x);
                } else {
                    assert(new_rest[i - 1] == x);
                    assert(new_rest.contains(x));
                    if rest.contains(x) {
                        let k = choose|k: int| 0 <= k < rest.len() && rest[k] == x;
                        assert(names[k + 1] == x);
                    }
                }
            }
        }
    }
}

/// The names of the jobs that have a record stand in order, each once, and
/// those and no others are there.
pub proof fn recorded_jobs_are_listed(records: Seq<RunRecord>)
    ensures
        ordered(recorded_names(records)),
        forall|x: Seq<char>| #[trigger]
            recorded_names(records).contains(x) <==> latest_of(records, x) is Some,
    decreases records.len(),
{
    if records.len() > 0 {
        let rest = records.drop_last();
        recorded_jobs_are_listed(rest);
        lemma_with_name_ordered(recorded_names(rest), records.last().job@);
        assert forall|x: Seq<char>| #[trigger] recorded_names(records).contains(x) <==> latest_of(
            records,
            x,
        ) is Some by {
            assert(recorded_names(rest).contains(x) <==> latest_of(rest, x) is Some);
        }
    }
}

/// `status` lists a job exactly where it has a record or stands in the crontab.
pub proof fn status_lists_every_job(records: Seq<RunRecord>, jobs: Seq<JobSpec>, x: Seq<char>)
    ensures
        with_jobs(recorded_names(records), jobs).contains(x) <==> (latest_of(records, x) is Some
            || exists|i: int| 0 <= i < jobs.len() && (#[trigger] jobs[i]).name@ == x),
    decreases jobs.len(),
{
    recorded_jobs_are_listed(records);
    if jobs.len() > 0 {
        let rest = jobs.drop_last();
        let before = with_jobs(recorded_names(records), rest);
        let all = with_jobs(recorded_names(records), jobs);
        let last = jobs[jobs.len() - 1].name@;
        status_lists_every_job(records, rest, x);
        if all.contains(x) && !before.contains(x) {
            let i = choose|i: int| 0 <= i < all.len() && all[i] == x;
            if i < before.len() {
                assert(before[i] == x);
            }
            assert(last == x);
        }
        if before.contains(x) {
            let i = choose|i: int| 0 <= i < before.len() && before[i] == x;
            assert(all[i] == x);
        }
        if last == x && !before.contains(x) {
            assert(all[all.len() - 1] == x);
        }
        if exists|i: int| 0 <= i < rest.len() && (#[trigger] rest[i]).name@ == x {
            let i = choose|i: int| 0 <= i < rest.len() && (#[trigger] rest[i]).name@ == x;
            assert(jobs[i].name@ == x);
        }
        if exists|i: int| 0 <= i < jobs.len() && (#[trigger] jobs[i]).name@ == x {
            let i = choose|i: int| 0 <= i < jobs.len() && (#[trigger] jobs[i]).name@ == x;
            if i < rest.len() {
                assert(rest[i].name@ == x);
            }
        }
    }
}

/// Whether a text stands in another at a position.
pub open spec fn stands_at(s: Seq<char>, i: int, x: Seq<char>) -> bool {
    0 <= i && i + x.len() <= s.len() && s.subrange(i, (i + x.len()) as int) == x
}

/// The width of a column: that of the text where the column is too narrow.
pub open spec fn column_width(x: Seq<char>, width: nat) -> nat {
    if x.len() < width {
        width
    } else {
        x.len()
    }
}

proof fn lemma_left_column(s: Seq<char>, before: Seq<char>, x: Seq<char>, w: nat, behind: Seq<char>)
    requires
        s == before + text::pad_right_of(x, w) + behind,
    ensures
        stands_at(s, before.len() as int, x),
        text::pad_right_of(x, w).len() == column_width(x, w),
{
    let n = before.len() as int;
    assert(s.subrange(n, n + x.len() as int) =~= x);
}

proof fn lemma_right_column(
    s: Seq<char>,
    before: Seq<char>,
    x: Seq<char>,
    w: nat,
    behind: Seq<char>,
)
    requires
        s == before + text::pad_left_of(x, w) + behind,
    ensures
        stands_at(s, before.len() + column_width(x, w) - x.len(), x),
        text::pad_left_of(x, w).len() == column_width(x, w),
{
    let n = before.len() + column_width(x, w) - x.len();
    assert(s.subrange(n, n + x.len() as int) =~= x);
}

/// What stands in the columns of a row of runs: the job, the time and the status
/// begin theirs, the exit code and the duration end theirs, and the first line of
/// the output follows. The row is one line.
#[verifier::rlimit(30)]
pub proof fn rows_tell_the_run(r: RunRecord, width: nat)
    ensures
        ({
            let row = runs_row(r, width);
            let status = if r.catchup {
                r.status.text() + " (catch-up)"@
            } else {
                r.status.text()
            };
            let exit = history::exit_text_of(r.exit_code);
            let took = match r.duration_ms {
                Some(ms) => text::decimal(ms as nat) + "ms"@,
                None => "-"@,
            };
            let output = first_line_of(r.output_tail@, 40);
            let a = column_width(r.job@, width) + 2;
            let b = a + column_width(r.scheduled@, 19) + 2;
            let c = b + column_width(status, 15) + 2;
            let d = c + column_width(exit, 4) + 2;
            let e = d + column_width(took, 9) + 2;
            &&& stands_at(row, 0, r.job@)
            &&& stands_at(row, a as int, r.scheduled@)
            &&& stands_at(row, b as int, status)
            &&& stands_at(row, d - 2 - exit.len(), exit)
            &&& stands_at(row, e - 2 - took.len(), took)
            &&& stands_at(row, e as int, output)
            &&& row.len() == e + output.len() + 1
            &&& row.last() == '\n'
        }),
{
    let row = runs_row(r, width);
    let status = if r.catchup {
        r.status.text() + " (catch-up)"@
    } else {
        r.status.text()
    };
    let exit = history::exit_text_of(r.exit_code);
    let took = duration_text_of(r.duration_ms);
    let output = first_line_of(r.output_tail@, 40);
    let gap = "  "@;
    let end = "\n"@;
    reveal_strlit("  ");
    reveal_strlit("\n");
    let p1 = text::pad_right_of(r.job@, width);
    let p2 = text::pad_right_of(r.scheduled@, 19);
    let p3 = text::pad_right_of(status, 15);
    let p4 = text::pad_left_of(exit, 4);
    let p5 = text::pad_left_of(took, 9);
    let s5 = gap + output + end;
    let s4 = gap + p5 + s5;
    let s3 = gap + p4 + s4;
    let s2 = gap + p3 + s3;
    let s1 = gap + p2 + s2;
    let none = Seq::<char>::empty();
    let b2 = p1 + gap;
    let b3 = b2 + p2 + gap;
    let b4 = b3 + p3 + gap;
    let b5 = b4 + p4 + gap;
    let b6 = b5 + p5 + gap;
    assert(row =~= b6 + output + end);
    assert(row =~= b5 + p5 + s5);
    assert(row =~= b4 + p4 + s4);
    assert(row =~= b3 + p3 + s3);
    assert(row =~= b2 + p2 + s2);
    assert(row =~= none + p1 + s1);
    lemma_left_column(row, none, r.job@, width, s1);
    lemma_left_column(row, b2, r.scheduled@, 19, s2);
    lemma_left_column(row, b3, status, 15, s3);
    lemma_right_column(row, b4, exit, 4, s4);
    lemma_right_column(row, b5, took, 9, s5);
    assert(row.subrange(b6.len() as int, (b6.len() + output.len()) as int) =~= output);
    assert(row.last() == end[0]);
}

/// What stands in the columns of a row of jobs: its name, and the time, the
/// status and the exit code of its last record, then when it runs next.
pub proof fn rows_tell_the_job(
    records: Seq<RunRecord>,
    tab: Option<&Crontab>,
    name: Seq<char>,
    width: nat,
    now: DateTime,
)
    ensures
        ({
            let row = status_row(records, tab, name, width, now);
            let (last, status, exit) = match latest_of(records, name) {
                Some(r) => (r.scheduled@, r.status.text(), history::exit_text_of(r.exit_code)),
                None => ("-"@, "never ran"@, "-"@),
            };
            let next = next_run_of(tab, name, now);
            let a = column_width(name, width) + 2;
            let b = a + column_width(last, 19) + 2;
            let c = b + column_width(status, 15) + 2;
            let d = c + column_width(exit, 4) + 2;
            &&& stands_at(row, 0, name)
            &&& stands_at(row, a as int, last)
            &&& stands_at(row, b as int, status)
            &&& stands_at(row, d - 2 - exit.len(), exit)
            &&& stands_at(row, d as int, next)
            &&& row.len() == d + next.len() + 1
            &&& row.last() == '\n'
        }),
{
    let row = status_row(records, tab, name, width, now);
    let (last, status, exit) = match latest_of(records, name) {
        Some(r) => (r.scheduled@, r.status.text(), history::exit_text_of(r.exit_code)),
        None => ("-"@, "never ran"@, "-"@),
    };
    let next = next_run_of(tab, name, now);
    let gap = "  "@;
    let end = "\n"@;
    reveal_strlit("  ");
    reveal_strlit("\n");
    let p1 = text::pad_right_of(name, width);
    let p2 = text::pad_right_of(last, 19);
    let p3 = text::pad_right_of(status, 15);
    let p4 = text::pad_left_of(exit, 4);
    let s4 = gap + next + end;
    let s3 = gap + p4 + s4;
    let s2 = gap + p3 + s3;
    let s1 = gap + p2 + s2;
    let none = Seq::<char>::empty();
    let b2 = p1 + gap;
    let b3 = b2 + p2 + gap;
    let b4 = b3 + p3 + gap;
    let b5 = b4 + p4 + gap;
    assert(row =~= b5 + next + end);
    assert(row =~= b4 + p4 + s4);
    assert(row =~= b3 + p3 + s3);
    assert(row =~= b2 + p2 + s2);
    assert(row =~= none + p1 + s1);
    lemma_left_column(row, none, name, width, s1);
    lemma_left_column(row, b2, last, 19, s2);
    lemma_left_column(row, b3, status, 15, s3);
    lemma_right_column(row, b4, exit, 4, s4);
    assert(row.subrange(b5.len() as int, (b5.len() + next.len()) as int) =~= next);
    assert(row.last() == end[0]);
}

/// The table has a row for each record or name, in their order.
pub proof fn tables_join(
    a: Seq<RunRecord>,
    b: Seq<RunRecord>,
    r: RunRecord,
    width: nat,
)
    ensures
        runs_rows(a + b, width) == runs_rows(a, width) + runs_rows(b, width),
        runs_rows(seq![r], width) == runs_row(r, width),
    decreases b.len(),
{
    assert(seq![r].drop_last() =~= seq![]);
    assert(seq![r].last() == r);
    assert(runs_rows(seq![r].drop_last(), width) =~= seq![]);
    assert(runs_rows(seq![r], width) =~= runs_row(r, width));
    if b.len() == 0 {
        assert(a + b =~= a);
        assert(runs_rows(a, width) + runs_rows(b, width) =~= runs_rows(a, width));
    } else {
        tables_join(a, b.drop_last(), r, width);
        assert((a + b).drop_last() =~= a + b.drop_last());
        assert((a + b).last() == b.last());
        assert(runs_rows(a + b, width) =~= runs_rows(a, width) + runs_rows(b, width));
    }
}

/// The table of jobs has a row for each name, in their order.
pub proof fn status_tables_join(
    records: Seq<RunRecord>,
    tab: Option<&Crontab>,
    a: Seq<Seq<char>>,
    b: Seq<Seq<char>>,
    x: Seq<char>,
    width: nat,
    now: DateTime,
)
    ensures
        status_rows(records, tab, a + b, width, now) == status_rows(records, tab, a, width, now)
            + status_rows(records, tab, b, width, now),
        status_rows(records, tab, seq![x], width, now) == status_row(records, tab, x, width, now),
    decreases b.len(),
{
    assert(seq![x].drop_last() =~= seq![]);
    assert(seq![x].last() == x);
    assert(status_rows(records, tab, seq![x].drop_last(), width, now) =~= seq![]);
    assert(status_rows(records, tab, seq![x], width, now) =~= status_row(
        records,
        tab,
        x,
        width,
        now,
    ));
    if b.len() == 0 {
        assert(a + b =~= a);
        assert(status_rows(records, tab, a, width, now) + status_rows(records, tab, b, width, now)
            =~= status_rows(records, tab, a, width, now));
    } else {
        status_tables_join(records, tab, a, b.drop_last(), x, width, now);
        assert((a + b).drop_last() =~= a + b.drop_last());
        assert((a + b).last() == b.last());
        assert(status_rows(records, tab, a + b, width, now) =~= status_rows(
            records,
            tab,
            a,
            width,
            now,
        ) + status_rows(records, tab, b, width, now));
    }
}

/// The first column is as wide as the longest name in it, and at least as wide as
/// its heading.
pub proof fn the_first_column_fits_its_names(names: Seq<Seq<char>>)
    ensures
        name_width(names) >= 3,
        forall|i: int|
            0 <= i < names.len() ==> text::byte_len(#[trigger] names[i]) <= name_width(names),
        name_width(names) == 3 || exists|i: int|
            0 <= i < names.len() && text::byte_len(#[trigger] names[i]) == name_width(names),
    decreases names.len(),
{
    if names.len() > 0 {
        let rest = names.drop_last();
        let n = names.len() - 1;
        the_first_column_fits_its_names(rest);
        assert(names.last() == names[n]);
        assert forall|i: int| 0 <= i < names.len() implies text::byte_len(#[trigger] names[i])
            <= name_width(names) by {
            if i < n {
                assert(rest[i] == names[i]);
            }
        }
        if name_width(names) == name_width(rest) && name_width(rest) != 3 {
            let i = choose|i: int|
                0 <= i < rest.len() && text::byte_len(#[trigger] rest[i]) == name_width(rest);
            assert(text::byte_len(names[i]) == name_width(names));
        }
    }
}

/// The last record of a job is one of its records, and none of them follows; it
/// is missing only where the job has no record.
pub proof fn the_last_record_is_shown(records: Seq<RunRecord>, job: Seq<char>)
    ensures
        match latest_of(records, job) {
            Some(r) => exists|i: int| #![trigger records[i]]
                0 <= i < records.len() && records[i] == r && r.job@ == job && forall|j: int|
                    i < j < records.len() ==> (#[trigger] records[j]).job@ != job,
            None => forall|j: int|
                0 <= j < records.len() ==> (#[trigger] records[j]).job@ != job,
        },
    decreases records.len(),
{
    if records.len() > 0 {
        let rest = records.drop_last();
        let n = records.len() - 1;
        assert(records.last() == records[n]);
        if records[n].job@ != job {
            the_last_record_is_shown(rest, job);
            match latest_of(rest, job) {
                Some(r) => {
                    let i = choose|i: int| #![trigger rest[i]]
                        0 <= i < rest.len() && rest[i] == r && r.job@ == job && forall|j: int|
                            i < j < rest.len() ==> (#[trigger] rest[j]).job@ != job;
                    assert(records[i] == r);
                    assert forall|j: int| i < j < records.len() implies (
                    #[trigger] records[j]).job@ != job by {
                        if j < n {
                            assert(rest[j] == records[j]);
                        }
                    }
                },
                None => {
                    assert forall|j: int| 0 <= j < records.len() implies (
                    #[trigger] records[j]).job@ != job by {
                        if j < n {
                            assert(rest[j] == records[j]);
                        }
                    }
                },
            }
        }
    }
}

/// When a job runs next: at its next occurrence after now where it has one, at
/// startup with `@reboot`, and never where no occurrence follows; nothing is known
/// of a name that no job of the crontab has.
pub proof fn the_next_run_is_shown(tab: Crontab, i: int, name: Seq<char>, now: DateTime)
    requires
        0 <= i < tab.jobs@.len(),
        forall|j: int| 0 <= j < i ==> (#[trigger] tab.jobs@[j]).name@ != tab.jobs@[i].name@,
    ensures
        ({
            let job = tab.jobs@[i];
            let next = next_run_of(Some(&tab), job.name@, now);
            &&& job.schedule@.reboot ==> next == "at daemon startup"@
            &&& !job.schedule@.reboot && job.schedule@.next(now) is Some ==> next
                == time::time_text(job.schedule@.next(now)->0)
            &&& !job.schedule@.reboot && job.schedule@.next(now) is None ==> next == "never"@
        }),
        (forall|j: int| 0 <= j < tab.jobs@.len() ==> (#[trigger] tab.jobs@[j]).name@ != name)
            ==> next_run_of(Some(&tab), name, now) == "-"@,
        next_run_of(None, name, now) == "-"@,
{
    lemma_job_named(tab.jobs@, i);
    if forall|j: int| 0 <= j < tab.jobs@.len() ==> (#[trigger] tab.jobs@[j]).name@ != name {
        lemma_no_job_named(tab.jobs@, name);
    }
}

proof fn lemma_job_named(jobs: Seq<JobSpec>, i: int)
    requires
        0 <= i < jobs.len(),
        forall|j: int| 0 <= j < i ==> (#[trigger] jobs[j]).name@ != jobs[i].name@,
    ensures
        job_named(jobs, jobs[i].name@) == Some(jobs[i]),
    decreases jobs.len(),
{
    if i > 0 {
        let rest = jobs.skip(1);
        assert(jobs[0].name@ != jobs[i].name@);
        assert forall|j: int| 0 <= j < i - 1 implies (#[trigger] rest[j]).name@ != rest[i
            - 1].name@ by {
            assert(rest[j] == jobs[j + 1]);
        }
        lemma_job_named(rest, i - 1);
    }
}

proof fn lemma_no_job_named(jobs: Seq<JobSpec>, name: Seq<char>)
    requires
        forall|j: int| 0 <= j < jobs.len() ==> (#[trigger] jobs[j]).name@ != name,
    ensures
        job_named(jobs, name) is None,
    decreases jobs.len(),
{
    if jobs.len() > 0 {
        let rest = jobs.skip(1);
        assert(jobs[0].name@ != name);
        assert forall|j: int| 0 <= j < rest.len() implies (#[trigger] rest[j]).name@ != name by {
            assert(rest[j] == jobs[j + 1]);
        }
        lemma_no_job_named(rest, name);
    }
}

/// A first line that is too long is cut to one character less than fits, and an
/// ellipsis follows; one that fits is shown as it is.
pub proof fn long_lines_are_cut(line: Seq<char>, rest: Seq<char>, max: nat)
    requires
        text::lacks(line, '\n'),
        line.len() > 0 ==> line.last() != '\r',
        max > 0,
    ensures
        ({
            let s = first_line_of(line.push('\n') + rest, max);
            &&& line.len() <= max ==> s == line
            &&& line.len() > max ==> s.len() == max && s.take(max - 1) == line.take(max - 1)
                && s.last() == '\u{2026}'
        }),
        first_line_of(seq![], max) == Seq::<char>::empty(),
{
    text::lines_end_at_line_feeds(line, rest);
    let s = first_line_of(line.push('\n') + rest, max);
    assert(text::lines_of(line.push('\n') + rest)[0] == line);
    if line.len() > max {
        assert(s.take(max - 1) =~= line.take(max - 1));
    }
}

/// The next occurrences of a schedule are numbered from 1 and each follows the
/// one before; where there is none, that is said once.
pub proof fn next_occurrences_are_listed(c: Schedule, cursor: DateTime, i: nat, n: nat)
    ensures
        i >= n ==> next_lines(c, cursor, i, n).len() == 0,
        i < n ==> match c.next(cursor) {
            Some(t) => next_lines(c, cursor, i, n) == "    next["@ + text::decimal(i + 1)
                + "]:  "@ + time::time_text(t) + "\n"@ + next_lines(c, t, i + 1, n),
            None => next_lines(c, cursor, i, n) == "    next["@ + text::decimal(i + 1) + "]:  "@
                + "never (schedule can never match)\n"@,
        },
{
}

/// What `check` shows of a job: its name, schedule and command, the catch-up and
/// the time limit where there are any, and when it runs next.
pub proof fn checks_tell_the_job(job: JobSpec, now: DateTime, n: nat)
    ensures
        ({
            let head = "\n  job: "@ + job.name@ + "\n    schedule: "@ + job.schedule_str@
                + "\n    command:  "@ + job.command@ + "\n"@;
            let catchup = "    catch-up: on (max "@ + text::decimal(job.max_catchup as nat)
                + ")\n"@;
            let timeout = "    timeout:  "@ + text::decimal(job.timeout->0.secs as nat) + "s\n"@;
            let next = if job.schedule@.reboot {
                "    next:     at daemon startup (@reboot)\n"@
            } else {
                next_lines(job.schedule@, now, 0, n)
            };
            let block = job_block(job, now, n);
            &&& !job.catchup && job.timeout is None ==> block == head + next
            &&& job.catchup && job.timeout is None ==> block == head + catchup + next
            &&& !job.catchup && job.timeout is Some ==> block == head + timeout + next
            &&& job.catchup && job.timeout is Some ==> block == head + catchup + timeout + next
        }),
{
    let head = "\n  job: "@ + job.name@ + "\n    schedule: "@ + job.schedule_str@
        + "\n    command:  "@ + job.command@ + "\n"@;
    assert(head + Seq::<char>::empty() =~= head);
    let catchup = head + ("    catch-up: on (max "@ + text::decimal(job.max_catchup as nat)
        + ")\n"@);
    assert(catchup + Seq::<char>::empty() =~= catchup);
}

/// A check names the file, counts its jobs and variables, and then shows each job
/// in turn.
pub proof fn checks_count_what_they_show(
    file: Seq<char>,
    tab: Crontab,
    a: Seq<JobSpec>,
    b: Seq<JobSpec>,
    job: JobSpec,
    now: DateTime,
    n: nat,
)
    ensures
        check_report_of(file, tab, now, n) == file + ": OK ("@ + text::decimal(tab.jobs@.len())
            + " job(s), "@ + text::decimal(tab.env@.len()) + " environment assignment(s))\n"@
            + job_blocks(tab.jobs@, now, n),
        job_blocks(a + b, now, n) == job_blocks(a, now, n) + job_blocks(b, now, n),
        job_blocks(seq![job], now, n) == job_block(job, now, n),
    decreases b.len(),
{
    assert(seq![job].drop_last() =~= seq![]);
    assert(seq![job].last() == job);
    assert(job_blocks(seq![job].drop_last(), now, n) =~= seq![]);
    assert(job_blocks(seq![job], now, n) =~= job_block(job, now, n));
    if b.len() == 0 {
        assert(a + b =~= a);
        assert(job_blocks(a, now, n) + job_blocks(b, now, n) =~= job_blocks(a, now, n));
    } else {
        checks_count_what_they_show(file, tab, a, b.drop_last(), job, now, n);
        assert((a + b).drop_last() =~= a + b.drop_last());
        assert((a + b).last() == b.last());
        assert(job_blocks(a + b, now, n) =~= job_blocks(a, now, n) + job_blocks(b, now, n));
    }
}

/// The table of runs has its headings over the columns of its rows, and where
/// there is no run that is said instead.
pub proof fn runs_stand_under_their_headings(records: Seq<RunRecord>, path: Seq<char>)
    ensures
        ({
            let r = runs_report_of(records, path);
            let w = column_width("JOB"@, name_width(record_jobs(records))) as int;
            let rows = runs_rows(records, name_width(record_jobs(records)));
            &&& records.len() == 0 ==> r == "no matching run records in "@ + path + "\n"@
            &&& records.len() > 0 ==> {
                &&& stands_at(r, 0, "JOB"@)
                &&& stands_at(r, w + 2, "SCHEDULED"@)
                &&& stands_at(r, w + 23, "STATUS"@)
                &&& stands_at(r, w + 40, "EXIT"@)
                &&& stands_at(r, w + 47, "DURATION"@)
                &&& stands_at(r, w + 55, "  OUTPUT\n"@)
                &&& r == r.take(w + 64) + rows
            }
        }),
{
    let width = name_width(record_jobs(records));
    let rows = runs_rows(records, width);
    let r = runs_table_of(records);
    let gap = "  "@;
    let end = "  OUTPUT\n"@;
    reveal_strlit("  ");
    reveal_strlit("JOB");
    reveal_strlit("SCHEDULED");
    reveal_strlit("STATUS");
    reveal_strlit("EXIT");
    reveal_strlit("DURATION");
    reveal_strlit("  OUTPUT\n");
    let p1 = text::pad_right_of("JOB"@, width);
    let p2 = text::pad_right_of("SCHEDULED"@, 19);
    let p3 = text::pad_right_of("STATUS"@, 15);
    let p4 = text::pad_left_of("EXIT"@, 4);
    let p5 = text::pad_left_of("DURATION"@, 9);
    let s5 = end + rows;
    let s4 = gap + p5 + s5;
    let s3 = gap + p4 + s4;
    let s2 = gap + p3 + s3;
    let s1 = gap + p2 + s2;
    let none = Seq::<char>::empty();
    let b2 = p1 + gap;
    let b3 = b2 + p2 + gap;
    let b4 = b3 + p3 + gap;
    let b5 = b4 + p4 + gap;
    let b6 = b5 + p5;
    assert(r =~= b6 + end + rows);
    assert(r =~= b5 + p5 + s5);
    assert(r =~= b4 + p4 + s4);
    assert(r =~= b3 + p3 + s3);
    assert(r =~= b2 + p2 + s2);
    assert(r =~= none + p1 + s1);
    lemma_left_column(r, none, "JOB"@, width, s1);
    lemma_left_column(r, b2, "SCHEDULED"@, 19, s2);
    lemma_left_column(r, b3, "STATUS"@, 15, s3);
    lemma_right_column(r, b4, "EXIT"@, 4, s4);
    lemma_right_column(r, b5, "DURATION"@, 9, s5);
    assert(r.subrange(b6.len() as int, (b6.len() + end.len()) as int) =~= end);
    assert(r.take((b6 + end).len() as int) =~= b6 + end);
}

/// The table of jobs has its headings over the columns of its rows, and where
/// there is no job that is said instead.
pub proof fn jobs_stand_under_their_headings(
    records: Seq<RunRecord>,
    tab: Option<&Crontab>,
    dir: Seq<char>,
    now: DateTime,
)
    ensures
        ({
            let r = status_report_of(records, tab, dir, now);
            let names = listed_names(records, tab);
            let w = column_width("JOB"@, name_width(names)) as int;
            let rows = status_rows(records, tab, names, name_width(names), now);
            &&& names.len() == 0 ==> r == "no job history in "@ + dir
                + " (and no crontab given)\n"@
            &&& names.len() > 0 ==> {
                &&& stands_at(r, 0, "JOB"@)
                &&& stands_at(r, w + 2, "LAST SCHEDULED"@)
                &&& stands_at(r, w + 23, "STATUS"@)
                &&& stands_at(r, w + 40, "EXIT"@)
                &&& stands_at(r, w + 44, "  NEXT RUN\n"@)
                &&& r == r.take(w + 55) + rows
            }
        }),
{
    let names = listed_names(records, tab);
    if names.len() > 0 {
        let width = name_width(names);
        let rows = status_rows(records, tab, names, width, now);
        let r = status_report_of(records, tab, dir, now);
        let gap = "  "@;
        let end = "  NEXT RUN\n"@;
        reveal_strlit("  ");
        reveal_strlit("JOB");
        reveal_strlit("LAST SCHEDULED");
        reveal_strlit("STATUS");
        reveal_strlit("EXIT");
        reveal_strlit("  NEXT RUN\n");
        let p1 = text::pad_right_of("JOB"@, width);
        let p2 = text::pad_right_of("LAST SCHEDULED"@, 19);
        let p3 = text::pad_right_of("STATUS"@, 15);
        let p4 = text::pad_left_of("EXIT"@, 4);
        let s4 = end + rows;
        let s3 = gap + p4 + s4;
        let s2 = gap + p3 + s3;
        let s1 = gap + p2 + s2;
        let none = Seq::<char>::empty();
        let b2 = p1 + gap;
        let b3 = b2 + p2 + gap;
        let b4 = b3 + p3 + gap;
        let b5 = b4 + p4;
        assert(r =~= b5 + end + rows);
        assert(r =~= b4 + p4 + s4);
        assert(r =~= b3 + p3 + s3);
        assert(r =~= b2 + p2 + s2);
        assert(r =~= none + p1 + s1);
        lemma_left_column(r, none, "JOB"@, width, s1);
        lemma_left_column(r, b2, "LAST SCHEDULED"@, 19, s2);
        lemma_left_column(r, b3, "STATUS"@, 15, s3);
        lemma_right_column(r, b4, "EXIT"@, 4, s4);
        assert(r.subrange(b5.len() as int, (b5.len() + end.len()) as int) =~= end);
        assert(r.take((b5 + end).len() as int) =~= b5 + end);
    }
}

/// The jobs without a record follow those with one, each once and in the order of
/// the crontab.
pub proof fn unrecorded_jobs_follow(
    names: Seq<Seq<char>>,
    a: Seq<JobSpec>,
    b: Seq<JobSpec>,
    job: JobSpec,
)
    ensures
        with_jobs(names, a + b) == with_jobs(with_jobs(names, a), b),
        with_jobs(names, seq![job]) == (if names.contains(job.name@) {
            names
        } else {
            names + seq![job.name@]
        }),
        with_jobs(names, seq![]) == names,
    decreases b.len(),
{
    assert(seq![job].drop_last() =~= seq![]);
    assert(seq![job].last() == job);
    assert(with_jobs(names, seq![job].drop_last()) == names);
    assert(names.push(job.name@) =~= names + seq![job.name@]);
    if b.len() == 0 {
        assert(a + b =~= a);
    } else {
        unrecorded_jobs_follow(names, a, b.drop_last(), job);
        assert((a + b).drop_last() =~= a + b.drop_last());
        assert((a + b).last() == b.last());
    }
}

/// What a status lists: the jobs with a record, in the order of their names, and
/// then those of the crontab, where there is one.
pub proof fn the_crontab_adds_to_the_records(records: Seq<RunRecord>, tab: Crontab)
    ensures
        listed_names(records, None) == recorded_names(records),
        listed_names(records, Some(&tab)).len() >= recorded_names(records).len(),
        listed_names(records, Some(&tab)).take(recorded_names(records).len() as int)
            == recorded_names(records),
{
    lemma_names_stay(recorded_names(records), tab.jobs@);
}

proof fn lemma_names_stay(names: Seq<Seq<char>>, jobs: Seq<JobSpec>)
    ensures
        with_jobs(names, jobs).len() >= names.len(),
        with_jobs(names, jobs).take(names.len() as int) == names,
    decreases jobs.len(),
{
    if jobs.len() == 0 {
        assert(names.take(names.len() as int) =~= names);
    } else {
        let before = with_jobs(names, jobs.drop_last());
        lemma_names_stay(names, jobs.drop_last());
        assert(with_jobs(names, jobs).take(names.len() as int) =~= before.take(
            names.len() as int,
        ));
    }
}

} // verus!
