//! Calendar dates and times of day, without a time zone.
//!
//! A [`DateTime`] holds the fields of a date in the proleptic Gregorian
//! calendar and of a time of day. What needs the calendar (which dates exist,
//! weekdays, sums) and the text form comes from `chrono`.

use crate::text;
use chrono::{Datelike, Timelike};
use vstd::prelude::*;

verus! {

/// The text form of times in the history and the state file.
pub const TIME_FMT: &'static str = "%Y-%m-%dT%H:%M:%S";

/// The first year that a date can have.
pub const MIN_YEAR: i32 = -262143;

/// The last year that a date can have.
pub const MAX_YEAR: i32 = 262142;

/// A date and a time of day. `nanosecond` reaches 1,000,000,000 and more only
/// within a leap second, which counts as part of second 59.
#[derive(Debug, Clone, Copy, PartialEq, Eq, PartialOrd, Ord, Structural)]
pub struct DateTime {
    pub year: i32,
    pub month: u32,
    pub day: u32,
    pub hour: u32,
    pub minute: u32,
    pub second: u32,
    pub nanosecond: u32,
}

// ---------------------------------------------------------------------------
// The calendar
// ---------------------------------------------------------------------------

/// Leap years of the Gregorian calendar.
pub open spec fn is_leap(year: int) -> bool {
    year % 4 == 0 && (year % 100 != 0 || year % 400 == 0)
}

/// The number of days of a month.
pub open spec fn days_in_month(year: int, month: int) -> int {
    if month == 2 {
        if is_leap(year) {
            29
        } else {
            28
        }
    } else if month == 4 || month == 6 || month == 9 || month == 11 {
        30
    } else {
        31
    }
}

/// The dates that exist.
pub open spec fn valid_date(year: int, month: int, day: int) -> bool {
    &&& MIN_YEAR <= year <= MAX_YEAR
    &&& 1 <= month <= 12
    &&& 1 <= day <= days_in_month(year, month)
}

/// The days of a year before the first of a month.
pub open spec fn days_before_month(year: int, month: int) -> int
    decreases month,
{
    if month <= 1 {
        0
    } else {
        days_before_month(year, month - 1) + days_in_month(year, month - 1)
    }
}

/// The days from the beginning of year 1 to the beginning of a year.
pub open spec fn days_before_year(year: int) -> int {
    let y = year - 1;
    365 * y + y / 4 - y / 100 + y / 400
}

/// The number of a day, counted from 0001-01-01, which is day 1.
pub open spec fn day_number(year: int, month: int, day: int) -> int {
    days_before_year(year) + days_before_month(year, month) + day
}

/// The weekday of a date: 0 is Sunday, 6 is Saturday.
pub open spec fn weekday_of(year: int, month: int, day: int) -> int {
    day_number(year, month, day) % 7
}

impl DateTime {
    /// Whether the fields denote a date that exists and a time of day.
    pub open spec fn valid(self) -> bool {
        &&& valid_date(self.year as int, self.month as int, self.day as int)
        &&& self.hour < 24
        &&& self.minute < 60
        &&& self.second < 60
        &&& self.nanosecond < 1_000_000_000 || (self.second == 59 && self.nanosecond
            < 2_000_000_000)
    }

    /// Whether this is the beginning of a minute.
    pub open spec fn on_minute(self) -> bool {
        self.second == 0 && self.nanosecond == 0
    }

    /// The number of whole seconds since the midnight before day 0.
    pub open spec fn seconds(self) -> int {
        day_number(self.year as int, self.month as int, self.day as int) * 86400 + self.hour * 3600
            + self.minute * 60 + self.second
    }

    /// Chronological order.
    pub open spec fn before(self, other: DateTime) -> bool {
        ||| self.year < other.year
        ||| self.year == other.year && {
            ||| self.month < other.month
            ||| self.month == other.month && {
                ||| self.day < other.day
                ||| self.day == other.day && {
                    ||| self.hour < other.hour
                    ||| self.hour == other.hour && {
                        ||| self.minute < other.minute
                        ||| self.minute == other.minute && {
                            ||| self.second < other.second
                            ||| self.second == other.second && self.nanosecond < other.nanosecond
                        }
                    }
                }
            }
        }
    }

    /// The beginning of the minute that this lies in.
    pub open spec fn minute_start(self) -> DateTime {
        DateTime { second: 0, nanosecond: 0, ..self }
    }
}

/// What `seconds` added to `t` is, where the fields of `r` are right: a sum
/// that leaves a leap second does so towards the sign of `seconds`.
pub open spec fn is_sum(t: DateTime, seconds: int, r: DateTime) -> bool {
    let leap = t.nanosecond >= 1_000_000_000 && seconds != 0;
    &&& r.valid()
    &&& r.seconds() == sum_seconds(t, seconds)
    &&& r.nanosecond == (if leap {
        t.nanosecond - 1_000_000_000
    } else {
        t.nanosecond as int
    })
}

/// The second that `seconds` after `t` lies in.
pub open spec fn sum_seconds(t: DateTime, seconds: int) -> int {
    if t.nanosecond >= 1_000_000_000 && seconds < 0 {
        t.seconds() + 1 + seconds
    } else {
        t.seconds() + seconds
    }
}

/// The time `seconds` after `t`, where the calendar has it.
pub open spec fn moved(t: DateTime, seconds: int) -> Option<DateTime> {
    if exists|r: DateTime| is_sum(t, seconds, r) {
        Some(choose|r: DateTime| is_sum(t, seconds, r))
    } else {
        None
    }
}

// ---------------------------------------------------------------------------
// What comes from chrono
// ---------------------------------------------------------------------------

/// `chrono::NaiveDate::from_ymd_opt` gives a date exactly where the calendar
/// has one, from year -262143 to year 262142.
#[verifier::external_body]
fn date_exists(year: i32, month: u32, day: u32) -> (r: bool)
    ensures
        r == valid_date(year as int, month as int, day as int),
{
    chrono::NaiveDate::from_ymd_opt(year, month, day).is_some()
}

/// `chrono::Datelike::weekday` of a date, as the number of days from Sunday.
/// Day 1 of year 1 is a Monday, and the weekdays follow one another.
#[verifier::external_body]
pub(crate) fn weekday(year: i32, month: u32, day: u32) -> (r: u32)
    requires
        valid_date(year as int, month as int, day as int),
    ensures
        r == weekday_of(year as int, month as int, day as int),
{
    let date = chrono::NaiveDate::from_ymd_opt(year, month, day).unwrap();
    date.weekday().num_days_from_sunday()
}

/// `chrono::NaiveDateTime::checked_add_signed` with a whole number of seconds
/// counts them on from `t`. It gives `None` exactly where the sum lies outside
/// the years that a date can have. The bounds on `seconds` are those of
/// `chrono::TimeDelta::seconds`.
#[verifier::external_body]
pub(crate) fn add_seconds(t: DateTime, seconds: i64) -> (r: Option<DateTime>)
    requires
        t.valid(),
        -9_223_372_036_854_775 <= seconds <= 9_223_372_036_854_775,
    ensures
        match r {
            Some(u) => is_sum(t, seconds as int, u),
            None => forall|u: DateTime| #[trigger]
                u.valid() ==> u.seconds() != sum_seconds(t, seconds as int),
        },
{
    let date = chrono::NaiveDate::from_ymd_opt(t.year, t.month, t.day).unwrap();
    let n = date.and_hms_nano_opt(t.hour, t.minute, t.second, t.nanosecond).unwrap();
    let sum = n.checked_add_signed(chrono::TimeDelta::seconds(seconds))?;
    Some(DateTime {
        year: sum.year(),
        month: sum.month(),
        day: sum.day(),
        hour: sum.hour(),
        minute: sum.minute(),
        second: sum.second(),
        nanosecond: sum.nanosecond(),
    })
}

/// `n` in decimal, with zeros in front up to `width` characters.
pub open spec fn zero_padded(n: nat, width: nat) -> Seq<char> {
    let d = text::decimal(n);
    if d.len() < width {
        Seq::new((width - d.len()) as nat, |i: int| '0') + d
    } else {
        d
    }
}

/// The text of a year: four digits at least, and a sign where the year is
/// before year 0 or after year 9999.
pub open spec fn year_text(year: int) -> Seq<char> {
    if year < 0 {
        seq!['-'] + zero_padded((-year) as nat, 4)
    } else if year > 9999 {
        seq!['+'] + zero_padded(year as nat, 4)
    } else {
        zero_padded(year as nat, 4)
    }
}

/// The text of a time: `YYYY-MM-DDTHH:MM:SS`, with second 60 for a leap second.
pub open spec fn time_text(t: DateTime) -> Seq<char> {
    year_text(t.year as int) + seq!['-'] + zero_padded(t.month as nat, 2) + seq!['-']
        + zero_padded(t.day as nat, 2) + seq!['T'] + zero_padded(t.hour as nat, 2) + seq![':']
        + zero_padded(t.minute as nat, 2) + seq![':'] + zero_padded(
        (t.second + t.nanosecond / 1_000_000_000) as nat,
        2,
    )
}

/// `t` without the fraction of its second.
pub open spec fn whole_second(t: DateTime) -> DateTime {
    DateTime { nanosecond: (t.nanosecond / 1_000_000_000 * 1_000_000_000) as u32, ..t }
}

/// `chrono::NaiveDateTime::format` with the format [`TIME_FMT`] writes year,
/// month, day, hour, minute and second, as [`time_text`] has it.
#[verifier::external_body]
fn format_with(t: DateTime, fmt: &str) -> (r: String)
    requires
        t.valid(),
        fmt@ == TIME_FMT@,
    ensures
        r@ == time_text(t),
{
    let date = chrono::NaiveDate::from_ymd_opt(t.year, t.month, t.day).unwrap();
    let n = date.and_hms_nano_opt(t.hour, t.minute, t.second, t.nanosecond).unwrap();
    n.format(fmt).to_string()
}

/// What `chrono::NaiveDateTime::parse_from_str` reads from the text `s` by the
/// format `fmt`; `None` where it reports an error.
pub uninterp spec fn parsed_time(s: Seq<char>, fmt: Seq<char>) -> Option<DateTime>;

/// `chrono::NaiveDateTime::parse_from_str`: its result depends on the two texts
/// alone and is a time that exists. By the format [`TIME_FMT`] it reads back
/// what formatting wrote, up to the fraction of the second, which the text
/// does not hold.
#[verifier::external_body]
fn parse_with(s: &str, fmt: &str) -> (r: Option<DateTime>)
    ensures
        r == parsed_time(s@, fmt@),
        r is Some ==> r->0.valid(),
        fmt@ == TIME_FMT@ ==> forall|t: DateTime|
            t.valid() && s@ == #[trigger] time_text(t) ==> r == Some(whole_second(t)),
{
    let n = chrono::NaiveDateTime::parse_from_str(s, fmt).ok()?;
    Some(DateTime {
        year: n.year(),
        month: n.month(),
        day: n.day(),
        hour: n.hour(),
        minute: n.minute(),
        second: n.second(),
        nanosecond: n.nanosecond(),
    })
}

/// The text of a time.
pub fn format_time(t: DateTime) -> (r: String)
    requires
        t.valid(),
    ensures
        r@ == time_text(t),
{
    format_with(t, TIME_FMT)
}

/// The time that a text denotes, if any.
pub fn parse_time(s: &str) -> (r: Option<DateTime>)
    ensures
        r == parsed_time(s@, TIME_FMT@),
        r is Some ==> r->0.valid(),
        forall|t: DateTime|
            t.valid() && s@ == #[trigger] time_text(t) ==> r == Some(whole_second(t)),
{
    parse_with(s, TIME_FMT)
}

// ---------------------------------------------------------------------------
// Fields
// ---------------------------------------------------------------------------

impl DateTime {
    /// The date and time of these fields, where they denote one.
    pub fn new(year: i32, month: u32, day: u32, hour: u32, minute: u32, second: u32) -> (r: Option<
        DateTime,
    >)
        ensures
            ({
                let t = DateTime { year, month, day, hour, minute, second, nanosecond: 0 };
                r == if t.valid() {
                    Some(t)
                } else {
                    None
                }
            }),
    {
        if date_exists(year, month, day) && hour < 24 && minute < 60 && second < 60 {
            Some(DateTime { year, month, day, hour, minute, second, nanosecond: 0 })
        } else {
            None
        }
    }

    /// Whether this is earlier than `other`.
    pub fn is_before(&self, other: &DateTime) -> (r: bool)
        ensures
            r == self.before(*other),
    {
        if self.year != other.year {
            self.year < other.year
        } else if self.month != other.month {
            self.month < other.month
        } else if self.day != other.day {
            self.day < other.day
        } else if self.hour != other.hour {
            self.hour < other.hour
        } else if self.minute != other.minute {
            self.minute < other.minute
        } else if self.second != other.second {
            self.second < other.second
        } else {
            self.nanosecond < other.nanosecond
        }
    }
}

/// The beginning of the minute that `t` lies in.
pub fn truncate_minute(t: DateTime) -> (r: DateTime)
    ensures
        r == t.minute_start(),
        t.valid() ==> r.valid(),
{
    DateTime { second: 0, nanosecond: 0, ..t }
}

// ---------------------------------------------------------------------------
// Days, hours and minutes in order
// ---------------------------------------------------------------------------

proof fn lemma_year_step(y: int)
    ensures
        days_before_year(y + 1) == days_before_year(y) + 365 + if is_leap(y) {
            1int
        } else {
            0int
        },
{
}

proof fn lemma_years_in_order(a: int, b: int)
    requires
        a <= b,
    ensures
        days_before_year(a) <= days_before_year(b),
    decreases b - a,
{
    if a < b {
        lemma_year_step(b - 1);
        lemma_years_in_order(a, b - 1);
    }
}

proof fn lemma_months_in_order(y: int, a: int, b: int)
    requires
        1 <= a < b,
    ensures
        days_before_month(y, a) + days_in_month(y, a) <= days_before_month(y, b),
    decreases b - a,
{
    if a + 1 < b {
        lemma_months_in_order(y, a, b - 1);
    }
}

proof fn lemma_year_length(y: int)
    ensures
        days_before_month(y, 12) + 31 == 365 + if is_leap(y) {
            1int
        } else {
            0int
        },
{
    reveal_with_fuel(days_before_month, 12);
}

/// Later dates have greater day numbers.
pub proof fn lemma_day_number_in_order(y1: int, m1: int, d1: int, y2: int, m2: int, d2: int)
    requires
        valid_date(y1, m1, d1),
        valid_date(y2, m2, d2),
        y1 < y2 || (y1 == y2 && (m1 < m2 || (m1 == m2 && d1 < d2))),
    ensures
        day_number(y1, m1, d1) < day_number(y2, m2, d2),
{
    if y1 < y2 {
        lemma_year_length(y1);
        if m1 < 12 {
            lemma_months_in_order(y1, m1, 12);
        }
        lemma_year_step(y1);
        lemma_years_in_order(y1 + 1, y2);
        if m2 > 1 {
            lemma_months_in_order(y2, 1, m2);
        }
    } else if m1 < m2 {
        lemma_months_in_order(y1, m1, m2);
    }
}

/// A time is given by its count of seconds and its fraction.
pub proof fn lemma_seconds_unique(a: DateTime, b: DateTime)
    requires
        a.valid(),
        b.valid(),
        a.seconds() == b.seconds(),
        a.nanosecond == b.nanosecond,
    ensures
        a == b,
{
    let na = day_number(a.year as int, a.month as int, a.day as int);
    let nb = day_number(b.year as int, b.month as int, b.day as int);
    assert(na == nb);
    if a.year != b.year || a.month != b.month || a.day != b.day {
        if a.before(b) {
            lemma_day_number_in_order(
                a.year as int,
                a.month as int,
                a.day as int,
                b.year as int,
                b.month as int,
                b.day as int,
            );
        } else {
            lemma_day_number_in_order(
                b.year as int,
                b.month as int,
                b.day as int,
                a.year as int,
                a.month as int,
                a.day as int,
            );
        }
    }
}

impl DateTime {
    /// The midnight at the end of this day, where the calendar has it.
    pub open spec fn next_midnight(self) -> Option<DateTime> {
        let at = |year: int, month: int, day: int|
            DateTime {
                year: year as i32,
                month: month as u32,
                day: day as u32,
                hour: 0,
                minute: 0,
                second: 0,
                nanosecond: 0,
            };
        if self.day < days_in_month(self.year as int, self.month as int) {
            Some(at(self.year as int, self.month as int, self.day + 1))
        } else if self.month < 12 {
            Some(at(self.year as int, self.month + 1, 1))
        } else if self.year < MAX_YEAR {
            Some(at(self.year + 1, 1, 1))
        } else {
            None
        }
    }

    /// The end of this hour, where the calendar has it.
    pub open spec fn next_hour(self) -> Option<DateTime> {
        if self.hour < 23 {
            Some(
                DateTime {
                    hour: (self.hour + 1) as u32,
                    minute: 0,
                    second: 0,
                    nanosecond: 0,
                    ..self
                },
            )
        } else {
            self.next_midnight()
        }
    }

    /// The end of this minute, where the calendar has it.
    pub open spec fn next_minute(self) -> Option<DateTime> {
        if self.minute < 59 {
            Some(
                DateTime { minute: (self.minute + 1) as u32, second: 0, nanosecond: 0, ..self },
            )
        } else {
            self.next_hour()
        }
    }
}

proof fn lemma_next_midnight(t: DateTime)
    requires
        t.valid(),
    ensures
        match t.next_midnight() {
            Some(u) => u.valid() && u.on_minute() && u.seconds() == t.seconds() - t.hour * 3600
                - t.minute * 60 - t.second + 86400,
            None => forall|u: DateTime| #[trigger]
                u.valid() ==> u.seconds() < t.seconds() - t.hour * 3600 - t.minute * 60 - t.second
                    + 86400,
        },
{
    let (y, m, d) = (t.year as int, t.month as int, t.day as int);
    lemma_year_length(y);
    lemma_year_step(y);
    if t.next_midnight() is None {
        assert forall|u: DateTime| #[trigger] u.valid() implies u.seconds() < t.seconds() - t.hour
            * 3600 - t.minute * 60 - t.second + 86400 by {
            if u.year != t.year || u.month != t.month || u.day != t.day {
                lemma_day_number_in_order(
                    u.year as int,
                    u.month as int,
                    u.day as int,
                    y,
                    m,
                    d,
                );
            }
        }
    }
}

/// The midnight at the end of the day of `t`.
pub fn next_midnight(t: DateTime) -> (r: Option<DateTime>)
    requires
        t.valid(),
    ensures
        r == t.next_midnight(),
        r is Some ==> r->0.valid() && r->0.on_minute(),
{
    let start = DateTime { hour: 0, minute: 0, second: 0, nanosecond: 0, ..t };
    let r = add_seconds(start, 86400);
    proof {
        lemma_next_midnight(t);
        if r is Some && t.next_midnight() is Some {
            lemma_seconds_unique(r->0, t.next_midnight()->0);
        }
    }
    r
}

/// The end of the hour of `t`.
pub fn next_hour(t: DateTime) -> (r: Option<DateTime>)
    requires
        t.valid(),
    ensures
        r == t.next_hour(),
        r is Some ==> r->0.valid() && r->0.on_minute(),
{
    let start = DateTime { minute: 0, second: 0, nanosecond: 0, ..t };
    let r = add_seconds(start, 3600);
    proof {
        lemma_next_midnight(t);
        if t.next_hour() is Some {
            assert(t.next_hour()->0.valid());
            if r is Some {
                lemma_seconds_unique(r->0, t.next_hour()->0);
            }
        }
    }
    r
}

/// The end of the minute of `t`.
pub fn next_minute(t: DateTime) -> (r: Option<DateTime>)
    requires
        t.valid(),
    ensures
        r == t.next_minute(),
        r is Some ==> r->0.valid() && r->0.on_minute(),
{
    let r = add_seconds(truncate_minute(t), 60);
    proof {
        lemma_next_midnight(t);
        if t.next_minute() is Some {
            assert(t.next_minute()->0.valid());
            if r is Some {
                lemma_seconds_unique(r->0, t.next_minute()->0);
            }
        }
    }
    r
}

/// The first midnight of the month after that of `t`.
pub open spec fn next_month_of(t: DateTime) -> Option<DateTime> {
    let (year, month) = if t.month == 12 {
        (t.year + 1, 1int)
    } else {
        (t.year as int, t.month + 1)
    };
    if year <= MAX_YEAR {
        Some(
            DateTime {
                year: year as i32,
                month: month as u32,
                day: 1,
                hour: 0,
                minute: 0,
                second: 0,
                nanosecond: 0,
            },
        )
    } else {
        None
    }
}

/// The first midnight of the month after that of `t`.
pub fn next_month(t: DateTime) -> (r: Option<DateTime>)
    requires
        t.valid(),
    ensures
        r == next_month_of(t),
        r is Some ==> r->0.valid() && r->0.on_minute(),
{
    if t.month == 12 {
        DateTime::new(t.year + 1, 1, 1, 0, 0, 0)
    } else {
        DateTime::new(t.year, t.month + 1, 1, 0, 0, 0)
    }
}


/// The longest time that can be counted back, in seconds.
pub const MAX_SECONDS: u64 = 9_223_372_036_854_775;

/// The time `seconds` before `t`, where the calendar has it; none where there
/// are more than `MAX_SECONDS` of them.
pub fn seconds_before(t: DateTime, seconds: u64) -> (r: Option<DateTime>)
    requires
        t.valid(),
    ensures
        r == if seconds <= MAX_SECONDS {
            moved(t, -seconds)
        } else {
            None
        },
        r is Some ==> r->0.valid(),
{
    if seconds > MAX_SECONDS {
        return None;
    }
    let r = add_seconds(t, -(seconds as i64));
    proof {
        let n: int = -(seconds as int);
        match r {
            Some(u) => {
                assert(is_sum(t, n, u));
                let v = moved(t, n)->0;
                lemma_seconds_unique(u, v);
            },
            None => {
                assert forall|u: DateTime| !is_sum(t, n, u) by {
                    if u.valid() {
                        assert(u.seconds() != sum_seconds(t, n));
                    }
                }
            },
        }
    }
    r
}

/// One time is before another exactly where it lies in an earlier second, or in
/// the same second with fewer nanoseconds.
pub proof fn before_is_chronological(a: DateTime, b: DateTime)
    requires
        a.valid(),
        b.valid(),
    ensures
        a.before(b) <==> a.seconds() < b.seconds() || (a.seconds() == b.seconds() && a.nanosecond
            < b.nanosecond),
{
    if a.before(b) {
        lemma_before_by_seconds(a, b);
    } else if b.before(a) {
        lemma_before_by_seconds(b, a);
    }
}

proof fn lemma_before_by_seconds(a: DateTime, b: DateTime)
    requires
        a.valid(),
        b.valid(),
        a.before(b),
    ensures
        a.seconds() < b.seconds() || (a.seconds() == b.seconds() && a.nanosecond < b.nanosecond),
{
    if a.year != b.year || a.month != b.month || a.day != b.day {
        lemma_day_number_in_order(
            a.year as int,
            a.month as int,
            a.day as int,
            b.year as int,
            b.month as int,
            b.day as int,
        );
    }
}

/// The minute that a time lies in begins at that time or less than 60 seconds
/// before it, and a time is before that beginning exactly where its own minute
/// begins before it.
pub proof fn a_minute_begins_within_it(t: DateTime, u: DateTime)
    requires
        t.valid(),
    ensures
        ({
            let m = t.minute_start();
            &&& m.valid()
            &&& m.second == 0 && m.nanosecond == 0
            &&& !t.before(m)
            &&& m.seconds() <= t.seconds() < m.seconds() + 60
            &&& m.minute_start() == m
            &&& u.before(m) <==> u.minute_start().before(m)
        }),
{
}

/// The next minute begins 60 seconds after this one, the next hour less than an
/// hour later, and the next day less than a day later, each at its first moment.
pub proof fn what_follows_a_time(t: DateTime)
    requires
        t.valid(),
    ensures
        t.next_minute() matches Some(u) ==> u.valid() && u.second == 0 && u.nanosecond == 0
            && u.seconds() == t.minute_start().seconds() + 60,
        t.next_hour() matches Some(u) ==> u.valid() && u.minute == 0 && u.second == 0
            && u.nanosecond == 0 && t.seconds() < u.seconds() <= t.seconds() + 3600,
        t.next_midnight() matches Some(u) ==> u.valid() && u.hour == 0 && u.minute == 0 && u.second
            == 0 && u.nanosecond == 0 && t.seconds() < u.seconds() <= t.seconds() + 86400,
        t.next_minute() is None ==> forall|u: DateTime| #[trigger]
            u.valid() ==> u.seconds() < t.minute_start().seconds() + 60,
{
    lemma_next_midnight(t);
}

/// The next month is the one after, of the next year where this is December, and
/// begins at the first midnight of its first day; it is missing only behind the
/// last month of the calendar.
pub proof fn months_follow_one_another(t: DateTime)
    requires
        t.valid(),
    ensures
        match next_month_of(t) {
            Some(u) => {
                &&& u.valid()
                &&& u.year * 12 + u.month == t.year * 12 + t.month + 1
                &&& u.day == 1 && u.hour == 0 && u.minute == 0 && u.second == 0
                &&& u.nanosecond == 0
                &&& t.before(u)
            },
            None => t.month == 12 && t.year == 262142,
        },
{
}

/// The weekdays follow one another: the day after is the next one, and Saturday
/// is followed by Sunday.
pub proof fn weekdays_follow_one_another(t: DateTime)
    requires
        t.valid(),
    ensures
        0 <= weekday_of(t.year as int, t.month as int, t.day as int) <= 6,
        t.next_midnight() matches Some(u) ==> weekday_of(
            u.year as int,
            u.month as int,
            u.day as int,
        ) == (if weekday_of(t.year as int, t.month as int, t.day as int) == 6 {
            0
        } else {
            weekday_of(t.year as int, t.month as int, t.day as int) + 1
        }),
{
    lemma_next_midnight(t);
    if t.next_midnight() is Some {
        let u = t.next_midnight()->0;
        assert(day_number(u.year as int, u.month as int, u.day as int) == day_number(
            t.year as int,
            t.month as int,
            t.day as int,
        ) + 1);
    }
}

} // verus!
