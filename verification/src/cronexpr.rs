//! Cron expression parsing and next-occurrence computation.
//!
//! Supports the classic five-field vixie-cron syntax (`minute hour
//! day-of-month month day-of-week`) including lists, ranges, steps, month
//! and weekday names, `7` as Sunday, the vixie day-of-month/day-of-week OR
//! rule, and the `@hourly` / `@daily` / `@weekly` / `@monthly` / `@yearly` /
//! `@reboot` aliases.

use crate::text;
use crate::time;
use crate::time::DateTime;
use vstd::prelude::*;
use vstd::string::*;

verus! {

// ---------------------------------------------------------------------------
// Sets of small numbers as bit masks
// ---------------------------------------------------------------------------

/// Whether bit `v` of `mask` is set.
pub open spec fn has_bit(mask: u64, v: u64) -> bool {
    (mask >> v) & 1 == 1
}

/// The numbers whose bits are set.
pub open spec fn bits(mask: u64) -> Set<int> {
    Set::new(|v: int| 0 <= v < 64 && has_bit(mask, v as u64))
}

proof fn lemma_no_bits()
    ensures
        bits(0) == Set::<int>::empty(),
{
    assert forall|v: int| !bits(0).contains(v) by {
        let w = v as u64;
        assert((0u64 >> w) & 1 != 1) by (bit_vector);
    }
    assert(bits(0) =~= Set::<int>::empty());
}

/// `mask` with bit `v` set.
fn set_bit(mask: u64, v: u32) -> (r: u64)
    requires
        v < 64,
    ensures
        bits(r) == bits(mask).insert(v as int),
{
    let r = mask | (1u64 << v);
    proof {
        let w = v as u64;
        assert(r == mask | (1u64 << w));
        assert forall|u: int| bits(r).contains(u) == bits(mask).insert(v as int).contains(u) by {
            if 0 <= u < 64 {
                let x = u as u64;
                assert((((mask | (1u64 << w)) >> x) & 1 == 1) == (((mask >> x) & 1 == 1) || w
                    == x)) by (bit_vector)
                    requires
                        w < 64,
                        x < 64,
                ;
            }
        }
        assert(bits(r) =~= bits(mask).insert(v as int));
    }
    r
}

/// Whether bit `v` of `mask` is set.
fn test_bit(mask: u64, v: u32) -> (r: bool)
    requires
        v < 64,
    ensures
        r == bits(mask).contains(v as int),
{
    let w = v as u64;
    assert((mask & (1u64 << w) != 0) == ((mask >> w) & 1 == 1)) by (bit_vector)
        requires
            w < 64,
    ;
    mask & (1u64 << w) != 0
}

// ---------------------------------------------------------------------------
// The syntax of one field
// ---------------------------------------------------------------------------

/// The names that a field knows beside numbers.
#[derive(Debug, Clone, Copy, PartialEq, Eq, Structural)]
pub enum Names {
    Nothing,
    Months,
    Weekdays,
}

/// What one of the five fields may hold.
pub struct FieldSpec {
    pub min: u32,
    pub max: u32,
    pub names: Names,
    /// The value of the first name.
    pub name_base: u32,
}

/// The names of a table in the order of their values.
pub open spec fn name_list(names: Names) -> Seq<Seq<char>> {
    match names {
        Names::Nothing => seq![],
        Names::Months => seq![
            "jan"@,
            "feb"@,
            "mar"@,
            "apr"@,
            "may"@,
            "jun"@,
            "jul"@,
            "aug"@,
            "sep"@,
            "oct"@,
            "nov"@,
            "dec"@,
        ],
        Names::Weekdays => seq!["sun"@, "mon"@, "tue"@, "wed"@, "thu"@, "fri"@, "sat"@],
    }
}

/// The first place of `x` in `list`.
pub open spec fn position(list: Seq<Seq<char>>, x: Seq<char>) -> Option<int>
    decreases list.len(),
{
    if list.len() == 0 {
        None
    } else if list[0] == x {
        Some(0)
    } else {
        match position(list.skip(1), x) {
            Some(i) => Some(i + 1),
            None => None,
        }
    }
}

/// The value of one number or name of a field.
pub open spec fn value_of(token: Seq<char>, f: FieldSpec) -> Option<int> {
    match text::unsigned_of(token, u32::MAX as nat) {
        Some(n) => Some(n as int),
        None => match position(name_list(f.names), text::lower_of(token)) {
            Some(i) => Some(f.name_base + i),
            None => None,
        },
    }
}

/// One item of a field's list: every `step`-th number from `lo` to `hi`, and 0
/// too where `sunday` says so.
#[derive(Clone, Copy)]
pub struct Part {
    pub lo: u32,
    pub hi: u32,
    pub step: u32,
    pub sunday: bool,
    /// Whether the item is a bare `*`.
    pub star: bool,
}

impl Part {
    /// The numbers that the item stands for.
    pub open spec fn values(self) -> Set<int> {
        Set::new(
            |v: int|
                (self.lo <= v <= self.hi && (v - self.lo) % (self.step as int) == 0) || (
                self.sunday && v == 0),
        )
    }
}

/// The part of an item before its step.
pub open spec fn range_text(part: Seq<char>) -> Seq<char> {
    match text::split_once_of(part, '/') {
        Some(p) => p.0,
        None => part,
    }
}

/// The step of an item, or what is wrong with it.
pub open spec fn step_of(part: Seq<char>) -> Result<int, Seq<char>> {
    match text::split_once_of(part, '/') {
        None => Ok(1),
        Some(p) => match text::unsigned_of(p.1, u32::MAX as nat) {
            None => Err("invalid step '"@ + p.1 + "'"@),
            Some(n) => if n == 0 {
                Err("step must be >= 1"@)
            } else {
                Ok(n as int)
            },
        },
    }
}

/// The message for a token that is neither a number nor a name.
pub open spec fn unrecognized(token: Seq<char>) -> Seq<char> {
    "unrecognized value '"@ + token + "'"@
}

/// The two ends that an item writes down. A bare value with a step
/// (`5/15`) reaches up to the field's maximum.
pub open spec fn ends_of(part: Seq<char>, f: FieldSpec) -> Result<(int, int), Seq<char>> {
    let range = range_text(part);
    if range == "*"@ {
        Ok((f.min as int, f.max as int))
    } else {
        match text::split_once_of(range, '-') {
            Some(p) => match value_of(p.0, f) {
                None => Err(unrecognized(p.0)),
                Some(a) => match value_of(p.1, f) {
                    None => Err(unrecognized(p.1)),
                    Some(b) => Ok((a, b)),
                },
            },
            None => match value_of(range, f) {
                None => Err(unrecognized(range)),
                Some(v) => if text::split_once_of(part, '/') is Some {
                    Ok((v, f.max as int))
                } else {
                    Ok((v, v))
                },
            },
        }
    }
}

/// The ends of an item once a 7 in the weekday field is read as Sunday, and
/// whether Sunday is in it beside what lies between the ends.
pub open spec fn sunday_ends(lo: int, hi: int, step: int, f: FieldSpec) -> (int, int, bool) {
    if f.max != 6 {
        (lo, hi, false)
    } else if lo == 7 && hi == 7 {
        (0, 0, false)
    } else if hi == 7 {
        (lo, 6, lo <= 6 && (7 - lo) % step == 0)
    } else if lo == 7 {
        (0, hi, false)
    } else {
        (lo, hi, false)
    }
}

/// The message for an item that leaves the field's range.
pub open spec fn out_of_range(part: Seq<char>, f: FieldSpec) -> Seq<char> {
    "value out of range in '"@ + part + "' (allowed "@ + text::decimal(f.min as nat) + "-"@ + text::decimal(
        f.max as nat,
    ) + ")"@
}

/// What one item of the list `field` stands for, or what is wrong with it.
pub open spec fn part_of(part: Seq<char>, field: Seq<char>, f: FieldSpec) -> Result<
    Part,
    Seq<char>,
> {
    if part.len() == 0 {
        Err("empty list item in '"@ + field + "'"@)
    } else {
        match step_of(part) {
            Err(e) => Err(e),
            Ok(step) => match ends_of(part, f) {
                Err(e) => Err(e),
                Ok(ends) => {
                    let (lo, hi, sunday) = sunday_ends(ends.0, ends.1, step, f);
                    if lo < f.min || hi > f.max || lo > hi {
                        Err(out_of_range(part, f))
                    } else {
                        Ok(
                            Part {
                                lo: lo as u32,
                                hi: hi as u32,
                                step: step as u32,
                                sunday,
                                star: part == "*"@,
                            },
                        )
                    }
                },
            },
        }
    }
}

/// The numbers that a list of items stands for, and whether every item is `*`;
/// or what is wrong with the first faulty item.
pub open spec fn list_of(parts: Seq<Seq<char>>, field: Seq<char>, f: FieldSpec) -> Result<
    (Set<int>, bool),
    Seq<char>,
>
    decreases parts.len(),
{
    if parts.len() == 0 {
        Ok((Set::empty(), true))
    } else {
        match list_of(parts.drop_last(), field, f) {
            Err(e) => Err(e),
            Ok(r) => match part_of(parts.last(), field, f) {
                Err(e) => Err(e),
                Ok(p) => Ok((r.0.union(p.values()), r.1 && p.star)),
            },
        }
    }
}

/// The numbers that a field stands for, and whether it is unrestricted.
pub open spec fn field_of(field: Seq<char>, f: FieldSpec) -> Result<(Set<int>, bool), Seq<char>> {
    list_of(text::split_of(field, ','), field, f)
}

proof fn lemma_list_error(parts: Seq<Seq<char>>, i: int, field: Seq<char>, f: FieldSpec)
    requires
        0 <= i <= parts.len(),
        list_of(parts.take(i), field, f) is Err,
    ensures
        list_of(parts, field, f) == list_of(parts.take(i), field, f),
    decreases parts.len() - i,
{
    if i == parts.len() {
        assert(parts.take(i) =~= parts);
    } else {
        assert(parts.take(i + 1).drop_last() =~= parts.take(i));
        lemma_list_error(parts, i + 1, field, f);
    }
}

// ---------------------------------------------------------------------------
// The meaning of an expression
// ---------------------------------------------------------------------------

/// What a cron expression says.
pub struct Schedule {
    pub minutes: Set<int>,
    pub hours: Set<int>,
    pub days: Set<int>,
    pub months: Set<int>,
    pub weekdays: Set<int>,
    /// Whether the day-of-month field is unrestricted.
    pub any_day: bool,
    /// Whether the day-of-week field is unrestricted.
    pub any_weekday: bool,
    /// Whether the job runs once at startup.
    pub reboot: bool,
}

impl Schedule {
    /// Whether the schedule covers the day of `t`. Where both day fields are
    /// restricted, either may match.
    pub open spec fn covers_day(self, t: DateTime) -> bool {
        let day_ok = self.days.contains(t.day as int);
        let weekday_ok = self.weekdays.contains(
            time::weekday_of(t.year as int, t.month as int, t.day as int),
        );
        match (self.any_day, self.any_weekday) {
            (true, true) => true,
            (true, false) => weekday_ok,
            (false, true) => day_ok,
            (false, false) => day_ok || weekday_ok,
        }
    }

    /// Whether the schedule covers the minute of `t`.
    pub open spec fn covers(self, t: DateTime) -> bool {
        &&& self.months.contains(t.month as int)
        &&& self.covers_day(t)
        &&& self.hours.contains(t.hour as int)
        &&& self.minutes.contains(t.minute as int)
    }

    /// Whether `t` is an occurrence: the beginning of a minute that the
    /// schedule covers.
    pub open spec fn occurs(self, t: DateTime) -> bool {
        t.valid() && t.on_minute() && self.covers(t)
    }

    /// Whether `t` is the first occurrence after `after`, and within the five
    /// calendar years that follow.
    pub open spec fn is_next(self, after: DateTime, t: DateTime) -> bool {
        &&& self.occurs(t)
        &&& after.before(t)
        &&& t.year <= after.year + 5
        &&& forall|u: DateTime| #[trigger]
            self.occurs(u) && after.before(u) ==> !u.before(t)
    }

    /// The first occurrence after `after`, if there is one within the five
    /// calendar years that follow.
    pub open spec fn next(self, after: DateTime) -> Option<DateTime> {
        if exists|t: DateTime| self.is_next(after, t) {
            Some(choose|t: DateTime| self.is_next(after, t))
        } else {
            None
        }
    }
}

/// The five fields of an expression.
pub open spec fn minute_field() -> FieldSpec {
    FieldSpec { min: 0, max: 59, names: Names::Nothing, name_base: 0 }
}

pub open spec fn hour_field() -> FieldSpec {
    FieldSpec { min: 0, max: 23, names: Names::Nothing, name_base: 0 }
}

pub open spec fn day_field() -> FieldSpec {
    FieldSpec { min: 1, max: 31, names: Names::Nothing, name_base: 0 }
}

pub open spec fn month_field() -> FieldSpec {
    FieldSpec { min: 1, max: 12, names: Names::Months, name_base: 1 }
}

pub open spec fn weekday_field() -> FieldSpec {
    FieldSpec { min: 0, max: 6, names: Names::Weekdays, name_base: 0 }
}

/// What a five-field expression says, or what is wrong with it; the first
/// faulty field decides.
pub open spec fn fields_of(expr: Seq<char>) -> Result<Schedule, Seq<char>> {
    let w = text::words_of(expr);
    if w.len() != 5 {
        Err("expected 5 fields, got "@ + text::decimal(w.len()) + " in '"@ + expr + "'"@)
    } else {
        match field_of(w[0], minute_field()) {
            Err(e) => Err(e),
            Ok(minutes) => match field_of(w[1], hour_field()) {
                Err(e) => Err(e),
                Ok(hours) => match field_of(w[2], day_field()) {
                    Err(e) => Err(e),
                    Ok(days) => match field_of(w[3], month_field()) {
                        Err(e) => Err(e),
                        Ok(months) => match field_of(w[4], weekday_field()) {
                            Err(e) => Err(e),
                            Ok(weekdays) => Ok(
                                Schedule {
                                    minutes: minutes.0,
                                    hours: hours.0,
                                    days: days.0,
                                    months: months.0,
                                    weekdays: weekdays.0,
                                    any_day: days.1,
                                    any_weekday: weekdays.1,
                                    reboot: false,
                                },
                            ),
                        },
                    },
                },
            },
        }
    }
}

/// The five fields that an alias (in lower case) stands for.
pub open spec fn alias_fields(alias: Seq<char>) -> Option<Seq<char>> {
    if alias == "reboot"@ {
        Some("* * * * *"@)
    } else if alias == "hourly"@ {
        Some("0 * * * *"@)
    } else if alias == "daily"@ || alias == "midnight"@ {
        Some("0 0 * * *"@)
    } else if alias == "weekly"@ {
        Some("0 0 * * 0"@)
    } else if alias == "monthly"@ {
        Some("0 0 1 * *"@)
    } else if alias == "yearly"@ || alias == "annually"@ {
        Some("0 0 1 1 *"@)
    } else {
        None
    }
}

/// What an alias says, or that it is unknown.
pub open spec fn alias_of(alias: Seq<char>) -> Result<Schedule, Seq<char>> {
    let a = text::lower_of(alias);
    match alias_fields(a) {
        None => Err("unknown alias '@"@ + a + "'"@),
        Some(fields) => match fields_of(fields) {
            Err(e) => Err(e),
            Ok(s) => Ok(Schedule { reboot: a == "reboot"@, ..s }),
        },
    }
}

/// What a cron expression says, or what is wrong with it.
pub open spec fn schedule_of(expr: Seq<char>) -> Result<Schedule, Seq<char>> {
    let e = text::trim_of(expr);
    match text::strip_prefix_of(e, "@"@) {
        Some(alias) => alias_of(alias),
        None => fields_of(e),
    }
}

// ---------------------------------------------------------------------------
// Parsing
// ---------------------------------------------------------------------------

/// Error produced when a cron expression cannot be parsed.
#[derive(Debug, Clone, PartialEq, Eq)]
pub struct CronParseError(pub String);

impl CronParseError {
    /// The error as shown to the user.
    pub fn describe(&self) -> (r: String)
        ensures
            r@ == "invalid cron expression: "@ + self.0@,
    {
        let mut out = "invalid cron expression: ".to_owned();
        out.append(self.0.as_str());
        out
    }
}

/// The names of a table in the order of their values.
fn name_table(names: Names) -> (r: Vec<&'static str>)
    ensures
        r@.len() == name_list(names).len(),
        forall|i: int| 0 <= i < r@.len() ==> (#[trigger] r@[i])@ == name_list(names)[i],
        r@.len() <= 12,
{
    match names {
        Names::Nothing => Vec::new(),
        Names::Months => vec![
            "jan",
            "feb",
            "mar",
            "apr",
            "may",
            "jun",
            "jul",
            "aug",
            "sep",
            "oct",
            "nov",
            "dec",
        ],
        Names::Weekdays => vec!["sun", "mon", "tue", "wed", "thu", "fri", "sat"],
    }
}

proof fn lemma_position(list: Seq<Seq<char>>, x: Seq<char>, i: int)
    requires
        0 <= i <= list.len(),
        forall|j: int| 0 <= j < i ==> list[j] != x,
        i < list.len() ==> list[i] == x,
    ensures
        position(list, x) == if i < list.len() {
            Some(i)
        } else {
            None
        },
    decreases list.len(),
{
    if list.len() > 0 && i > 0 {
        assert(list[0] != x);
        assert forall|j: int| 0 <= j < i - 1 implies list.skip(1)[j] != x by {
            assert(list.skip(1)[j] == list[j + 1]);
        }
        lemma_position(list.skip(1), x, i - 1);
    }
}

/// The value of one number or name of a field.
fn parse_value(token: &[char], f: &FieldSpec) -> (r: Result<u32, CronParseError>)
    requires
        f.name_base <= 1,
    ensures
        match r {
            Ok(v) => value_of(token@, *f) == Some(v as int),
            Err(e) => value_of(token@, *f) is None && e.0@ == unrecognized(token@),
        },
{
    match text::parse_unsigned(token, u32::MAX as u64) {
        Some(n) => {
            return Ok(n as u32);
        },
        None => {},
    }
    let lower = text::to_lower(token);
    let names = name_table(f.names);
    let ghost list = name_list(f.names);
    let mut i: usize = 0;
    while i < names.len()
        invariant
            i <= names@.len() <= 12,
            names@.len() == list.len(),
            forall|j: int| 0 <= j < names@.len() ==> (#[trigger] names@[j])@ == list[j],
            forall|j: int| 0 <= j < i ==> list[j] != lower@,
            lower@ == text::lower_of(token@),
            list == name_list(f.names),
            f.name_base <= 1,
            text::unsigned_of(token@, u32::MAX as nat) is None,
        decreases names@.len() - i,
    {
        if text::is_text(lower.as_slice(), names[i]) {
            proof {
                lemma_position(list, lower@, i as int);
            }
            return Ok(f.name_base + i as u32);
        }
        i = i + 1;
    }
    proof {
        lemma_position(list, lower@, i as int);
    }
    Err(CronParseError(text::enclose("unrecognized value '", token, "'")))
}

proof fn lemma_star_has_no_step(part: Seq<char>)
    requires
        part == "*"@,
    ensures
        text::split_once_of(part, '/') is None,
{
    reveal_strlit("*");
    text::lemma_first_where(part, text::is_char('/'), 1);
}

/// The step of an item.
fn parse_step(part: &[char]) -> (r: Result<u32, CronParseError>)
    ensures
        match r {
            Ok(n) => step_of(part@) == Ok::<int, Seq<char>>(n as int) && n > 0,
            Err(e) => step_of(part@) == Err::<int, Seq<char>>(e.0@),
        },
{
    match text::split_once(part, '/') {
        None => Ok(1),
        Some(p) => match text::parse_unsigned(p.1, u32::MAX as u64) {
            None => Err(CronParseError(text::enclose("invalid step '", p.1, "'"))),
            Some(n) => if n == 0 {
                Err(CronParseError("step must be >= 1".to_owned()))
            } else {
                Ok(n as u32)
            },
        },
    }
}

/// The two ends that an item writes down.
fn parse_ends(part: &[char], f: &FieldSpec) -> (r: Result<(u32, u32), CronParseError>)
    requires
        f.name_base <= 1,
    ensures
        match r {
            Ok(e) => ends_of(part@, *f) == Ok::<(int, int), Seq<char>>((e.0 as int, e.1 as int)),
            Err(e) => ends_of(part@, *f) == Err::<(int, int), Seq<char>>(e.0@),
        },
{
    let slash = text::split_once(part, '/');
    let has_step = slash.is_some();
    let range: &[char] = match slash {
        Some(p) => p.0,
        None => part,
    };
    assert(range@ == range_text(part@));
    if text::is_text(range, "*") {
        return Ok((f.min, f.max));
    }
    match text::split_once(range, '-') {
        Some(p) => {
            let a = match parse_value(p.0, f) {
                Ok(v) => v,
                Err(e) => {
                    return Err(e);
                },
            };
            match parse_value(p.1, f) {
                Ok(b) => Ok((a, b)),
                Err(e) => Err(e),
            }
        },
        None => match parse_value(range, f) {
            Ok(v) => if has_step {
                Ok((v, f.max))
            } else {
                Ok((v, v))
            },
            Err(e) => Err(e),
        },
    }
}

/// What one item of the list `field` stands for.
fn parse_part(part: &[char], field: &[char], f: &FieldSpec) -> (r: Result<Part, CronParseError>)
    requires
        f.name_base <= 1,
    ensures
        match r {
            Ok(p) => part_of(part@, field@, *f) == Ok::<Part, Seq<char>>(p) && p.step > 0 && p.lo
                <= p.hi <= f.max,
            Err(e) => part_of(part@, field@, *f) == Err::<Part, Seq<char>>(e.0@),
        },
{
    if part.len() == 0 {
        return Err(CronParseError(text::enclose("empty list item in '", field, "'")));
    }
    let step = match parse_step(part) {
        Ok(n) => n,
        Err(e) => {
            return Err(e);
        },
    };
    let ends = match parse_ends(part, f) {
        Ok(e) => e,
        Err(e) => {
            return Err(e);
        },
    };
    let mut lo: u32 = ends.0;
    let mut hi: u32 = ends.1;
    let mut sunday = false;
    if f.max == 6 {
        if lo == 7 && hi == 7 {
            lo = 0;
            hi = 0;
        } else if hi == 7 {
            sunday = lo <= 6 && (7 - lo) % step == 0;
            hi = 6;
        } else if lo == 7 {
            lo = 0;
        }
    }
    assert((lo as int, hi as int, sunday) == sunday_ends(
        ends.0 as int,
        ends.1 as int,
        step as int,
        *f,
    ));
    if lo < f.min || hi > f.max || lo > hi {
        let mut m = text::enclose("value out of range in '", part, "' (allowed ");
        text::push_decimal(&mut m, f.min as u64);
        m.append("-");
        text::push_decimal(&mut m, f.max as u64);
        m.append(")");
        return Err(CronParseError(m));
    }
    let star = text::is_text(part, "*");
    Ok(Part { lo, hi, step, sunday, star })
}

/// `mask` with the numbers of `p` added.
fn add_part(mask: u64, p: &Part) -> (r: u64)
    requires
        p.step > 0,
        p.lo <= p.hi < 64,
    ensures
        bits(r) == bits(mask).union(p.values()),
{
    let mut out: u64 = if p.sunday {
        set_bit(mask, 0)
    } else {
        mask
    };
    let mut v: u32 = p.lo;
    let ghost start = bits(out);
    assert(forall|w: int|
        #[trigger] start.contains(w) == (bits(mask).contains(w) || (p.sunday && w == 0)));
    while v <= p.hi
        invariant
            p.step > 0,
            p.lo <= v <= p.hi + 1,
            p.hi < 64,
            forall|w: int| #[trigger]
                bits(out).contains(w) == (start.contains(w) || (p.lo <= w < v && (w - p.lo) % (
                p.step as int) == 0)),
        decreases p.hi + 1 - v,
    {
        if (v - p.lo) % p.step == 0 {
            out = set_bit(out, v);
        }
        v = v + 1;
    }
    assert forall|w: int| bits(out).contains(w) == bits(mask).union(p.values()).contains(w) by {
        assert(start.contains(w) == (bits(mask).contains(w) || (p.sunday && w == 0)));
    }
    assert(bits(out) =~= bits(mask).union(p.values()));
    out
}

/// The mask of the numbers that a field stands for, and whether the field is
/// unrestricted.
fn parse_field(field: &[char], f: &FieldSpec) -> (r: Result<(u64, bool), CronParseError>)
    requires
        f.name_base <= 1,
        f.max < 64,
    ensures
        match r {
            Ok(m) => field_of(field@, *f) == Ok::<(Set<int>, bool), Seq<char>>((bits(m.0), m.1)),
            Err(e) => field_of(field@, *f) == Err::<(Set<int>, bool), Seq<char>>(e.0@),
        },
{
    let parts = text::split(field, ',');
    let ghost all = text::texts(parts@);
    let mut mask: u64 = 0;
    let mut star = true;
    let mut i: usize = 0;
    proof {
        lemma_no_bits();
    }
    while i < parts.len()
        invariant
            i <= parts@.len(),
            all == text::texts(parts@),
            all == text::split_of(field@, ','),
            f.name_base <= 1,
            f.max < 64,
            list_of(all.take(i as int), field@, *f) == Ok::<(Set<int>, bool), Seq<char>>(
                (bits(mask), star),
            ),
        decreases parts@.len() - i,
    {
        assert(all.take(i + 1).drop_last() =~= all.take(i as int));
        assert(all.take(i + 1).last() == parts@[i as int]@);
        match parse_part(parts[i], field, f) {
            Ok(p) => {
                mask = add_part(mask, &p);
                star = star && p.star;
            },
            Err(e) => {
                proof {
                    lemma_list_error(all, i + 1, field@, *f);
                }
                return Err(e);
            },
        }
        i = i + 1;
    }
    assert(all.take(all.len() as int) =~= all);
    Ok((mask, star))
}

/// A parsed cron schedule. Field sets are stored as bitmasks.
#[derive(Debug, Clone, Copy, PartialEq, Eq)]
pub struct CronExpr {
    /// Minutes 0-59.
    minutes: u64,
    /// Hours 0-23.
    hours: u64,
    /// Days of month 1-31 (bit 1 = day 1).
    dom: u64,
    /// Months 1-12 (bit 1 = January).
    months: u64,
    /// Days of week 0-6 (0 = Sunday).
    dow: u64,
    /// True when the day-of-month field was `*` (affects the vixie OR rule).
    dom_star: bool,
    /// True when the day-of-week field was `*`.
    dow_star: bool,
    /// True for `@reboot` schedules (run once at daemon startup).
    pub reboot: bool,
}

impl View for CronExpr {
    type V = Schedule;

    closed spec fn view(&self) -> Schedule {
        Schedule {
            minutes: bits(self.minutes),
            hours: bits(self.hours),
            days: bits(self.dom),
            months: bits(self.months),
            weekdays: bits(self.dow),
            any_day: self.dom_star,
            any_weekday: self.dow_star,
            reboot: self.reboot,
        }
    }
}

/// What a five-field expression says.
fn parse_fields(expr: &[char]) -> (r: Result<CronExpr, CronParseError>)
    ensures
        match r {
            Ok(c) => fields_of(expr@) == Ok::<Schedule, Seq<char>>(c@),
            Err(e) => fields_of(expr@) == Err::<Schedule, Seq<char>>(e.0@),
        },
{
    let w = text::words(expr);
    let ghost all = text::texts(w@);
    assert(all.len() == w@.len());
    if w.len() != 5 {
        let mut m = "expected 5 fields, got ".to_owned();
        text::push_decimal(&mut m, w.len() as u64);
        m.append(" in '");
        text::push_chars(&mut m, expr);
        m.append("'");
        return Err(CronParseError(m));
    }
    assert(all[0] == w@[0]@ && all[1] == w@[1]@ && all[2] == w@[2]@ && all[3] == w@[3]@ && all[4]
        == w@[4]@);
    let minute_spec = FieldSpec { min: 0, max: 59, names: Names::Nothing, name_base: 0 };
    let hour_spec = FieldSpec { min: 0, max: 23, names: Names::Nothing, name_base: 0 };
    let dom_spec = FieldSpec { min: 1, max: 31, names: Names::Nothing, name_base: 0 };
    let month_spec = FieldSpec { min: 1, max: 12, names: Names::Months, name_base: 1 };
    let dow_spec = FieldSpec { min: 0, max: 6, names: Names::Weekdays, name_base: 0 };
    let minutes = match parse_field(w[0], &minute_spec) {
        Ok(m) => m,
        Err(e) => {
            return Err(e);
        },
    };
    let hours = match parse_field(w[1], &hour_spec) {
        Ok(m) => m,
        Err(e) => {
            return Err(e);
        },
    };
    let dom = match parse_field(w[2], &dom_spec) {
        Ok(m) => m,
        Err(e) => {
            return Err(e);
        },
    };
    let months = match parse_field(w[3], &month_spec) {
        Ok(m) => m,
        Err(e) => {
            return Err(e);
        },
    };
    let dow = match parse_field(w[4], &dow_spec) {
        Ok(m) => m,
        Err(e) => {
            return Err(e);
        },
    };
    Ok(
        CronExpr {
            minutes: minutes.0,
            hours: hours.0,
            dom: dom.0,
            months: months.0,
            dow: dow.0,
            dom_star: dom.1,
            dow_star: dow.1,
            reboot: false,
        },
    )
}

impl CronExpr {
    /// Parse a five-field cron expression or an `@alias`.
    pub fn parse(expr: &str) -> (r: Result<CronExpr, CronParseError>)
        ensures
            match r {
                Ok(c) => schedule_of(expr@) == Ok::<Schedule, Seq<char>>(c@),
                Err(e) => schedule_of(expr@) == Err::<Schedule, Seq<char>>(e.0@),
            },
    {
        let all = text::chars_of(expr);
        let e = text::trim(all.as_slice());
        match text::strip_prefix(e, "@") {
            Some(alias) => Self::parse_alias(alias),
            None => parse_fields(e),
        }
    }

    fn parse_alias(alias: &[char]) -> (r: Result<CronExpr, CronParseError>)
        ensures
            match r {
                Ok(c) => alias_of(alias@) == Ok::<Schedule, Seq<char>>(c@),
                Err(e) => alias_of(alias@) == Err::<Schedule, Seq<char>>(e.0@),
            },
    {
        let lower = text::to_lower(alias);
        let a = lower.as_slice();
        let reboot = text::is_text(a, "reboot");
        let fields: &str = if reboot {
            "* * * * *"
        } else if text::is_text(a, "hourly") {
            "0 * * * *"
        } else if text::is_text(a, "daily") || text::is_text(a, "midnight") {
            "0 0 * * *"
        } else if text::is_text(a, "weekly") {
            "0 0 * * 0"
        } else if text::is_text(a, "monthly") {
            "0 0 1 * *"
        } else if text::is_text(a, "yearly") || text::is_text(a, "annually") {
            "0 0 1 1 *"
        } else {
            return Err(CronParseError(text::enclose("unknown alias '@", a, "'")));
        };
        let f = text::chars_of(fields);
        match parse_fields(f.as_slice()) {
            Ok(c) => Ok(CronExpr { reboot, ..c }),
            Err(e) => Err(e),
        }
    }

    /// Whether this is an `@reboot` schedule.
    pub fn is_reboot(&self) -> (r: bool)
        ensures
            r == self@.reboot,
    {
        self.reboot
    }

    /// Whether the schedule covers the day of `t`.
    fn day_matches(&self, t: &DateTime) -> (r: bool)
        requires
            t.valid(),
        ensures
            r == self@.covers_day(*t),
    {
        let dom_ok = test_bit(self.dom, t.day);
        let dow_ok = test_bit(self.dow, time::weekday(t.year, t.month, t.day));
        match (self.dom_star, self.dow_star) {
            (true, true) => true,
            (true, false) => dow_ok,
            (false, true) => dom_ok,
            // vixie rule: when both fields are restricted, either may match.
            (false, false) => dom_ok || dow_ok,
        }
    }

    /// Whether the given minute matches this schedule.
    pub fn matches(&self, t: &DateTime) -> (r: bool)
        requires
            t.valid(),
        ensures
            r == self@.covers(*t),
    {
        test_bit(self.months, t.month) && self.day_matches(t) && test_bit(self.hours, t.hour)
            && test_bit(self.minutes, t.minute)
    }

    /// The first matching minute strictly after `after`. Returns `None`
    /// if no occurrence exists within the five following calendar years
    /// (impossible schedules such as `0 0 31 2 *`), or before the last year
    /// that a date can have is over.
    pub fn next_after(&self, after: DateTime) -> (r: Option<DateTime>)
        requires
            after.valid(),
        ensures
            r == self@.next(after),
            r is Some ==> self@.is_next(after, r->0),
    {
        let mut t = match time::next_minute(after) {
            Some(t) => t,
            None => {
                assert forall|u: DateTime| !self@.is_next(after, u) by {
                }
                return None;
            },
        };
        let limit_year: i32 = after.year + 5;
        loop
            invariant
                after.valid(),
                limit_year == after.year + 5,
                t.valid(),
                t.on_minute(),
                after.before(t),
                t.year <= limit_year + 1,
                forall|u: DateTime| #[trigger]
                    self@.occurs(u) && after.before(u) ==> !u.before(t),
            decreases
                    limit_year + 1 - t.year,
                    12 - t.month,
                    31 - t.day,
                    23 - t.hour,
                    59 - t.minute,
        {
            if t.year > limit_year {
                return None;
            }
            if !test_bit(self.months, t.month) {
                // Jump to the first minute of the next month.
                t = match time::next_month(t) {
                    Some(n) => n,
                    None => {
                        return None;
                    },
                };
                continue;
            }
            if !self.day_matches(&t) {
                t = match time::next_midnight(t) {
                    Some(n) => n,
                    None => {
                        return None;
                    },
                };
                continue;
            }
            if !test_bit(self.hours, t.hour) {
                t = match time::next_hour(t) {
                    Some(n) => n,
                    None => {
                        return None;
                    },
                };
                continue;
            }
            if !test_bit(self.minutes, t.minute) {
                t = match time::next_minute(t) {
                    Some(n) => n,
                    None => {
                        return None;
                    },
                };
                continue;
            }
            assert(self@.is_next(after, t));
            return Some(t);
        }
    }
}


// ---------------------------------------------------------------------------
// Laws
// ---------------------------------------------------------------------------

/// The numbers from `min` to `max`.
pub open spec fn span(min: int, max: int) -> Set<int> {
    Set::new(|v: int| min <= v <= max)
}

/// Whether a set holds something, and nothing outside `min` to `max`.
pub open spec fn within(s: Set<int>, min: int, max: int) -> bool {
    s.subset_of(span(min, max)) && exists|v: int| s.contains(v)
}

proof fn lemma_part_within(part: Seq<char>, field: Seq<char>, f: FieldSpec)
    requires
        f.max == 6 ==> f.min == 0,
    ensures
        part_of(part, field, f) matches Ok(p) ==> within(p.values(), f.min as int, f.max as int)
            && (p.star ==> p.values() == span(f.min as int, f.max as int)),
{
    if part_of(part, field, f) is Ok {
        let p = part_of(part, field, f)->Ok_0;
        let step = step_of(part)->Ok_0;
        let ends = ends_of(part, f)->Ok_0;
        assert(p.step >= 1);
        assert((p.lo - p.lo) % (p.step as int) == 0) by (nonlinear_arith)
            requires
                p.step >= 1,
        ;
        assert(p.values().contains(p.lo as int));
        if p.star {
            lemma_star_has_no_step(part);
            assert(p.values() =~= span(f.min as int, f.max as int)) by {
                assert forall|v: int| p.values().contains(v) == span(
                    f.min as int,
                    f.max as int,
                ).contains(v) by {
                    assert((v - p.lo) % 1 == 0);
                }
            }
        }
    }
}

proof fn lemma_list_within(parts: Seq<Seq<char>>, field: Seq<char>, f: FieldSpec)
    requires
        f.max == 6 ==> f.min == 0,
    ensures
        list_of(parts, field, f) matches Ok(r) ==> r.0.subset_of(span(f.min as int, f.max as int))
            && (parts.len() > 0 ==> within(r.0, f.min as int, f.max as int)) && (parts.len() > 0
            && r.1 ==> r.0 == span(f.min as int, f.max as int)),
    decreases parts.len(),
{
    if parts.len() > 0 && list_of(parts, field, f) is Ok {
        lemma_list_within(parts.drop_last(), field, f);
        lemma_part_within(parts.last(), field, f);
        let before = list_of(parts.drop_last(), field, f)->Ok_0;
        let p = part_of(parts.last(), field, f)->Ok_0;
        let v = choose|v: int| p.values().contains(v);
        assert(before.0.union(p.values()).contains(v));
        if before.1 && p.star {
            assert(before.0.union(p.values()) =~= span(f.min as int, f.max as int));
        }
    }
}

proof fn lemma_field_within(field: Seq<char>, f: FieldSpec)
    requires
        f.max == 6 ==> f.min == 0,
    ensures
        field_of(field, f) matches Ok(r) ==> within(r.0, f.min as int, f.max as int) && (r.1
            ==> r.0 == span(f.min as int, f.max as int)),
{
    lemma_list_within(text::split_of(field, ','), field, f);
    text::lemma_first_where_props(field, text::is_char(','));
    assert(text::split_of(field, ',').len() > 0);
}

proof fn lemma_fields_within(expr: Seq<char>)
    ensures
        fields_of(expr) matches Ok(s) ==> in_range(s) && !s.reboot,
{
    let w = text::words_of(expr);
    if w.len() == 5 {
        lemma_field_within(w[0], minute_field());
        lemma_field_within(w[1], hour_field());
        lemma_field_within(w[2], day_field());
        lemma_field_within(w[3], month_field());
        lemma_field_within(w[4], weekday_field());
    }
}

/// Whether every field of a schedule holds something, and only what the
/// calendar has; an unrestricted day field holds all days.
pub open spec fn in_range(s: Schedule) -> bool {
    &&& within(s.minutes, 0, 59)
    &&& within(s.hours, 0, 23)
    &&& within(s.days, 1, 31)
    &&& within(s.months, 1, 12)
    &&& within(s.weekdays, 0, 6)
    &&& s.any_day ==> s.days == span(1, 31)
    &&& s.any_weekday ==> s.weekdays == span(0, 6)
}

/// Every expression that is accepted has fields within the calendar's ranges,
/// none of them empty.
pub proof fn accepted_fields_are_in_range(expr: Seq<char>)
    ensures
        schedule_of(expr) matches Ok(s) ==> in_range(s),
{
    let e = text::trim_of(expr);
    lemma_fields_within(e);
    match text::strip_prefix_of(e, "@"@) {
        Some(alias) => {
            match alias_fields(text::lower_of(alias)) {
                Some(fields) => {
                    lemma_fields_within(fields);
                },
                None => {},
            }
        },
        None => {},
    }
}

/// An alias other than `@reboot` says what its five fields say, in whatever
/// case it is written.
pub proof fn alias_is_its_fields(alias: Seq<char>, fields: Seq<char>)
    requires
        alias_fields(text::lower_of(alias)) == Some(fields),
        text::lower_of(alias) != "reboot"@,
    ensures
        alias_of(alias) == fields_of(fields),
{
    lemma_fields_within(fields);
}

/// The first of the words of `s`, where it has one character.
proof fn lemma_one_char_word(s: Seq<char>)
    requires
        s.len() > 0,
        !text::is_space(s[0]),
        s.len() > 1 ==> text::is_space(s[1]),
    ensures
        text::words_of(s) == seq![seq![s[0]]] + text::words_of(s.skip(1)),
{
    text::lemma_first_where(s, text::non_space(), 0);
    assert(s.skip(0) =~= s);
    text::lemma_first_where(s, text::space(), 1);
    assert(s.take(1) =~= seq![s[0]]);
}

/// A space before a word does not matter.
proof fn lemma_leading_space(s: Seq<char>)
    requires
        s.len() > 1,
        text::is_space(s[0]),
        !text::is_space(s[1]),
    ensures
        text::words_of(s) == text::words_of(s.skip(1)),
{
    text::lemma_first_where(s, text::non_space(), 1);
    let t = s.skip(1);
    text::lemma_first_where(t, text::non_space(), 0);
    assert(t.skip(0) =~= t);
}

/// The five words of an expression that has one character in each.
proof fn lemma_five_chars(s: Seq<char>)
    requires
        s.len() == 9,
        forall|i: int| 0 <= i < 9 ==> (text::is_space(#[trigger] s[i]) <==> i % 2 == 1),
    ensures
        text::words_of(s) == seq![seq![s[0]], seq![s[2]], seq![s[4]], seq![s[6]], seq![s[8]]],
{
    assert(!text::is_space(s[0]) && text::is_space(s[1]) && !text::is_space(s[2])
        && text::is_space(s[3]) && !text::is_space(s[4]) && text::is_space(s[5])
        && !text::is_space(s[6]) && text::is_space(s[7]) && !text::is_space(s[8]));
    let s1 = s.skip(1);
    let s2 = s1.skip(1);
    let s3 = s2.skip(1);
    let s4 = s3.skip(1);
    let s5 = s4.skip(1);
    let s6 = s5.skip(1);
    let s7 = s6.skip(1);
    let s8 = s7.skip(1);
    lemma_one_char_word(s);
    lemma_leading_space(s1);
    lemma_one_char_word(s2);
    lemma_leading_space(s3);
    lemma_one_char_word(s4);
    lemma_leading_space(s5);
    lemma_one_char_word(s6);
    lemma_leading_space(s7);
    lemma_one_char_word(s8);
    let s9 = s8.skip(1);
    assert(s9.len() == 0);
    text::lemma_first_where(s9, text::non_space(), 0);
    text::lemma_first_where(s9.skip(0), text::space(), 0);
    assert(text::words_of(s9) =~= seq![]);
    assert(text::words_of(s) =~= seq![seq![s[0]], seq![s[2]], seq![s[4]], seq![s[6]], seq![s[8]]]);
}

/// A field of one character is accepted where it is `*` or a digit in range.
proof fn lemma_one_char_field(c: char, f: FieldSpec)
    requires
        f.min <= f.max,
        f.max == 6 ==> f.min == 0,
        c == '*' || (text::is_digit(c) && f.min <= c as int - '0' as int <= f.max && (f.max == 6
            ==> c as int - '0' as int != 7)),
    ensures
        field_of(seq![c], f) is Ok,
{
    reveal_strlit("*");
    let s = seq![c];
    text::lemma_first_where(s, text::is_char(','), 1);
    text::lemma_first_where(s, text::is_char('/'), 1);
    text::lemma_first_where(s, text::is_char('-'), 1);
    assert(text::split_of(s, ',') =~= seq![s]);
    if c == '*' {
        assert(s =~= "*"@);
    } else {
        assert("*"@[0] == '*');
        assert(s[0] == c);
        assert(text::all_digits(s));
        assert(s.drop_last() =~= seq![]);
        assert(text::digits_value(s.drop_last()) == 0);
        assert(text::digits_value(s) == c as int - '0' as int);
    }
    assert(part_of(s, s, f) is Ok);
    let parts = text::split_of(s, ',');
    assert(parts.drop_last() =~= seq![]);
    assert(list_of(parts.drop_last(), s, f) is Ok);
}

/// Every alias that is known is accepted.
pub proof fn known_aliases_are_accepted(alias: Seq<char>)
    requires
        alias_fields(text::lower_of(alias)) is Some,
    ensures
        alias_of(alias) is Ok,
{
    let fields = alias_fields(text::lower_of(alias))->0;
    reveal_strlit("* * * * *");
    reveal_strlit("0 * * * *");
    reveal_strlit("0 0 * * *");
    reveal_strlit("0 0 * * 0");
    reveal_strlit("0 0 1 * *");
    reveal_strlit("0 0 1 1 *");
    assert forall|i: int| 0 <= i < 9 implies (text::is_space(#[trigger] fields[i]) <==> i % 2
        == 1) by {
        assert(i == 0 || i == 1 || i == 2 || i == 3 || i == 4 || i == 5 || i == 6 || i == 7 || i
            == 8);
    }
    lemma_five_chars(fields);
    lemma_one_char_field(fields[0], minute_field());
    lemma_one_char_field(fields[2], hour_field());
    lemma_one_char_field(fields[4], day_field());
    lemma_one_char_field(fields[6], month_field());
    lemma_one_char_field(fields[8], weekday_field());
}

/// In the weekday field 0 and 7 both are Sunday: a range of weekdays up to 7
/// stands for the days that its numbers are, counted modulo 7.
pub proof fn seven_counts_as_sunday(lo: int, hi: int, step: int, v: int)
    requires
        0 <= lo <= hi <= 7,
        1 <= step <= u32::MAX,
    ensures
        ({
            let (a, b, sunday) = sunday_ends(lo, hi, step, weekday_field());
            let p = Part {
                lo: a as u32,
                hi: b as u32,
                step: step as u32,
                sunday,
                star: false,
            };
            p.values().contains(v) <==> exists|w: int|
                lo <= w <= hi && #[trigger] ((w - lo) % step) == 0 && v == w % 7
        }),
{
    let (a, b, sunday) = sunday_ends(lo, hi, step, weekday_field());
    let p = Part { lo: a as u32, hi: b as u32, step: step as u32, sunday, star: false };
    assert((lo - lo) % step == 0) by (nonlinear_arith)
        requires
            step >= 1,
    ;
    assert((0int - 0) % step == 0) by (nonlinear_arith)
        requires
            step >= 1,
    ;
    if p.values().contains(v) {
        if lo == 7 {
            assert(v == lo % 7 && (lo - lo) % step == 0);
        } else if lo <= v <= 6 && (v - lo) % step == 0 {
            assert(v == v % 7);
        } else {
            assert((7 - lo) % step == 0);
            assert(v == 7int % 7);
        }
    }
    if exists|w: int| lo <= w <= hi && #[trigger] ((w - lo) % step) == 0 && v == w % 7 {
        let w = choose|w: int| lo <= w <= hi && #[trigger] ((w - lo) % step) == 0 && v == w % 7;
        if lo == 7 {
            assert(v == 0);
        } else if w == 7 {
            assert(sunday);
        } else {
            assert(v == w);
        }
    }
}

/// Where both day fields are restricted, a day is covered if either of them
/// covers it; where one is unrestricted, the other alone decides.
pub proof fn day_fields_combine(c: Schedule, t: DateTime)
    ensures
        ({
            let day = c.days.contains(t.day as int);
            let weekday = c.weekdays.contains(
                time::weekday_of(t.year as int, t.month as int, t.day as int),
            );
            &&& !c.any_day && !c.any_weekday ==> (c.covers_day(t) <==> day || weekday)
            &&& !c.any_day && c.any_weekday ==> (c.covers_day(t) <==> day)
            &&& c.any_day && !c.any_weekday ==> (c.covers_day(t) <==> weekday)
            &&& c.any_day && c.any_weekday ==> c.covers_day(t)
        }),
{
}

/// Seconds do not matter: a schedule covers a time as it covers the minute
/// that the time lies in, and has the same next occurrence after both.
pub proof fn seconds_do_not_matter(c: Schedule, t: DateTime)
    ensures
        c.covers(t) == c.covers(t.minute_start()),
        c.next(t) == c.next(t.minute_start()),
{
    let m = t.minute_start();
    assert forall|u: DateTime| c.is_next(t, u) == c.is_next(m, u) by {
        if c.is_next(t, u) {
            assert(c.is_next(m, u));
        }
        if c.is_next(m, u) {
            assert(c.is_next(t, u));
        }
    }
    if exists|u: DateTime| c.is_next(t, u) {
        let a = choose|u: DateTime| c.is_next(t, u);
        let b = choose|u: DateTime| c.is_next(m, u);
        assert(c.is_next(m, a));
        lemma_next_unique(c, t, a, b);
    }
    if exists|u: DateTime| c.is_next(m, u) {
        let b = choose|u: DateTime| c.is_next(m, u);
        assert(c.is_next(t, b));
    }
}

proof fn lemma_next_unique(c: Schedule, after: DateTime, a: DateTime, b: DateTime)
    requires
        c.is_next(after, a),
        c.is_next(after, b),
    ensures
        a == b,
{
    assert(c.occurs(a) && c.occurs(b));
    assert(!a.before(b) && !b.before(a));
}

/// A later start has no earlier next occurrence.
pub proof fn next_is_monotone(c: Schedule, a: DateTime, b: DateTime)
    requires
        !b.before(a),
        c.next(a) is Some,
        c.next(b) is Some,
    ensures
        !c.next(b)->0.before(c.next(a)->0),
{
    let x = c.next(a)->0;
    let y = c.next(b)->0;
    assert(c.is_next(a, x));
    assert(c.is_next(b, y));
    assert(c.occurs(y));
    assert(a.before(y));
}

proof fn lemma_before_seconds(a: DateTime, b: DateTime)
    requires
        a.valid(),
        b.valid(),
        a.before(b),
    ensures
        a.seconds() <= b.seconds(),
        b.on_minute() && a.on_minute() ==> a.seconds() < b.seconds(),
{
    if a.year != b.year || a.month != b.month || a.day != b.day {
        time::lemma_day_number_in_order(
            a.year as int,
            a.month as int,
            a.day as int,
            b.year as int,
            b.month as int,
            b.day as int,
        );
    }
}

/// The next occurrence is found wherever there is one within the five calendar
/// years that follow.
pub proof fn next_is_found(c: Schedule, after: DateTime, u: DateTime)
    requires
        after.valid(),
        c.occurs(u),
        after.before(u),
        u.year <= after.year + 5,
    ensures
        c.next(after) is Some,
        !u.before(c.next(after)->0),
    decreases u.seconds() - after.seconds(),
{
    if forall|v: DateTime| #[trigger] c.occurs(v) && after.before(v) ==> !v.before(u) {
        assert(c.is_next(after, u));
        lemma_next_unique(c, after, u, c.next(after)->0);
    } else {
        let v = choose|v: DateTime| #[trigger] c.occurs(v) && after.before(v) && v.before(u);
        lemma_before_seconds(v, u);
        lemma_before_seconds(after, v);
        next_is_found(c, after, v);
    }
}

/// Whether two outcomes are the same value, or both errors.
pub open spec fn agree<T>(a: Result<T, Seq<char>>, b: Result<T, Seq<char>>) -> bool {
    match a {
        Ok(x) => b == Ok::<T, Seq<char>>(x),
        Err(_) => b is Err,
    }
}

/// What a list stands for does not depend on the field that it is quoted from.
proof fn lemma_list_quoted(parts: Seq<Seq<char>>, g: Seq<char>, h: Seq<char>, f: FieldSpec)
    ensures
        agree(list_of(parts, g, f), list_of(parts, h, f)),
    decreases parts.len(),
{
    if parts.len() > 0 {
        lemma_list_quoted(parts.drop_last(), g, h, f);
    }
}

proof fn lemma_lists_join(
    a: Seq<Seq<char>>,
    b: Seq<Seq<char>>,
    field: Seq<char>,
    f: FieldSpec,
)
    ensures
        match (list_of(a, field, f), list_of(b, field, f)) {
            (Ok(x), Ok(y)) => list_of(a + b, field, f) == Ok::<(Set<int>, bool), Seq<char>>(
                (x.0.union(y.0), x.1 && y.1),
            ),
            _ => list_of(a + b, field, f) is Err,
        },
    decreases b.len(),
{
    if b.len() == 0 {
        assert(a + b =~= a);
        if list_of(a, field, f) is Ok {
            let x = list_of(a, field, f)->Ok_0;
            assert(x.0.union(Set::empty()) =~= x.0);
        }
    } else {
        let rest = b.drop_last();
        lemma_lists_join(a, rest, field, f);
        assert((a + b).drop_last() =~= a + rest);
        assert((a + b).last() == b.last());
        if list_of(a, field, f) is Ok && list_of(b, field, f) is Ok {
            let x = list_of(a, field, f)->Ok_0;
            let y = list_of(rest, field, f)->Ok_0;
            let p = part_of(b.last(), field, f)->Ok_0;
            assert(x.0.union(y.0).union(p.values()) =~= x.0.union(y.0.union(p.values())));
        }
    }
}

/// A list is the union of its items: two lists with a comma between them are
/// accepted exactly where both are, stand for the numbers of both, and are
/// unrestricted where both are.
pub proof fn lists_join(a: Seq<char>, b: Seq<char>, f: FieldSpec)
    ensures
        match (field_of(a, f), field_of(b, f)) {
            (Ok(x), Ok(y)) => field_of(a + seq![','] + b, f) == Ok::<(Set<int>, bool), Seq<char>>(
                (x.0.union(y.0), x.1 && y.1),
            ),
            _ => field_of(a + seq![','] + b, f) is Err,
        },
{
    let s = a + seq![','] + b;
    assert(s =~= a.push(',') + b);
    text::pieces_of_joined_texts(a, ',', b);
    let (p, q) = (text::split_of(a, ','), text::split_of(b, ','));
    lemma_list_quoted(p, a, s, f);
    lemma_list_quoted(q, b, s, f);
    lemma_lists_join(p, q, s, f);
}

/// Whether a character is no ASCII letter.
spec fn no_letter(c: char) -> bool {
    !('a' <= c <= 'z') && !('A' <= c <= 'Z')
}

proof fn lemma_lower_finds(s: Seq<char>, c: char)
    requires
        no_letter(c),
    ensures
        text::first_where(text::lower_of(s), text::is_char(c)) == text::first_where(
            s,
            text::is_char(c),
        ),
{
    let l = text::lower_of(s);
    let i = text::first_where(s, text::is_char(c));
    text::lemma_first_where_props(s, text::is_char(c));
    assert forall|j: int| 0 <= j < i implies !text::is_char(c)(#[trigger] l[j]) by {
        assert(!text::is_char(c)(s[j]));
        text::lower_case_changes_letters_only(s[j]);
    }
    if i < s.len() {
        text::lower_case_changes_letters_only(s[i]);
    }
    text::lemma_first_where(l, text::is_char(c), i);
}

proof fn lemma_lower_split_once(s: Seq<char>, c: char)
    requires
        no_letter(c),
    ensures
        text::split_once_of(text::lower_of(s), c) == match text::split_once_of(s, c) {
            Some(p) => Some((text::lower_of(p.0), text::lower_of(p.1))),
            None => None,
        },
{
    let l = text::lower_of(s);
    lemma_lower_finds(s, c);
    text::lemma_first_where_props(s, text::is_char(c));
    let i = text::first_where(s, text::is_char(c));
    if i < s.len() {
        assert(l.take(i) =~= text::lower_of(s.take(i)));
        assert(l.skip(i + 1) =~= text::lower_of(s.skip(i + 1)));
    }
}

proof fn lemma_lower_split(s: Seq<char>, c: char)
    requires
        no_letter(c),
    ensures
        text::split_of(text::lower_of(s), c) == text::split_of(s, c).map_values(
            |x: Seq<char>| text::lower_of(x),
        ),
    decreases s.len(),
{
    let l = text::lower_of(s);
    let lower = |x: Seq<char>| text::lower_of(x);
    lemma_lower_finds(s, c);
    text::lemma_first_where_props(s, text::is_char(c));
    let i = text::first_where(s, text::is_char(c));
    if i < s.len() {
        assert(l.take(i) =~= text::lower_of(s.take(i)));
        assert(l.skip(i + 1) =~= text::lower_of(s.skip(i + 1)));
        lemma_lower_split(s.skip(i + 1), c);
        assert(text::split_of(l, c) =~= text::split_of(s, c).map_values(lower));
    } else {
        assert(text::split_of(l, c) =~= text::split_of(s, c).map_values(lower));
    }
}

proof fn lemma_lower_number(s: Seq<char>, max: nat)
    ensures
        text::unsigned_of(text::lower_of(s), max) == text::unsigned_of(s, max),
{
    let l = text::lower_of(s);
    let d = text::unsigned_digits(s);
    let e = text::unsigned_digits(l);
    if s.len() > 0 {
        text::lower_case_changes_letters_only(s[0]);
    }
    assert(e =~= text::lower_of(d));
    assert forall|i: int| 0 <= i < d.len() implies text::is_digit(#[trigger] d[i])
        == text::is_digit(e[i]) && (text::is_digit(d[i]) ==> d[i] == e[i]) by {
        text::lower_case_changes_letters_only(d[i]);
    }
    if text::all_digits(d) {
        assert(d =~= e);
    } else {
        let i = choose|i: int| 0 <= i < d.len() && !text::is_digit(#[trigger] d[i]);
        assert(!text::is_digit(e[i]));
    }
}

proof fn lemma_lower_twice(s: Seq<char>)
    ensures
        text::lower_of(text::lower_of(s)) == text::lower_of(s),
{
    let l = text::lower_of(s);
    assert forall|i: int| 0 <= i < s.len() implies #[trigger] text::lower_of(l)[i] == l[i] by {
        text::lower_case_changes_letters_only(s[i]);
    }
    assert(text::lower_of(l) =~= l);
}

proof fn lemma_lower_value(token: Seq<char>, f: FieldSpec)
    ensures
        value_of(text::lower_of(token), f) == value_of(token, f),
{
    lemma_lower_number(token, u32::MAX as nat);
    lemma_lower_twice(token);
}

proof fn lemma_lower_star(s: Seq<char>)
    ensures
        text::lower_of(s) == "*"@ <==> s == "*"@,
{
    reveal_strlit("*");
    let l = text::lower_of(s);
    assert(l.len() == s.len() && "*"@.len() == 1);
    if s.len() == 1 {
        text::lower_case_changes_letters_only(s[0]);
        assert(l[0] == text::lower_char(s[0]));
        if l == "*"@ {
            assert(s =~= "*"@);
        }
        if s == "*"@ {
            assert(l =~= "*"@);
        }
    }
}

proof fn lemma_lower_part(part: Seq<char>, g: Seq<char>, h: Seq<char>, f: FieldSpec)
    ensures
        agree(part_of(text::lower_of(part), g, f), part_of(part, h, f)),
{
    let l = text::lower_of(part);
    lemma_lower_split_once(part, '/');
    lemma_lower_star(part);
    match text::split_once_of(part, '/') {
        Some(p) => {
            lemma_lower_number(p.1, u32::MAX as nat);
        },
        None => {},
    }
    assert(agree(step_of(l), step_of(part)));
    let range = range_text(part);
    assert(range_text(l) == text::lower_of(range));
    lemma_lower_star(range);
    lemma_lower_split_once(range, '-');
    lemma_lower_value(range, f);
    match text::split_once_of(range, '-') {
        Some(p) => {
            lemma_lower_value(p.0, f);
            lemma_lower_value(p.1, f);
        },
        None => {},
    }
    assert(agree(ends_of(l, f), ends_of(part, f)));
}

proof fn lemma_lower_list(parts: Seq<Seq<char>>, g: Seq<char>, h: Seq<char>, f: FieldSpec)
    ensures
        agree(
            list_of(parts.map_values(|x: Seq<char>| text::lower_of(x)), g, f),
            list_of(parts, h, f),
        ),
    decreases parts.len(),
{
    let lower = |x: Seq<char>| text::lower_of(x);
    let l = parts.map_values(lower);
    if parts.len() > 0 {
        lemma_lower_list(parts.drop_last(), g, h, f);
        lemma_lower_part(parts.last(), g, h, f);
        assert(l.drop_last() =~= parts.drop_last().map_values(lower));
        assert(l.last() == text::lower_of(parts.last()));
    }
}

proof fn lemma_same_field(a: Seq<char>, b: Seq<char>, f: FieldSpec)
    requires
        text::lower_of(a) == text::lower_of(b),
    ensures
        agree(field_of(a, f), field_of(b, f)),
{
    let l = text::lower_of(a);
    lemma_lower_split(a, ',');
    lemma_lower_list(text::split_of(a, ','), l, a, f);
    lemma_lower_split(b, ',');
    lemma_lower_list(text::split_of(b, ','), l, b, f);
}

/// Whether two texts have the same words, up to the case of letters.
pub open spec fn same_words(a: Seq<char>, b: Seq<char>) -> bool {
    let (v, w) = (text::words_of(a), text::words_of(b));
    v.len() == w.len() && forall|i: int|
        0 <= i < v.len() ==> text::lower_of(#[trigger] v[i]) == text::lower_of(w[i])
}

proof fn lemma_same_fields(a: Seq<char>, b: Seq<char>)
    requires
        same_words(a, b),
    ensures
        agree(fields_of(a), fields_of(b)),
{
    let (v, w) = (text::words_of(a), text::words_of(b));
    if v.len() == 5 {
        assert(text::lower_of(v[0]) == text::lower_of(w[0]));
        assert(text::lower_of(v[1]) == text::lower_of(w[1]));
        assert(text::lower_of(v[2]) == text::lower_of(w[2]));
        assert(text::lower_of(v[3]) == text::lower_of(w[3]));
        assert(text::lower_of(v[4]) == text::lower_of(w[4]));
        lemma_same_field(v[0], w[0], minute_field());
        lemma_same_field(v[1], w[1], hour_field());
        lemma_same_field(v[2], w[2], day_field());
        lemma_same_field(v[3], w[3], month_field());
        lemma_same_field(v[4], w[4], weekday_field());
    }
}

/// The aliases have no white space in them.
proof fn lemma_alias_has_no_space(a: Seq<char>, i: int)
    requires
        0 <= i < a.len(),
        text::is_space(a[i]),
    ensures
        alias_fields(a) is None,
{
    reveal_strlit("reboot");
    reveal_strlit("hourly");
    reveal_strlit("daily");
    reveal_strlit("midnight");
    reveal_strlit("weekly");
    reveal_strlit("monthly");
    reveal_strlit("yearly");
    reveal_strlit("annually");
    if a.len() <= 8 {
        assert(i == 0 || i == 1 || i == 2 || i == 3 || i == 4 || i == 5 || i == 6 || i == 7);
    }
}

/// An expression that starts with `@` says what its alias says, and is an error
/// where more than the alias stands there.
proof fn lemma_alias_expression(e: Seq<char>)
    ensures
        ({
            let words = text::words_of(e);
            let at = words.len() > 0 && words[0].len() > 0 && words[0][0] == '@';
            &&& !at ==> schedule_of(e) == fields_of(text::trim_of(e))
            &&& at && words.len() == 1 ==> schedule_of(e) == alias_of(words[0].skip(1))
            &&& at && words.len() != 1 ==> schedule_of(e) is Err
        }),
{
    reveal_strlit("@");
    let t = text::trim_of(e);
    let words = text::words_of(e);
    let end = text::first_where(t, text::space());
    text::first_word_of_trimmed_text(e);
    text::lemma_first_where_props(t, text::space());
    if t.len() > 0 {
        assert(words[0][0] == t[0]);
        if t[0] == '@' {
            assert(t.take(1) =~= "@"@);
            let alias = t.skip(1);
            if words.len() == 1 {
                assert(t.take(end) =~= t);
            } else {
                assert(text::is_space(t[end]));
                let l = text::lower_of(alias);
                assert(alias[end - 1] == t[end]);
                text::lower_case_changes_letters_only(t[end]);
                assert(text::is_space(l[end - 1]));
                lemma_alias_has_no_space(l, end - 1);
            }
        } else {
            assert(t.take(1)[0] == t[0]);
            assert("@"@[0] == '@');
        }
    }
}

/// Spelling does not matter: expressions with the same words, up to the case of
/// letters, have the same schedule or are both errors. So white space and the
/// case of aliases and names are free.
pub proof fn spelling_does_not_matter(a: Seq<char>, b: Seq<char>)
    requires
        same_words(a, b),
    ensures
        agree(schedule_of(a), schedule_of(b)),
{
    let (v, w) = (text::words_of(a), text::words_of(b));
    lemma_alias_expression(a);
    lemma_alias_expression(b);
    text::words_of_trimmed_text(a);
    text::words_of_trimmed_text(b);
    lemma_same_fields(text::trim_of(a), text::trim_of(b));
    if v.len() > 0 {
        let (x, y) = (v[0], w[0]);
        assert(text::lower_of(x) == text::lower_of(y));
        assert(x.len() == text::lower_of(x).len() && y.len() == text::lower_of(y).len());
        if x.len() > 0 {
            assert(text::lower_of(x)[0] == text::lower_char(x[0]));
            assert(text::lower_of(y)[0] == text::lower_char(y[0]));
            text::lower_case_changes_letters_only(x[0]);
            text::lower_case_changes_letters_only(y[0]);
            assert(x[0] == '@' <==> y[0] == '@');
            assert(text::lower_of(x.skip(1)) =~= text::lower_of(x).skip(1));
            assert(text::lower_of(y.skip(1)) =~= text::lower_of(y).skip(1));
        }
    }
}

/// An expression that is accepted has five words, or is one alias after `@`.
pub proof fn accepted_expressions_have_five_words(e: Seq<char>)
    requires
        schedule_of(e) is Ok,
    ensures
        ({
            let words = text::words_of(e);
            words.len() == 5 || (words.len() == 1 && words[0].len() > 0 && words[0][0] == '@')
        }),
{
    lemma_alias_expression(e);
    text::words_of_trimmed_text(e);
}

/// Whether a text can be a number or a name of a field: it has none of the
/// characters with a meaning of their own.
pub open spec fn is_token(x: Seq<char>) -> bool {
    &&& x.len() > 0
    &&& text::lacks(x, ',')
    &&& text::lacks(x, '/')
    &&& text::lacks(x, '-')
    &&& text::lacks(x, '*')
}

/// The numbers from `a` to `b` in steps of `n`; in the weekday field they are
/// counted modulo 7.
pub open spec fn counted(a: int, b: int, n: int, f: FieldSpec) -> Set<int> {
    Set::new(
        |v: int|
            exists|w: int|
                a <= w <= b && #[trigger] ((w - a) % n) == 0 && v == (if f.max == 6 {
                    w % 7
                } else {
                    w
                }),
    )
}

/// Whether the ends of a range lie in a field; in the weekday field 7 does too.
pub open spec fn in_field(a: int, b: int, f: FieldSpec) -> bool {
    f.min <= a <= b && (b <= f.max || (f.max == 6 && b == 7))
}

/// Whether a field is one of the five: its smallest value is not above its
/// largest, and the weekday field begins with 0.
pub open spec fn proper(f: FieldSpec) -> bool {
    f.min <= f.max && (f.max == 6 ==> f.min == 0)
}

/// Whether a field is refused with a message.
pub open spec fn refused(x: Seq<char>, f: FieldSpec, message: Seq<char>) -> bool {
    field_of(x, f) == Err::<(Set<int>, bool), Seq<char>>(message)
}

proof fn lemma_item(part: Seq<char>, a: int, b: int, n: int, f: FieldSpec)
    requires
        proper(f),
        part.len() > 0,
        text::lacks(part, ','),
        step_of(part) == Ok::<int, Seq<char>>(n),
        1 <= n <= u32::MAX,
        ends_of(part, f) == Ok::<(int, int), Seq<char>>((a, b)),
        0 <= a <= u32::MAX,
        0 <= b <= u32::MAX,
    ensures
        in_field(a, b, f) ==> field_of(part, f) == Ok::<(Set<int>, bool), Seq<char>>(
            (counted(a, b, n, f), part == "*"@),
        ),
        f.max == 6 && a == 7 && b <= 6 ==> field_of(part, f) == Ok::<(Set<int>, bool), Seq<char>>(
            (counted(0, b, n, f), part == "*"@),
        ),
        !in_field(a, b, f) && !(f.max == 6 && a == 7 && b <= 6) ==> refused(
            part,
            f,
            "value out of range in '"@ + part + "' (allowed "@ + text::decimal(f.min as nat) + "-"@
                + text::decimal(f.max as nat) + ")"@,
        ),
{
    text::uncut_text_is_one_piece(part, ',');
    let parts = text::split_of(part, ',');
    assert(parts.drop_last() =~= seq![]);
    assert(parts.last() == part);
    assert(list_of(parts.drop_last(), part, f) == Ok::<(Set<int>, bool), Seq<char>>(
        (Set::empty(), true),
    ));
    if in_field(a, b, f) {
        assert(part_of(part, part, f) is Ok);
        let p = part_of(part, part, f)->Ok_0;
        assert forall|v: int| p.values().contains(v) == counted(a, b, n, f).contains(v) by {
            if f.max == 6 {
                seven_counts_as_sunday(a, b, n, v);
                let q = Part { star: false, ..p };
                assert(q.values().contains(v) == p.values().contains(v));
            } else {
                if p.values().contains(v) {
                    assert((v - a) % n == 0);
                }
            }
        }
        assert(Set::<int>::empty().union(p.values()) =~= counted(a, b, n, f));
        assert(list_of(parts, part, f) == Ok::<(Set<int>, bool), Seq<char>>(
            (Set::<int>::empty().union(p.values()), p.star),
        ));
    } else if f.max == 6 && a == 7 && b <= 6 {
        let p = part_of(part, part, f)->Ok_0;
        assert forall|v: int| p.values().contains(v) == counted(0, b, n, f).contains(v) by {
            if p.values().contains(v) {
                assert((v - 0) % n == 0);
            }
        }
        assert(Set::<int>::empty().union(p.values()) =~= counted(0, b, n, f));
        assert(list_of(parts, part, f) == Ok::<(Set<int>, bool), Seq<char>>(
            (Set::<int>::empty().union(p.values()), p.star),
        ));
    }
}

/// `*` says every number of the field, and leaves it unrestricted.
pub proof fn star_says_everything(f: FieldSpec)
    requires
        proper(f),
    ensures
        field_of("*"@, f) == Ok::<(Set<int>, bool), Seq<char>>(
            (span(f.min as int, f.max as int), true),
        ),
{
    reveal_strlit("*");
    let s = "*"@;
    assert(text::lacks(s, ',') && text::lacks(s, '/'));
    text::uncut_text_is_one_piece(s, '/');
    lemma_item(s, f.min as int, f.max as int, 1, f);
    let c = counted(f.min as int, f.max as int, 1, f);
    assert forall|v: int| c.contains(v) == span(f.min as int, f.max as int).contains(v) by {
        if span(f.min as int, f.max as int).contains(v) {
            assert((v - f.min) % 1 == 0);
        }
    }
    assert(c =~= span(f.min as int, f.max as int));
}

/// `*/n` says every `n`-th number of the field, from its smallest on.
pub proof fn star_with_step_says_every_nth(n: nat, f: FieldSpec)
    requires
        proper(f),
        1 <= n <= u32::MAX,
    ensures
        field_of("*"@ + seq!['/'] + text::decimal(n), f) == Ok::<(Set<int>, bool), Seq<char>>(
            (counted(f.min as int, f.max as int, n as int, f), false),
        ),
{
    reveal_strlit("*");
    let s = "*"@ + seq!['/'] + text::decimal(n);
    lemma_step("*"@, n);
    assert(s.len() > "*"@.len());
    lemma_item(s, f.min as int, f.max as int, n as int, f);
}

/// The step of a text before `/` and a number after it.
proof fn lemma_step(r: Seq<char>, n: nat)
    requires
        text::lacks(r, '/'),
        text::lacks(r, ','),
        1 <= n <= u32::MAX,
    ensures
        ({
            let s = r + seq!['/'] + text::decimal(n);
            &&& step_of(s) == Ok::<int, Seq<char>>(n as int)
            &&& range_text(s) == r
            &&& text::split_once_of(s, '/') is Some
            &&& text::lacks(s, ',')
        }),
{
    text::cut_texts_read_back(r, '/', text::decimal(n));
    text::numbers_read_back(n, u32::MAX as nat);
    text::numbers_lack_other_characters(n, ',');
}

proof fn lemma_token_is_no_star(x: Seq<char>)
    requires
        text::lacks(x, '*'),
    ensures
        x != "*"@,
{
    reveal_strlit("*");
    assert("*"@[0] == '*');
    if x == "*"@ {
        assert(x[0] == '*');
    }
}

/// A value says itself: in the field's range it is the only number (7 being
/// Sunday), and outside of it the field is refused with the range.
pub proof fn value_says_itself(x: Seq<char>, f: FieldSpec)
    requires
        proper(f),
        is_token(x),
        value_of(x, f) is Some,
        0 <= value_of(x, f)->0 <= u32::MAX,
    ensures
        ({
            let v = value_of(x, f)->0;
            &&& in_field(v, v, f) ==> field_of(x, f) == Ok::<(Set<int>, bool), Seq<char>>(
                (set![if f.max == 6 && v == 7 {
                    0
                } else {
                    v
                }], false),
            )
            &&& !in_field(v, v, f) ==> refused(
                x,
                f,
                "value out of range in '"@ + x + "' (allowed "@ + text::decimal(f.min as nat)
                    + "-"@ + text::decimal(f.max as nat) + ")"@,
            )
        }),
{
    let v = value_of(x, f)->0;
    text::uncut_text_is_one_piece(x, '/');
    text::uncut_text_is_one_piece(x, '-');
    lemma_token_is_no_star(x);
    lemma_item(x, v, v, 1, f);
    if in_field(v, v, f) {
        let only = if f.max == 6 && v == 7 {
            0
        } else {
            v
        };
        let c = counted(v, v, 1, f);
        assert forall|u: int| c.contains(u) == set![only].contains(u) by {
            assert((v - v) % 1 == 0);
        }
        assert(c =~= set![only]);
    }
}

/// A value with a step says every `n`-th number from it to the field's largest.
pub proof fn value_with_step_reaches_the_maximum(x: Seq<char>, n: nat, f: FieldSpec)
    requires
        proper(f),
        is_token(x),
        value_of(x, f) is Some,
        f.min <= value_of(x, f)->0 <= f.max,
        1 <= n <= u32::MAX,
    ensures
        field_of(x + seq!['/'] + text::decimal(n), f) == Ok::<(Set<int>, bool), Seq<char>>(
            (counted(value_of(x, f)->0, f.max as int, n as int, f), false),
        ),
{
    let s = x + seq!['/'] + text::decimal(n);
    lemma_step(x, n);
    text::uncut_text_is_one_piece(x, '-');
    lemma_token_is_no_star(x);
    reveal_strlit("*");
    assert(s.len() > 1);
    lemma_item(s, value_of(x, f)->0, f.max as int, n as int, f);
}

/// A range says every number from its first to its last end, both of them
/// included; one that leaves the field or goes backwards is an error. In the
/// weekday field a range from 7 begins with Sunday.
pub proof fn range_says_what_lies_between(x: Seq<char>, y: Seq<char>, f: FieldSpec)
    requires
        proper(f),
        is_token(x),
        is_token(y),
        value_of(x, f) is Some,
        value_of(y, f) is Some,
        0 <= value_of(x, f)->0 <= u32::MAX,
        0 <= value_of(y, f)->0 <= u32::MAX,
    ensures
        ({
            let (a, b) = (value_of(x, f)->0, value_of(y, f)->0);
            let s = x + seq!['-'] + y;
            &&& in_field(a, b, f) && b <= f.max ==> field_of(s, f) == Ok::<
                (Set<int>, bool),
                Seq<char>,
            >((span(a, b), false))
            &&& in_field(a, b, f) ==> field_of(s, f) == Ok::<(Set<int>, bool), Seq<char>>(
                (counted(a, b, 1, f), false),
            )
            &&& f.max == 6 && a == 7 && b <= 6 ==> field_of(s, f) == Ok::<
                (Set<int>, bool),
                Seq<char>,
            >((counted(0, b, 1, f), false))
            &&& !in_field(a, b, f) && !(f.max == 6 && a == 7 && b <= 6) ==> refused(
                s,
                f,
                "value out of range in '"@ + s + "' (allowed "@ + text::decimal(f.min as nat)
                    + "-"@ + text::decimal(f.max as nat) + ")"@,
            )
        }),
{
    let (a, b) = (value_of(x, f)->0, value_of(y, f)->0);
    let s = x + seq!['-'] + y;
    lemma_range(x, y);
    text::uncut_text_is_one_piece(s, '/');
    lemma_item(s, a, b, 1, f);
    if in_field(a, b, f) && b <= f.max {
        let c = counted(a, b, 1, f);
        assert forall|v: int| c.contains(v) == span(a, b).contains(v) by {
            if span(a, b).contains(v) {
                assert((v - a) % 1 == 0);
            }
        }
        assert(c =~= span(a, b));
    }
}

proof fn lemma_range(x: Seq<char>, y: Seq<char>)
    requires
        is_token(x),
        is_token(y),
    ensures
        ({
            let s = x + seq!['-'] + y;
            &&& text::split_once_of(s, '-') == Some((x, y))
            &&& text::lacks(s, ',')
            &&& text::lacks(s, '/')
            &&& s != "*"@
            &&& s.len() > 2
        }),
{
    reveal_strlit("*");
    text::cut_texts_read_back(x, '-', y);
}

/// A range with a step says every `n`-th number from its first end on.
pub proof fn range_with_step_says_every_nth(x: Seq<char>, y: Seq<char>, n: nat, f: FieldSpec)
    requires
        proper(f),
        is_token(x),
        is_token(y),
        value_of(x, f) is Some,
        value_of(y, f) is Some,
        0 <= value_of(x, f)->0 <= u32::MAX,
        0 <= value_of(y, f)->0 <= u32::MAX,
        in_field(value_of(x, f)->0, value_of(y, f)->0, f),
        1 <= n <= u32::MAX,
    ensures
        field_of(x + seq!['-'] + y + seq!['/'] + text::decimal(n), f) == Ok::<
            (Set<int>, bool),
            Seq<char>,
        >((counted(value_of(x, f)->0, value_of(y, f)->0, n as int, f), false)),
{
    let r = x + seq!['-'] + y;
    let s = r + seq!['/'] + text::decimal(n);
    lemma_range(x, y);
    lemma_step(r, n);
    reveal_strlit("*");
    assert(s.len() > 1);
    lemma_item(s, value_of(x, f)->0, value_of(y, f)->0, n as int, f);
}

/// A step that is no number, or is 0, makes the field an error.
pub proof fn bad_steps_are_errors(r: Seq<char>, step: Seq<char>, f: FieldSpec)
    requires
        text::lacks(r, '/'),
        text::lacks(r, ','),
        text::lacks(step, ','),
    ensures
        text::unsigned_of(step, u32::MAX as nat) is None ==> refused(
            r + seq!['/'] + step,
            f,
            "invalid step '"@ + step + "'"@,
        ),
        text::unsigned_of(step, u32::MAX as nat) == Some(0nat) ==> refused(
            r + seq!['/'] + step,
            f,
            "step must be >= 1"@,
        ),
{
    let s = r + seq!['/'] + step;
    text::cut_texts_read_back(r, '/', step);
    text::uncut_text_is_one_piece(s, ',');
    let parts = text::split_of(s, ',');
    assert(parts.last() == s);
    assert(parts.drop_last() =~= seq![]);
    assert(list_of(parts.drop_last(), s, f) is Ok);
}

/// A number stands for itself in every field.
pub proof fn numbers_stand_for_themselves(n: nat, f: FieldSpec)
    requires
        n <= u32::MAX,
    ensures
        value_of(text::decimal(n), f) == Some(n as int),
        is_token(text::decimal(n)),
{
    text::numbers_read_back(n, u32::MAX as nat);
    text::numbers_lack_other_characters(n, ',');
    text::numbers_lack_other_characters(n, '/');
    text::numbers_lack_other_characters(n, '-');
    text::numbers_lack_other_characters(n, '*');
}

/// Whether a text consists of lower-case letters.
spec fn lower_letters(x: Seq<char>) -> bool {
    x.len() > 0 && forall|i: int| 0 <= i < x.len() ==> 'a' <= #[trigger] x[i] <= 'z'
}

proof fn lemma_name_value(x: Seq<char>, i: int, f: FieldSpec)
    requires
        lower_letters(x),
        0 <= i < name_list(f.names).len(),
        name_list(f.names)[i] == x,
        forall|j: int| 0 <= j < i ==> name_list(f.names)[j] != x,
    ensures
        value_of(x, f) == Some(f.name_base + i),
        is_token(x),
{
    assert('a' <= x[0] <= 'z');
    assert forall|k: int| 0 <= k < x.len() implies #[trigger] text::lower_of(x)[k] == x[k] by {
        text::lower_case_changes_letters_only(x[k]);
    }
    assert(text::lower_of(x) =~= x);
    let d = text::unsigned_digits(x);
    assert(d == x);
    assert(!text::is_digit(d[0]));
    lemma_position(name_list(f.names), x, i);
}

/// Whether a field says one number and nothing else.
pub open spec fn says_only(x: Seq<char>, f: FieldSpec, v: int) -> bool {
    field_of(x, f) == Ok::<(Set<int>, bool), Seq<char>>((set![v], false))
}

/// The names of the weekdays, Sunday first, stand for 0 to 6.
pub proof fn weekday_names_stand_for_their_numbers()
    ensures
        ({
            let f = FieldSpec { min: 0, max: 6, names: Names::Weekdays, name_base: 0 };
            &&& value_of("sun"@, f) == Some(0int) && says_only("sun"@, f, 0)
            &&& value_of("mon"@, f) == Some(1int) && says_only("mon"@, f, 1)
            &&& value_of("tue"@, f) == Some(2int) && says_only("tue"@, f, 2)
            &&& value_of("wed"@, f) == Some(3int) && says_only("wed"@, f, 3)
            &&& value_of("thu"@, f) == Some(4int) && says_only("thu"@, f, 4)
            &&& value_of("fri"@, f) == Some(5int) && says_only("fri"@, f, 5)
            &&& value_of("sat"@, f) == Some(6int) && says_only("sat"@, f, 6)
        }),
        is_token("sun"@),
        is_token("mon"@),
        is_token("tue"@),
        is_token("wed"@),
        is_token("thu"@),
        is_token("fri"@),
        is_token("sat"@),
{
    let f = FieldSpec { min: 0, max: 6, names: Names::Weekdays, name_base: 0 };
    reveal_strlit("sun");
    reveal_strlit("mon");
    reveal_strlit("tue");
    reveal_strlit("wed");
    reveal_strlit("thu");
    reveal_strlit("fri");
    reveal_strlit("sat");
    lemma_name_value("sun"@, 0, f);
    value_says_itself("sun"@, f);
    lemma_name_value("mon"@, 1, f);
    value_says_itself("mon"@, f);
    lemma_name_value("tue"@, 2, f);
    value_says_itself("tue"@, f);
    lemma_name_value("wed"@, 3, f);
    value_says_itself("wed"@, f);
    lemma_name_value("thu"@, 4, f);
    value_says_itself("thu"@, f);
    lemma_name_value("fri"@, 5, f);
    value_says_itself("fri"@, f);
    lemma_name_value("sat"@, 6, f);
    value_says_itself("sat"@, f);
}

/// The names of the months stand for 1 to 12.
#[verifier::rlimit(30)]
pub proof fn month_names_stand_for_their_numbers()
    ensures
        ({
            let f = FieldSpec { min: 1, max: 12, names: Names::Months, name_base: 1 };
            &&& value_of("jan"@, f) == Some(1int) && says_only("jan"@, f, 1)
            &&& value_of("feb"@, f) == Some(2int) && says_only("feb"@, f, 2)
            &&& value_of("mar"@, f) == Some(3int) && says_only("mar"@, f, 3)
            &&& value_of("apr"@, f) == Some(4int) && says_only("apr"@, f, 4)
            &&& value_of("may"@, f) == Some(5int) && says_only("may"@, f, 5)
            &&& value_of("jun"@, f) == Some(6int) && says_only("jun"@, f, 6)
            &&& value_of("jul"@, f) == Some(7int) && says_only("jul"@, f, 7)
            &&& value_of("aug"@, f) == Some(8int) && says_only("aug"@, f, 8)
            &&& value_of("sep"@, f) == Some(9int) && says_only("sep"@, f, 9)
            &&& value_of("oct"@, f) == Some(10int) && says_only("oct"@, f, 10)
            &&& value_of("nov"@, f) == Some(11int) && says_only("nov"@, f, 11)
            &&& value_of("dec"@, f) == Some(12int) && says_only("dec"@, f, 12)
        }),
        is_token("jan"@) && is_token("feb"@) && is_token("mar"@) && is_token("apr"@),
        is_token("may"@) && is_token("jun"@) && is_token("jul"@) && is_token("aug"@),
        is_token("sep"@) && is_token("oct"@) && is_token("nov"@) && is_token("dec"@),
{
    let f = FieldSpec { min: 1, max: 12, names: Names::Months, name_base: 1 };
    reveal_strlit("jan");
    reveal_strlit("feb");
    reveal_strlit("mar");
    reveal_strlit("apr");
    reveal_strlit("may");
    reveal_strlit("jun");
    reveal_strlit("jul");
    reveal_strlit("aug");
    reveal_strlit("sep");
    reveal_strlit("oct");
    reveal_strlit("nov");
    reveal_strlit("dec");
    lemma_name_value("jan"@, 0, f);
    value_says_itself("jan"@, f);
    lemma_name_value("feb"@, 1, f);
    value_says_itself("feb"@, f);
    lemma_name_value("mar"@, 2, f);
    value_says_itself("mar"@, f);
    lemma_name_value("apr"@, 3, f);
    value_says_itself("apr"@, f);
    assert("may"@[2] == 'y' && "mar"@[2] == 'r' && "may"@[1] == 'a');
    lemma_name_value("may"@, 4, f);
    value_says_itself("may"@, f);
    assert("jan"@[1] == 'a' && "jun"@[1] == 'u');
    lemma_name_value("jun"@, 5, f);
    value_says_itself("jun"@, f);
    lemma_name_value("jul"@, 6, f);
    value_says_itself("jul"@, f);
    lemma_name_value("aug"@, 7, f);
    value_says_itself("aug"@, f);
    lemma_name_value("sep"@, 8, f);
    value_says_itself("sep"@, f);
    lemma_name_value("oct"@, 9, f);
    value_says_itself("oct"@, f);
    lemma_name_value("nov"@, 10, f);
    value_says_itself("nov"@, f);
    lemma_name_value("dec"@, 11, f);
    value_says_itself("dec"@, f);
}

/// Names are free: a field says the same with a name, in whatever case, as with
/// the number that the name stands for, alone and at either end of a range.
pub proof fn a_name_says_what_its_number_says(
    x: Seq<char>,
    n: nat,
    y: Seq<char>,
    f: FieldSpec,
)
    requires
        proper(f),
        is_token(x),
        is_token(y),
        n <= u32::MAX,
        value_of(text::lower_of(x), f) == Some(n as int),
        value_of(y, f) is Some,
        0 <= value_of(y, f)->0 <= u32::MAX,
        f.max != 6 || (n <= 6 && value_of(y, f)->0 <= 6),
    ensures
        agree(field_of(x, f), field_of(text::decimal(n), f)),
        agree(
            field_of(x + seq!['-'] + y, f),
            field_of(text::decimal(n) + seq!['-'] + y, f),
        ),
        agree(
            field_of(y + seq!['-'] + x, f),
            field_of(y + seq!['-'] + text::decimal(n), f),
        ),
{
    lemma_lower_value(x, f);
    numbers_stand_for_themselves(n, f);
    value_says_itself(x, f);
    value_says_itself(text::decimal(n), f);
    range_says_what_lies_between(x, y, f);
    range_says_what_lies_between(text::decimal(n), y, f);
    range_says_what_lies_between(y, x, f);
    range_says_what_lies_between(y, text::decimal(n), f);
}

/// The five words of an expression are minute (0 to 59), hour (0 to 23), day of
/// the month (1 to 31), month (1 to 12, or a name) and weekday (0 to 6, or a
/// name), in this order. The expression is accepted exactly where each of them
/// is, and its schedule has what they say; else the first faulty one decides.
pub proof fn words_are_read_in_order(e: Seq<char>)
    requires
        text::words_of(e).len() == 5,
        text::words_of(e)[0].len() > 0,
        text::words_of(e)[0][0] != '@',
    ensures
        ({
            let w = text::words_of(e);
            let plain = Names::Nothing;
            let minute = field_of(w[0], FieldSpec { min: 0, max: 59, names: plain, name_base: 0 });
            let hour = field_of(w[1], FieldSpec { min: 0, max: 23, names: plain, name_base: 0 });
            let day = field_of(w[2], FieldSpec { min: 1, max: 31, names: plain, name_base: 0 });
            let month = field_of(
                w[3],
                FieldSpec { min: 1, max: 12, names: Names::Months, name_base: 1 },
            );
            let weekday = field_of(
                w[4],
                FieldSpec { min: 0, max: 6, names: Names::Weekdays, name_base: 0 },
            );
            match schedule_of(e) {
                Ok(s) => {
                    &&& minute == Ok::<(Set<int>, bool), Seq<char>>((s.minutes, minute->Ok_0.1))
                    &&& hour == Ok::<(Set<int>, bool), Seq<char>>((s.hours, hour->Ok_0.1))
                    &&& day == Ok::<(Set<int>, bool), Seq<char>>((s.days, s.any_day))
                    &&& month == Ok::<(Set<int>, bool), Seq<char>>((s.months, month->Ok_0.1))
                    &&& weekday == Ok::<(Set<int>, bool), Seq<char>>((s.weekdays, s.any_weekday))
                    &&& !s.reboot
                },
                Err(e) => if minute is Err {
                    minute->Err_0 == e
                } else if hour is Err {
                    hour->Err_0 == e
                } else if day is Err {
                    day->Err_0 == e
                } else if month is Err {
                    month->Err_0 == e
                } else {
                    weekday is Err && weekday->Err_0 == e
                },
            }
        }),
{
    lemma_alias_expression(e);
    text::words_of_trimmed_text(e);
}

/// Each alias is another way to write its expression, in whatever case; only
/// `@reboot` is marked as such. No other alias is accepted.
pub proof fn aliases_are_their_expressions(alias: Seq<char>)
    ensures
        ({
            let a = text::lower_of(alias);
            let r = alias_of(alias);
            let known = |name: Seq<char>, fields: Seq<char>| a == name ==> r == fields_of(fields);
            &&& known("hourly"@, "0 * * * *"@)
            &&& known("daily"@, "0 0 * * *"@)
            &&& known("midnight"@, "0 0 * * *"@)
            &&& known("weekly"@, "0 0 * * 0"@)
            &&& known("monthly"@, "0 0 1 * *"@)
            &&& known("yearly"@, "0 0 1 1 *"@)
            &&& known("annually"@, "0 0 1 1 *"@)
            &&& a == "reboot"@ ==> r is Ok && r->Ok_0.reboot && fields_of("* * * * *"@) == Ok::<
                Schedule,
                Seq<char>,
            >(Schedule { reboot: false, ..r->Ok_0 })
            &&& r is Ok && r->Ok_0.reboot ==> a == "reboot"@
            &&& r is Err ==> r->Err_0 == "unknown alias '@"@ + a + "'"@
            &&& r is Ok ==> a == "hourly"@ || a == "daily"@ || a == "midnight"@ || a == "weekly"@
                || a == "monthly"@ || a == "yearly"@ || a == "annually"@ || a == "reboot"@
        }),
{
    let a = text::lower_of(alias);
    lemma_aliases_differ();
    if alias_fields(a) is Some {
        known_aliases_are_accepted(alias);
        lemma_fields_within(alias_fields(a)->0);
        let s = fields_of(alias_fields(a)->0)->Ok_0;
        if a != "reboot"@ {
            assert(alias_of(alias)->Ok_0 == s);
        } else {
            assert((Schedule { reboot: false, ..alias_of(alias)->Ok_0 }) == s);
        }
    }
}

proof fn lemma_aliases_differ()
    ensures
        "hourly"@ != "reboot"@,
        "daily"@ != "reboot"@ && "daily"@ != "hourly"@,
        "midnight"@ != "reboot"@ && "midnight"@ != "hourly"@,
        "weekly"@ != "reboot"@ && "weekly"@ != "hourly"@ && "weekly"@ != "daily"@ && "weekly"@
            != "midnight"@,
        "monthly"@ != "reboot"@ && "monthly"@ != "hourly"@ && "monthly"@ != "daily"@ && "monthly"@
            != "midnight"@ && "monthly"@ != "weekly"@,
        "yearly"@ != "reboot"@ && "yearly"@ != "hourly"@ && "yearly"@ != "daily"@ && "yearly"@
            != "midnight"@ && "yearly"@ != "weekly"@ && "yearly"@ != "monthly"@,
        "annually"@ != "reboot"@ && "annually"@ != "hourly"@ && "annually"@ != "daily"@
            && "annually"@ != "midnight"@ && "annually"@ != "weekly"@ && "annually"@ != "monthly"@,
{
    reveal_strlit("reboot");
    reveal_strlit("hourly");
    reveal_strlit("daily");
    reveal_strlit("midnight");
    reveal_strlit("weekly");
    reveal_strlit("monthly");
    reveal_strlit("yearly");
    reveal_strlit("annually");
    assert("reboot"@[0] == 'r' && "hourly"@[0] == 'h' && "weekly"@[0] == 'w' && "yearly"@[0] == 'y'
        && "midnight"@[0] == 'm' && "annually"@[0] == 'a');
    assert("monthly"@.len() == 7 && "midnight"@.len() == 8 && "daily"@.len() == 5);
}

/// An alias after `@` says what the alias says.
pub proof fn at_sign_introduces_an_alias(alias: Seq<char>)
    requires
        forall|i: int| 0 <= i < alias.len() ==> !text::is_space(#[trigger] alias[i]),
    ensures
        schedule_of(seq!['@'] + alias) == alias_of(alias),
{
    reveal_strlit("@");
    let e = seq!['@'] + alias;
    let n = e.len() as int;
    text::lemma_first_where(e, text::non_space(), 0);
    assert(e.skip(0) =~= e);
    if n > 1 {
        assert(e[n - 1] == alias[n - 2]);
    }
    text::lemma_last_where(e, text::non_space(), n);
    assert(e.take(n) =~= e);
    assert(e.take(1) =~= "@"@);
    assert(e.skip(1) =~= alias);
}

/// A schedule covers a minute exactly where each of its fields covers it: a
/// month, hour or minute outside of its field is never covered.
pub proof fn every_field_has_a_say(c: Schedule, t: DateTime)
    ensures
        !c.months.contains(t.month as int) ==> !c.covers(t),
        !c.hours.contains(t.hour as int) ==> !c.covers(t),
        !c.minutes.contains(t.minute as int) ==> !c.covers(t),
        !c.covers_day(t) ==> !c.covers(t),
        c.months.contains(t.month as int) && c.hours.contains(t.hour as int)
            && c.minutes.contains(t.minute as int) && c.covers_day(t) ==> c.covers(t),
{
}

/// The next occurrence is one: it begins a covered minute, comes after the
/// start within five calendar years, and no covered minute begins in between.
/// There is none only where no covered minute begins in that time.
pub proof fn next_is_the_first(c: Schedule, after: DateTime, u: DateTime)
    requires
        after.valid(),
    ensures
        ({
            let follows = u.valid() && u.second == 0 && u.nanosecond == 0 && c.covers(u)
                && after.before(u);
            match c.next(after) {
                Some(t) => {
                    &&& t.valid() && t.second == 0 && t.nanosecond == 0 && c.covers(t)
                    &&& after.before(t)
                    &&& t.year <= after.year + 5
                    &&& follows ==> !u.before(t)
                },
                None => follows ==> u.year > after.year + 5,
            }
        }),
{
    let follows = u.valid() && u.second == 0 && u.nanosecond == 0 && c.covers(u) && after.before(
        u,
    );
    if follows && u.year <= after.year + 5 {
        next_is_found(c, after, u);
    }
    if c.next(after) is Some {
        assert(c.is_next(after, c.next(after)->0));
        assert(follows ==> c.occurs(u));
    }
}

/// Nothing but a number that 32 bits hold and the names of its field stands for a
/// value: a field that consists of any other token is an error.
pub proof fn other_tokens_are_errors(x: Seq<char>, f: FieldSpec)
    requires
        is_token(x),
        text::unsigned_of(x, u32::MAX as nat) is None,
        ({
            let a = text::lower_of(x);
            let weekday = a == "sun"@ || a == "mon"@ || a == "tue"@ || a == "wed"@ || a == "thu"@
                || a == "fri"@ || a == "sat"@;
            let month = a == "jan"@ || a == "feb"@ || a == "mar"@ || a == "apr"@ || a == "may"@
                || a == "jun"@ || a == "jul"@ || a == "aug"@ || a == "sep"@ || a == "oct"@ || a
                == "nov"@ || a == "dec"@;
            !(f.names == Names::Weekdays && weekday) && !(f.names == Names::Months && month)
        }),
    ensures
        value_of(x, f) is None,
        refused(x, f, "unrecognized value '"@ + x + "'"@),
{
    let list = name_list(f.names);
    let a = text::lower_of(x);
    assert forall|i: int| 0 <= i < list.len() implies #[trigger] list[i] != a by {}
    lemma_no_position(list, a);
    text::uncut_text_is_one_piece(x, ',');
    text::uncut_text_is_one_piece(x, '/');
    text::uncut_text_is_one_piece(x, '-');
    lemma_token_is_no_star(x);
    let parts = text::split_of(x, ',');
    assert(parts.last() == x);
    assert(parts.drop_last() =~= seq![]);
    assert(list_of(parts.drop_last(), x, f) is Ok);
}

/// An end of a range that stands for no value is named by the message, the first
/// one before the second; an empty field is refused too.
pub proof fn other_ends_are_errors(x: Seq<char>, y: Seq<char>, f: FieldSpec)
    requires
        is_token(x),
        is_token(y),
    ensures
        value_of(x, f) is None ==> refused(
            x + seq!['-'] + y,
            f,
            "unrecognized value '"@ + x + "'"@,
        ),
        value_of(x, f) is Some && value_of(y, f) is None ==> refused(
            x + seq!['-'] + y,
            f,
            "unrecognized value '"@ + y + "'"@,
        ),
        refused(seq![], f, "empty list item in '"@ + seq![] + "'"@),
{
    let s = x + seq!['-'] + y;
    lemma_range(x, y);
    text::uncut_text_is_one_piece(s, '/');
    text::uncut_text_is_one_piece(s, ',');
    let parts = text::split_of(s, ',');
    assert(parts.last() == s);
    assert(parts.drop_last() =~= seq![]);
    assert(list_of(parts.drop_last(), s, f) is Ok);
    let none = Seq::<char>::empty();
    text::uncut_text_is_one_piece(none, ',');
    let one = text::split_of(none, ',');
    assert(one.last() == none);
    assert(one.drop_last() =~= seq![]);
    assert(list_of(one.drop_last(), none, f) is Ok);
}

proof fn lemma_no_position(list: Seq<Seq<char>>, x: Seq<char>)
    requires
        forall|i: int| 0 <= i < list.len() ==> #[trigger] list[i] != x,
    ensures
        position(list, x) is None,
    decreases list.len(),
{
    if list.len() > 0 {
        let rest = list.skip(1);
        assert(list[0] != x);
        assert forall|i: int| 0 <= i < rest.len() implies #[trigger] rest[i] != x by {
            assert(rest[i] == list[i + 1]);
        }
        lemma_no_position(rest, x);
    }
}

} // verus!
