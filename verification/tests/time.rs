use chrond::time::{
    format_time, next_hour, next_midnight, next_minute, next_month, parse_time, seconds_before,
    truncate_minute, DateTime,
};

fn at(y: i32, mo: u32, d: u32, h: u32, mi: u32, s: u32) -> DateTime {
    DateTime::new(y, mo, d, h, mi, s).unwrap()
}

#[test]
fn dates_that_do_not_exist_are_refused() {
    assert!(DateTime::new(2026, 2, 29, 0, 0, 0).is_none());
    assert!(DateTime::new(2028, 2, 29, 0, 0, 0).is_some());
    assert!(DateTime::new(2100, 2, 29, 0, 0, 0).is_none());
    assert!(DateTime::new(2000, 2, 29, 0, 0, 0).is_some());
    assert!(DateTime::new(2026, 13, 1, 0, 0, 0).is_none());
    assert!(DateTime::new(2026, 0, 1, 0, 0, 0).is_none());
    assert!(DateTime::new(2026, 4, 31, 0, 0, 0).is_none());
    assert!(DateTime::new(2026, 1, 1, 24, 0, 0).is_none());
    assert!(DateTime::new(2026, 1, 1, 0, 60, 0).is_none());
    assert!(DateTime::new(2026, 1, 1, 0, 0, 60).is_none());
    assert!(DateTime::new(262143, 1, 1, 0, 0, 0).is_none());
    assert!(DateTime::new(-262144, 1, 1, 0, 0, 0).is_none());
}

#[test]
fn times_are_written_and_read_back() {
    let cases = [
        (at(2026, 7, 8, 2, 15, 0), "2026-07-08T02:15:00"),
        (at(99, 12, 31, 23, 59, 59), "0099-12-31T23:59:59"),
        (at(-5, 1, 1, 0, 0, 0), "-0005-01-01T00:00:00"),
        (at(12345, 1, 1, 0, 0, 0), "+12345-01-01T00:00:00"),
        (at(262142, 12, 31, 23, 59, 59), "+262142-12-31T23:59:59"),
        (at(-262143, 1, 1, 0, 0, 0), "-262143-01-01T00:00:00"),
    ];
    for (t, text) in cases {
        assert_eq!(format_time(t), text);
        assert_eq!(parse_time(text), Some(t));
    }
}

#[test]
fn leap_seconds_and_fractions() {
    let leap = DateTime { nanosecond: 1_500_000_000, ..at(2016, 12, 31, 23, 59, 59) };
    assert_eq!(format_time(leap), "2016-12-31T23:59:60");
    assert_eq!(
        parse_time("2016-12-31T23:59:60"),
        Some(DateTime { nanosecond: 1_000_000_000, ..leap })
    );
}

#[test]
fn texts_that_are_no_times_are_refused() {
    assert_eq!(parse_time(""), None);
    assert_eq!(parse_time("2026-07-08 02:15:00"), None);
    assert_eq!(parse_time("2026-02-30T00:00:00"), None);
    assert_eq!(parse_time("2026-07-08T02:15:00Z"), None);
}

#[test]
fn times_are_compared_field_by_field() {
    let t = at(2026, 7, 8, 2, 15, 0);
    assert!(t.is_before(&at(2026, 7, 8, 2, 15, 1)));
    assert!(t.is_before(&at(2027, 1, 1, 0, 0, 0)));
    assert!(!t.is_before(&t));
    assert!(!t.is_before(&at(2026, 7, 7, 23, 59, 59)));
    assert!(t.is_before(&DateTime { nanosecond: 1, ..t }));
    assert!(t < at(2026, 7, 8, 2, 16, 0));
}

#[test]
fn ends_of_minutes_hours_days_and_months() {
    let t = at(2026, 12, 31, 23, 59, 58);
    assert_eq!(truncate_minute(t), at(2026, 12, 31, 23, 59, 0));
    assert_eq!(next_minute(t), Some(at(2027, 1, 1, 0, 0, 0)));
    assert_eq!(next_hour(at(2026, 7, 8, 2, 15, 9)), Some(at(2026, 7, 8, 3, 0, 0)));
    assert_eq!(next_midnight(at(2028, 2, 28, 5, 0, 0)), Some(at(2028, 2, 29, 0, 0, 0)));
    assert_eq!(next_midnight(at(2027, 2, 28, 5, 0, 0)), Some(at(2027, 3, 1, 0, 0, 0)));
    assert_eq!(next_month(at(2026, 12, 5, 5, 5, 5)), Some(at(2027, 1, 1, 0, 0, 0)));
    assert_eq!(next_minute(at(262142, 12, 31, 23, 59, 0)), None);
    assert_eq!(next_month(at(262142, 12, 1, 0, 0, 0)), None);
}

#[test]
fn seconds_are_counted_back() {
    let t = at(2026, 3, 1, 0, 0, 0);
    assert_eq!(seconds_before(t, 1), Some(at(2026, 2, 28, 23, 59, 59)));
    assert_eq!(seconds_before(t, 86400 * 365), Some(at(2025, 3, 1, 0, 0, 0)));
    assert_eq!(seconds_before(t, 10_000_000_000_000), None);
    assert_eq!(seconds_before(t, u64::MAX), None);
    let leap = DateTime { nanosecond: 1_250_000_000, ..at(2016, 12, 31, 23, 59, 59) };
    assert_eq!(
        seconds_before(leap, 1),
        Some(DateTime { nanosecond: 250_000_000, ..at(2016, 12, 31, 23, 59, 59) })
    );
    assert_eq!(seconds_before(leap, 0), Some(leap));
}
