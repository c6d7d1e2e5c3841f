use chrond::cronexpr::CronExpr;
use chrond::time::DateTime;

fn dt(y: i32, mo: u32, d: u32, h: u32, mi: u32) -> DateTime {
    DateTime::new(y, mo, d, h, mi, 0).unwrap()
}

#[test]
fn parses_wildcards() {
    let c = CronExpr::parse("* * * * *").unwrap();
    assert!(c.matches(&dt(2026, 7, 8, 5, 44)));
}

#[test]
fn parses_fixed_time() {
    let c = CronExpr::parse("15 2 * * *").unwrap();
    assert!(c.matches(&dt(2026, 7, 8, 2, 15)));
    assert!(!c.matches(&dt(2026, 7, 8, 2, 16)));
    assert!(!c.matches(&dt(2026, 7, 8, 3, 15)));
}

#[test]
fn parses_steps_and_ranges() {
    let c = CronExpr::parse("*/15 9-17 * * *").unwrap();
    assert!(c.matches(&dt(2026, 1, 1, 9, 0)));
    assert!(c.matches(&dt(2026, 1, 1, 17, 45)));
    assert!(!c.matches(&dt(2026, 1, 1, 8, 45)));
    assert!(!c.matches(&dt(2026, 1, 1, 9, 10)));
}

#[test]
fn parses_lists() {
    let c = CronExpr::parse("0 0 1,15 * *").unwrap();
    assert!(c.matches(&dt(2026, 3, 1, 0, 0)));
    assert!(c.matches(&dt(2026, 3, 15, 0, 0)));
    assert!(!c.matches(&dt(2026, 3, 2, 0, 0)));
}

#[test]
fn parses_range_with_step() {
    let c = CronExpr::parse("1-10/3 * * * *").unwrap();
    for m in [1u32, 4, 7, 10] {
        assert!(c.matches(&dt(2026, 1, 1, 0, m)), "minute {m}");
    }
    assert!(!c.matches(&dt(2026, 1, 1, 0, 2)));
}

#[test]
fn parses_month_and_dow_names() {
    let c = CronExpr::parse("0 9 * jan-mar mon-fri").unwrap();
    // 2026-01-05 is a Monday.
    assert!(c.matches(&dt(2026, 1, 5, 9, 0)));
    // 2026-01-04 is a Sunday.
    assert!(!c.matches(&dt(2026, 1, 4, 9, 0)));
    assert!(!c.matches(&dt(2026, 4, 6, 9, 0)));
}

#[test]
fn seven_is_sunday() {
    let c = CronExpr::parse("0 0 * * 7").unwrap();
    // 2026-07-12 is a Sunday.
    assert!(c.matches(&dt(2026, 7, 12, 0, 0)));
    assert!(!c.matches(&dt(2026, 7, 13, 0, 0)));
}

#[test]
fn dow_ranges_involving_seven() {
    // "0-7" covers every day.
    let all = CronExpr::parse("0 0 * * 0-7").unwrap();
    for d in 12..=18 {
        assert!(all.matches(&dt(2026, 7, d, 0, 0)), "day {d}");
    }
    // "5-7" is Fri, Sat, Sun.
    let fss = CronExpr::parse("0 0 * * 5-7").unwrap();
    assert!(fss.matches(&dt(2026, 7, 10, 0, 0))); // Friday
    assert!(fss.matches(&dt(2026, 7, 11, 0, 0))); // Saturday
    assert!(fss.matches(&dt(2026, 7, 12, 0, 0))); // Sunday
    assert!(!fss.matches(&dt(2026, 7, 13, 0, 0))); // Monday
}

#[test]
fn vixie_or_rule_when_both_restricted() {
    // "day 13 OR friday" - classic vixie semantics.
    let c = CronExpr::parse("0 0 13 * 5").unwrap();
    // 2026-02-13 is a Friday (both match).
    assert!(c.matches(&dt(2026, 2, 13, 0, 0)));
    // 2026-03-13 is a Friday.
    assert!(c.matches(&dt(2026, 3, 13, 0, 0)));
    // 2026-07-13 is a Monday -> matches via day-of-month.
    assert!(c.matches(&dt(2026, 7, 13, 0, 0)));
    // 2026-07-17 is a Friday -> matches via day-of-week.
    assert!(c.matches(&dt(2026, 7, 17, 0, 0)));
    // 2026-07-14 is a Tuesday, day 14 -> no match.
    assert!(!c.matches(&dt(2026, 7, 14, 0, 0)));
}

#[test]
fn dom_restricted_dow_star() {
    let c = CronExpr::parse("0 0 13 * *").unwrap();
    assert!(c.matches(&dt(2026, 7, 13, 0, 0)));
    assert!(!c.matches(&dt(2026, 7, 17, 0, 0)));
}

#[test]
fn aliases() {
    assert_eq!(
        CronExpr::parse("@hourly").unwrap(),
        CronExpr::parse("0 * * * *").unwrap()
    );
    assert_eq!(
        CronExpr::parse("@daily").unwrap(),
        CronExpr::parse("0 0 * * *").unwrap()
    );
    assert_eq!(
        CronExpr::parse("@weekly").unwrap(),
        CronExpr::parse("0 0 * * 0").unwrap()
    );
    assert_eq!(
        CronExpr::parse("@monthly").unwrap(),
        CronExpr::parse("0 0 1 * *").unwrap()
    );
    assert_eq!(
        CronExpr::parse("@yearly").unwrap(),
        CronExpr::parse("0 0 1 1 *").unwrap()
    );
    assert!(CronExpr::parse("@reboot").unwrap().reboot);
}

#[test]
fn rejects_bad_input() {
    assert!(CronExpr::parse("* * * *").is_err());
    assert!(CronExpr::parse("60 * * * *").is_err());
    assert!(CronExpr::parse("* 24 * * *").is_err());
    assert!(CronExpr::parse("* * 0 * *").is_err());
    assert!(CronExpr::parse("* * 32 * *").is_err());
    assert!(CronExpr::parse("* * * 13 *").is_err());
    assert!(CronExpr::parse("* * * * 8").is_err());
    assert!(CronExpr::parse("*/0 * * * *").is_err());
    assert!(CronExpr::parse("5-2 * * * *").is_err());
    assert!(CronExpr::parse("@fortnightly").is_err());
    assert!(CronExpr::parse("a * * * *").is_err());
}

#[test]
fn next_after_simple() {
    let c = CronExpr::parse("15 2 * * *").unwrap();
    assert_eq!(
        c.next_after(dt(2026, 7, 8, 1, 0)),
        Some(dt(2026, 7, 8, 2, 15))
    );
    assert_eq!(
        c.next_after(dt(2026, 7, 8, 2, 15)),
        Some(dt(2026, 7, 9, 2, 15))
    );
    assert_eq!(
        c.next_after(dt(2026, 7, 8, 3, 0)),
        Some(dt(2026, 7, 9, 2, 15))
    );
}

#[test]
fn next_after_month_rollover() {
    let c = CronExpr::parse("0 0 1 * *").unwrap();
    assert_eq!(
        c.next_after(dt(2026, 1, 31, 23, 59)),
        Some(dt(2026, 2, 1, 0, 0))
    );
    assert_eq!(
        c.next_after(dt(2026, 12, 15, 0, 0)),
        Some(dt(2027, 1, 1, 0, 0))
    );
}

#[test]
fn next_after_leap_day() {
    let c = CronExpr::parse("0 12 29 2 *").unwrap();
    // Next Feb 29 after mid-2026 is in 2028.
    assert_eq!(
        c.next_after(dt(2026, 7, 1, 0, 0)),
        Some(dt(2028, 2, 29, 12, 0))
    );
}

#[test]
fn next_after_impossible_returns_none() {
    let c = CronExpr::parse("0 0 31 2 *").unwrap();
    assert_eq!(c.next_after(dt(2026, 1, 1, 0, 0)), None);
}

#[test]
fn next_after_dow() {
    let c = CronExpr::parse("30 8 * * mon").unwrap();
    // 2026-07-08 is a Wednesday; next Monday is 07-13.
    assert_eq!(
        c.next_after(dt(2026, 7, 8, 9, 0)),
        Some(dt(2026, 7, 13, 8, 30))
    );
}

#[test]
fn next_after_truncates_seconds() {
    let c = CronExpr::parse("* * * * *").unwrap();
    let after = DateTime::new(2026, 7, 8, 5, 44, 37).unwrap();
    assert_eq!(c.next_after(after), Some(dt(2026, 7, 8, 5, 45)));
}

fn message(expr: &str) -> String {
    CronExpr::parse(expr).unwrap_err().0
}

#[test]
fn every_error_says_what_is_wrong() {
    assert_eq!(message("* * * *"), "expected 5 fields, got 4 in '* * * *'");
    assert_eq!(message(""), "expected 5 fields, got 0 in ''");
    assert_eq!(message("1,,2 * * * *"), "empty list item in '1,,2'");
    assert_eq!(message("*/x * * * *"), "invalid step 'x'");
    assert_eq!(message("*/0 * * * *"), "step must be >= 1");
    assert_eq!(message("a * * * *"), "unrecognized value 'a'");
    assert_eq!(message("1-b * * * *"), "unrecognized value 'b'");
    assert_eq!(
        message("60 * * * *"),
        "value out of range in '60' (allowed 0-59)"
    );
    assert_eq!(
        message("* * * 13 *"),
        "value out of range in '13' (allowed 1-12)"
    );
    assert_eq!(message("@Fortnightly"), "unknown alias '@fortnightly'");
}

#[test]
fn errors_are_described_as_cron_errors() {
    let e = CronExpr::parse("@never").unwrap_err();
    assert_eq!(
        e.describe(),
        "invalid cron expression: unknown alias '@never'"
    );
}

#[test]
fn aliases_ignore_case_and_have_synonyms() {
    let same = |a: &str, b: &str| {
        assert_eq!(CronExpr::parse(a).unwrap(), CronExpr::parse(b).unwrap());
    };
    same("@HOURLY", "@hourly");
    same("@midnight", "@daily");
    same("@annually", "@yearly");
    same("  @weekly  ", "0 0 * * 0");
}

#[test]
fn bare_value_with_step_reaches_the_maximum() {
    assert_eq!(
        CronExpr::parse("5/20 * * * *").unwrap(),
        CronExpr::parse("5,25,45 * * * *").unwrap()
    );
}

#[test]
fn sunday_is_reached_by_the_step_only() {
    // 1-7/2 is Mon, Wed, Fri, Sun; 2-7/2 is Tue, Thu, Sat.
    assert_eq!(
        CronExpr::parse("0 0 * * 1-7/2").unwrap(),
        CronExpr::parse("0 0 * * 0,1,3,5").unwrap()
    );
    assert_eq!(
        CronExpr::parse("0 0 * * 2-7/2").unwrap(),
        CronExpr::parse("0 0 * * 2,4,6").unwrap()
    );
    assert_eq!(
        CronExpr::parse("0 0 * * 7-2").unwrap(),
        CronExpr::parse("0 0 * * 0-2").unwrap()
    );
}

#[test]
fn names_ignore_case() {
    assert_eq!(
        CronExpr::parse("0 0 * DEC Sat").unwrap(),
        CronExpr::parse("0 0 * 12 6").unwrap()
    );
}

#[test]
fn star_with_step_restricts_the_day() {
    // "*/2" is no "*": with a weekday given, either may match.
    let c = CronExpr::parse("0 0 */2 * 1").unwrap();
    // 2026-07-07 is a Tuesday, day 7.
    assert!(c.matches(&dt(2026, 7, 7, 0, 0)));
    // 2026-07-06 is a Monday, day 6.
    assert!(c.matches(&dt(2026, 7, 6, 0, 0)));
    // 2026-07-08 is a Wednesday, day 8.
    assert!(!c.matches(&dt(2026, 7, 8, 0, 0)));
}

#[test]
fn reboot_expression_is_marked() {
    assert!(CronExpr::parse("@reboot").unwrap().is_reboot());
    assert!(!CronExpr::parse("@daily").unwrap().is_reboot());
}

#[test]
fn next_after_rejects_the_29th_of_february_in_1900() {
    // 1896 and 1904 are leap years, 1900 is not: eight years lie between.
    let c = CronExpr::parse("0 0 29 2 *").unwrap();
    assert_eq!(c.next_after(dt(1896, 3, 1, 0, 0)), None);
    assert_eq!(
        c.next_after(dt(1899, 1, 1, 0, 0)),
        Some(dt(1904, 2, 29, 0, 0))
    );
}

#[test]
fn next_after_ends_with_the_calendar() {
    let c = CronExpr::parse("* * * * *").unwrap();
    assert_eq!(c.next_after(dt(262142, 12, 31, 23, 59)), None);
    assert_eq!(
        c.next_after(dt(262142, 12, 31, 23, 58)),
        Some(dt(262142, 12, 31, 23, 59))
    );
}

#[test]
fn next_after_never_goes_back() {
    let c = CronExpr::parse("7 */5 * * *").unwrap();
    let a = c.next_after(dt(2026, 7, 8, 4, 0)).unwrap();
    let b = c.next_after(dt(2026, 7, 8, 4, 59)).unwrap();
    assert_eq!(a, dt(2026, 7, 8, 5, 7));
    assert_eq!(a, b);
    assert_eq!(c.next_after(a), Some(dt(2026, 7, 8, 10, 7)));
}

#[test]
fn matches_ignores_seconds() {
    let c = CronExpr::parse("44 5 * * *").unwrap();
    assert!(c.matches(&DateTime::new(2026, 7, 8, 5, 44, 59).unwrap()));
}

#[test]
fn lists_are_the_union_of_their_items() {
    let same = |a: &str, b: &str| {
        assert_eq!(CronExpr::parse(a).unwrap(), CronExpr::parse(b).unwrap());
    };
    same("1-3,*/20 * * * *", "0,1,2,3,20,40 * * * *");
    same("0 0 *,* * 1", "0 0 * * 1");
    // With one item that is no "*" the day is restricted: either field may match.
    let c = CronExpr::parse("0 0 *,5 * 1").unwrap();
    assert_ne!(c, CronExpr::parse("0 0 * * 1").unwrap());
    assert!(c.matches(&dt(2026, 7, 8, 0, 0)));
    assert!(CronExpr::parse("1,60 * * * *").is_err());
    assert!(CronExpr::parse("60,1 * * * *").is_err());
}

#[test]
fn spelling_is_free() {
    let same = |a: &str, b: &str| {
        assert_eq!(CronExpr::parse(a).ok(), CronExpr::parse(b).ok());
    };
    same("0 9 * jan-mar mon-fri", "  0\t9  *  JAN-Mar\u{3000}Mon-FRI\n");
    same("@Weekly", "\t@wEEKLY ");
    same("0 0 * JANUARY *", "0 0 * january *");
    assert!(CronExpr::parse("0 0 * january *").is_err());
    assert!(CronExpr::parse("@daily x").is_err());
    assert!(CronExpr::parse("@ daily").is_err());
    assert!(CronExpr::parse("@").is_err());
    assert!(CronExpr::parse("* * * * * *").is_err());
}
