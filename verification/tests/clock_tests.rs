use chrono::TimeZone;
use clockin::clock::{next_occurrence, parse_clock_time};
use clockin::types::SchedulingError;

fn madrid_ms(y: i32, mo: u32, d: u32, h: u32, mi: u32) -> i64 {
    let tz: chrono_tz::Tz = "Europe/Madrid".parse().expect("zone");
    tz.with_ymd_and_hms(y, mo, d, h, mi, 0)
        .single()
        .expect("unambiguous local time")
        .timestamp_millis()
}

#[test]
fn next_occurrence_after_target_rolls_to_next_day() {
    let now = madrid_ms(2024, 6, 10, 9, 30);
    let r = next_occurrence(9, 0, "Europe/Madrid", now).expect("schedulable");
    assert_eq!(r, now + 23 * 3_600_000 + 30 * 60_000);
    assert_eq!(r, madrid_ms(2024, 6, 11, 9, 0));
}

#[test]
fn next_occurrence_before_target_stays_same_day() {
    let now = madrid_ms(2024, 6, 10, 8, 30);
    let r = next_occurrence(9, 0, "Europe/Madrid", now).expect("schedulable");
    assert_eq!(r, now + 30 * 60_000);
    assert_eq!(r, madrid_ms(2024, 6, 10, 9, 0));
}

#[test]
fn next_occurrence_at_exact_target_rolls_forward() {
    let now = madrid_ms(2024, 6, 10, 9, 0);
    let r = next_occurrence(9, 0, "Europe/Madrid", now).expect("schedulable");
    assert_eq!(r, madrid_ms(2024, 6, 11, 9, 0));
}

#[test]
fn next_occurrence_crosses_month_and_year() {
    let now = madrid_ms(2024, 12, 31, 23, 30);
    let r = next_occurrence(23, 0, "Europe/Madrid", now).expect("schedulable");
    assert_eq!(r, madrid_ms(2025, 1, 1, 23, 0));
}

#[test]
fn unknown_zone_is_rejected() {
    let r = next_occurrence(9, 0, "Mars/Olympus", 0);
    assert_eq!(r, Err(SchedulingError::UnknownTimeZone));
}

#[test]
fn spring_forward_gap_is_rejected() {
    // 02:30 local does not exist in Madrid on 2024-03-31.
    let now = madrid_ms(2024, 3, 31, 1, 0);
    let r = next_occurrence(2, 30, "Europe/Madrid", now);
    assert_eq!(r, Err(SchedulingError::InvalidTime));
}

#[test]
fn parses_bare_hours_and_minutes() {
    assert_eq!(parse_clock_time("7"), Some((7, 0)));
    assert_eq!(parse_clock_time("7:30"), Some((7, 30)));
    assert_eq!(parse_clock_time("23:59"), Some((23, 59)));
    assert_eq!(parse_clock_time("0:00"), Some((0, 0)));
}

#[test]
fn parses_meridiem_forms() {
    assert_eq!(parse_clock_time("12am"), Some((0, 0)));
    assert_eq!(parse_clock_time("12pm"), Some((12, 0)));
    assert_eq!(parse_clock_time("1pm"), Some((13, 0)));
    assert_eq!(parse_clock_time("07:45 PM"), Some((19, 45)));
    assert_eq!(parse_clock_time(" 9 : 15 am "), Some((9, 15)));
}

#[test]
fn rejects_invalid_times() {
    assert_eq!(parse_clock_time(""), None);
    assert_eq!(parse_clock_time("24"), None);
    assert_eq!(parse_clock_time("7:60"), None);
    assert_eq!(parse_clock_time("13pm"), None);
    assert_eq!(parse_clock_time("0am"), None);
    assert_eq!(parse_clock_time("7:30:00"), None);
    assert_eq!(parse_clock_time("abc"), None);
}
