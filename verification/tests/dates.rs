use data_cleaning::model::calendar::{Date, DateTime, Time};
use data_cleaning::utils::dates::{parse_date_text, parse_time_text, parse_yyyymmdd};

fn date(year: i32, month: u32, day: u32) -> Date {
    Date { year, month, day }
}

fn time(hour: u32, minute: u32, second: u32) -> Time {
    Time {
        hour,
        minute,
        second,
    }
}

#[test]
fn parses_time_text() {
    assert_eq!(parse_time_text("14:30:05"), Some(time(14, 30, 5)));
    assert_eq!(parse_time_text("not a time"), None);
}

#[test]
fn parses_yyyymmdd() {
    assert_eq!(parse_yyyymmdd("20260914"), Some(date(2026, 9, 14)));
}

#[test]
fn rejects_invalid_yyyymmdd() {
    assert_eq!(parse_yyyymmdd("2026914"), None);
    assert_eq!(parse_yyyymmdd("20261399"), None);
    assert_eq!(parse_yyyymmdd("abcdefgh"), None);
}

#[test]
fn parses_dashed_and_slashed_date_text() {
    let expected = DateTime {
        date: date(2026, 7, 28),
        time: time(0, 0, 0),
    };
    assert_eq!(parse_date_text("2026-07-28"), Some(expected));
    assert_eq!(parse_date_text("2026/07/28"), Some(expected));
}

#[test]
fn parses_date_text_with_time() {
    let expected = DateTime {
        date: date(2026, 7, 28),
        time: time(13, 5, 9),
    };
    assert_eq!(parse_date_text("2026-07-28 13:05:09"), Some(expected));
}

#[test]
fn rejects_unrecognized_text() {
    assert_eq!(parse_date_text("2026年7月28日"), None);
}

#[test]
fn yyyymmdd_knows_leap_days() {
    assert_eq!(parse_yyyymmdd("20240229"), Some(date(2024, 2, 29)));
    assert_eq!(parse_yyyymmdd("20250229"), None);
}

#[test]
fn date_text_is_trimmed_first() {
    let expected = DateTime {
        date: date(2026, 1, 2),
        time: time(0, 0, 0),
    };
    assert_eq!(parse_date_text("  2026-01-02 "), Some(expected));
}

#[test]
fn time_text_is_trimmed_first() {
    assert_eq!(parse_time_text(" 08:00:59 "), Some(time(8, 0, 59)));
    assert_eq!(parse_time_text("24:00:00"), None);
}
