use chrono::{TimeZone, Utc};

use gh_triage::layout::{format_relative_time, relative_time_from};
use gh_triage::state::parse_updated_at;

fn now() -> i64 {
    Utc.with_ymd_and_hms(2024, 1, 2, 0, 0, 0).unwrap().timestamp()
}

#[test]
fn format_relative_time_invalid() {
    assert_eq!(format_relative_time("not-a-date", now()), "?");
}

#[test]
fn format_relative_time_future() {
    assert_eq!(format_relative_time("2024-01-02T00:00:05Z", now()), "0s");
}

#[test]
fn format_relative_time_seconds() {
    assert_eq!(format_relative_time("2024-01-01T23:59:50Z", now()), "10s");
}

#[test]
fn format_relative_time_minutes() {
    assert_eq!(format_relative_time("2024-01-01T23:45:00Z", now()), "15m");
}

#[test]
fn format_relative_time_hours() {
    assert_eq!(format_relative_time("2024-01-01T12:00:00Z", now()), "12h");
}

#[test]
fn format_relative_time_days() {
    assert_eq!(format_relative_time("2023-12-30T00:00:00Z", now()), "3d");
}

#[test]
fn relative_time_unit_boundaries() {
    assert_eq!(relative_time_from(Some(0), 59), "59s");
    assert_eq!(relative_time_from(Some(0), 60), "1m");
    assert_eq!(relative_time_from(Some(0), 3599), "59m");
    assert_eq!(relative_time_from(Some(0), 3600), "1h");
    assert_eq!(relative_time_from(Some(0), 86399), "23h");
    assert_eq!(relative_time_from(Some(0), 86400), "1d");
    assert_eq!(relative_time_from(Some(i64::MIN), i64::MAX), "213503982334601d");
    assert_eq!(relative_time_from(None, 5), "?");
}

#[test]
fn parse_updated_at_handles_valid_and_invalid() {
    let value = "2024-01-01T00:00:00Z";
    let expected = chrono::DateTime::parse_from_rfc3339(value)
        .unwrap()
        .timestamp();
    assert_eq!(parse_updated_at(value), expected);
    assert_eq!(parse_updated_at("not-a-date"), 0);
}
