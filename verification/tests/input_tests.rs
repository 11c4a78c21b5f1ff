use tm::input::{instant_of_mapping, parse_day, parse_timestamp, timestamp_at, UNSUPPORTED_DAY, UNSUPPORTED_TIMESTAMP};
use tm::time::LocalMapping;

#[test]
fn rfc3339_is_read_as_given() {
    assert_eq!(parse_timestamp("2024-01-01T10:15:00Z"), Ok(1704104100));
    assert_eq!(parse_timestamp("2024-01-01T12:15:00+02:00"), Ok(1704104100));
}

#[test]
fn unsupported_timestamp_lists_the_forms() {
    assert_eq!(parse_timestamp("yesterday"), Err(UNSUPPORTED_TIMESTAMP.to_string()));
    assert_eq!(parse_timestamp(""), Err(UNSUPPORTED_TIMESTAMP.to_string()));
}

#[test]
fn local_forms_are_accepted() {
    assert!(parse_timestamp("2024-01-01 10:15").is_ok());
    assert!(parse_timestamp("2024-01-01 10:15:30").is_ok());
    assert!(parse_timestamp("10:15").is_ok());
    assert!(parse_timestamp("10:15:30").is_ok());
}

#[test]
fn days_are_read_as_dates() {
    assert_eq!(parse_day("2024-01-01"), Ok(19723));
    assert_eq!(parse_day("1970-01-01"), Ok(0));
    assert_eq!(parse_day("1969-12-31"), Ok(-1));
}

#[test]
fn bad_day_is_refused() {
    assert_eq!(parse_day("01/01/2024"), Err(UNSUPPORTED_DAY.to_string()));
    assert_eq!(parse_day("2024-02-30"), Err(UNSUPPORTED_DAY.to_string()));
}

#[test]
fn wall_clock_mappings_pick_the_earlier_instant() {
    assert_eq!(instant_of_mapping(LocalMapping::Single(5)), Some(5));
    assert_eq!(instant_of_mapping(LocalMapping::Ambiguous(5, 3605)), Some(5));
    assert_eq!(instant_of_mapping(LocalMapping::Missing), None);
}

#[test]
fn time_of_day_is_taken_on_the_clock_day() {
    let new_year = 1704067200i64;
    let on_first = timestamp_at("09:30", new_year + 12 * 3600, 0).unwrap();
    let on_second = timestamp_at("09:30", new_year + 86400 + 12 * 3600, 0).unwrap();
    let wall = new_year + 9 * 3600 + 1800;
    assert!(on_first > wall - 86400 && on_first < wall + 86400);
    assert!(on_second > wall && on_second < wall + 2 * 86400);
    assert_eq!(on_second - on_first, 86400);
    // twelve hours ahead of UTC, noon UTC is already the next day
    let before_midnight = timestamp_at("09:30", new_year + 12 * 3600 - 1, 43200).unwrap();
    assert_eq!(before_midnight, on_first);
    let after_midnight = timestamp_at("09:30", new_year + 12 * 3600, 43200).unwrap();
    assert_eq!(after_midnight, on_second);
    assert_eq!(timestamp_at("2024-01-01T10:15:00Z", 0, 0), Ok(1704104100));
    assert_eq!(timestamp_at("later", 0, 0), Err(UNSUPPORTED_TIMESTAMP.to_string()));
}
