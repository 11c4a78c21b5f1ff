use tm::report::{clock_hhmm, display_info_at, entry_duration, time_summary};
use tm::summary::TimeEntryDetail;

const NEW_YEAR: i64 = 1704067200;

fn entry(start: i64, stop: Option<i64>, dur: i64, bs: Option<i64>, be: Option<i64>, billable: Option<i64>) -> TimeEntryDetail {
    TimeEntryDetail {
        id: "abc123".to_string(),
        date: start / 86400,
        started_at: start,
        stopped_at: stop,
        duration_seconds: dur,
        billable_seconds: billable,
        billable_started_at: bs,
        billable_stopped_at: be,
    }
}

#[test]
fn clock_shows_hours_and_minutes() {
    assert_eq!(clock_hhmm(NEW_YEAR + 9 * 3600 + 5 * 60 + 59, 0), "09:05");
    assert_eq!(clock_hhmm(NEW_YEAR + 23 * 3600, 3600), "00:00");
    assert_eq!(clock_hhmm(NEW_YEAR, -1800), "23:30");
}

#[test]
fn stopped_entry_shows_its_range() {
    let e = entry(NEW_YEAR + 9 * 3600 + 10 * 60, Some(NEW_YEAR + 10 * 3600 + 5 * 60), 3300, None, None, None);
    let info = display_info_at(&e, false, NEW_YEAR + 20 * 3600, 0, 0);
    assert_eq!(info.day, 19723);
    assert_eq!(info.time_range, "09:10 to 10:05");
    assert_eq!(info.start, NEW_YEAR + 9 * 3600 + 10 * 60);
    assert_eq!(info.end, NEW_YEAR + 10 * 3600 + 5 * 60);
    assert_eq!(info.duration_seconds, 3300);
    assert!(!info.is_active);
}

#[test]
fn running_entry_ends_now() {
    let e = entry(NEW_YEAR + 9 * 3600, None, 0, None, None, None);
    let now = NEW_YEAR + 9 * 3600 + 600;
    let info = display_info_at(&e, false, now, 7200, 7200);
    assert_eq!(info.time_range, "11:00 to ...");
    assert_eq!(info.end, now);
    assert!(info.is_active);
}

#[test]
fn billable_view_uses_rounded_times() {
    let e = entry(
        NEW_YEAR + 9 * 3600 + 10 * 60,
        Some(NEW_YEAR + 9 * 3600 + 20 * 60),
        600,
        Some(NEW_YEAR + 9 * 3600),
        Some(NEW_YEAR + 9 * 3600 + 1800),
        Some(1800),
    );
    let info = display_info_at(&e, true, NEW_YEAR + 20 * 3600, 0, 0);
    assert_eq!(info.time_range, "09:00 to 09:30");
    assert_eq!(info.duration_seconds, 1800);
    let plain = display_info_at(&e, false, NEW_YEAR + 20 * 3600, 0, 0);
    assert_eq!(plain.time_range, "09:10 to 09:20");
    assert_eq!(plain.duration_seconds, 600);
}

#[test]
fn time_summaries() {
    assert_eq!(time_summary(3600, 3600, false), "1h");
    assert_eq!(time_summary(3000, 3600, false), "50m / billable: 1h");
    assert_eq!(time_summary(3000, 3600, true), "1h");
}

#[test]
fn entry_durations() {
    let rounded = entry(0, Some(600), 600, Some(0), Some(1800), Some(1800));
    assert_eq!(entry_duration(&rounded, false), "10m / billable: 30m");
    assert_eq!(entry_duration(&rounded, true), "30m");
    let plain = entry(0, Some(600), 600, None, None, None);
    assert_eq!(entry_duration(&plain, false), "10m");
    assert_eq!(entry_duration(&plain, true), "10m");
    let same = entry(0, Some(1800), 1800, Some(0), Some(1800), Some(1800));
    assert_eq!(entry_duration(&same, false), "30m");
}
