use tm::duration::{decimal_string, format_duration, two_digit_string};

#[test]
fn zero_and_negative_durations_show_zero_seconds() {
    assert_eq!(format_duration(0), "0s");
    assert_eq!(format_duration(-5), "0s");
    assert_eq!(format_duration(i64::MIN), "0s");
}

#[test]
fn seconds_only() {
    assert_eq!(format_duration(1), "1s");
    assert_eq!(format_duration(59), "59s");
}

#[test]
fn minutes_and_seconds() {
    assert_eq!(format_duration(60), "1m");
    assert_eq!(format_duration(61), "1m 1s");
    assert_eq!(format_duration(3599), "59m 59s");
}

#[test]
fn hours_minutes_seconds() {
    assert_eq!(format_duration(3600), "1h");
    assert_eq!(format_duration(3661), "1h 1m 1s");
    assert_eq!(format_duration(3601), "1h 1s");
    assert_eq!(format_duration(7320), "2h 2m");
    assert_eq!(format_duration(86400), "24h");
}

#[test]
fn largest_duration() {
    assert_eq!(format_duration(i64::MAX), "2562047788015215h 30m 7s");
}

#[test]
fn digit_strings() {
    assert_eq!(decimal_string(0), "0");
    assert_eq!(decimal_string(1234), "1234");
    assert_eq!(two_digit_string(5), "05");
    assert_eq!(two_digit_string(42), "42");
}

#[test]
fn distinct_durations_print_differently() {
    let texts: Vec<String> = (1..4000).map(format_duration).collect();
    for i in 0..texts.len() {
        for j in (i + 1)..texts.len() {
            assert_ne!(texts[i], texts[j]);
        }
    }
}
