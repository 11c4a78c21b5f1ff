use tm::time::{day_of, round_down_to_30min, round_up_to_30min};

// 2024-01-01T00:00:00Z
const NEW_YEAR: i64 = 1704067200;

#[test]
fn round_down_goes_to_the_half_hour() {
    assert_eq!(round_down_to_30min(NEW_YEAR + 10 * 3600 + 15 * 60), NEW_YEAR + 10 * 3600);
    assert_eq!(round_down_to_30min(NEW_YEAR + 10 * 3600 + 45 * 60 + 59), NEW_YEAR + 10 * 3600 + 1800);
    assert_eq!(round_down_to_30min(NEW_YEAR + 1800), NEW_YEAR + 1800);
}

#[test]
fn round_up_goes_to_the_next_half_hour() {
    assert_eq!(round_up_to_30min(NEW_YEAR + 10 * 3600 + 15 * 60), NEW_YEAR + 10 * 3600 + 1800);
    assert_eq!(round_up_to_30min(NEW_YEAR + 10 * 3600 + 1), NEW_YEAR + 10 * 3600 + 1800);
    assert_eq!(round_up_to_30min(NEW_YEAR + 10 * 3600 + 31 * 60), NEW_YEAR + 11 * 3600);
}

#[test]
fn round_up_leaves_a_boundary_alone() {
    assert_eq!(round_up_to_30min(NEW_YEAR), NEW_YEAR);
    assert_eq!(round_up_to_30min(NEW_YEAR + 1800), NEW_YEAR + 1800);
}

#[test]
fn rounding_before_1970() {
    assert_eq!(round_down_to_30min(-1), -1800);
    assert_eq!(round_up_to_30min(-1), 0);
    assert_eq!(round_down_to_30min(-1800), -1800);
}

#[test]
fn billable_span_covers_the_actual_one() {
    let start = NEW_YEAR + 9 * 3600 + 10 * 60;
    let stop = NEW_YEAR + 9 * 3600 + 20 * 60;
    let billable = round_up_to_30min(stop) - round_down_to_30min(start);
    assert_eq!(billable, 1800);
    assert!(billable >= stop - start);
}

#[test]
fn day_of_counts_days_on_the_clock() {
    assert_eq!(day_of(NEW_YEAR, 0), 19723);
    assert_eq!(day_of(NEW_YEAR - 1, 0), 19722);
    assert_eq!(day_of(NEW_YEAR - 1, 3600), 19723);
    assert_eq!(day_of(NEW_YEAR, -3600), 19722);
    assert_eq!(day_of(-1, 0), -1);
}
