use tm::daily::{daily_log, group_by_day, DayItem};
use tm::report::display_info_at;
use tm::summary::{ProjectSummary, TaskSummary, TimeEntryDetail};

const NEW_YEAR: i64 = 1704067200;

fn entry(id: &str, start: i64, stop: Option<i64>) -> TimeEntryDetail {
    TimeEntryDetail {
        id: id.to_string(),
        date: start / 86400,
        started_at: start,
        stopped_at: stop,
        duration_seconds: stop.unwrap_or(start) - start,
        billable_seconds: None,
        billable_started_at: None,
        billable_stopped_at: None,
    }
}

fn item(project: &str, task: &str, e: &TimeEntryDetail, now: i64) -> DayItem {
    DayItem { project_name: project.to_string(), task_name: task.to_string(), info: display_info_at(e, false, now, 0, 0) }
}

#[test]
fn no_items_no_days() {
    assert_eq!(group_by_day(vec![]).unwrap().len(), 0);
}

#[test]
fn days_come_latest_first_with_tasks_in_order() {
    let now = NEW_YEAR + 3 * 86400;
    let a = entry("a", NEW_YEAR + 10 * 3600, Some(NEW_YEAR + 11 * 3600));
    let b = entry("b", NEW_YEAR + 86400 + 9 * 3600, Some(NEW_YEAR + 86400 + 9 * 3600 + 1800));
    let c = entry("c", NEW_YEAR + 8 * 3600, Some(NEW_YEAR + 8 * 3600 + 600));
    let d = entry("d", NEW_YEAR + 12 * 3600, Some(NEW_YEAR + 13 * 3600));
    let items = vec![
        item("proj", "write", &a, now),
        item("proj", "write", &b, now),
        item("other", "code", &c, now),
        item("proj", "write", &d, now),
    ];
    let days = group_by_day(items).unwrap();
    assert_eq!(days.len(), 2);
    assert_eq!(days[0].day, 19724);
    assert_eq!(days[0].total_seconds, 1800);
    assert_eq!(days[0].tasks.len(), 1);
    assert_eq!(days[1].day, 19723);
    assert_eq!(days[1].total_seconds, 3600 + 600 + 3600);
    assert_eq!(days[1].start, NEW_YEAR + 8 * 3600);
    assert_eq!(days[1].end, NEW_YEAR + 13 * 3600);
    assert!(!days[1].any_active);
    // tasks by first start: "other/code" at 08:00, then "proj/write" at 10:00
    assert_eq!(days[1].tasks.len(), 2);
    assert_eq!(days[1].tasks[0].project_name, "other");
    assert_eq!(days[1].tasks[0].total_seconds, 600);
    assert_eq!(days[1].tasks[1].task_name, "write");
    assert_eq!(days[1].tasks[1].total_seconds, 7200);
    assert_eq!(days[1].tasks[1].ranges.len(), 2);
    assert_eq!(days[1].tasks[1].ranges[0].label, "10:00 to 11:00");
    assert_eq!(days[1].tasks[1].ranges[1].label, "12:00 to 13:00");
}

#[test]
fn ranges_are_sorted_by_start() {
    let now = NEW_YEAR + 86400;
    let late = entry("l", NEW_YEAR + 15 * 3600, Some(NEW_YEAR + 16 * 3600));
    let early = entry("e", NEW_YEAR + 9 * 3600, Some(NEW_YEAR + 9 * 3600 + 60));
    let days = group_by_day(vec![item("p", "t", &late, now), item("p", "t", &early, now)]).unwrap();
    assert_eq!(days[0].tasks[0].ranges[0].label, "09:00 to 09:01");
    assert_eq!(days[0].tasks[0].ranges[1].label, "15:00 to 16:00");
    // the day ends with the task's last range
    assert_eq!(days[0].end, NEW_YEAR + 16 * 3600);
}

#[test]
fn a_running_entry_marks_the_day() {
    let now = NEW_YEAR + 10 * 3600;
    let running = entry("r", NEW_YEAR + 9 * 3600, None);
    let days = group_by_day(vec![item("p", "t", &running, now)]).unwrap();
    assert!(days[0].any_active);
    assert!(days[0].tasks[0].has_active_range);
    assert_eq!(days[0].tasks[0].ranges[0].label, "09:00 to ...");
}

#[test]
fn equal_first_starts_order_by_names() {
    let now = NEW_YEAR + 86400;
    let x = entry("x", NEW_YEAR + 9 * 3600, Some(NEW_YEAR + 10 * 3600));
    let days = group_by_day(vec![item("b", "t", &x, now), item("a", "z", &x, now), item("a", "y", &x, now)]).unwrap();
    let names: Vec<(String, String)> =
        days[0].tasks.iter().map(|t| (t.project_name.clone(), t.task_name.clone())).collect();
    assert_eq!(
        names,
        vec![("a".to_string(), "y".to_string()), ("a".to_string(), "z".to_string()), ("b".to_string(), "t".to_string())]
    );
}

#[test]
fn overflowing_day_total_gives_none() {
    let now = NEW_YEAR + 86400;
    let mut big = entry("x", NEW_YEAR, Some(NEW_YEAR + 1));
    big.duration_seconds = i64::MAX;
    let one = entry("y", NEW_YEAR, Some(NEW_YEAR + 1));
    assert!(group_by_day(vec![item("a", "a", &big, now), item("b", "b", &one, now)]).is_none());
}

#[test]
fn daily_log_counts_every_entry() {
    let a = entry("a", NEW_YEAR + 12 * 3600, Some(NEW_YEAR + 13 * 3600));
    let b = entry("b", NEW_YEAR + 86400 + 12 * 3600, Some(NEW_YEAR + 86400 + 12 * 3600 + 60));
    let projects = vec![ProjectSummary {
        project_name: "p".to_string(),
        total_seconds: 3660,
        billable_seconds: 3660,
        tasks: vec![TaskSummary { task_name: "t".to_string(), total_seconds: 3660, billable_seconds: 3660, entries: vec![a, b] }],
    }];
    let days = daily_log(&projects, false, NEW_YEAR + 5 * 86400).unwrap();
    let total: i64 = days.iter().map(|d| d.total_seconds).sum();
    assert_eq!(total, 3660);
    assert!(days.len() >= 1 && days.len() <= 2);
    assert!(days.windows(2).all(|w| w[0].day > w[1].day));
}
