use tm::summary::{
    checked_total, group_by_task, order_names, summarize_project, LogEntry, NameOrder, TimeEntryDetail,
};

fn detail(id: &str, start: i64, stop: Option<i64>, dur: i64, billable: Option<i64>) -> TimeEntryDetail {
    TimeEntryDetail {
        id: id.to_string(),
        date: start / 86400,
        started_at: start,
        stopped_at: stop,
        duration_seconds: dur,
        billable_seconds: billable,
        billable_started_at: None,
        billable_stopped_at: None,
    }
}

fn row(task: &str, d: TimeEntryDetail) -> LogEntry {
    LogEntry { task_name: task.to_string(), detail: d }
}

#[test]
fn names_order_like_strings() {
    assert!(matches!(order_names("a", "b"), NameOrder::Before));
    assert!(matches!(order_names("b", "a"), NameOrder::After));
    assert!(matches!(order_names("ab", "ab"), NameOrder::Same));
    assert!(matches!(order_names("a", "ab"), NameOrder::Before));
    assert!(matches!(order_names("B", "a"), NameOrder::Before));
    assert!(matches!(order_names("", ""), NameOrder::Same));
}

#[test]
fn entries_are_grouped_by_task_in_name_order() {
    let rows = vec![
        row("write", detail("1", 100, Some(200), 100, None)),
        row("code", detail("2", 300, Some(400), 100, None)),
        row("write", detail("3", 500, Some(600), 100, None)),
    ];
    let groups = group_by_task(rows);
    assert_eq!(groups.len(), 2);
    assert_eq!(groups[0].task_name, "code");
    assert_eq!(groups[0].entries.len(), 1);
    assert_eq!(groups[0].entries[0].id, "2");
    assert_eq!(groups[1].task_name, "write");
    assert_eq!(groups[1].entries.len(), 2);
    assert_eq!(groups[1].entries[0].id, "1");
    assert_eq!(groups[1].entries[1].id, "3");
}

#[test]
fn project_totals_add_up_the_tasks() {
    let rows = vec![
        row("write", detail("1", 100, Some(1000), 900, Some(1800))),
        row("code", detail("2", 2000, Some(2600), 600, None)),
        row("write", detail("3", 3000, Some(3060), 60, None)),
    ];
    let p = summarize_project("book".to_string(), rows).unwrap();
    assert_eq!(p.project_name, "book");
    assert_eq!(p.total_seconds, 1560);
    assert_eq!(p.billable_seconds, 2460);
    assert_eq!(p.tasks.len(), 2);
    assert_eq!(p.tasks[0].task_name, "code");
    assert_eq!(p.tasks[0].total_seconds, 600);
    assert_eq!(p.tasks[0].billable_seconds, 600);
    assert_eq!(p.tasks[1].task_name, "write");
    assert_eq!(p.tasks[1].total_seconds, 960);
    assert_eq!(p.tasks[1].billable_seconds, 1860);
}

#[test]
fn overflowing_totals_give_none() {
    let rows = vec![
        row("a", detail("1", 0, Some(1), i64::MAX, None)),
        row("a", detail("2", 0, Some(1), 1, None)),
    ];
    assert!(summarize_project("p".to_string(), rows).is_none());
    let rows = vec![
        row("a", detail("1", 0, Some(1), i64::MAX, None)),
        row("b", detail("2", 0, Some(1), 1, None)),
    ];
    assert!(summarize_project("p".to_string(), rows).is_none());
}

#[test]
fn checked_totals() {
    assert_eq!(checked_total(&vec![]), Some(0));
    assert_eq!(checked_total(&vec![1, 2, 3]), Some(6));
    assert_eq!(checked_total(&vec![i64::MAX, 1, -1]), None);
    assert_eq!(checked_total(&vec![-1, i64::MAX]), Some(i64::MAX - 1));
}
