use std::time::{SystemTime, UNIX_EPOCH};
use tm::db::{Database, DbError};

const NEW_YEAR: i64 = 1704067200;

fn clock() -> i64 {
    SystemTime::now().duration_since(UNIX_EPOCH).unwrap().as_secs() as i64
}

fn memory_db() -> Database {
    Database::open(":memory:").unwrap()
}

#[test]
fn projects_and_tasks_are_made_once() {
    let mut db = memory_db();
    let a = db.get_or_create_project("alpha").unwrap();
    let again = db.get_or_create_project("alpha").unwrap();
    let b = db.get_or_create_project("beta").unwrap();
    assert_eq!(a.id, again.id);
    assert_ne!(a.id, b.id);
    assert_eq!(again.name, "alpha");
    let t = db.get_or_create_task(a.id, "write").unwrap();
    let t2 = db.get_or_create_task(a.id, "write").unwrap();
    let other = db.get_or_create_task(b.id, "write").unwrap();
    assert_eq!(t.id, t2.id);
    assert_eq!(t.project_id, a.id);
    assert_ne!(t.id, other.id);
}

#[test]
fn entry_ids_are_twelve_hex_digits() {
    let id = Database::generate_hash_id();
    assert_eq!(id.len(), 12);
    assert!(id.chars().all(|c| c.is_ascii_hexdigit() && !c.is_ascii_uppercase()));
}

#[test]
fn start_then_active_then_stop() {
    let mut db = memory_db();
    let p = db.get_or_create_project("proj").unwrap();
    let t = db.get_or_create_task(p.id, "task").unwrap();
    assert!(db.get_active_entry().unwrap().is_none());
    let start = clock() - 600;
    let e = db.start_time_entry(t.id, false, start).unwrap();
    assert_eq!(e.task_id, t.id);
    assert_eq!(e.started_at, start);
    assert!(e.stopped_at.is_none());
    let active = db.get_active_entry().unwrap().unwrap();
    assert_eq!(active.project_name, "proj");
    assert_eq!(active.task_name, "task");
    assert_eq!(active.started_at, start);
    let (rounded, billable) = db.stop_active_entry().unwrap();
    assert!(!rounded);
    assert!(billable.is_none());
    assert!(db.get_active_entry().unwrap().is_none());
    assert!(matches!(db.stop_active_entry(), Err(DbError::NoActiveEntry)));
    let (_, task_id, project_name, task_name, round) = db.get_last_stopped_task().unwrap().unwrap();
    assert_eq!(task_id, t.id);
    assert_eq!(project_name, "proj");
    assert_eq!(task_name, "task");
    assert!(!round);
    let last_stop = db.get_last_stopped_at().unwrap().unwrap();
    assert!(last_stop >= start);
}

#[test]
fn rounded_stop_bills_half_hours() {
    let mut db = memory_db();
    let p = db.get_or_create_project("proj").unwrap();
    let t = db.get_or_create_task(p.id, "task").unwrap();
    let start = NEW_YEAR + 9 * 3600 + 10 * 60;
    db.start_time_entry(t.id, true, start).unwrap();
    let before = clock();
    let (rounded, billable) = db.stop_active_entry().unwrap();
    assert!(rounded);
    let (bs, be) = billable.unwrap();
    assert_eq!(bs, NEW_YEAR + 9 * 3600);
    assert_eq!(be % 1800, 0);
    assert!(be >= before && be < clock() + 1800);
}

#[test]
fn nothing_to_cancel_or_stop() {
    let mut db = memory_db();
    assert!(matches!(db.cancel_active_entry(), Err(DbError::NoActiveEntry)));
    assert!(matches!(db.stop_active_entry(), Err(DbError::NoActiveEntry)));
    assert!(db.get_last_stopped_task().unwrap().is_none());
    assert!(db.get_last_stopped_at().unwrap().is_none());
}

#[test]
fn cancel_drops_the_running_entry() {
    let mut db = memory_db();
    let p = db.get_or_create_project("proj").unwrap();
    let t = db.get_or_create_task(p.id, "task").unwrap();
    db.start_time_entry(t.id, false, clock()).unwrap();
    db.cancel_active_entry().unwrap();
    assert!(db.get_active_entry().unwrap().is_none());
    assert!(db.get_last_stopped_task().unwrap().is_none());
}

#[test]
fn amend_checks_the_entry_and_the_range() {
    let mut db = memory_db();
    assert!(matches!(db.amend_time_entry("nope", Some(NEW_YEAR), None), Err(DbError::EntryNotFound)));
    let p = db.get_or_create_project("proj").unwrap();
    let t = db.get_or_create_task(p.id, "task").unwrap();
    let e = db.start_time_entry(t.id, false, NEW_YEAR + 9 * 3600).unwrap();
    let amended = db.amend_time_entry(&e.id, None, Some(NEW_YEAR + 10 * 3600)).unwrap();
    assert_eq!(amended.started_at, NEW_YEAR + 9 * 3600);
    assert_eq!(amended.stopped_at, Some(NEW_YEAR + 10 * 3600));
    assert!(matches!(
        db.amend_time_entry(&e.id, Some(NEW_YEAR + 11 * 3600), None),
        Err(DbError::InvalidTimeRange)
    ));
    let moved = db.amend_time_entry(&e.id, Some(NEW_YEAR + 8 * 3600), None).unwrap();
    assert_eq!(moved.started_at, NEW_YEAR + 8 * 3600);
    assert_eq!(moved.stopped_at, Some(NEW_YEAR + 10 * 3600));
}

#[test]
fn log_groups_entries_by_project_and_task() {
    let mut db = memory_db();
    let b = db.get_or_create_project("beta").unwrap();
    let a = db.get_or_create_project("alpha").unwrap();
    let write = db.get_or_create_task(a.id, "write").unwrap();
    let code = db.get_or_create_task(a.id, "code").unwrap();
    let test = db.get_or_create_task(b.id, "test").unwrap();
    for (task, start, stop) in [
        (write.id, NEW_YEAR + 9 * 3600, NEW_YEAR + 10 * 3600),
        (code.id, NEW_YEAR + 11 * 3600, NEW_YEAR + 11 * 3600 + 1800),
        (write.id, NEW_YEAR + 12 * 3600, NEW_YEAR + 12 * 3600 + 600),
        (test.id, NEW_YEAR + 13 * 3600, NEW_YEAR + 13 * 3600 + 60),
    ] {
        let e = db.start_time_entry(task, false, start).unwrap();
        db.amend_time_entry(&e.id, None, Some(stop)).unwrap();
    }
    let log = db.get_log().unwrap();
    assert_eq!(log.len(), 2);
    assert_eq!(log[0].project_name, "alpha");
    assert_eq!(log[0].tasks.len(), 2);
    assert_eq!(log[0].tasks[0].task_name, "code");
    assert_eq!(log[0].tasks[1].task_name, "write");
    assert_eq!(log[0].tasks[1].entries.len(), 2);
    assert_eq!(log[0].tasks[1].total_seconds, 4200);
    assert_eq!(log[0].tasks[0].total_seconds, 1800);
    assert_eq!(log[0].total_seconds, log[0].tasks[0].total_seconds + log[0].tasks[1].total_seconds);
    assert_eq!(log[0].billable_seconds, log[0].total_seconds);
    assert_eq!(log[1].project_name, "beta");
    assert_eq!(log[1].total_seconds, 60);
}

#[test]
fn squash_merges_fragments_of_a_day() {
    let mut db = memory_db();
    let p = db.get_or_create_project("proj").unwrap();
    let t = db.get_or_create_task(p.id, "task").unwrap();
    let u = db.get_or_create_task(p.id, "other").unwrap();
    for (task, start, stop) in [
        (t.id, NEW_YEAR + 12 * 3600, NEW_YEAR + 12 * 3600 + 1800),
        (t.id, NEW_YEAR + 13 * 3600, NEW_YEAR + 13 * 3600 + 1800),
        (u.id, NEW_YEAR + 12 * 3600 + 600, NEW_YEAR + 12 * 3600 + 1200),
    ] {
        let e = db.start_time_entry(task, false, start).unwrap();
        db.amend_time_entry(&e.id, None, Some(stop)).unwrap();
    }
    let r = db.squash_day(19723).unwrap();
    assert_eq!(r.squashed_tasks, 1);
    assert_eq!(r.deleted_entries, 1);
    let again = db.squash_day(19723).unwrap();
    assert_eq!(again.squashed_tasks, 0);
    assert_eq!(again.deleted_entries, 0);
    let log = db.get_log().unwrap();
    let task = log[0].tasks.iter().find(|x| x.task_name == "task").unwrap();
    assert_eq!(task.entries.len(), 1);
    assert_eq!(task.entries[0].started_at, NEW_YEAR + 12 * 3600);
    assert_eq!(task.entries[0].stopped_at, Some(NEW_YEAR + 13 * 3600 + 1800));
}

#[test]
fn clear_removes_everything() {
    let mut db = memory_db();
    let p = db.get_or_create_project("proj").unwrap();
    let t = db.get_or_create_task(p.id, "task").unwrap();
    db.start_time_entry(t.id, false, clock()).unwrap();
    db.clear_all().unwrap();
    assert!(db.get_log().unwrap().is_empty());
    assert!(db.get_active_entry().unwrap().is_none());
}

#[test]
fn stored_instants_read_back() {
    assert_eq!(Database::parse_datetime("2024-01-01 10:15:00"), 1704104100);
    assert_eq!(Database::parse_datetime("2024-01-01T10:15:00Z"), 1704104100);
}

#[test]
fn opening_in_a_missing_directory_fails() {
    assert!(matches!(Database::open("/nonexistent-dir-for-tm/sub/data.sqlite"), Err(DbError::Sqlite(_))));
}

#[test]
fn amended_rounded_entry_bills_half_hours_in_the_log() {
    let mut db = memory_db();
    let p = db.get_or_create_project("proj").unwrap();
    let t = db.get_or_create_task(p.id, "task").unwrap();
    let e = db.start_time_entry(t.id, true, NEW_YEAR + 9 * 3600 + 10 * 60).unwrap();
    db.amend_time_entry(&e.id, None, Some(NEW_YEAR + 9 * 3600 + 20 * 60)).unwrap();
    let log = db.get_log().unwrap();
    let entry = &log[0].tasks[0].entries[0];
    assert_eq!(entry.billable_started_at, Some(NEW_YEAR + 9 * 3600));
    assert_eq!(entry.billable_stopped_at, Some(NEW_YEAR + 9 * 3600 + 1800));
    assert_eq!(entry.billable_seconds, Some(1800));
    assert_eq!(entry.duration_seconds, 600);
    assert_eq!(log[0].billable_seconds, 1800);
    assert_eq!(entry.date, 19723);
}

#[test]
fn local_midday_is_within_a_day_of_utc() {
    let local = NEW_YEAR + 12 * 3600;
    let t = Database::local_datetime_to_utc(local).unwrap();
    assert!(t > local - 86400 && t < local + 86400);
}

#[test]
fn amend_refuses_a_stop_equal_to_the_start() {
    let mut db = memory_db();
    let p = db.get_or_create_project("proj").unwrap();
    let t = db.get_or_create_task(p.id, "task").unwrap();
    let e = db.start_time_entry(t.id, false, NEW_YEAR + 9 * 3600).unwrap();
    assert!(matches!(
        db.amend_time_entry(&e.id, None, Some(NEW_YEAR + 9 * 3600)),
        Err(DbError::InvalidTimeRange)
    ));
}

#[test]
fn stop_at_a_given_instant() {
    let mut db = memory_db();
    let p = db.get_or_create_project("proj").unwrap();
    let t = db.get_or_create_task(p.id, "task").unwrap();
    db.start_time_entry(t.id, true, NEW_YEAR + 9 * 3600 + 10 * 60).unwrap();
    let (rounded, billable) = db.stop_active_entry_at(NEW_YEAR + 10 * 3600 + 1).unwrap();
    assert!(rounded);
    assert_eq!(billable, Some((NEW_YEAR + 9 * 3600, NEW_YEAR + 10 * 3600 + 1800)));
    let log = db.get_log().unwrap();
    assert_eq!(log[0].tasks[0].entries[0].stopped_at, Some(NEW_YEAR + 10 * 3600 + 1));
    assert_eq!(log[0].tasks[0].entries[0].duration_seconds, 3000 + 1);
}

#[test]
fn stop_too_late_to_round_is_refused() {
    let mut db = memory_db();
    let p = db.get_or_create_project("proj").unwrap();
    let t = db.get_or_create_task(p.id, "task").unwrap();
    db.start_time_entry(t.id, true, NEW_YEAR).unwrap();
    assert!(matches!(db.stop_active_entry_at(tm::time::MAX_TIMESTAMP), Err(DbError::InvalidTimeRange)));
    assert!(db.get_active_entry().unwrap().is_some());
}

#[test]
fn log_at_an_instant_counts_running_time() {
    let mut db = memory_db();
    let p = db.get_or_create_project("proj").unwrap();
    let t = db.get_or_create_task(p.id, "task").unwrap();
    db.start_time_entry(t.id, false, NEW_YEAR + 9 * 3600).unwrap();
    let log = db.get_log_at(NEW_YEAR + 10 * 3600 + 30).unwrap();
    assert_eq!(log[0].tasks[0].entries[0].duration_seconds, 3630);
    assert_eq!(log[0].total_seconds, 3630);
    assert_eq!(log[0].tasks[0].entries[0].stopped_at, None);
}

#[test]
fn projects_without_entries_are_left_out() {
    let mut db = memory_db();
    db.get_or_create_project("idle").unwrap();
    let p = db.get_or_create_project("acme").unwrap();
    let t = db.get_or_create_task(p.id, "dev").unwrap();
    db.start_time_entry(t.id, false, NEW_YEAR).unwrap();
    let log = db.get_log().unwrap();
    assert_eq!(log.len(), 1);
    assert_eq!(log[0].project_name, "acme");
}

#[test]
fn squash_from_a_utc_instant() {
    let mut db = memory_db();
    let p = db.get_or_create_project("proj").unwrap();
    let t = db.get_or_create_task(p.id, "task").unwrap();
    for (start, stop) in [(NEW_YEAR + 3600, NEW_YEAR + 5 * 3600), (NEW_YEAR + 2 * 3600, NEW_YEAR + 3 * 3600)] {
        let e = db.start_time_entry(t.id, false, start).unwrap();
        db.amend_time_entry(&e.id, None, Some(stop)).unwrap();
    }
    let r = db.squash_day_from(NEW_YEAR).unwrap();
    assert_eq!(r.squashed_tasks, 1);
    assert_eq!(r.deleted_entries, 1);
    let log = db.get_log().unwrap();
    let e = &log[0].tasks[0].entries[0];
    assert_eq!(log[0].tasks[0].entries.len(), 1);
    assert_eq!(e.started_at, NEW_YEAR + 3600);
    // the wider entry keeps the latest stop
    assert_eq!(e.stopped_at, Some(NEW_YEAR + 5 * 3600));
    assert!(matches!(db.squash_day_from(tm::time::MAX_TIMESTAMP - 10), Err(DbError::InvalidTimeRange)));
}

#[test]
fn database_path_under_home() {
    assert!(matches!(tm::db::db_path_from_home(None), Err(DbError::NoConfigDir)));
    assert_eq!(tm::db::db_path_from_home(Some("/home/ann")).unwrap(), "/home/ann/.config/tm/data.sqlite");
    assert_eq!(tm::db::db_path_from_home(Some("/home/ann/")).unwrap(), "/home/ann/.config/tm/data.sqlite");
    assert_eq!(tm::db::db_path_from_home(Some("")).unwrap(), ".config/tm/data.sqlite");
}
