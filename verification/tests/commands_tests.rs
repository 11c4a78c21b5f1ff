use tm::commands::{
    amend_entry, choose_day, confirms_clear, continue_tracking, squash_chosen_day, start_tracking, AmendError,
    SquashError, TrackError,
};
use tm::db::{Database, DbError};
use tm::input::{UNSUPPORTED_DAY, UNSUPPORTED_TIMESTAMP};

fn memory_db() -> Database {
    Database::open(":memory:").unwrap()
}

#[test]
fn start_refuses_while_tracking() {
    let mut db = memory_db();
    let t = start_tracking(&mut db, "proj", "task", false, Some("2024-01-01T09:00:00Z"), false).unwrap();
    assert_eq!(t, 1704099600);
    match start_tracking(&mut db, "other", "thing", false, None, false) {
        Err(TrackError::AlreadyTracking { project, task }) => {
            assert_eq!(project, "proj");
            assert_eq!(task, "task");
        },
        other => panic!("unexpected: {:?}", other),
    }
}

#[test]
fn start_with_unreadable_time() {
    let mut db = memory_db();
    match start_tracking(&mut db, "p", "t", false, Some("soon"), false) {
        Err(TrackError::BadStart(m)) => assert_eq!(m, UNSUPPORTED_TIMESTAMP),
        other => panic!("unexpected: {:?}", other),
    }
    assert!(db.get_active_entry().unwrap().is_none());
}

#[test]
fn start_from_last_stop() {
    let mut db = memory_db();
    assert!(matches!(start_tracking(&mut db, "p", "t", false, None, true), Err(TrackError::NoPreviousStop)));
    start_tracking(&mut db, "p", "t", false, Some("2024-01-01T09:00:00Z"), false).unwrap();
    db.stop_active_entry().unwrap();
    let last = db.get_last_stopped_at().unwrap().unwrap();
    let t = start_tracking(&mut db, "p", "u", true, None, true).unwrap();
    assert_eq!(t, last);
}

#[test]
fn continue_restarts_the_last_task() {
    let mut db = memory_db();
    assert!(matches!(continue_tracking(&mut db), Err(TrackError::NoPreviousTask)));
    start_tracking(&mut db, "proj", "task", true, Some("2024-01-01T09:00:00Z"), false).unwrap();
    assert!(matches!(continue_tracking(&mut db), Err(TrackError::AlreadyTracking { .. })));
    db.stop_active_entry().unwrap();
    let (p, t, _) = continue_tracking(&mut db).unwrap();
    assert_eq!(p, "proj");
    assert_eq!(t, "task");
    let active = db.get_active_entry().unwrap().unwrap();
    assert_eq!(active.task_name, "task");
}

#[test]
fn amend_needs_something() {
    let mut db = memory_db();
    assert!(matches!(amend_entry(&mut db, "x", None, None), Err(AmendError::NothingToAmend)));
    match amend_entry(&mut db, "x", Some("later"), None) {
        Err(AmendError::BadStartedAt(m)) => assert_eq!(m, UNSUPPORTED_TIMESTAMP),
        other => panic!("unexpected: {:?}", other),
    }
    match amend_entry(&mut db, "x", None, Some("later")) {
        Err(AmendError::BadStoppedAt(m)) => assert_eq!(m, UNSUPPORTED_TIMESTAMP),
        other => panic!("unexpected: {:?}", other),
    }
    assert!(matches!(
        amend_entry(&mut db, "x", Some("2024-01-01T09:00:00Z"), None),
        Err(AmendError::Db(DbError::EntryNotFound))
    ));
}

#[test]
fn amend_sets_the_times() {
    let mut db = memory_db();
    start_tracking(&mut db, "p", "t", false, Some("2024-01-01T09:00:00Z"), false).unwrap();
    let log_before = db.get_log().unwrap();
    let id = log_before[0].tasks[0].entries[0].id.clone();
    let e = amend_entry(&mut db, &id, None, Some("2024-01-01T10:00:00Z")).unwrap();
    assert_eq!(e.started_at, 1704099600);
    assert_eq!(e.stopped_at, Some(1704103200));
    assert!(matches!(
        amend_entry(&mut db, &id, Some("2024-01-01T11:00:00Z"), None),
        Err(AmendError::Db(DbError::InvalidTimeRange))
    ));
}

#[test]
fn days_to_squash() {
    assert_eq!(choose_day(None, true, 19723), Ok(19722));
    assert_eq!(choose_day(Some("2024-01-01"), false, 5), Ok(19723));
    assert_eq!(choose_day(None, false, 19723), Ok(19723));
    assert_eq!(choose_day(Some("Jan 1"), false, 5), Err(UNSUPPORTED_DAY.to_string()));
}

#[test]
fn clearing_needs_a_yes() {
    assert!(confirms_clear("y"));
    assert!(confirms_clear("Y\n"));
    assert!(confirms_clear("  yes \n"));
    assert!(confirms_clear("YES"));
    assert!(confirms_clear("\u{3000}y\t"));
    assert!(!confirms_clear("no"));
    assert!(!confirms_clear(""));
    assert!(!confirms_clear("yes please"));
}

#[test]
fn squash_a_given_day() {
    let mut db = memory_db();
    match squash_chosen_day(&mut db, Some("first of May"), false) {
        Err(SquashError::BadDay(m)) => assert_eq!(m, UNSUPPORTED_DAY),
        other => panic!("unexpected: {:?}", other),
    }
    start_tracking(&mut db, "p", "t", false, Some("2024-01-01T12:00:00Z"), false).unwrap();
    let id = db.get_log().unwrap()[0].tasks[0].entries[0].id.clone();
    amend_entry(&mut db, &id, None, Some("2024-01-01T12:30:00Z")).unwrap();
    start_tracking(&mut db, "p", "t", false, Some("2024-01-01T13:00:00Z"), false).unwrap();
    db.stop_active_entry().unwrap();
    let id2 = db.get_log().unwrap()[0].tasks[0].entries[0].id.clone();
    amend_entry(&mut db, &id2, None, Some("2024-01-01T13:30:00Z")).unwrap();
    let (day, result) = squash_chosen_day(&mut db, Some("2024-01-01"), false).unwrap();
    assert_eq!(day, 19723);
    assert_eq!(result.squashed_tasks, 1);
    assert_eq!(result.deleted_entries, 1);
}
