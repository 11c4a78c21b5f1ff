use tm::db::ActiveEntry;
use tm::ipc::DaemonMessage;
use tm::state::TrackingState;

fn started(p: &str, t: &str, at: i64) -> DaemonMessage {
    DaemonMessage::Started { project: p.to_string(), task: t.to_string(), started_at: at }
}

#[test]
fn idle_has_no_label() {
    let s = TrackingState::Idle;
    assert_eq!(s.label_at(1000), None);
    assert_eq!(s.label(), None);
}

#[test]
fn a_start_makes_it_active() {
    let mut s = TrackingState::Idle;
    s.apply(started("proj", "task", 1000));
    assert_eq!(s.label_at(1000 + 3723), Some("proj · task · 1:02:03".to_string()));
    assert_eq!(s.label_at(1000), Some("proj · task · 0:00:00".to_string()));
}

#[test]
fn time_before_the_start_counts_as_zero() {
    let mut s = TrackingState::Idle;
    s.apply(started("p", "t", 1000));
    assert_eq!(s.label_at(10), Some("p · t · 0:00:00".to_string()));
}

#[test]
fn stop_and_cancel_make_it_idle() {
    let mut s = TrackingState::Idle;
    s.apply(started("p", "t", 0));
    s.apply(DaemonMessage::Stopped);
    assert_eq!(s.label_at(5), None);
    s.apply(DaemonMessage::Continued { project: "p".to_string(), task: "t".to_string(), started_at: 0 });
    assert_eq!(s.label_at(36000), Some("p · t · 10:00:00".to_string()));
    s.apply(DaemonMessage::Cancelled);
    assert_eq!(s.label_at(5), None);
}

#[test]
fn reconcile_takes_the_running_entry_only_when_idle() {
    let mut s = TrackingState::Idle;
    s.reconcile(Some(ActiveEntry { project_name: "a".to_string(), task_name: "b".to_string(), started_at: 0 }));
    assert_eq!(s.label_at(61), Some("a · b · 0:01:01".to_string()));
    s.reconcile(Some(ActiveEntry { project_name: "c".to_string(), task_name: "d".to_string(), started_at: 0 }));
    assert_eq!(s.label_at(61), Some("a · b · 0:01:01".to_string()));
    let mut idle = TrackingState::Idle;
    idle.reconcile(None);
    assert_eq!(idle.label_at(61), None);
}
