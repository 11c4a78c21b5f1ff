use tm::squash::{squash_plan, SquashCandidate};

fn cand(id: &str, task: i64, start: i64, stop: i64, bs: Option<i64>, be: Option<i64>, round: bool) -> SquashCandidate {
    SquashCandidate {
        id: id.to_string(),
        task_id: task,
        started_at: start,
        stopped_at: stop,
        billable_started_at: bs,
        billable_stopped_at: be,
        round_on_stop: round,
    }
}

#[test]
fn nothing_to_squash() {
    assert!(squash_plan(&vec![]).is_empty());
    let one = vec![cand("a", 1, 100, 200, None, None, false)];
    assert!(squash_plan(&one).is_empty());
    let two_tasks = vec![cand("a", 1, 100, 200, None, None, false), cand("b", 2, 300, 400, None, None, false)];
    assert!(squash_plan(&two_tasks).is_empty());
}

#[test]
fn fragments_of_a_task_become_one_entry() {
    let s = vec![
        cand("a", 1, 100, 200, None, None, false),
        cand("b", 1, 300, 400, None, None, true),
        cand("c", 1, 500, 600, None, None, false),
        cand("d", 2, 700, 800, None, None, false),
    ];
    let plan = squash_plan(&s);
    assert_eq!(plan.len(), 1);
    let m = &plan[0];
    assert_eq!(m.keep_id, "a");
    assert_eq!(m.started_at, 100);
    assert_eq!(m.stopped_at, 600);
    assert_eq!(m.round_on_stop, false);
    assert_eq!(m.delete_ids, vec!["b".to_string(), "c".to_string()]);
    assert_eq!(m.billable_started_at, None);
    assert_eq!(m.billable_stopped_at, None);
}

#[test]
fn billable_span_is_the_widest() {
    let s = vec![
        cand("a", 1, 100, 200, Some(0), Some(1800), false),
        cand("b", 1, 300, 400, None, None, false),
        cand("c", 1, 2000, 2100, Some(1800), Some(3600), true),
    ];
    let plan = squash_plan(&s);
    assert_eq!(plan.len(), 1);
    assert_eq!(plan[0].billable_started_at, Some(0));
    assert_eq!(plan[0].billable_stopped_at, Some(3600));
    assert_eq!(plan[0].round_on_stop, true);
}

#[test]
fn billable_span_needs_both_ends() {
    let s = vec![cand("a", 1, 100, 200, Some(0), None, false), cand("b", 1, 300, 400, None, None, false)];
    let plan = squash_plan(&s);
    assert_eq!(plan[0].billable_started_at, None);
    assert_eq!(plan[0].billable_stopped_at, None);
}

#[test]
fn each_task_is_merged_separately() {
    let s = vec![
        cand("a", 1, 100, 200, None, None, false),
        cand("b", 1, 300, 400, None, None, false),
        cand("c", 2, 500, 600, None, None, false),
        cand("d", 3, 700, 800, None, None, false),
        cand("e", 3, 900, 1000, None, None, false),
    ];
    let plan = squash_plan(&s);
    assert_eq!(plan.len(), 2);
    assert_eq!(plan[0].keep_id, "a");
    assert_eq!(plan[1].keep_id, "d");
    assert_eq!(plan[1].delete_ids, vec!["e".to_string()]);
    let deleted: usize = plan.iter().map(|m| m.delete_ids.len()).sum();
    // one entry left per task
    assert_eq!(s.len() - deleted, 3);
}

#[test]
fn overlapping_fragments_merge_into_a_wider_entry() {
    let s = vec![cand("a", 1, 1000, 5000, None, None, false), cand("b", 1, 2000, 3000, None, None, false)];
    let plan = squash_plan(&s);
    assert_eq!(plan[0].started_at, 1000);
    assert_eq!(plan[0].stopped_at, 5000);
}
