//! Merging a day's stopped fragments: consecutive entries of one task become
//! one wider entry that starts where the first one started (the earliest
//! start, as the day's query orders them) and stops at the latest stop.
use vstd::prelude::*;

verus! {

/// A stopped entry of the day, as the database orders them (by task, start,
/// stop and id).
pub struct SquashCandidate {
    pub id: String,
    pub task_id: i64,
    pub started_at: i64,
    pub stopped_at: i64,
    pub billable_started_at: Option<i64>,
    pub billable_stopped_at: Option<i64>,
    pub round_on_stop: bool,
}

/// What one run of entries of a task becomes: the first entry is kept and
/// rewritten, the others are deleted.
pub struct SquashMerge {
    pub keep_id: String,
    pub started_at: i64,
    pub stopped_at: i64,
    pub billable_started_at: Option<i64>,
    pub billable_stopped_at: Option<i64>,
    pub round_on_stop: bool,
    pub delete_ids: Vec<String>,
}

/// A merge as a mathematical value.
pub struct MergeView {
    pub keep_id: Seq<char>,
    pub started_at: i64,
    pub stopped_at: i64,
    pub billable_started_at: Option<i64>,
    pub billable_stopped_at: Option<i64>,
    pub round_on_stop: bool,
    pub delete_ids: Seq<Seq<char>>,
}

impl View for SquashMerge {
    type V = MergeView;

    open spec fn view(&self) -> MergeView {
        MergeView {
            keep_id: self.keep_id@,
            started_at: self.started_at,
            stopped_at: self.stopped_at,
            billable_started_at: self.billable_started_at,
            billable_stopped_at: self.billable_stopped_at,
            round_on_stop: self.round_on_stop,
            delete_ids: self.delete_ids@.map_values(|s: String| s@),
        }
    }
}

/// The runs of equal task ids in `ids`, as index ranges `[start, end)` in order.
pub open spec fn runs(ids: Seq<i64>) -> Seq<(int, int)>
    decreases ids.len(),
{
    if ids.len() == 0 {
        Seq::empty()
    } else {
        let before = runs(ids.drop_last());
        let n = ids.len() - 1;
        if before.len() > 0 && ids[n - 1] == ids[n] {
            before.update(before.len() - 1, (before.last().0, n + 1))
        } else {
            before.push((n, n + 1))
        }
    }
}

pub open spec fn task_ids(s: Seq<SquashCandidate>) -> Seq<i64> {
    s.map_values(|c: SquashCandidate| c.task_id)
}

/// The earliest of the values that are present.
pub open spec fn min_present(s: Seq<Option<i64>>) -> Option<i64>
    decreases s.len(),
{
    if s.len() == 0 {
        None
    } else {
        let rest = min_present(s.drop_last());
        match s.last() {
            None => rest,
            Some(v) => match rest {
                None => Some(v),
                Some(r) => Some(if v < r { v } else { r }),
            },
        }
    }
}

/// The latest of the values that are present.
pub open spec fn max_present(s: Seq<Option<i64>>) -> Option<i64>
    decreases s.len(),
{
    if s.len() == 0 {
        None
    } else {
        let rest = max_present(s.drop_last());
        match s.last() {
            None => rest,
            Some(v) => match rest {
                None => Some(v),
                Some(r) => Some(if v > r { v } else { r }),
            },
        }
    }
}

/// The latest stop of a nonempty run.
pub open spec fn latest_stop(run: Seq<SquashCandidate>) -> i64
    decreases run.len(),
{
    if run.len() <= 1 {
        run[0].stopped_at
    } else {
        let rest = latest_stop(run.drop_last());
        if run.last().stopped_at > rest {
            run.last().stopped_at
        } else {
            rest
        }
    }
}

/// The latest stop is the stop of one of the run's entries, and no entry of
/// the run stops later: the merged entry covers every fragment's stop.
pub proof fn lemma_latest_stop(run: Seq<SquashCandidate>)
    requires
        run.len() > 0,
    ensures
        exists|k: int| 0 <= k < run.len() && latest_stop(run) == #[trigger] run[k].stopped_at,
        forall|k: int| 0 <= k < run.len() ==> #[trigger] run[k].stopped_at <= latest_stop(run),
    decreases run.len(),
{
    if run.len() > 1 {
        let init = run.drop_last();
        lemma_latest_stop(init);
        let j = choose|k: int| 0 <= k < init.len() && latest_stop(init) == #[trigger] init[k].stopped_at;
        assert(run[j] == init[j]);
        assert(run[run.len() - 1] == run.last());
        assert forall|k: int| 0 <= k < run.len() implies #[trigger] run[k].stopped_at <= latest_stop(run) by {
            if k < init.len() {
                assert(run[k] == init[k]);
            }
        }
    } else {
        assert(run[0].stopped_at == latest_stop(run));
    }
}

/// The merge of the run `s[a..b]`: the first entry's id and start, the
/// latest stop, the last entry's rounding flag, the earliest billable start and the
/// latest billable stop (both, or neither when one is missing), and the
/// other entries to delete.
pub open spec fn merge_of(s: Seq<SquashCandidate>, a: int, b: int) -> MergeView {
    let run = s.subrange(a, b);
    let bs = min_present(run.map_values(|c: SquashCandidate| c.billable_started_at));
    let be = max_present(run.map_values(|c: SquashCandidate| c.billable_stopped_at));
    MergeView {
        keep_id: s[a].id@,
        started_at: s[a].started_at,
        stopped_at: latest_stop(run),
        billable_started_at: if bs is Some && be is Some { bs } else { None },
        billable_stopped_at: if bs is Some && be is Some { be } else { None },
        round_on_stop: s[b - 1].round_on_stop,
        delete_ids: s.subrange(a + 1, b).map_values(|c: SquashCandidate| c.id@),
    }
}

/// The merges of the runs that hold two entries or more, in order.
pub open spec fn merges_of(s: Seq<SquashCandidate>, rs: Seq<(int, int)>) -> Seq<MergeView>
    decreases rs.len(),
{
    if rs.len() == 0 {
        Seq::empty()
    } else {
        let before = merges_of(s, rs.drop_last());
        if rs.last().1 - rs.last().0 >= 2 {
            before.push(merge_of(s, rs.last().0, rs.last().1))
        } else {
            before
        }
    }
}

/// What squashing the candidates `s` does.
pub open spec fn spec_squash_plan(s: Seq<SquashCandidate>) -> Seq<MergeView> {
    merges_of(s, runs(task_ids(s)))
}

/// The number of entries the merges delete.
pub open spec fn deleted_count(ms: Seq<MergeView>) -> int
    decreases ms.len(),
{
    if ms.len() == 0 {
        0
    } else {
        deleted_count(ms.drop_last()) + ms.last().delete_ids.len()
    }
}

/// All of `ids[a..b]` equal `ids[a]`.
pub open spec fn one_task(ids: Seq<i64>, a: int, b: int) -> bool {
    forall|k: int| a <= k < b ==> #[trigger] ids[k] == ids[a]
}

/// The runs cover `0..ids.len()` in order, each run is nonempty and holds one
/// task id, and runs next to each other hold different task ids.
pub open spec fn runs_partition(ids: Seq<i64>, rs: Seq<(int, int)>) -> bool {
    &&& rs.len() == 0 <==> ids.len() == 0
    &&& rs.len() > 0 ==> rs[0].0 == 0 && rs.last().1 == ids.len()
    &&& forall|i: int| 0 <= i < rs.len() ==> 0 <= #[trigger] rs[i].0 < rs[i].1 <= ids.len()
    &&& forall|i: int| 0 <= i < rs.len() ==> one_task(ids, #[trigger] rs[i].0, rs[i].1)
    &&& forall|i: int, j: int|
        0 <= i && j == i + 1 && j < rs.len() ==> #[trigger] rs[i].1 == #[trigger] rs[j].0 && ids[rs[i].0]
            != ids[rs[j].0]
}

/// The runs of equal task ids partition the entries into maximal runs.
#[verifier::rlimit(40)]
pub proof fn lemma_runs_partition(ids: Seq<i64>)
    ensures
        runs_partition(ids, runs(ids)),
    decreases ids.len(),
{
    if ids.len() > 0 {
        let prefix = ids.drop_last();
        lemma_runs_partition(prefix);
        let before = runs(prefix);
        let n = ids.len() - 1;
        let rs = runs(ids);
        if before.len() > 0 && ids[n - 1] == ids[n] {
            assert(rs == before.update(before.len() - 1, (before.last().0, n + 1)));
            assert forall|i: int| 0 <= i < rs.len() implies one_task(ids, #[trigger] rs[i].0, rs[i].1) by {
                assert(one_task(prefix, before[i].0, before[i].1));
                assert forall|k: int| rs[i].0 <= k < rs[i].1 implies #[trigger] ids[k] == ids[rs[i].0] by {
                    if k < n {
                        assert(prefix[k] == prefix[before[i].0]);
                    } else {
                        assert(before[i].0 < before[i].1 <= n);
                        assert(before[i].1 == n);
                        assert(prefix[n - 1] == prefix[before[i].0]);
                    }
                }
            }
            assert forall|i: int, j: int| 0 <= i && j == i + 1 && j < rs.len() implies #[trigger] rs[i].1
                == #[trigger] rs[j].0 && ids[rs[i].0] != ids[rs[j].0] by {
                assert(before[i].1 == before[j].0 && prefix[before[i].0] != prefix[before[j].0]);
            }
            assert forall|i: int| 0 <= i < rs.len() implies 0 <= #[trigger] rs[i].0 < rs[i].1 <= ids.len() by {
                assert(0 <= before[i].0 < before[i].1 <= prefix.len());
            }
        } else {
            assert(rs == before.push((n, n + 1)));
            assert forall|i: int| 0 <= i < rs.len() implies 0 <= #[trigger] rs[i].0 < rs[i].1 <= ids.len() by {
                if i < before.len() {
                    assert(0 <= before[i].0 < before[i].1 <= prefix.len());
                }
            }
            assert forall|i: int| 0 <= i < rs.len() implies one_task(ids, #[trigger] rs[i].0, rs[i].1) by {
                if i < before.len() {
                    assert(one_task(prefix, before[i].0, before[i].1));
                    assert forall|k: int| rs[i].0 <= k < rs[i].1 implies #[trigger] ids[k] == ids[rs[i].0] by {
                        assert(prefix[k] == prefix[before[i].0]);
                    }
                }
            }
            assert forall|i: int, j: int| 0 <= i && j == i + 1 && j < rs.len() implies #[trigger] rs[i].1
                == #[trigger] rs[j].0 && ids[rs[i].0] != ids[rs[j].0] by {
                if j < before.len() {
                    assert(before[i].1 == before[j].0 && prefix[before[i].0] != prefix[before[j].0]);
                } else {
                    assert(one_task(prefix, before[i].0, before[i].1));
                    assert(prefix[n - 1] == prefix[before[i].0]);
                }
            }
        }
    }
}

/// Where the entries come ordered by task (as the query orders them), each
/// task has one run only, so after squashing it keeps exactly one entry.
pub proof fn lemma_one_run_per_task(ids: Seq<i64>)
    requires
        forall|i: int, j: int| 0 <= i <= j < ids.len() ==> ids[i] <= ids[j],
    ensures
        forall|i: int, j: int|
            0 <= i < j < runs(ids).len() ==> ids[runs(ids)[i].0] < ids[runs(ids)[j].0],
{
    lemma_runs_partition(ids);
    let rs = runs(ids);
    assert forall|i: int, j: int| 0 <= i < j < rs.len() implies ids[rs[i].0] < ids[rs[j].0] by {
        let i1 = i + 1;
        assert(0 <= rs[i].0 < rs[i].1 <= ids.len());
        assert(0 <= rs[i1].0 < rs[i1].1 <= ids.len());
        assert(0 <= rs[j].0 < rs[j].1 <= ids.len());
        assert(rs[i].1 == rs[i1].0 && ids[rs[i].0] != ids[rs[i1].0]);
        lemma_runs_ordered(ids, rs, i1, j);
        assert(ids[rs[i].0] <= ids[rs[i1].0]);
        assert(ids[rs[i1].0] <= ids[rs[j].0]);
    }
}

proof fn lemma_runs_ordered(ids: Seq<i64>, rs: Seq<(int, int)>, i: int, j: int)
    requires
        runs_partition(ids, rs),
        0 <= i <= j < rs.len(),
    ensures
        rs[i].0 <= rs[j].0,
    decreases j - i,
{
    if i < j {
        let i1 = i + 1;
        lemma_runs_ordered(ids, rs, i1, j);
        assert(rs[i].1 == rs[i1].0);
        assert(rs[i].0 < rs[i].1);
    }
}

/// Every merge deletes at least one entry, so no more merges happen than
/// entries are deleted.
pub proof fn lemma_deleted_at_least_merged(s: Seq<SquashCandidate>, rs: Seq<(int, int)>)
    requires
        forall|i: int| 0 <= i < rs.len() ==> 0 <= #[trigger] rs[i].0 < rs[i].1 <= s.len(),
    ensures
        deleted_count(merges_of(s, rs)) >= merges_of(s, rs).len(),
    decreases rs.len(),
{
    if rs.len() > 0 {
        lemma_deleted_at_least_merged(s, rs.drop_last());
        let (a, b) = rs.last();
        if b - a >= 2 {
            assert(merges_of(s, rs).last() == merge_of(s, a, b));
            assert(merges_of(s, rs).drop_last() == merges_of(s, rs.drop_last()));
        }
    }
}

/// Over the first `k` runs of a partition, the merges delete all entries but
/// one per run.
proof fn lemma_deleted_prefix(s: Seq<SquashCandidate>, rs: Seq<(int, int)>, k: int)
    requires
        runs_partition(task_ids(s), rs),
        0 < k <= rs.len(),
    ensures
        deleted_count(merges_of(s, rs.take(k))) == rs[k - 1].1 - k,
    decreases k,
{
    let t = rs.take(k);
    assert(t.drop_last() =~= rs.take(k - 1));
    assert(t.last() == rs[k - 1]);
    let (a, b) = rs[k - 1];
    assert(0 <= a < b <= s.len());
    if k == 1 {
        assert(rs.take(0) =~= Seq::<(int, int)>::empty());
        assert(a == 0);
    } else {
        lemma_deleted_prefix(s, rs, k - 1);
        let i = k - 2;
        let j = k - 1;
        assert(rs[i].1 == rs[j].0);
    }
    if b - a >= 2 {
        let m = merge_of(s, a, b);
        assert(m.delete_ids.len() == b - a - 1);
        assert(merges_of(s, t) == merges_of(s, rs.take(k - 1)).push(m));
        assert(merges_of(s, t).drop_last() =~= merges_of(s, rs.take(k - 1)));
        assert(deleted_count(merges_of(s, t)) == deleted_count(merges_of(s, rs.take(k - 1))) + b - a - 1);
    } else {
        assert(merges_of(s, t) == merges_of(s, rs.take(k - 1)));
    }
    if k == 1 {
        assert(merges_of(s, rs.take(0)) =~= Seq::<MergeView>::empty());
    }
}

/// Squashing leaves one entry per run: the entries not deleted number as
/// many as the runs of one task; where the entries come ordered by task (as
/// the day's query orders them), the runs' tasks are all different, so each
/// task keeps exactly one entry.
pub proof fn lemma_squash_leaves_one_entry_per_task(s: Seq<SquashCandidate>)
    ensures
        s.len() - deleted_count(spec_squash_plan(s)) == runs(task_ids(s)).len(),
        (forall|i: int, j: int| 0 <= i <= j < s.len() ==> s[i].task_id <= s[j].task_id) ==> (forall|
            i: int,
            j: int,
        |
            0 <= i < j < runs(task_ids(s)).len() ==> s[runs(task_ids(s))[i].0].task_id
                < s[runs(task_ids(s))[j].0].task_id),
{
    let ids = task_ids(s);
    let rs = runs(ids);
    lemma_runs_partition(ids);
    if rs.len() > 0 {
        lemma_deleted_prefix(s, rs, rs.len() as int);
        assert(rs.take(rs.len() as int) =~= rs);
    }
    if forall|i: int, j: int| 0 <= i <= j < s.len() ==> s[i].task_id <= s[j].task_id {
        assert forall|i: int, j: int| 0 <= i <= j < ids.len() implies ids[i] <= ids[j] by {
            assert(ids[i] == s[i].task_id && ids[j] == s[j].task_id);
        }
        lemma_one_run_per_task(ids);
        assert forall|i: int, j: int| 0 <= i < j < rs.len() implies s[rs[i].0].task_id < s[rs[j].0].task_id by {
            assert(0 <= rs[i].0 < rs[i].1 <= ids.len());
            assert(0 <= rs[j].0 < rs[j].1 <= ids.len());
            assert(ids[rs[i].0] < ids[rs[j].0]);
        }
    }
}

/// The runs of equal task ids among the candidates.
fn find_runs(s: &Vec<SquashCandidate>) -> (rs: Vec<(usize, usize)>)
    ensures
        rs@.map_values(|r: (usize, usize)| (r.0 as int, r.1 as int)) == runs(task_ids(s@)),
        forall|i: int| 0 <= i < rs.len() ==> 0 <= #[trigger] rs[i].0 < rs[i].1 <= s.len(),
{
    let mut rs: Vec<(usize, usize)> = Vec::new();
    let mut i: usize = 0;
    while i < s.len()
        invariant
            i <= s.len(),
            rs@.map_values(|r: (usize, usize)| (r.0 as int, r.1 as int)) == runs(task_ids(s@).take(i as int)),
            forall|k: int| 0 <= k < rs.len() ==> 0 <= #[trigger] rs[k].0 < rs[k].1 <= i,
            i > 0 ==> rs.len() > 0 && rs@.last().1 == i,
            rs.len() > 0 ==> i > 0,
        decreases s.len() - i,
    {
        let ghost ids = task_ids(s@).take(i as int + 1);
        assert(ids.drop_last() =~= task_ids(s@).take(i as int));
        let n = rs.len();
        if n > 0 && s[i - 1].task_id == s[i].task_id {
            let start = rs[n - 1].0;
            rs.set(n - 1, (start, i + 1));
        } else {
            rs.push((i, i + 1));
        }
        i = i + 1;
        assert(rs@.map_values(|r: (usize, usize)| (r.0 as int, r.1 as int)) =~= runs(ids));
    }
    assert(task_ids(s@).take(s.len() as int) =~= task_ids(s@));
    rs
}

/// A copy of the string, as `clone` makes it.
fn copy_string(s: &String) -> (r: String)
    ensures
        r@ == s@,
{
    s.clone()
}

/// The merge of the run `s[a..b]`.
fn merge_run(s: &Vec<SquashCandidate>, a: usize, b: usize) -> (m: SquashMerge)
    requires
        a < b <= s.len(),
    ensures
        m@ == merge_of(s@, a as int, b as int),
{
    let ghost run = s@.subrange(a as int, b as int);
    let mut earliest: Option<i64> = None;
    let mut latest: Option<i64> = None;
    let mut stop: i64 = s[a].stopped_at;
    let mut delete_ids: Vec<String> = Vec::new();
    let mut k: usize = a;
    while k < b
        invariant
            a <= k <= b <= s.len(),
            run == s@.subrange(a as int, b as int),
            earliest == min_present(
                run.take(k - a).map_values(|c: SquashCandidate| c.billable_started_at),
            ),
            latest == max_present(
                run.take(k - a).map_values(|c: SquashCandidate| c.billable_stopped_at),
            ),
            k > a ==> delete_ids@.map_values(|x: String| x@) == s@.subrange(
                a + 1,
                k as int,
            ).map_values(|c: SquashCandidate| c.id@),
            k == a ==> delete_ids@.len() == 0,
            k == a ==> stop == s@[a as int].stopped_at,
            k > a ==> stop == latest_stop(run.take(k - a)),
        decreases b - k,
    {
        let ghost taken = run.take(k - a + 1);
        assert(taken.drop_last() =~= run.take(k - a));
        assert(taken.map_values(|c: SquashCandidate| c.billable_started_at).drop_last()
            =~= run.take(k - a).map_values(|c: SquashCandidate| c.billable_started_at));
        assert(taken.map_values(|c: SquashCandidate| c.billable_stopped_at).drop_last()
            =~= run.take(k - a).map_values(|c: SquashCandidate| c.billable_stopped_at));
        let c = &s[k];
        earliest = match c.billable_started_at {
            None => earliest,
            Some(v) => match earliest {
                None => Some(v),
                Some(r) => Some(if v < r { v } else { r }),
            },
        };
        latest = match c.billable_stopped_at {
            None => latest,
            Some(v) => match latest {
                None => Some(v),
                Some(r) => Some(if v > r { v } else { r }),
            },
        };
        if k > a && c.stopped_at > stop {
            stop = c.stopped_at;
        }
        assert(taken.last() == s@[k as int]);
        if k > a {
            let ghost before = delete_ids@;
            delete_ids.push(copy_string(&c.id));
            assert(s@.subrange(a + 1, k + 1) =~= s@.subrange(a + 1, k as int).push(s@[k as int]));
            assert(delete_ids@ =~= before.push(delete_ids@.last()));
            if k == a + 1 {
                assert(before.len() == 0);
                assert(s@.subrange(a + 1, k as int).len() == 0);
            }
            assert(delete_ids@.map_values(|x: String| x@) =~= before.map_values(|x: String| x@).push(
                c.id@,
            ));
            assert(delete_ids@.map_values(|x: String| x@) =~= s@.subrange(
                a + 1,
                k + 1,
            ).map_values(|cc: SquashCandidate| cc.id@));
        }
        k = k + 1;
    }
    assert(run.take(b - a) =~= run);
    if a + 1 == b {
        assert(delete_ids@.map_values(|x: String| x@) =~= s@.subrange(
            a + 1,
            b as int,
        ).map_values(|c: SquashCandidate| c.id@));
    }
    let both = earliest.is_some() && latest.is_some();
    SquashMerge {
        keep_id: copy_string(&s[a].id),
        started_at: s[a].started_at,
        stopped_at: stop,
        billable_started_at: if both { earliest } else { None },
        billable_stopped_at: if both { latest } else { None },
        round_on_stop: s[b - 1].round_on_stop,
        delete_ids,
    }
}

/// How squashing rewrites the day's entries: one merge for each run of two
/// or more consecutive entries of one task, in order.
pub fn squash_plan(s: &Vec<SquashCandidate>) -> (ms: Vec<SquashMerge>)
    ensures
        ms@.map_values(|m: SquashMerge| m@) == spec_squash_plan(s@),
{
    let rs = find_runs(s);
    let ghost runs_int = rs@.map_values(|r: (usize, usize)| (r.0 as int, r.1 as int));
    let mut ms: Vec<SquashMerge> = Vec::new();
    let mut i: usize = 0;
    while i < rs.len()
        invariant
            i <= rs.len(),
            runs_int == rs@.map_values(|r: (usize, usize)| (r.0 as int, r.1 as int)),
            runs_int == runs(task_ids(s@)),
            forall|k: int| 0 <= k < rs.len() ==> 0 <= #[trigger] rs[k].0 < rs[k].1 <= s.len(),
            ms@.map_values(|m: SquashMerge| m@) == merges_of(s@, runs_int.take(i as int)),
        decreases rs.len() - i,
    {
        assert(runs_int.take(i as int + 1).drop_last() =~= runs_int.take(i as int));
        let (a, b) = rs[i];
        if b - a >= 2 {
            let m = merge_run(s, a, b);
            ms.push(m);
        }
        i = i + 1;
        assert(ms@.map_values(|m: SquashMerge| m@) =~= merges_of(s@, runs_int.take(i as int)));
    }
    assert(runs_int.take(rs.len() as int) =~= runs_int);
    ms
}

} // verus!
