//! The log by day: each day's tasks with their time ranges, latest day first.
use vstd::prelude::*;
use crate::report::{EntryDisplayInfo, display_info, entry_display_info, shown_times_valid};
use crate::summary::{
    DetailView, ProjectSummary, ProjectSummaryView, TaskSummaryView, name_lt, order_names, NameOrder,
    project_views,
};
use crate::time::valid_timestamp;

verus! {

/// An entry of the log, shown on its day, with its project and task.
pub struct DayItem {
    pub project_name: String,
    pub task_name: String,
    pub info: EntryDisplayInfo,
}

/// An item as a mathematical value.
pub struct ItemView {
    pub project: Seq<char>,
    pub task: Seq<char>,
    pub day: i64,
    pub start: i64,
    pub end: i64,
    pub label: Seq<char>,
    pub duration: i64,
    pub active: bool,
}

impl View for DayItem {
    type V = ItemView;

    open spec fn view(&self) -> ItemView {
        ItemView {
            project: self.project_name@,
            task: self.task_name@,
            day: self.info.day,
            start: self.info.start,
            end: self.info.end,
            label: self.info.time_range@,
            duration: self.info.duration_seconds,
            active: self.info.is_active,
        }
    }
}

/// One time range of a task on a day, with its label ("HH:MM to HH:MM").
pub struct DailyRange {
    pub start: i64,
    pub end: i64,
    pub label: String,
}

pub struct RangeView {
    pub start: i64,
    pub end: i64,
    pub label: Seq<char>,
}

impl View for DailyRange {
    type V = RangeView;

    open spec fn view(&self) -> RangeView {
        RangeView { start: self.start, end: self.end, label: self.label@ }
    }
}

/// A task's time on one day.
pub struct DailyTask {
    pub project_name: String,
    pub task_name: String,
    pub total_seconds: i64,
    pub ranges: Vec<DailyRange>,
    pub has_active_range: bool,
}

/// A task's time on one day while it is being added up.
pub struct TaskAcc {
    pub project: Seq<char>,
    pub task: Seq<char>,
    pub total: int,
    pub ranges: Seq<RangeView>,
    pub active: bool,
}

/// A day's tasks while they are being added up.
pub struct DayAcc {
    pub day: i64,
    pub tasks: Seq<TaskAcc>,
}

/// One day of the log.
pub struct DailyLog {
    pub day: i64,
    /// The earliest start of the day's ranges.
    pub start: i64,
    /// The latest end among the ranges that start last in each task.
    pub end: i64,
    pub total_seconds: i64,
    /// Whether a range of the day is still running.
    pub any_active: bool,
    pub tasks: Vec<DailyTask>,
}

pub open spec fn range_of(it: ItemView) -> RangeView {
    RangeView { start: it.start, end: it.end, label: it.label }
}

/// Where the task (project and task name) stands among the day's tasks; past
/// the end when it is not there yet.
pub open spec fn task_index(ts: Seq<TaskAcc>, project: Seq<char>, task: Seq<char>) -> int
    decreases ts.len(),
{
    if ts.len() == 0 {
        0
    } else if ts[0].project == project && ts[0].task == task {
        0
    } else {
        1 + task_index(ts.drop_first(), project, task)
    }
}

/// The day's tasks with one more item: added to its task's time, or as a new
/// task at the end.
pub open spec fn add_to_tasks(ts: Seq<TaskAcc>, it: ItemView) -> Seq<TaskAcc> {
    let i = task_index(ts, it.project, it.task);
    if i < ts.len() {
        ts.update(
            i,
            TaskAcc {
                project: ts[i].project,
                task: ts[i].task,
                total: ts[i].total + it.duration,
                ranges: ts[i].ranges.push(range_of(it)),
                active: ts[i].active || it.active,
            },
        )
    } else {
        ts.push(
            TaskAcc {
                project: it.project,
                task: it.task,
                total: it.duration as int,
                ranges: seq![range_of(it)],
                active: it.active,
            },
        )
    }
}

/// Where the day goes among days in decreasing order: the first day not
/// after it.
pub open spec fn day_index(ds: Seq<DayAcc>, day: i64) -> int
    decreases ds.len(),
{
    if ds.len() == 0 {
        0
    } else if ds[0].day <= day {
        0
    } else {
        1 + day_index(ds.drop_first(), day)
    }
}

/// The days with one more item, latest day first.
pub open spec fn add_to_days(ds: Seq<DayAcc>, it: ItemView) -> Seq<DayAcc> {
    let j = day_index(ds, it.day);
    if j < ds.len() && ds[j].day == it.day {
        ds.update(j, DayAcc { day: it.day, tasks: add_to_tasks(ds[j].tasks, it) })
    } else {
        ds.insert(j, DayAcc { day: it.day, tasks: add_to_tasks(seq![], it) })
    }
}

/// The items grouped by day (latest first) and, within a day, by task in the
/// order the tasks first show up.
pub open spec fn group_days(items: Seq<ItemView>) -> Seq<DayAcc>
    decreases items.len(),
{
    if items.len() == 0 {
        seq![]
    } else {
        add_to_days(group_days(items.drop_last()), items.last())
    }
}

/// Where a range goes among ranges in order of start: after every range that
/// starts no later.
pub open spec fn range_index(rs: Seq<RangeView>, r: RangeView) -> int
    decreases rs.len(),
{
    if rs.len() == 0 {
        0
    } else if rs[0].start > r.start {
        0
    } else {
        1 + range_index(rs.drop_first(), r)
    }
}

/// The ranges in order of start; ranges with equal starts keep their order
/// (a stable sort, as `sort_by_key` does).
pub open spec fn sort_ranges(rs: Seq<RangeView>) -> Seq<RangeView>
    decreases rs.len(),
{
    if rs.len() == 0 {
        seq![]
    } else {
        let s = sort_ranges(rs.drop_last());
        s.insert(range_index(s, rs.last()), rs.last())
    }
}

/// The order of tasks on a day: by first start, then project name, then task
/// name.
pub open spec fn task_before(a: TaskAcc, b: TaskAcc) -> bool {
    ||| a.ranges[0].start < b.ranges[0].start
    ||| a.ranges[0].start == b.ranges[0].start && name_lt(a.project, b.project)
    ||| a.ranges[0].start == b.ranges[0].start && a.project == b.project && name_lt(a.task, b.task)
}

/// Where a task goes among tasks in that order: after every task not after it.
pub open spec fn task_slot(ts: Seq<TaskAcc>, t: TaskAcc) -> int
    decreases ts.len(),
{
    if ts.len() == 0 {
        0
    } else if task_before(t, ts[0]) {
        0
    } else {
        1 + task_slot(ts.drop_first(), t)
    }
}

/// The tasks in that order (a stable sort, as `sort_by` does).
pub open spec fn sort_tasks(ts: Seq<TaskAcc>) -> Seq<TaskAcc>
    decreases ts.len(),
{
    if ts.len() == 0 {
        seq![]
    } else {
        let s = sort_tasks(ts.drop_last());
        s.insert(task_slot(s, ts.last()), ts.last())
    }
}

/// The task with its ranges in order of start.
pub open spec fn with_sorted_ranges(t: TaskAcc) -> TaskAcc {
    TaskAcc { ranges: sort_ranges(t.ranges), ..t }
}


/// A task's time on one day while it is being added up.
pub struct TaskTally {
    pub project_name: String,
    pub task_name: String,
    pub total: i128,
    pub ranges: Vec<DailyRange>,
    pub active: bool,
}

impl View for TaskTally {
    type V = TaskAcc;

    open spec fn view(&self) -> TaskAcc {
        TaskAcc {
            project: self.project_name@,
            task: self.task_name@,
            total: self.total as int,
            ranges: range_views(self.ranges@),
            active: self.active,
        }
    }
}

/// A day's tasks while they are being added up.
pub struct DayTally {
    pub day: i64,
    pub tasks: Vec<TaskTally>,
}

impl View for DayTally {
    type V = DayAcc;

    open spec fn view(&self) -> DayAcc {
        DayAcc { day: self.day, tasks: tally_views(self.tasks@) }
    }
}

pub open spec fn range_views(rs: Seq<DailyRange>) -> Seq<RangeView> {
    rs.map_values(|r: DailyRange| r@)
}

pub open spec fn tally_views(ts: Seq<TaskTally>) -> Seq<TaskAcc> {
    ts.map_values(|t: TaskTally| t@)
}

pub open spec fn day_views(ds: Seq<DayTally>) -> Seq<DayAcc> {
    ds.map_values(|d: DayTally| d@)
}

pub open spec fn item_views(items: Seq<DayItem>) -> Seq<ItemView> {
    items.map_values(|i: DayItem| i@)
}

/// Every total is within `bound` of zero.
pub open spec fn totals_within(ts: Seq<TaskAcc>, bound: int) -> bool {
    forall|i: int| 0 <= i < ts.len() ==> -bound <= #[trigger] ts[i].total <= bound
}

/// Every task has a range.
pub open spec fn tasks_have_ranges(ts: Seq<TaskAcc>) -> bool {
    forall|i: int| 0 <= i < ts.len() ==> (#[trigger] ts[i]).ranges.len() > 0
}

proof fn lemma_task_index_step(ts: Seq<TaskAcc>, k: int, project: Seq<char>, task: Seq<char>)
    requires
        0 <= k < ts.len(),
        !(ts[k].project == project && ts[k].task == task),
        task_index(ts, project, task) == k + task_index(ts.skip(k), project, task),
    ensures
        task_index(ts, project, task) == k + 1 + task_index(ts.skip(k + 1), project, task),
{
    assert(ts.skip(k).drop_first() =~= ts.skip(k + 1));
}

proof fn lemma_task_index_bound(ts: Seq<TaskAcc>, project: Seq<char>, task: Seq<char>)
    ensures
        0 <= task_index(ts, project, task) <= ts.len(),
        task_index(ts, project, task) < ts.len() ==> ts[task_index(ts, project, task)].project == project
            && ts[task_index(ts, project, task)].task == task,
    decreases ts.len(),
{
    if ts.len() > 0 {
        lemma_task_index_bound(ts.drop_first(), project, task);
    }
}

/// Where the task stands among the day's tasks; past the end when it is not
/// there.
fn find_task(ts: &Vec<TaskTally>, project: &String, task: &String) -> (i: usize)
    ensures
        i == task_index(tally_views(ts@), project@, task@),
{
    let ghost v = tally_views(ts@);
    let mut k: usize = 0;
    assert(v.skip(0) =~= v);
    while k < ts.len()
        invariant
            k <= ts.len(),
            v == tally_views(ts@),
            task_index(v, project@, task@) == k + task_index(v.skip(k as int), project@, task@),
        decreases ts.len() - k,
    {
        assert(v[k as int] == ts@[k as int]@);
        if ts[k].project_name == *project && ts[k].task_name == *task {
            assert(v.skip(k as int)[0] == v[k as int]);
            return k;
        }
        proof {
            lemma_task_index_step(v, k as int, project@, task@);
        }
        k = k + 1;
    }
    assert(v.skip(k as int).len() == 0);
    k
}

fn copy_string(s: &String) -> (r: String)
    ensures
        r@ == s@,
{
    s.clone()
}

/// Adds one item to its day's tasks.
fn add_to_task_tallies(ts: &mut Vec<TaskTally>, it: DayItem, Ghost(bound): Ghost<int>)
    requires
        totals_within(tally_views(old(ts)@), bound),
        0 <= bound,
        bound + 0x8000_0000_0000_0000 <= i128::MAX,
        tasks_have_ranges(tally_views(old(ts)@)),
    ensures
        tally_views(final(ts)@) == add_to_tasks(tally_views(old(ts)@), it@),
        totals_within(tally_views(final(ts)@), bound + 0x8000_0000_0000_0000),
        tasks_have_ranges(tally_views(final(ts)@)),
        final(ts)@.len() > 0,
{
    let ghost v = tally_views(ts@);
    let ghost iv = it@;
    let i = find_task(ts, &it.project_name, &it.task_name);
    proof {
        lemma_task_index_bound(v, iv.project, iv.task);
    }
    let range = DailyRange { start: it.info.start, end: it.info.end, label: it.info.time_range };
    assert(range@ == range_of(iv));
    if i < ts.len() {
        let mut t = ts.remove(i);
        assert(t@ == v[i as int]);
        assert(-bound <= v[i as int].total <= bound);
        assert(-bound <= t.total <= bound);
        let ghost old_ranges = t.ranges@;
        t.total = t.total + it.info.duration_seconds as i128;
        t.ranges.push(range);
        t.active = t.active || it.info.is_active;
        assert(range_views(t.ranges@) =~= range_views(old_ranges).push(range_of(iv)));
        ts.insert(i, t);
        proof {
            let nv = tally_views(ts@);
            assert(nv =~= v.update(i as int, t@));
            assert forall|j: int| 0 <= j < nv.len() implies -(bound + 0x8000_0000_0000_0000) <= #[trigger] nv[j].total <= bound + 0x8000_0000_0000_0000 by {
                if j != i {
                    assert(nv[j] == v[j]);
                }
            }
            assert forall|j: int| 0 <= j < nv.len() implies (#[trigger] nv[j]).ranges.len() > 0 by {
                if j != i {
                    assert(nv[j] == v[j]);
                }
            }
        }
    } else {
        let mut ranges: Vec<DailyRange> = Vec::new();
        ranges.push(range);
        let t = TaskTally {
            project_name: it.project_name,
            task_name: it.task_name,
            total: it.info.duration_seconds as i128,
            ranges,
            active: it.info.is_active,
        };
        assert(range_views(t.ranges@) =~= seq![range_of(iv)]);
        ts.push(t);
        proof {
            let nv = tally_views(ts@);
            assert(nv =~= v.push(t@));
            assert forall|j: int| 0 <= j < nv.len() implies -(bound + 0x8000_0000_0000_0000) <= #[trigger] nv[j].total <= bound + 0x8000_0000_0000_0000 by {
                if j < v.len() {
                    assert(nv[j] == v[j]);
                }
            }
            assert forall|j: int| 0 <= j < nv.len() implies (#[trigger] nv[j]).ranges.len() > 0 by {
                if j < v.len() {
                    assert(nv[j] == v[j]);
                }
            }
        }
    }
}


/// Every day has a task, every day's totals are within `bound` of zero and
/// every task has a range.
pub open spec fn days_well_formed(ds: Seq<DayAcc>, bound: int) -> bool {
    forall|d: int|
        0 <= d < ds.len() ==> (#[trigger] ds[d]).tasks.len() > 0 && totals_within(ds[d].tasks, bound)
            && tasks_have_ranges(ds[d].tasks)
}

proof fn lemma_day_index(ds: Seq<DayAcc>, day: i64)
    ensures
        0 <= day_index(ds, day) <= ds.len(),
    decreases ds.len(),
{
    if ds.len() > 0 {
        lemma_day_index(ds.drop_first(), day);
    }
}

/// Adds one item to its day, making the day where it is missing.
fn add_to_day_tallies(ds: &mut Vec<DayTally>, it: DayItem, Ghost(bound): Ghost<int>)
    requires
        days_well_formed(day_views(old(ds)@), bound),
        0 <= bound,
        bound + 0x8000_0000_0000_0000 <= i128::MAX,
    ensures
        day_views(final(ds)@) == add_to_days(day_views(old(ds)@), it@),
        days_well_formed(day_views(final(ds)@), bound + 0x8000_0000_0000_0000),
{
    let ghost v = day_views(ds@);
    let ghost iv = it@;
    let mut j: usize = 0;
    assert(v.skip(0) =~= v);
    while j < ds.len() && ds[j].day > it.info.day
        invariant
            j <= ds.len(),
            v == day_views(ds@),
            iv == it@,
            day_index(v, iv.day) == j + day_index(v.skip(j as int), iv.day),
        decreases ds.len() - j,
    {
        assert(v.skip(j as int).drop_first() =~= v.skip(j + 1));
        assert(v.skip(j as int)[0] == v[j as int]);
        j = j + 1;
    }
    if j < ds.len() {
        assert(v.skip(j as int)[0] == v[j as int]);
    }
    assert(day_index(v, iv.day) == j);
    let ghost wide = bound + 0x8000_0000_0000_0000;
    if j < ds.len() && ds[j].day == it.info.day {
        let mut d = ds.remove(j);
        assert(d@ == v[j as int]);
        assert(totals_within(v[j as int].tasks, bound) && tasks_have_ranges(v[j as int].tasks));
        add_to_task_tallies(&mut d.tasks, it, Ghost(bound));
        ds.insert(j, d);
        proof {
            let nv = day_views(ds@);
            assert(nv =~= v.update(j as int, d@));
            assert forall|q: int| 0 <= q < nv.len() implies (#[trigger] nv[q]).tasks.len() > 0
                && totals_within(nv[q].tasks, wide) && tasks_have_ranges(nv[q].tasks) by {
                if q != j {
                    assert(nv[q] == v[q]);
                    assert(totals_within(v[q].tasks, bound));
                }
            }
        }
    } else {
        let day = it.info.day;
        let mut tasks: Vec<TaskTally> = Vec::new();
        assert(tally_views(tasks@) =~= Seq::<TaskAcc>::empty());
        add_to_task_tallies(&mut tasks, it, Ghost(bound));
        let d = DayTally { day, tasks };
        proof {
            lemma_day_index(v, iv.day);
        }
        ds.insert(j, d);
        proof {
            let nv = day_views(ds@);
            assert(nv =~= v.insert(j as int, d@));
            assert forall|q: int| 0 <= q < nv.len() implies (#[trigger] nv[q]).tasks.len() > 0
                && totals_within(nv[q].tasks, wide) && tasks_have_ranges(nv[q].tasks) by {
                if q < j {
                    assert(nv[q] == v[q]);
                    assert(totals_within(v[q].tasks, bound));
                } else if q > j {
                    assert(nv[q] == v[q - 1]);
                    assert(totals_within(v[q - 1].tasks, bound));
                }
            }
        }
    }
}

/// Groups the items by day, latest day first, and by task within a day.
fn group_day_tallies(items: Vec<DayItem>) -> (ds: Vec<DayTally>)
    ensures
        day_views(ds@) == group_days(item_views(items@)),
        days_well_formed(day_views(ds@), items.len() * 0x8000_0000_0000_0000),
{
    let ghost all = item_views(items@);
    let n: usize = items.len();
    let mut rest = items;
    let mut ds: Vec<DayTally> = Vec::new();
    let mut k: usize = 0;
    assert(all.take(0) =~= Seq::<ItemView>::empty());
    assert(day_views(ds@) =~= Seq::<DayAcc>::empty());
    while rest.len() > 0
        invariant
            k + rest.len() == n,
            all.len() == n,
            item_views(rest@) == all.skip(k as int),
            day_views(ds@) == group_days(all.take(k as int)),
            days_well_formed(day_views(ds@), k * 0x8000_0000_0000_0000),
        decreases rest.len(),
    {
        let ghost before = rest@;
        let it = rest.remove(0);
        assert(rest@ =~= before.subrange(1, before.len() as int));
        assert forall|q: int| 0 <= q < rest.len() implies item_views(rest@)[q] == all.skip(k + 1)[q] by {
            assert(item_views(before)[q + 1] == all.skip(k as int)[q + 1]);
        }
        assert(item_views(rest@) =~= all.skip(k + 1));
        assert(all.skip(k as int)[0] == it@);
        assert(all.take(k + 1).drop_last() =~= all.take(k as int));
        assert(all.take(k + 1).last() == it@);
        assert(k * 0x8000_0000_0000_0000 + 0x8000_0000_0000_0000 <= i128::MAX) by (nonlinear_arith)
            requires k < n, n <= usize::MAX;
        add_to_day_tallies(&mut ds, it, Ghost(k * 0x8000_0000_0000_0000));
        assert((k + 1) * 0x8000_0000_0000_0000 == k * 0x8000_0000_0000_0000 + 0x8000_0000_0000_0000);
        k = k + 1;
    }
    assert(all.take(k as int) =~= all);
    ds
}

proof fn lemma_range_index(rs: Seq<RangeView>, r: RangeView)
    ensures
        0 <= range_index(rs, r) <= rs.len(),
    decreases rs.len(),
{
    if rs.len() > 0 {
        lemma_range_index(rs.drop_first(), r);
    }
}

pub proof fn lemma_sort_ranges_len(rs: Seq<RangeView>)
    ensures
        sort_ranges(rs).len() == rs.len(),
    decreases rs.len(),
{
    if rs.len() > 0 {
        lemma_sort_ranges_len(rs.drop_last());
        lemma_range_index(sort_ranges(rs.drop_last()), rs.last());
    }
}

/// The ranges in order of start, equal starts in their order.
fn sort_daily_ranges(rs: Vec<DailyRange>) -> (sorted: Vec<DailyRange>)
    ensures
        range_views(sorted@) == sort_ranges(range_views(rs@)),
{
    let ghost all = range_views(rs@);
    let n: usize = rs.len();
    let mut rest = rs;
    let mut sorted: Vec<DailyRange> = Vec::new();
    let mut k: usize = 0;
    assert(all.take(0) =~= Seq::<RangeView>::empty());
    assert(range_views(sorted@) =~= Seq::<RangeView>::empty());
    while rest.len() > 0
        invariant
            k + rest.len() == n,
            all.len() == n,
            range_views(rest@) == all.skip(k as int),
            range_views(sorted@) == sort_ranges(all.take(k as int)),
        decreases rest.len(),
    {
        let ghost before = rest@;
        let r = rest.remove(0);
        assert(rest@ =~= before.subrange(1, before.len() as int));
        assert forall|q: int| 0 <= q < rest.len() implies range_views(rest@)[q] == all.skip(k + 1)[q] by {
            assert(range_views(before)[q + 1] == all.skip(k as int)[q + 1]);
        }
        assert(range_views(rest@) =~= all.skip(k + 1));
        assert(all.skip(k as int)[0] == r@);
        assert(all.take(k + 1).drop_last() =~= all.take(k as int));
        assert(all.take(k + 1).last() == r@);
        let ghost sv = range_views(sorted@);
        let mut j: usize = 0;
        assert(sv.skip(0) =~= sv);
        while j < sorted.len() && sorted[j].start <= r.start
            invariant
                j <= sorted.len(),
                sv == range_views(sorted@),
                range_index(sv, r@) == j + range_index(sv.skip(j as int), r@),
            decreases sorted.len() - j,
        {
            assert(sv.skip(j as int).drop_first() =~= sv.skip(j + 1));
            assert(sv.skip(j as int)[0] == sv[j as int]);
            j = j + 1;
        }
        if j < sorted.len() {
            assert(sv.skip(j as int)[0] == sv[j as int]);
        }
        assert(range_index(sv, r@) == j);
        sorted.insert(j, r);
        assert(range_views(sorted@) =~= sv.insert(j as int, r@));
        k = k + 1;
    }
    assert(all.take(k as int) =~= all);
    sorted
}

proof fn lemma_task_slot(ts: Seq<TaskAcc>, t: TaskAcc)
    ensures
        0 <= task_slot(ts, t) <= ts.len(),
    decreases ts.len(),
{
    if ts.len() > 0 {
        lemma_task_slot(ts.drop_first(), t);
    }
}

/// Whether `a` comes before `b` on a day: by first start, then project
/// name, then task name.
fn tally_before(a: &TaskTally, b: &TaskTally) -> (r: bool)
    requires
        a.ranges.len() > 0,
        b.ranges.len() > 0,
    ensures
        r == task_before(a@, b@),
{
    assert(a@.ranges[0] == a.ranges@[0]@);
    assert(b@.ranges[0] == b.ranges@[0]@);
    let sa = a.ranges[0].start;
    let sb = b.ranges[0].start;
    if sa < sb {
        return true;
    }
    if sa > sb {
        return false;
    }
    match order_names(a.project_name.as_str(), b.project_name.as_str()) {
        NameOrder::Before => true,
        NameOrder::After => {
            proof {
                crate::summary::lemma_name_lt_irreflexive(a.project_name@);
                if name_lt(a.project_name@, b.project_name@) {
                    crate::summary::lemma_name_lt_transitive(a.project_name@, b.project_name@, a.project_name@);
                }
            }
            false
        },
        NameOrder::Same => match order_names(a.task_name.as_str(), b.task_name.as_str()) {
            NameOrder::Before => true,
            _ => {
                proof {
                    crate::summary::lemma_name_lt_irreflexive(a.project_name@);
                }
                false
            },
        },
    }
}

/// The tasks in the order of the day (first start, project, task), equal
/// ones in their order.
fn sort_day_tallies(ts: Vec<TaskTally>) -> (sorted: Vec<TaskTally>)
    requires
        tasks_have_ranges(tally_views(ts@)),
    ensures
        tally_views(sorted@) == sort_tasks(tally_views(ts@)),
        tasks_have_ranges(tally_views(sorted@)),
{
    let ghost all = tally_views(ts@);
    let n: usize = ts.len();
    let mut rest = ts;
    let mut sorted: Vec<TaskTally> = Vec::new();
    let mut k: usize = 0;
    assert(all.take(0) =~= Seq::<TaskAcc>::empty());
    assert(tally_views(sorted@) =~= Seq::<TaskAcc>::empty());
    while rest.len() > 0
        invariant
            k + rest.len() == n,
            all.len() == n,
            tasks_have_ranges(all),
            tally_views(rest@) == all.skip(k as int),
            tally_views(sorted@) == sort_tasks(all.take(k as int)),
            tasks_have_ranges(tally_views(sorted@)),
        decreases rest.len(),
    {
        let ghost before = rest@;
        let t = rest.remove(0);
        assert(rest@ =~= before.subrange(1, before.len() as int));
        assert forall|q: int| 0 <= q < rest.len() implies tally_views(rest@)[q] == all.skip(k + 1)[q] by {
            assert(tally_views(before)[q + 1] == all.skip(k as int)[q + 1]);
        }
        assert(tally_views(rest@) =~= all.skip(k + 1));
        assert(all.skip(k as int)[0] == t@);
        assert(all[k as int] == t@);
        assert(t.ranges.len() > 0);
        assert(all.take(k + 1).drop_last() =~= all.take(k as int));
        assert(all.take(k + 1).last() == t@);
        let ghost sv = tally_views(sorted@);
        let mut j: usize = 0;
        assert(sv.skip(0) =~= sv);
        loop
            invariant
                j <= sorted.len(),
                sv == tally_views(sorted@),
                tasks_have_ranges(sv),
                t.ranges.len() > 0,
                task_slot(sv, t@) == j + task_slot(sv.skip(j as int), t@),
            ensures
                j <= sorted.len(),
                task_slot(sv, t@) == j,
            decreases sorted.len() - j,
        {
            if j >= sorted.len() {
                assert(sv.skip(j as int).len() == 0);
                break;
            }
            assert(sv[j as int].ranges.len() > 0);
            assert(sv[j as int] == sorted@[j as int]@);
            assert(sv.skip(j as int)[0] == sv[j as int]);
            if tally_before(&t, &sorted[j]) {
                break;
            }
            assert(sv.skip(j as int).drop_first() =~= sv.skip(j + 1));
            j = j + 1;
        }
        let ghost tv = t@;
        sorted.insert(j, t);
        proof {
            let nv = tally_views(sorted@);
            assert(nv =~= sv.insert(j as int, tv));
            assert forall|q: int| 0 <= q < nv.len() implies (#[trigger] nv[q]).ranges.len() > 0 by {
                if q < j {
                    assert(nv[q] == sv[q]);
                } else if q > j {
                    assert(nv[q] == sv[q - 1]);
                }
            }
        }
        k = k + 1;
    }
    assert(all.take(k as int) =~= all);
    sorted
}

/// A task's time on one day, as the log shows it.
pub struct DailyTaskView {
    pub project: Seq<char>,
    pub task: Seq<char>,
    pub total: i64,
    pub ranges: Seq<RangeView>,
    pub active: bool,
}

impl View for DailyTask {
    type V = DailyTaskView;

    open spec fn view(&self) -> DailyTaskView {
        DailyTaskView {
            project: self.project_name@,
            task: self.task_name@,
            total: self.total_seconds,
            ranges: range_views(self.ranges@),
            active: self.has_active_range,
        }
    }
}

/// One day of the log as a mathematical value.
pub struct DailyLogView {
    pub day: i64,
    pub start: i64,
    pub end: i64,
    pub total: i64,
    pub any_active: bool,
    pub tasks: Seq<DailyTaskView>,
}

impl View for DailyLog {
    type V = DailyLogView;

    open spec fn view(&self) -> DailyLogView {
        DailyLogView {
            day: self.day,
            start: self.start,
            end: self.end,
            total: self.total_seconds,
            any_active: self.any_active,
            tasks: daily_task_views(self.tasks@),
        }
    }
}

pub open spec fn daily_task_views(ts: Seq<DailyTask>) -> Seq<DailyTaskView> {
    ts.map_values(|t: DailyTask| t@)
}

pub open spec fn shown_tasks(ts: Seq<TaskAcc>) -> Seq<DailyTaskView> {
    ts.map_values(|t: TaskAcc| shown_task(t))
}

/// The earliest first start of the tasks.
pub open spec fn earliest_start(ts: Seq<TaskAcc>) -> int
    decreases ts.len(),
{
    if ts.len() == 0 {
        0
    } else if ts.len() == 1 {
        ts[0].ranges[0].start as int
    } else {
        let rest = earliest_start(ts.drop_last());
        let s = ts.last().ranges[0].start as int;
        if s < rest {
            s
        } else {
            rest
        }
    }
}

/// The latest end among the last ranges of the tasks.
pub open spec fn latest_end(ts: Seq<TaskAcc>) -> int
    decreases ts.len(),
{
    if ts.len() == 0 {
        0
    } else if ts.len() == 1 {
        ts[0].ranges.last().end as int
    } else {
        let rest = latest_end(ts.drop_last());
        let e = ts.last().ranges.last().end as int;
        if e > rest {
            e
        } else {
            rest
        }
    }
}

/// The sum of the tasks' totals.
pub open spec fn total_of(ts: Seq<TaskAcc>) -> int
    decreases ts.len(),
{
    if ts.len() == 0 {
        0
    } else {
        total_of(ts.drop_last()) + ts.last().total
    }
}

/// Whether some task has a running range.
pub open spec fn some_active(ts: Seq<TaskAcc>) -> bool {
    exists|i: int| 0 <= i < ts.len() && #[trigger] ts[i].active
}

/// Every task's total fits in an `i64`.
pub open spec fn totals_fit(ts: Seq<TaskAcc>) -> bool {
    forall|i: int| 0 <= i < ts.len() ==> i64::MIN <= #[trigger] ts[i].total <= i64::MAX
}

pub open spec fn sorted_ranges_of(ts: Seq<TaskAcc>) -> Seq<TaskAcc> {
    ts.map_values(|t: TaskAcc| with_sorted_ranges(t))
}

pub open spec fn shown_task(t: TaskAcc) -> DailyTaskView {
    DailyTaskView {
        project: t.project,
        task: t.task,
        total: t.total as i64,
        ranges: t.ranges,
        active: t.active,
    }
}

/// One day of the log: the day's tasks, each with its ranges in order of
/// start, in the order of the day; the day's first start, its latest end
/// among the tasks' last ranges, its total, and whether a range still runs.
/// `None` where a total leaves `i64`.
pub open spec fn day_log_of(d: DayAcc) -> Option<DailyLogView> {
    let rs = sorted_ranges_of(d.tasks);
    if totals_fit(rs) && i64::MIN <= total_of(rs) <= i64::MAX {
        Some(
            DailyLogView {
                day: d.day,
                start: earliest_start(rs) as i64,
                end: latest_end(rs) as i64,
                total: total_of(rs) as i64,
                any_active: some_active(rs),
                tasks: shown_tasks(sort_tasks(rs)),
            },
        )
    } else {
        None
    }
}

fn to_daily_task(t: TaskTally) -> (r: DailyTask)
    requires
        i64::MIN <= t.total <= i64::MAX,
    ensures
        r@ == shown_task(t@),
{
    DailyTask {
        project_name: t.project_name,
        task_name: t.task_name,
        total_seconds: t.total as i64,
        ranges: t.ranges,
        has_active_range: t.active,
    }
}

/// One day of the log, from the day's tasks.
fn summarize_day(d: DayTally, Ghost(bound): Ghost<int>) -> (r: Option<DailyLog>)
    requires
        d@.tasks.len() > 0,
        tasks_have_ranges(d@.tasks),
        totals_within(d@.tasks, bound),
    ensures
        match r {
            Some(log) => day_log_of(d@) == Some(log@),
            None => day_log_of(d@) is None,
        },
{
    let ghost all = d@.tasks;
    let ghost rs = sorted_ranges_of(all);
    let day = d.day;
    let mut rest = d.tasks;
    let n: usize = rest.len();
    let mut with_sorted: Vec<TaskTally> = Vec::new();
    let mut start: i64 = 0;
    let mut end: i64 = 0;
    let mut active = false;
    let mut k: usize = 0;
    assert(tally_views(with_sorted@) =~= rs.take(0));
    while rest.len() > 0
        invariant
            k + rest.len() == n,
            all.len() == n,
            rs == sorted_ranges_of(all),
            tasks_have_ranges(all),
            tally_views(rest@) == all.skip(k as int),
            tally_views(with_sorted@) == rs.take(k as int),
            tasks_have_ranges(tally_views(with_sorted@)),
            k > 0 ==> start == earliest_start(rs.take(k as int)),
            k > 0 ==> end == latest_end(rs.take(k as int)),
            active == some_active(rs.take(k as int)),
        decreases rest.len(),
    {
        let ghost before = rest@;
        let mut t = rest.remove(0);
        assert(rest@ =~= before.subrange(1, before.len() as int));
        assert forall|q: int| 0 <= q < rest.len() implies tally_views(rest@)[q] == all.skip(k + 1)[q] by {
            assert(tally_views(before)[q + 1] == all.skip(k as int)[q + 1]);
        }
        assert(tally_views(rest@) =~= all.skip(k + 1));
        assert(all.skip(k as int)[0] == t@);
        assert(all[k as int] == t@);
        let ghost old_t = t@;
        assert(old_t.ranges.len() > 0);
        let ranges = t.ranges;
        let sorted = sort_daily_ranges(ranges);
        proof {
            lemma_sort_ranges_len(old_t.ranges);
        }
        t.ranges = sorted;
        assert(t@ == with_sorted_ranges(old_t));
        assert(rs[k as int] == t@);
        let first = t.ranges[0].start;
        let last = t.ranges[t.ranges.len() - 1].end;
        assert(t@.ranges[0].start == first);
        assert(t@.ranges.last().end == last);
        let ghost taken = rs.take(k + 1);
        assert(taken.drop_last() =~= rs.take(k as int));
        assert(taken.last() == t@);
        if k == 0 || first < start {
            start = first;
        }
        if k == 0 || last > end {
            end = last;
        }
        proof {
            if active {
                let i = choose|i: int| 0 <= i < rs.take(k as int).len() && #[trigger] rs.take(k as int)[i].active;
                assert(taken[i] == rs.take(k as int)[i]);
            }
            if t.active {
                assert(taken[k as int].active);
            }
            if some_active(taken) && !t.active {
                let i = choose|i: int| 0 <= i < taken.len() && #[trigger] taken[i].active;
                assert(rs.take(k as int)[i] == taken[i]);
            }
        }
        active = active || t.active;
        with_sorted.push(t);
        assert(tally_views(with_sorted@) =~= taken);
        k = k + 1;
    }
    assert(rs.take(k as int) =~= rs);
    // every task's total must fit, then the day's
    let mut total: i128 = 0;
    let mut q: usize = 0;
    assert(rs.take(0) =~= Seq::<TaskAcc>::empty());
    while q < with_sorted.len()
        invariant
            q <= with_sorted.len(),
            tally_views(with_sorted@) == rs,
            rs == sorted_ranges_of(d@.tasks),
            total == total_of(rs.take(q as int)),
            -(q * 0x8000_0000_0000_0000) <= total <= q * 0x8000_0000_0000_0000,
            q <= usize::MAX,
            forall|i: int| 0 <= i < q ==> i64::MIN <= #[trigger] rs[i].total <= i64::MAX,
        decreases with_sorted.len() - q,
    {
        let tq = with_sorted[q].total;
        assert(rs[q as int].total == tq);
        if tq < i64::MIN as i128 || tq > i64::MAX as i128 {
            assert(!totals_fit(rs));
            return None;
        }
        assert(rs.take(q + 1).drop_last() =~= rs.take(q as int));
        assert(q * 0x8000_0000_0000_0000 + 0x8000_0000_0000_0000 <= i128::MAX) by (nonlinear_arith)
            requires q < usize::MAX;
        total = total + tq;
        assert((q + 1) * 0x8000_0000_0000_0000 == q * 0x8000_0000_0000_0000 + 0x8000_0000_0000_0000);
        q = q + 1;
    }
    assert(rs.take(q as int) =~= rs);
    assert(totals_fit(rs));
    if total < i64::MIN as i128 || total > i64::MAX as i128 {
        return None;
    }
    let sorted = sort_day_tallies(with_sorted);
    let ghost sv = tally_views(sorted@);
    assert(sv == sort_tasks(rs));
    let mut tasks: Vec<DailyTask> = Vec::new();
    let mut rest2 = sorted;
    let m: usize = rest2.len();
    let mut p: usize = 0;
    proof {
        lemma_sort_tasks_members(rs);
    }
    while rest2.len() > 0
        invariant
            p + rest2.len() == m,
            sv.len() == m,
            tally_views(rest2@) == sv.skip(p as int),
            daily_task_views(tasks@) == shown_tasks(sv.take(p as int)),
            totals_fit(sv),
        decreases rest2.len(),
    {
        let ghost before = rest2@;
        let t = rest2.remove(0);
        assert(rest2@ =~= before.subrange(1, before.len() as int));
        assert forall|x: int| 0 <= x < rest2.len() implies tally_views(rest2@)[x] == sv.skip(p + 1)[x] by {
            assert(tally_views(before)[x + 1] == sv.skip(p as int)[x + 1]);
        }
        assert(tally_views(rest2@) =~= sv.skip(p + 1));
        assert(sv.skip(p as int)[0] == t@);
        assert(sv[p as int] == t@);
        assert(i64::MIN <= sv[p as int].total <= i64::MAX);
        let dt = to_daily_task(t);
        let ghost prev = tasks@;
        tasks.push(dt);
        assert(sv.take(p + 1) =~= sv.take(p as int).push(sv[p as int]));
        assert(daily_task_views(tasks@) =~= daily_task_views(prev).push(dt@));
        assert(shown_tasks(sv.take(p + 1)) =~= shown_tasks(sv.take(p as int)).push(shown_task(sv[p as int])));
        p = p + 1;
    }
    assert(sv.take(p as int) =~= sv);
    assert(k == n && n > 0);
    Some(DailyLog { day, start, end, total_seconds: total as i64, any_active: active, tasks })
}

/// Sorting keeps the tasks' totals: every total of the sorted tasks is a
/// total of the tasks.
proof fn lemma_sort_tasks_members(ts: Seq<TaskAcc>)
    ensures
        totals_fit(ts) ==> totals_fit(sort_tasks(ts)),
        sort_tasks(ts).len() == ts.len(),
    decreases ts.len(),
{
    if ts.len() > 0 {
        lemma_sort_tasks_members(ts.drop_last());
        let s = sort_tasks(ts.drop_last());
        lemma_task_slot(s, ts.last());
        let j = task_slot(s, ts.last());
        let r = s.insert(j, ts.last());
        if totals_fit(ts) {
            assert(totals_fit(ts.drop_last())) by {
                assert forall|i: int| 0 <= i < ts.drop_last().len() implies i64::MIN <= #[trigger] ts.drop_last()[i].total <= i64::MAX by {
                    assert(ts.drop_last()[i] == ts[i]);
                }
            }
            assert forall|i: int| 0 <= i < r.len() implies i64::MIN <= #[trigger] r[i].total <= i64::MAX by {
                if i < j {
                    assert(r[i] == s[i]);
                } else if i == j {
                    assert(r[i] == ts[ts.len() - 1]);
                } else {
                    assert(r[i] == s[i - 1]);
                }
            }
        }
    }
}
} // verus!

verus! {

/// The days' logs, in the days' order; `None` where a day's log is.
pub open spec fn daily_logs(ds: Seq<DayAcc>) -> Option<Seq<DailyLogView>>
    decreases ds.len(),
{
    if ds.len() == 0 {
        Some(seq![])
    } else {
        match (daily_logs(ds.drop_last()), day_log_of(ds.last())) {
            (Some(logs), Some(log)) => Some(logs.push(log)),
            _ => None,
        }
    }
}

pub open spec fn daily_log_views(logs: Seq<DailyLog>) -> Seq<DailyLogView> {
    logs.map_values(|l: DailyLog| l@)
}

/// The log by day: the items grouped by day, latest day first, each day
/// summed up with its tasks in the order of the day. `None` where a total
/// leaves `i64`.
pub fn group_by_day(items: Vec<DayItem>) -> (r: Option<Vec<DailyLog>>)
    ensures
        match r {
            Some(logs) => daily_logs(group_days(item_views(items@))) == Some(daily_log_views(logs@)),
            None => daily_logs(group_days(item_views(items@))) is None,
        },
{
    let ghost n_items = items.len();
    let days = group_day_tallies(items);
    let ghost all = day_views(days@);
    let ghost bound = n_items * 0x8000_0000_0000_0000;
    let n: usize = days.len();
    let mut rest = days;
    let mut logs: Vec<DailyLog> = Vec::new();
    let mut k: usize = 0;
    assert(all.take(0) =~= Seq::<DayAcc>::empty());
    assert(daily_log_views(logs@) =~= Seq::<DailyLogView>::empty());
    while rest.len() > 0
        invariant
            k + rest.len() == n,
            all.len() == n,
            days_well_formed(all, bound),
            all == group_days(item_views(items@)),
            day_views(rest@) == all.skip(k as int),
            daily_logs(all.take(k as int)) == Some(daily_log_views(logs@)),
        decreases rest.len(),
    {
        let ghost before = rest@;
        let d = rest.remove(0);
        assert(rest@ =~= before.subrange(1, before.len() as int));
        assert forall|q: int| 0 <= q < rest.len() implies day_views(rest@)[q] == all.skip(k + 1)[q] by {
            assert(day_views(before)[q + 1] == all.skip(k as int)[q + 1]);
        }
        assert(day_views(rest@) =~= all.skip(k + 1));
        assert(all.skip(k as int)[0] == d@);
        assert(all[k as int] == d@);
        assert(all.take(k + 1).drop_last() =~= all.take(k as int));
        assert(all.take(k + 1).last() == d@);
        match summarize_day(d, Ghost(bound)) {
            Some(log) => {
                let ghost prev = logs@;
                logs.push(log);
                assert(daily_log_views(logs@) =~= daily_log_views(prev).push(log@));
            },
            None => {
                proof {
                    lemma_daily_logs_none(all, k as int);
                }
                return None;
            },
        }
        k = k + 1;
    }
    assert(all.take(k as int) =~= all);
    Some(logs)
}

/// Once a day's log is `None`, so are the logs of every longer run of days.
proof fn lemma_daily_logs_none(ds: Seq<DayAcc>, k: int)
    requires
        0 <= k < ds.len(),
        daily_logs(ds.take(k + 1)) is None,
    ensures
        daily_logs(ds) is None,
    decreases ds.len() - k,
{
    if k + 1 < ds.len() {
        assert(ds.take(k + 2).drop_last() =~= ds.take(k + 1));
        lemma_daily_logs_none(ds, k + 1);
    } else {
        assert(ds.take(k + 1) =~= ds);
    }
}

} // verus!

verus! {

/// An entry of the log with its project's and task's names.
pub type LogRow = (Seq<char>, Seq<char>, DetailView);

/// The rows of one task's entries.
pub open spec fn task_rows(project: Seq<char>, t: TaskSummaryView) -> Seq<LogRow> {
    t.entries.map_values(|e: DetailView| (project, t.task_name, e))
}

/// The rows of a project's tasks, task by task.
pub open spec fn tasks_rows(project: Seq<char>, ts: Seq<TaskSummaryView>) -> Seq<LogRow>
    decreases ts.len(),
{
    if ts.len() == 0 {
        seq![]
    } else {
        tasks_rows(project, ts.drop_last()) + task_rows(project, ts.last())
    }
}

/// The rows of the log, project by project, task by task.
pub open spec fn log_rows(ps: Seq<ProjectSummaryView>) -> Seq<LogRow>
    decreases ps.len(),
{
    if ps.len() == 0 {
        seq![]
    } else {
        log_rows(ps.drop_last()) + tasks_rows(ps.last().project_name, ps.last().tasks)
    }
}

/// Every instant of every entry of the log lies in chrono's range.
pub open spec fn log_times_valid(ps: Seq<ProjectSummaryView>) -> bool {
    forall|i: int, j: int, k: int|
        0 <= i < ps.len() && 0 <= j < ps[i].tasks.len() && 0 <= k < ps[i].tasks[j].entries.len()
            ==> shown_times_valid(#[trigger] ps[i].tasks[j].entries[k])
}

/// `item` shows the row at `now`, read in some time zone offsets of the
/// machine (less than a day from UTC).
pub open spec fn shows_row(row: LogRow, billable_only: bool, now: i64, item: DayItem) -> bool {
    &&& item.project_name@ == row.0
    &&& item.task_name@ == row.1
    &&& exists|start_offset: int, end_offset: int|
        -86400 < start_offset < 86400 && -86400 < end_offset < 86400 && #[trigger] display_info(
            row.2,
            billable_only,
            now,
            start_offset,
            end_offset,
            item.info,
        )
}

/// The items show the rows, one for one.
pub open spec fn shows_rows(rows: Seq<LogRow>, billable_only: bool, now: i64, items: Seq<DayItem>) -> bool {
    &&& items.len() == rows.len()
    &&& forall|k: int| 0 <= k < rows.len() ==> #[trigger] shows_row(rows[k], billable_only, now, items[k])
}

/// The log's entries as items shown on their days: one item per entry,
/// project by project, task by task.
pub fn day_items(projects: &Vec<ProjectSummary>, billable_only: bool, now: i64) -> (items: Vec<DayItem>)
    requires
        log_times_valid(project_views(projects@)),
        valid_timestamp(now as int),
    ensures
        shows_rows(log_rows(project_views(projects@)), billable_only, now, items@),
{
    let ghost ps = project_views(projects@);
    let mut items: Vec<DayItem> = Vec::new();
    let ghost mut rows: Seq<LogRow> = seq![];
    let mut i: usize = 0;
    assert(ps.take(0) =~= Seq::<ProjectSummaryView>::empty());
    while i < projects.len()
        invariant
            i <= projects.len(),
            ps == project_views(projects@),
            log_times_valid(ps),
            valid_timestamp(now as int),
            rows == log_rows(ps.take(i as int)),
            shows_rows(rows, billable_only, now, items@),
        decreases projects.len() - i,
    {
        let project = &projects[i];
        let ghost pv = ps[i as int];
        assert(pv == project@);
        let ghost base = rows;
        let mut j: usize = 0;
        assert(pv.tasks.take(0) =~= Seq::<TaskSummaryView>::empty());
        assert(base + tasks_rows(pv.project_name, pv.tasks.take(0)) =~= base);
        while j < project.tasks.len()
            invariant
                i < projects.len(),
                j <= project.tasks.len(),
                ps == project_views(projects@),
                project == projects@[i as int],
                pv == ps[i as int],
                pv == project@,
                log_times_valid(ps),
                valid_timestamp(now as int),
                rows == base + tasks_rows(pv.project_name, pv.tasks.take(j as int)),
                shows_rows(rows, billable_only, now, items@),
            decreases project.tasks.len() - j,
        {
            let task = &project.tasks[j];
            let ghost tv = pv.tasks[j as int];
            assert(tv == task@);
            let ghost mid = rows;
            let mut k: usize = 0;
            assert(mid + task_rows(pv.project_name, tv).take(0) =~= mid);
            while k < task.entries.len()
                invariant
                    i < projects.len(),
                    j < project.tasks.len(),
                    k <= task.entries.len(),
                    ps == project_views(projects@),
                    project == projects@[i as int],
                    task == project.tasks@[j as int],
                    pv == ps[i as int],
                    tv == pv.tasks[j as int],
                    tv == task@,
                    log_times_valid(ps),
                    valid_timestamp(now as int),
                    rows == mid + task_rows(pv.project_name, tv).take(k as int),
                    shows_rows(rows, billable_only, now, items@),
                decreases task.entries.len() - k,
            {
                let entry = &task.entries[k];
                assert(tv.entries[k as int] == entry@);
                assert(shown_times_valid(ps[i as int].tasks[j as int].entries[k as int]));
                let info = entry_display_info(entry, billable_only, now);
                let item = DayItem {
                    project_name: copy_string(&project.project_name),
                    task_name: copy_string(&task.task_name),
                    info,
                };
                let ghost row = (pv.project_name, tv.task_name, entry@);
                proof {
                    let (so, eo) = choose|so: int, eo: int|
                        -86400 < so < 86400 && -86400 < eo < 86400 && #[trigger] display_info(
                            entry@,
                            billable_only,
                            now,
                            so,
                            eo,
                            item.info,
                        );
                    assert(display_info(row.2, billable_only, now, so, eo, item.info));
                }
                assert(shows_row(row, billable_only, now, item));
                let ghost old_items = items@;
                items.push(item);
                proof {
                    let tr = task_rows(pv.project_name, tv);
                    assert(tr[k as int] == row);
                    assert(mid + tr.take(k + 1) =~= (mid + tr.take(k as int)).push(row));
                    rows = rows.push(row);
                    assert forall|q: int| 0 <= q < rows.len() implies #[trigger] shows_row(
                        rows[q],
                        billable_only,
                        now,
                        items@[q],
                    ) by {
                        if q < old_items.len() {
                            assert(items@[q] == old_items[q]);
                        }
                    }
                }
                k = k + 1;
            }
            proof {
                assert(task_rows(pv.project_name, tv).take(k as int) =~= task_rows(pv.project_name, tv));
                assert(pv.tasks.take(j + 1).drop_last() =~= pv.tasks.take(j as int));
                assert(pv.tasks.take(j + 1).last() == tv);
                assert(rows =~= base + tasks_rows(pv.project_name, pv.tasks.take(j + 1)));
            }
            j = j + 1;
        }
        proof {
            assert(pv.tasks.take(j as int) =~= pv.tasks);
            assert(ps.take(i + 1).drop_last() =~= ps.take(i as int));
            assert(ps.take(i + 1).last() == pv);
        }
        i = i + 1;
    }
    assert(ps.take(i as int) =~= ps);
    items
}

/// The log by day at `now`: every entry shown on its day (in some time zone
/// offsets of the machine), the days latest first, each day with its tasks in
/// the order of the day. `None` where a total leaves `i64`.
pub fn daily_log(projects: &Vec<ProjectSummary>, billable_only: bool, now: i64) -> (r: Option<Vec<DailyLog>>)
    requires
        log_times_valid(project_views(projects@)),
        valid_timestamp(now as int),
    ensures
        exists|items: Seq<DayItem>|
            #[trigger] shows_rows(log_rows(project_views(projects@)), billable_only, now, items)
                && match r {
                Some(logs) => daily_logs(group_days(item_views(items))) == Some(daily_log_views(logs@)),
                None => daily_logs(group_days(item_views(items))) is None,
            },
{
    let items = day_items(projects, billable_only, now);
    let ghost iv = items@;
    let r = group_by_day(items);
    assert(shows_rows(log_rows(project_views(projects@)), billable_only, now, iv));
    r
}

} // verus!

verus! {

/// The days are in strictly decreasing order.
pub open spec fn days_descending(ds: Seq<DayAcc>) -> bool {
    forall|i: int, j: int| 0 <= i < j < ds.len() ==> ds[i].day > ds[j].day
}

/// Some day of `ds` is `day`.
pub open spec fn day_listed(ds: Seq<DayAcc>, day: i64) -> bool {
    exists|d: int| 0 <= d < ds.len() && #[trigger] ds[d].day == day
}

/// Where a day goes: after the later days, at the first day not after it.
proof fn lemma_day_index_place(ds: Seq<DayAcc>, day: i64)
    ensures
        0 <= day_index(ds, day) <= ds.len(),
        forall|i: int| 0 <= i < day_index(ds, day) ==> ds[i].day > day,
        day_index(ds, day) < ds.len() ==> ds[day_index(ds, day)].day <= day,
    decreases ds.len(),
{
    if ds.len() > 0 && ds[0].day > day {
        lemma_day_index_place(ds.drop_first(), day);
        assert forall|i: int| 0 <= i < day_index(ds, day) implies ds[i].day > day by {
            if i > 0 {
                assert(ds[i] == ds.drop_first()[i - 1]);
            }
        }
    }
}

/// The log by day has each day once, latest first, and every item's day is
/// among its days.
pub proof fn lemma_days_latest_first(items: Seq<ItemView>)
    ensures
        days_descending(group_days(items)),
        forall|k: int| 0 <= k < items.len() ==> day_listed(group_days(items), #[trigger] items[k].day),
    decreases items.len(),
{
    if items.len() > 0 {
        let init = items.drop_last();
        let it = items.last();
        lemma_days_latest_first(init);
        let ds = group_days(init);
        lemma_day_index_place(ds, it.day);
        let j = day_index(ds, it.day);
        let ns = group_days(items);
        assert(ns == add_to_days(ds, it));
        if j < ds.len() && ds[j].day == it.day {
            assert forall|a: int, b: int| 0 <= a < b < ns.len() implies ns[a].day > ns[b].day by {
                assert(ds[a].day > ds[b].day);
            }
            assert forall|k: int| 0 <= k < items.len() implies day_listed(ns, #[trigger] items[k].day) by {
                if k < init.len() {
                    assert(init[k] == items[k]);
                    assert(day_listed(ds, init[k].day));
                    let d = choose|d: int| 0 <= d < ds.len() && #[trigger] ds[d].day == init[k].day;
                    assert(ns[d].day == ds[d].day);
                } else {
                    assert(ns[j].day == items[k].day);
                }
            }
        } else {
            assert forall|a: int, b: int| 0 <= a < b < ns.len() implies ns[a].day > ns[b].day by {
                if b < j {
                    assert(ds[a].day > ds[b].day);
                } else if b == j {
                    assert(ds[a].day > it.day);
                } else if a < j {
                    assert(ns[b] == ds[b - 1]);
                    if b - 1 > j {
                        assert(ds[j].day > ds[b - 1].day);
                    }
                    assert(ds[a].day > it.day);
                } else if a == j {
                    assert(ns[b] == ds[b - 1]);
                    if b - 1 > j {
                        assert(ds[j].day > ds[b - 1].day);
                    }
                } else {
                    assert(ds[a - 1].day > ds[b - 1].day);
                }
            }
            assert forall|k: int| 0 <= k < items.len() implies day_listed(ns, #[trigger] items[k].day) by {
                if k < init.len() {
                    assert(init[k] == items[k]);
                    assert(day_listed(ds, init[k].day));
                    let d = choose|d: int| 0 <= d < ds.len() && #[trigger] ds[d].day == init[k].day;
                    if d < j {
                        assert(ns[d] == ds[d]);
                    } else {
                        assert(ns[d + 1] == ds[d]);
                    }
                } else {
                    assert(ns[j].day == items[k].day);
                }
            }
        }
    }
}

} // verus!

verus! {

/// The durations of the items shown on `day`, added up.
pub open spec fn day_duration_sum(items: Seq<ItemView>, day: i64) -> int
    decreases items.len(),
{
    if items.len() == 0 {
        0
    } else {
        day_duration_sum(items.drop_last(), day) + if items.last().day == day {
            items.last().duration as int
        } else {
            0int
        }
    }
}

/// Changing one task changes the sum of totals by the change of its total.
proof fn lemma_total_of_update(ts: Seq<TaskAcc>, i: int, t: TaskAcc)
    requires
        0 <= i < ts.len(),
    ensures
        total_of(ts.update(i, t)) == total_of(ts) - ts[i].total + t.total,
    decreases ts.len(),
{
    let u = ts.update(i, t);
    if i == ts.len() - 1 {
        assert(u.drop_last() =~= ts.drop_last());
    } else {
        lemma_total_of_update(ts.drop_last(), i, t);
        assert(u.drop_last() =~= ts.drop_last().update(i, t));
    }
}

/// Adding an item to the day's tasks adds its duration to their totals.
proof fn lemma_add_to_tasks_total(ts: Seq<TaskAcc>, it: ItemView)
    ensures
        total_of(add_to_tasks(ts, it)) == total_of(ts) + it.duration,
{
    lemma_task_index_bound(ts, it.project, it.task);
    let i = task_index(ts, it.project, it.task);
    if i < ts.len() {
        let n = add_to_tasks(ts, it);
        lemma_total_of_update(
            ts,
            i,
            TaskAcc {
                project: ts[i].project,
                task: ts[i].task,
                total: ts[i].total + it.duration,
                ranges: ts[i].ranges.push(range_of(it)),
                active: ts[i].active || it.active,
            },
        );
    } else {
        let n = add_to_tasks(ts, it);
        assert(n.drop_last() =~= ts);
    }
}

/// Sorting each task's ranges keeps the totals.
proof fn lemma_sorted_ranges_total(ts: Seq<TaskAcc>)
    ensures
        total_of(sorted_ranges_of(ts)) == total_of(ts),
    decreases ts.len(),
{
    if ts.len() > 0 {
        lemma_sorted_ranges_total(ts.drop_last());
        assert(sorted_ranges_of(ts).drop_last() =~= sorted_ranges_of(ts.drop_last()));
    }
}

/// Where no item is shown on `day`, nothing is summed for it.
proof fn lemma_day_sum_absent(items: Seq<ItemView>, day: i64)
    requires
        forall|k: int| 0 <= k < items.len() ==> (#[trigger] items[k]).day != day,
    ensures
        day_duration_sum(items, day) == 0,
    decreases items.len(),
{
    if items.len() > 0 {
        let init = items.drop_last();
        assert forall|k: int| 0 <= k < init.len() implies (#[trigger] init[k]).day != day by {
            assert(init[k] == items[k]);
        }
        lemma_day_sum_absent(init, day);
        assert(items.last() == items[items.len() - 1]);
    }
}

/// Each day's tasks add up to the durations of the items shown on that day.
proof fn lemma_day_totals(items: Seq<ItemView>)
    ensures
        forall|d: int|
            0 <= d < group_days(items).len() ==> total_of(#[trigger] group_days(items)[d].tasks)
                == day_duration_sum(items, group_days(items)[d].day),
    decreases items.len(),
{
    if items.len() > 0 {
        let init = items.drop_last();
        let it = items.last();
        lemma_day_totals(init);
        lemma_days_latest_first(init);
        let ds = group_days(init);
        lemma_day_index_place(ds, it.day);
        let j = day_index(ds, it.day);
        let ns = group_days(items);
        assert(ns == add_to_days(ds, it));
        if j < ds.len() && ds[j].day == it.day {
            assert forall|d: int| 0 <= d < ns.len() implies total_of(#[trigger] ns[d].tasks)
                == day_duration_sum(items, ns[d].day) by {
                assert(total_of(ds[d].tasks) == day_duration_sum(init, ds[d].day));
                if d == j {
                    lemma_add_to_tasks_total(ds[j].tasks, it);
                } else {
                    assert(ns[d] == ds[d]);
                }
            }
        } else {
            assert forall|d: int| 0 <= d < ns.len() implies total_of(#[trigger] ns[d].tasks)
                == day_duration_sum(items, ns[d].day) by {
                if d < j {
                    assert(ns[d] == ds[d]);
                    assert(total_of(ds[d].tasks) == day_duration_sum(init, ds[d].day));
                    assert(ds[d].day > it.day);
                } else if d == j {
                    lemma_add_to_tasks_total(seq![], it);
                    assert forall|k: int| 0 <= k < init.len() implies (#[trigger] init[k]).day != it.day by {
                        assert(day_listed(ds, init[k].day));
                        let e = choose|e: int| 0 <= e < ds.len() && #[trigger] ds[e].day == init[k].day;
                        if e < j {
                            assert(ds[e].day > it.day);
                        } else if e > j {
                            assert(ds[j].day > ds[e].day);
                            assert(ds[j].day < it.day);
                        }
                    }
                    lemma_day_sum_absent(init, it.day);
                } else {
                    assert(ns[d] == ds[d - 1]);
                    assert(total_of(ds[d - 1].tasks) == day_duration_sum(init, ds[d - 1].day));
                    if j < ds.len() {
                        if d - 1 > j {
                            assert(ds[j].day > ds[d - 1].day);
                        }
                        assert(ds[j].day < it.day);
                    }
                }
            }
        }
    }
}

/// A day of the log totals the durations shown for its entries: where the
/// days' logs exist, each day's total is the sum of the durations of the
/// items shown on that day.
pub proof fn lemma_daily_total_is_day_sum(items: Seq<ItemView>, logs: Seq<DailyLogView>)
    requires
        daily_logs(group_days(items)) == Some(logs),
    ensures
        logs.len() == group_days(items).len(),
        forall|d: int| 0 <= d < logs.len() ==> (#[trigger] logs[d]).total == day_duration_sum(items, logs[d].day),
{
    lemma_day_totals(items);
    let ds = group_days(items);
    lemma_daily_logs_each(ds, logs);
    assert forall|d: int| 0 <= d < logs.len() implies (#[trigger] logs[d]).total == day_duration_sum(
        items,
        logs[d].day,
    ) by {
        assert(day_log_of(ds[d]) == Some(logs[d]));
        lemma_sorted_ranges_total(ds[d].tasks);
        assert(total_of(ds[d].tasks) == day_duration_sum(items, ds[d].day));
    }
}

/// Where the days' logs exist, there is one per day, each the day's log.
proof fn lemma_daily_logs_each(ds: Seq<DayAcc>, logs: Seq<DailyLogView>)
    requires
        daily_logs(ds) == Some(logs),
    ensures
        logs.len() == ds.len(),
        forall|d: int| 0 <= d < ds.len() ==> day_log_of(#[trigger] ds[d]) == Some(logs[d]),
    decreases ds.len(),
{
    if ds.len() > 0 {
        let init = ds.drop_last();
        match (daily_logs(init), day_log_of(ds.last())) {
            (Some(l0), Some(l)) => {
                assert(logs == l0.push(l));
                lemma_daily_logs_each(init, l0);
                assert forall|d: int| 0 <= d < ds.len() implies day_log_of(#[trigger] ds[d]) == Some(logs[d]) by {
                    if d < init.len() {
                        assert(ds[d] == init[d]);
                    }
                }
            },
            _ => {},
        }
    } else {
        assert(logs.len() == 0);
    }
}

} // verus!
