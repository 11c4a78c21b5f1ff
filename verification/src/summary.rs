//! The log: time entries grouped by task, tasks in name order, and the total
//! and billable time of each task and project.
use vstd::prelude::*;

verus! {

broadcast use vstd::seq_lib::group_seq_properties;

/// One time entry as the log shows it.
#[derive(Debug)]
pub struct TimeEntryDetail {
    pub id: String,
    /// The day the entry started, counted from 1970-01-01 (UTC).
    pub date: i64,
    pub started_at: i64,
    pub stopped_at: Option<i64>,
    pub duration_seconds: i64,
    pub billable_seconds: Option<i64>,
    pub billable_started_at: Option<i64>,
    pub billable_stopped_at: Option<i64>,
}

/// A time entry as a mathematical value.
pub struct DetailView {
    pub id: Seq<char>,
    pub date: i64,
    pub started_at: i64,
    pub stopped_at: Option<i64>,
    pub duration_seconds: i64,
    pub billable_seconds: Option<i64>,
    pub billable_started_at: Option<i64>,
    pub billable_stopped_at: Option<i64>,
}

impl View for TimeEntryDetail {
    type V = DetailView;

    open spec fn view(&self) -> DetailView {
        DetailView {
            id: self.id@,
            date: self.date,
            started_at: self.started_at,
            stopped_at: self.stopped_at,
            duration_seconds: self.duration_seconds,
            billable_seconds: self.billable_seconds,
            billable_started_at: self.billable_started_at,
            billable_stopped_at: self.billable_stopped_at,
        }
    }
}

/// The entries of one task, with the task's total and billable time.
#[derive(Debug)]
pub struct TaskSummary {
    pub task_name: String,
    pub total_seconds: i64,
    pub billable_seconds: i64,
    pub entries: Vec<TimeEntryDetail>,
}

/// The tasks of one project, with the project's total and billable time.
#[derive(Debug)]
pub struct ProjectSummary {
    pub project_name: String,
    pub total_seconds: i64,
    pub billable_seconds: i64,
    pub tasks: Vec<TaskSummary>,
}

/// An entry of the log together with the name of its task.
pub struct LogEntry {
    pub task_name: String,
    pub detail: TimeEntryDetail,
}

/// The entries of one task, not yet totalled.
pub struct TaskGroup {
    pub task_name: String,
    pub entries: Vec<TimeEntryDetail>,
}

pub open spec fn entry_views(entries: Seq<TimeEntryDetail>) -> Seq<DetailView> {
    entries.map_values(|d: TimeEntryDetail| d@)
}

pub open spec fn log_views(rows: Seq<LogEntry>) -> Seq<(Seq<char>, DetailView)> {
    rows.map_values(|r: LogEntry| (r.task_name@, r.detail@))
}

/// Names in the order of `String`'s `Ord`: character by character (UTF-8
/// bytes sort as their characters do), a proper prefix first.
pub open spec fn name_lt(a: Seq<char>, b: Seq<char>) -> bool
    decreases a.len(),
{
    if a.len() == 0 {
        b.len() > 0
    } else if b.len() == 0 {
        false
    } else if a[0] == b[0] {
        name_lt(a.drop_first(), b.drop_first())
    } else {
        (a[0] as int) < (b[0] as int)
    }
}

pub proof fn lemma_name_lt_irreflexive(a: Seq<char>)
    ensures
        !name_lt(a, a),
    decreases a.len(),
{
    if a.len() > 0 {
        lemma_name_lt_irreflexive(a.drop_first());
    }
}

pub proof fn lemma_name_lt_transitive(a: Seq<char>, b: Seq<char>, c: Seq<char>)
    requires
        name_lt(a, b),
        name_lt(b, c),
    ensures
        name_lt(a, c),
    decreases a.len(),
{
    if a.len() > 0 && b.len() > 0 && c.len() > 0 && a[0] == b[0] && b[0] == c[0] {
        lemma_name_lt_transitive(a.drop_first(), b.drop_first(), c.drop_first());
    }
}

pub proof fn lemma_name_lt_total(a: Seq<char>, b: Seq<char>)
    ensures
        a == b || name_lt(a, b) || name_lt(b, a),
    decreases a.len(),
{
    if a.len() > 0 && b.len() > 0 && a[0] == b[0] {
        lemma_name_lt_total(a.drop_first(), b.drop_first());
        if a.drop_first() == b.drop_first() {
            assert(a =~= seq![a[0]] + a.drop_first());
            assert(b =~= seq![b[0]] + b.drop_first());
        }
    } else if a.len() == 0 && b.len() == 0 {
        assert(a =~= b);
    }
}

/// How two names are ordered.
pub enum NameOrder {
    Before,
    Same,
    After,
}

/// Orders two names as `String`'s `Ord` does.
pub fn order_names(a: &str, b: &str) -> (r: NameOrder)
    ensures
        r is Before <==> name_lt(a@, b@),
        r is Same <==> a@ == b@,
        r is After <==> name_lt(b@, a@),
{
    proof {
        lemma_name_lt_irreflexive(a@);
        lemma_name_lt_total(a@, b@);
        if name_lt(a@, b@) && name_lt(b@, a@) {
            lemma_name_lt_transitive(a@, b@, a@);
        }
    }
    let la = a.unicode_len();
    let lb = b.unicode_len();
    let mut i: usize = 0;
    while i < la && i < lb
        invariant
            i <= la == a@.len(),
            lb == b@.len(),
            i <= lb,
            a@.take(i as int) == b@.take(i as int),
            name_lt(a@, b@) == name_lt(a@.skip(i as int), b@.skip(i as int)),
            name_lt(b@, a@) == name_lt(b@.skip(i as int), a@.skip(i as int)),
        decreases la - i,
    {
        let ca = a.get_char(i);
        let cb = b.get_char(i);
        assert(a@.skip(i as int)[0] == ca && b@.skip(i as int)[0] == cb);
        if ca != cb {
            if (ca as u32) < (cb as u32) {
                return NameOrder::Before;
            } else {
                return NameOrder::After;
            }
        }
        assert(a@.skip(i as int).drop_first() =~= a@.skip(i + 1));
        assert(b@.skip(i as int).drop_first() =~= b@.skip(i + 1));
        assert(a@.take(i + 1) =~= a@.take(i as int).push(ca));
        assert(b@.take(i + 1) =~= b@.take(i as int).push(cb));
        i = i + 1;
    }
    if la == lb {
        assert(a@ =~= a@.take(i as int));
        assert(b@ =~= b@.take(i as int));
        NameOrder::Same
    } else if la < lb {
        assert(a@.skip(i as int).len() == 0);
        assert(a@ != b@);
        NameOrder::Before
    } else {
        assert(b@.skip(i as int).len() == 0);
        assert(a@ != b@);
        NameOrder::After
    }
}

/// The entries of the rows whose task is `name`, in row order.
pub open spec fn entries_of(rows: Seq<(Seq<char>, DetailView)>, name: Seq<char>) -> Seq<DetailView> {
    rows.filter(of_task(name)).map_values(entry_part())
}

/// Whether a row belongs to the task `name`.
pub open spec fn of_task(name: Seq<char>) -> spec_fn((Seq<char>, DetailView)) -> bool {
    |r: (Seq<char>, DetailView)| r.0 == name
}

/// The entry of a row.
pub open spec fn entry_part() -> spec_fn((Seq<char>, DetailView)) -> DetailView {
    |r: (Seq<char>, DetailView)| r.1
}

/// `groups` (names with their entries) group `rows` by task: one group for
/// each task name of the rows, in strictly increasing name order, each with
/// the entries of that task in row order.
pub open spec fn grouped_by_task(
    rows: Seq<(Seq<char>, DetailView)>,
    groups: Seq<(Seq<char>, Seq<DetailView>)>,
) -> bool {
    &&& forall|i: int, j: int| 0 <= i < j < groups.len() ==> name_lt(groups[i].0, groups[j].0)
    &&& forall|i: int| 0 <= i < groups.len() ==> #[trigger] groups[i].1 == entries_of(rows, groups[i].0)
    &&& forall|i: int| 0 <= i < groups.len() ==> (#[trigger] groups[i].1).len() > 0
    &&& forall|k: int| 0 <= k < rows.len() ==> group_names(groups).contains(#[trigger] rows[k].0)
}

/// The names of the groups.
pub open spec fn group_names(groups: Seq<(Seq<char>, Seq<DetailView>)>) -> Seq<Seq<char>> {
    groups.map_values(|g: (Seq<char>, Seq<DetailView>)| g.0)
}

/// The names are in strictly increasing order.
pub open spec fn names_ascending(names: Seq<Seq<char>>) -> bool {
    forall|i: int, j: int| 0 <= i < j < names.len() ==> name_lt(names[i], names[j])
}

/// Two strictly increasing sequences of names with the same members are the
/// same sequence.
proof fn lemma_ascending_unique(a: Seq<Seq<char>>, b: Seq<Seq<char>>)
    requires
        names_ascending(a),
        names_ascending(b),
        forall|x: Seq<char>| a.contains(x) <==> b.contains(x),
    ensures
        a == b,
    decreases a.len(),
{
    if a.len() == 0 {
        if b.len() > 0 {
            assert(b.contains(b[0]));
        }
        assert(a =~= b);
    } else {
        assert(a.contains(a[0]));
        assert(b.contains(a[0]));
        assert(b.len() > 0);
        assert(b.contains(b[0]));
        assert(a.contains(b[0]));
        let j = choose|j: int| 0 <= j < b.len() && b[j] == a[0];
        let i = choose|i: int| 0 <= i < a.len() && a[i] == b[0];
        lemma_name_lt_irreflexive(a[0]);
        if j > 0 {
            assert(name_lt(b[0], a[0]));
            if i > 0 {
                assert(name_lt(a[0], b[0]));
                lemma_name_lt_transitive(a[0], b[0], a[0]);
            }
        }
        assert(b[0] == a[0]);
        let ta = a.drop_first();
        let tb = b.drop_first();
        assert forall|x: Seq<char>| ta.contains(x) implies tb.contains(x) by {
            let k = choose|k: int| 0 <= k < ta.len() && ta[k] == x;
            assert(a[k + 1] == x);
            assert(name_lt(a[0], x));
            lemma_name_lt_irreflexive(x);
            assert(b.contains(x));
            let m = choose|m: int| 0 <= m < b.len() && b[m] == x;
            assert(m != 0);
            assert(tb[m - 1] == x);
        }
        assert forall|x: Seq<char>| tb.contains(x) implies ta.contains(x) by {
            let k = choose|k: int| 0 <= k < tb.len() && tb[k] == x;
            assert(b[k + 1] == x);
            assert(name_lt(b[0], x));
            lemma_name_lt_irreflexive(x);
            assert(a.contains(x));
            let m = choose|m: int| 0 <= m < a.len() && a[m] == x;
            assert(m != 0);
            assert(ta[m - 1] == x);
        }
        lemma_ascending_unique(ta, tb);
        assert(a =~= seq![a[0]] + ta);
        assert(b =~= seq![b[0]] + tb);
    }
}

/// A group's name is the task of some row.
proof fn lemma_group_name_in_rows(
    rows: Seq<(Seq<char>, DetailView)>,
    groups: Seq<(Seq<char>, Seq<DetailView>)>,
    i: int,
)
    requires
        grouped_by_task(rows, groups),
        0 <= i < groups.len(),
    ensures
        exists|k: int| 0 <= k < rows.len() && #[trigger] rows[k].0 == groups[i].0,
{
    let p = of_task(groups[i].0);
    let f = rows.filter(p);
    assert(groups[i].1 == entries_of(rows, groups[i].0));
    assert(f.len() > 0);
    rows.lemma_filter_pred(p, 0);
    rows.lemma_filter_contains_rev(p, f[0]);
    let k = choose|k: int| 0 <= k < rows.len() && rows[k] == f[0];
    assert(rows[k].0 == groups[i].0);
}

/// The grouping of entries by task is unique: two groupings of the same rows
/// (names in increasing order, each with its task's entries, every task of
/// the rows present) are the same.
pub proof fn lemma_grouping_unique(
    rows: Seq<(Seq<char>, DetailView)>,
    g1: Seq<(Seq<char>, Seq<DetailView>)>,
    g2: Seq<(Seq<char>, Seq<DetailView>)>,
)
    requires
        grouped_by_task(rows, g1),
        grouped_by_task(rows, g2),
    ensures
        g1 == g2,
{
    let n1 = group_names(g1);
    let n2 = group_names(g2);
    assert forall|i: int, j: int| 0 <= i < j < n1.len() implies name_lt(n1[i], n1[j]) by {
        assert(name_lt(g1[i].0, g1[j].0));
    }
    assert forall|i: int, j: int| 0 <= i < j < n2.len() implies name_lt(n2[i], n2[j]) by {
        assert(name_lt(g2[i].0, g2[j].0));
    }
    assert forall|x: Seq<char>| n1.contains(x) implies n2.contains(x) by {
        let i = choose|i: int| 0 <= i < n1.len() && n1[i] == x;
        lemma_group_name_in_rows(rows, g1, i);
        let k = choose|k: int| 0 <= k < rows.len() && #[trigger] rows[k].0 == g1[i].0;
        assert(group_names(g2).contains(rows[k].0));
    }
    assert forall|x: Seq<char>| n2.contains(x) implies n1.contains(x) by {
        let i = choose|i: int| 0 <= i < n2.len() && n2[i] == x;
        lemma_group_name_in_rows(rows, g2, i);
        let k = choose|k: int| 0 <= k < rows.len() && #[trigger] rows[k].0 == g2[i].0;
        assert(group_names(g1).contains(rows[k].0));
    }
    lemma_ascending_unique(n1, n2);
    assert(g1.len() == n1.len() && g2.len() == n2.len());
    assert forall|i: int| 0 <= i < g1.len() implies #[trigger] g1[i] == g2[i] by {
        assert(n1[i] == g1[i].0);
        assert(n2[i] == g2[i].0);
        assert(n1[i] == n2[i]);
        assert(g1[i].1 == entries_of(rows, g1[i].0));
        assert(g2[i].1 == entries_of(rows, g2[i].0));
    }
    assert(g1 =~= g2);
}

pub open spec fn group_views(groups: Seq<TaskGroup>) -> Seq<(Seq<char>, Seq<DetailView>)> {
    groups.map_values(|g: TaskGroup| (g.task_name@, entry_views(g.entries@)))
}

proof fn lemma_entries_of_push(
    rows: Seq<(Seq<char>, DetailView)>,
    row: (Seq<char>, DetailView),
    name: Seq<char>,
)
    ensures
        entries_of(rows.push(row), name) == if row.0 == name {
            entries_of(rows, name).push(row.1)
        } else {
            entries_of(rows, name)
        },
{
    let p = of_task(name);
    rows.lemma_filter_push(row, p);
    let f = entry_part();
    if row.0 == name {
        assert(rows.push(row).filter(p) == rows.filter(p).push(row));
        assert(rows.filter(p).push(row).map_values(f) =~= rows.filter(p).map_values(f).push(row.1));
    }
}

/// Groups the entries by task: tasks in name order, each task's entries in
/// the order of the rows.
pub fn group_by_task(rows: Vec<LogEntry>) -> (groups: Vec<TaskGroup>)
    ensures
        grouped_by_task(log_views(rows@), group_views(groups@)),
{
    let ghost all = log_views(rows@);
    let total: usize = rows.len();
    let mut rest = rows;
    let mut groups: Vec<TaskGroup> = Vec::new();
    let mut k: usize = 0;
    while rest.len() > 0
        invariant
            k + rest.len() == all.len(),
            all.len() == total,
            log_views(rest@) == all.skip(k as int),
            grouped_by_task(all.take(k as int), group_views(groups@)),
        decreases rest.len(),
    {
        let ghost done = all.take(k as int);
        let ghost gv = group_views(groups@);
        let row = rest.remove(0);
        assert(log_views(rest@) =~= all.skip(k + 1));
        assert(all.skip(k as int)[0] == (row.task_name@, row.detail@));
        let ghost r = (row.task_name@, row.detail@);
        assert(all.take(k + 1) =~= done.push(r));
        // find the first group whose name is not before the row's name
        let mut p: usize = 0;
        let mut same = false;
        while p < groups.len()
            invariant_except_break
                !same,
            invariant
                p <= groups.len(),
                gv == group_views(groups@),
                r.0 == row.task_name@,
                forall|i: int| 0 <= i < p ==> name_lt(#[trigger] gv[i].0, r.0),
            ensures
                p <= groups.len(),
                forall|i: int| 0 <= i < p ==> name_lt(#[trigger] gv[i].0, r.0),
                same ==> p < groups.len() && gv[p as int].0 == r.0,
                !same ==> p == groups.len() || name_lt(r.0, gv[p as int].0),
            decreases groups.len() - p,
        {
            assert(gv[p as int].0 == groups@[p as int].task_name@);
            match order_names(groups[p].task_name.as_str(), row.task_name.as_str()) {
                NameOrder::Before => {
                    p = p + 1;
                },
                NameOrder::Same => {
                    same = true;
                    break;
                },
                NameOrder::After => {
                    break;
                },
            }
        }
        if same {
            assert(gv[p as int].0 == r.0);
            let ghost old_groups = groups@;
            let mut g = groups.remove(p);
            let ghost old_entries = g.entries@;
            g.entries.push(row.detail);
            assert(entry_views(g.entries@) =~= entry_views(old_entries).push(r.1));
            groups.insert(p, g);
            proof {
                assert(groups@ =~= old_groups.update(p as int, g));
                let nv = group_views(groups@);
                assert(nv =~= gv.update(p as int, (r.0, gv[p as int].1.push(r.1))));
                assert forall|i: int| 0 <= i < nv.len() implies #[trigger] nv[i].1 == entries_of(
                    done.push(r),
                    nv[i].0,
                ) by {
                    lemma_entries_of_push(done, r, nv[i].0);
                    if i != p {
                        let pp = p as int;
                        lemma_name_lt_irreflexive(r.0);
                        if i < pp {
                            assert(name_lt(gv[i].0, gv[pp].0));
                        } else {
                            assert(name_lt(gv[pp].0, gv[i].0));
                        }
                        assert(nv[i] == gv[i]);
                    }
                }
                assert forall|m: int| 0 <= m < done.push(r).len() implies group_names(nv).contains(
                    #[trigger] done.push(r)[m].0,
                ) by {
                    if m < done.len() {
                        assert(group_names(gv).contains(done[m].0));
                        let i = choose|i: int| 0 <= i < gv.len() && group_names(gv)[i] == done[m].0;
                        assert(nv[i].0 == gv[i].0);
                        assert(group_names(nv)[i] == done.push(r)[m].0);
                    } else {
                        assert(group_names(nv)[p as int] == done.push(r)[m].0);
                    }
                }
                assert forall|i: int| 0 <= i < nv.len() implies (#[trigger] nv[i].1).len() > 0 by {
                    assert(gv[i].1.len() > 0);
                }
                assert forall|i: int, j: int| 0 <= i < j < nv.len() implies name_lt(nv[i].0, nv[j].0) by {
                    assert(nv[i].0 == gv[i].0 && nv[j].0 == gv[j].0);
                }
                assert(grouped_by_task(done.push(r), nv));
            }
        } else {
            proof {
                if p < groups.len() {
                    lemma_name_lt_total(gv[p as int].0, r.0);
                }
            }
            let ghost name = row.task_name@;
            let mut entries: Vec<TimeEntryDetail> = Vec::new();
            entries.push(row.detail);
            groups.insert(p, TaskGroup { task_name: row.task_name, entries });
            proof {
                let nv = group_views(groups@);
                let newg = (r.0, seq![r.1]);
                assert(entry_views(seq![row.detail]) =~= seq![r.1]);
                assert(nv =~= gv.insert(p as int, newg));
                assert forall|i: int, j: int| 0 <= i < j < nv.len() implies name_lt(nv[i].0, nv[j].0) by {
                    if j < p {
                        assert(nv[i] == gv[i] && nv[j] == gv[j]);
                    } else if j == p {
                        assert(nv[i] == gv[i]);
                    } else if i < p {
                        assert(nv[i] == gv[i] && nv[j] == gv[j - 1]);
                        let pp = p as int;
                        assert(name_lt(r.0, gv[pp].0));
                        if j - 1 > pp {
                            assert(name_lt(gv[pp].0, gv[j - 1].0));
                            lemma_name_lt_transitive(r.0, gv[pp].0, gv[j - 1].0);
                        }
                        lemma_name_lt_transitive(gv[i].0, r.0, gv[j - 1].0);
                    } else if i == p {
                        assert(nv[j] == gv[j - 1]);
                        let pp = p as int;
                        if j - 1 > pp {
                            assert(name_lt(gv[pp].0, gv[j - 1].0));
                            lemma_name_lt_transitive(r.0, gv[pp].0, gv[j - 1].0);
                        }
                    } else {
                        assert(nv[i] == gv[i - 1] && nv[j] == gv[j - 1]);
                    }
                }
                assert forall|i: int| 0 <= i < gv.len() implies #[trigger] gv[i].0 != r.0 by {
                    lemma_name_lt_irreflexive(r.0);
                    let pp = p as int;
                    if i > pp {
                        assert(name_lt(gv[pp].0, gv[i].0));
                        lemma_name_lt_transitive(r.0, gv[pp].0, gv[i].0);
                    }
                }
                assert(entries_of(done, r.0).len() == 0) by {
                    let pr = of_task(r.0);
                    if done.filter(pr).len() > 0 {
                        let x = done.filter(pr)[0];
                        done.lemma_filter_pred(pr, 0);
                        assert(done.filter(pr).contains(x));
                        done.lemma_filter_contains_rev(pr, x);
                        assert(done.contains(x));
                        let m = choose|m: int| 0 <= m < done.len() && done[m] == x;
                        assert(group_names(gv).contains(done[m].0));
                        let i = choose|i: int| 0 <= i < gv.len() && group_names(gv)[i] == done[m].0;
                        assert(gv[i].0 == r.0);
                    }
                }
                assert forall|i: int| 0 <= i < nv.len() implies #[trigger] nv[i].1 == entries_of(
                    done.push(r),
                    nv[i].0,
                ) by {
                    lemma_entries_of_push(done, r, nv[i].0);
                    if i == p {
                        assert(entries_of(done, r.0).push(r.1) =~= seq![r.1]);
                    } else if i < p {
                        assert(nv[i] == gv[i]);
                    } else {
                        assert(nv[i] == gv[i - 1]);
                    }
                }
                assert forall|m: int| 0 <= m < done.push(r).len() implies group_names(nv).contains(
                    #[trigger] done.push(r)[m].0,
                ) by {
                    if m < done.len() {
                        assert(group_names(gv).contains(done[m].0));
                        let i = choose|i: int| 0 <= i < gv.len() && group_names(gv)[i] == done[m].0;
                        if i < p {
                            assert(group_names(nv)[i] == done.push(r)[m].0);
                        } else {
                            assert(group_names(nv)[i + 1] == done.push(r)[m].0);
                        }
                    } else {
                        assert(group_names(nv)[p as int] == done.push(r)[m].0);
                    }
                }
                assert forall|i: int| 0 <= i < nv.len() implies (#[trigger] nv[i].1).len() > 0 by {
                    if i < p {
                        assert(nv[i] == gv[i]);
                    } else if i > p {
                        assert(nv[i] == gv[i - 1]);
                    }
                }
                assert(grouped_by_task(done.push(r), nv));
            }
        }
        k = k + 1;
    }
    assert(all.take(k as int) =~= all);
    groups
}


/// The sum of the values.
pub open spec fn sum_of(s: Seq<i64>) -> int
    decreases s.len(),
{
    if s.len() == 0 {
        0
    } else {
        sum_of(s.drop_last()) + s.last()
    }
}

/// Every running sum of the values, the whole sum included, fits in an `i64`.
pub open spec fn running_sums_fit(s: Seq<i64>) -> bool {
    forall|k: int| 0 <= k <= s.len() ==> i64::MIN <= #[trigger] sum_of(s.take(k)) <= i64::MAX
}

/// The sum of the values, where adding them up in order never leaves the
/// range of `i64`.
pub open spec fn checked_sum(s: Seq<i64>) -> Option<i64> {
    if running_sums_fit(s) {
        Some(sum_of(s) as i64)
    } else {
        None
    }
}

/// Adds the values up in order; `None` where a running sum leaves the range
/// of `i64`.
pub fn checked_total(values: &Vec<i64>) -> (r: Option<i64>)
    ensures
        r == checked_sum(values@),
{
    let mut acc: i64 = 0;
    let mut i: usize = 0;
    assert(values@.take(0) =~= Seq::<i64>::empty());
    while i < values.len()
        invariant
            i <= values.len(),
            acc == sum_of(values@.take(i as int)),
            forall|k: int| 0 <= k <= i ==> i64::MIN <= #[trigger] sum_of(values@.take(k)) <= i64::MAX,
        decreases values.len() - i,
    {
        assert(values@.take(i + 1).drop_last() =~= values@.take(i as int));
        match acc.checked_add(values[i]) {
            Some(next) => {
                acc = next;
            },
            None => {
                assert(!(i64::MIN <= sum_of(values@.take(i + 1)) <= i64::MAX));
                return None;
            },
        }
        i = i + 1;
    }
    assert(values@.take(values.len() as int) =~= values@);
    Some(acc)
}

/// A task's entries with their totals, as a mathematical value.
pub struct TaskSummaryView {
    pub task_name: Seq<char>,
    pub total_seconds: i64,
    pub billable_seconds: i64,
    pub entries: Seq<DetailView>,
}

impl View for TaskSummary {
    type V = TaskSummaryView;

    open spec fn view(&self) -> TaskSummaryView {
        TaskSummaryView {
            task_name: self.task_name@,
            total_seconds: self.total_seconds,
            billable_seconds: self.billable_seconds,
            entries: entry_views(self.entries@),
        }
    }
}

/// The actual durations of the entries.
pub open spec fn duration_values(es: Seq<DetailView>) -> Seq<i64> {
    es.map_values(|d: DetailView| d.duration_seconds)
}

/// The billable durations of the entries: the rounded one where there is one,
/// the actual one otherwise.
pub open spec fn billable_values(es: Seq<DetailView>) -> Seq<i64> {
    es.map_values(
        |d: DetailView|
            match d.billable_seconds {
                Some(b) => b,
                None => d.duration_seconds,
            },
    )
}

/// A task with its entries and totals; `None` where a total leaves `i64`.
pub open spec fn task_summary_of(name: Seq<char>, es: Seq<DetailView>) -> Option<TaskSummaryView> {
    match (checked_sum(duration_values(es)), checked_sum(billable_values(es))) {
        (Some(t), Some(b)) => Some(
            TaskSummaryView { task_name: name, total_seconds: t, billable_seconds: b, entries: es },
        ),
        _ => None,
    }
}

/// Totals the entries of one task.
pub fn summarize_task(group: TaskGroup) -> (r: Option<TaskSummary>)
    ensures
        r matches Some(t) ==> task_summary_of(group.task_name@, entry_views(group.entries@)) == Some(
            t@,
        ),
        r is None ==> task_summary_of(group.task_name@, entry_views(group.entries@)) is None,
{
    let ghost es = entry_views(group.entries@);
    let mut durations: Vec<i64> = Vec::new();
    let mut billables: Vec<i64> = Vec::new();
    let mut i: usize = 0;
    while i < group.entries.len()
        invariant
            i <= group.entries.len(),
            es == entry_views(group.entries@),
            durations@ == duration_values(es.take(i as int)),
            billables@ == billable_values(es.take(i as int)),
        decreases group.entries.len() - i,
    {
        let e = &group.entries[i];
        durations.push(e.duration_seconds);
        billables.push(
            match e.billable_seconds {
                Some(b) => b,
                None => e.duration_seconds,
            },
        );
        i = i + 1;
        assert(durations@ =~= duration_values(es.take(i as int)));
        assert(billables@ =~= billable_values(es.take(i as int)));
    }
    assert(es.take(i as int) =~= es);
    let total = checked_total(&durations);
    let billable = checked_total(&billables);
    match (total, billable) {
        (Some(t), Some(b)) => Some(
            TaskSummary {
                task_name: group.task_name,
                total_seconds: t,
                billable_seconds: b,
                entries: group.entries,
            },
        ),
        _ => None,
    }
}

/// A project with its tasks and totals, as a mathematical value.
pub struct ProjectSummaryView {
    pub project_name: Seq<char>,
    pub total_seconds: i64,
    pub billable_seconds: i64,
    pub tasks: Seq<TaskSummaryView>,
}

impl View for ProjectSummary {
    type V = ProjectSummaryView;

    open spec fn view(&self) -> ProjectSummaryView {
        ProjectSummaryView {
            project_name: self.project_name@,
            total_seconds: self.total_seconds,
            billable_seconds: self.billable_seconds,
            tasks: self.tasks@.map_values(|t: TaskSummary| t@),
        }
    }
}

pub open spec fn project_views(ps: Seq<ProjectSummary>) -> Seq<ProjectSummaryView> {
    ps.map_values(|p: ProjectSummary| p@)
}

/// The tasks with their entries, in the form `grouped_by_task` speaks of.
pub open spec fn task_groups(tasks: Seq<TaskSummaryView>) -> Seq<(Seq<char>, Seq<DetailView>)> {
    tasks.map_values(|t: TaskSummaryView| (t.task_name, t.entries))
}

/// `p` is the log of the project `name` with the entries `rows`: the entries
/// grouped by task in name order, each task totalled, and the project's
/// totals the sums of its tasks' totals.
pub open spec fn summarizes(
    name: Seq<char>,
    rows: Seq<(Seq<char>, DetailView)>,
    p: ProjectSummaryView,
) -> bool {
    &&& p.project_name == name
    &&& grouped_by_task(rows, task_groups(p.tasks))
    &&& forall|i: int|
        0 <= i < p.tasks.len() ==> task_summary_of(p.tasks[i].task_name, p.tasks[i].entries) == Some(
            #[trigger] p.tasks[i],
        )
    &&& checked_sum(task_totals(p.tasks)) == Some(p.total_seconds)
    &&& checked_sum(task_billables(p.tasks)) == Some(p.billable_seconds)
}

/// A summary of the rows leaves no total out of range: where the log of a
/// project exists, its entries' totals do not overflow (the grouping being
/// unique).
pub proof fn lemma_summary_excludes_overflow(
    name: Seq<char>,
    rows: Seq<(Seq<char>, DetailView)>,
    p: ProjectSummaryView,
)
    requires
        summarizes(name, rows, p),
    ensures
        !totals_overflow(rows),
{
    let g = task_groups(p.tasks);
    assert forall|i: int| 0 <= i < g.len() implies #[trigger] task_summary_of(g[i].0, g[i].1) is Some by {
        assert(g[i] == (p.tasks[i].task_name, p.tasks[i].entries));
        assert(task_summary_of(p.tasks[i].task_name, p.tasks[i].entries) == Some(p.tasks[i]));
    }
    assert forall|i: int| 0 <= i < g.len() implies group_totals(g)[i] == task_totals(p.tasks)[i]
        && group_billables(g)[i] == task_billables(p.tasks)[i] by {
        assert(g[i] == (p.tasks[i].task_name, p.tasks[i].entries));
        assert(task_summary_of(p.tasks[i].task_name, p.tasks[i].entries) == Some(p.tasks[i]));
    }
    assert(group_totals(g) =~= task_totals(p.tasks));
    assert(group_billables(g) =~= task_billables(p.tasks));
    assert(!group_totals_overflow(g));
    if totals_overflow(rows) {
        let other = choose|other: Seq<(Seq<char>, Seq<DetailView>)>|
            #[trigger] grouped_by_task(rows, other) && group_totals_overflow(other);
        lemma_grouping_unique(rows, g, other);
    }
}

/// The total time of each task.
pub open spec fn task_totals(tasks: Seq<TaskSummaryView>) -> Seq<i64> {
    tasks.map_values(|t: TaskSummaryView| t.total_seconds)
}

/// The billable time of each task.
pub open spec fn task_billables(tasks: Seq<TaskSummaryView>) -> Seq<i64> {
    tasks.map_values(|t: TaskSummaryView| t.billable_seconds)
}

/// Grouped by task, the entries `rows` give a total out of the range of
/// `i64`: for some task, or for the project.
pub open spec fn totals_overflow(rows: Seq<(Seq<char>, DetailView)>) -> bool {
    exists|groups: Seq<(Seq<char>, Seq<DetailView>)>|
        #[trigger] grouped_by_task(rows, groups) && group_totals_overflow(groups)
}

/// Some task's total, or a total of the tasks, leaves the range of `i64`.
pub open spec fn group_totals_overflow(groups: Seq<(Seq<char>, Seq<DetailView>)>) -> bool {
    ||| exists|i: int| 0 <= i < groups.len() && #[trigger] task_summary_of(groups[i].0, groups[i].1) is None
    ||| checked_sum(group_totals(groups)) is None
    ||| checked_sum(group_billables(groups)) is None
}

/// The total time of each group's entries.
pub open spec fn group_totals(groups: Seq<(Seq<char>, Seq<DetailView>)>) -> Seq<i64> {
    groups.map_values(|g: (Seq<char>, Seq<DetailView>)| sum_of(duration_values(g.1)) as i64)
}

/// The billable time of each group's entries.
pub open spec fn group_billables(groups: Seq<(Seq<char>, Seq<DetailView>)>) -> Seq<i64> {
    groups.map_values(|g: (Seq<char>, Seq<DetailView>)| sum_of(billable_values(g.1)) as i64)
}

/// The log of one project with the given entries, which are not all of
/// one... (at least one entry): entries grouped by task in name order,
/// totals per task and for the project. `None` where a total leaves `i64`.
pub fn summarize_project(project_name: String, rows: Vec<LogEntry>) -> (r: Option<ProjectSummary>)
    ensures
        r matches Some(p) ==> summarizes(project_name@, log_views(rows@), p@),
        r is None <==> totals_overflow(log_views(rows@)),
{
    let ghost all = log_views(rows@);
    let mut groups = group_by_task(rows);
    let ghost gv = group_views(groups@);
    let mut tasks: Vec<TaskSummary> = Vec::new();
    let mut totals: Vec<i64> = Vec::new();
    let mut billables: Vec<i64> = Vec::new();
    let ghost mut done: int = 0;
    while groups.len() > 0
        invariant
            all == log_views(rows@),
            grouped_by_task(all, gv),
            done + groups.len() == gv.len(),
            group_views(groups@) == gv.skip(done),
            tasks.len() == done,
            forall|i: int|
                0 <= i < done ==> (#[trigger] tasks@[i]@).task_name == gv[i].0 && tasks@[i]@.entries
                    == gv[i].1 && task_summary_of(gv[i].0, gv[i].1) == Some(tasks@[i]@),
            totals@ == tasks@.map_values(|t: TaskSummary| t.total_seconds),
            billables@ == tasks@.map_values(|t: TaskSummary| t.billable_seconds),
        decreases groups.len(),
    {
        let g = groups.remove(0);
        assert(group_views(groups@) =~= gv.skip(done + 1));
        assert(gv.skip(done)[0] == (g.task_name@, entry_views(g.entries@)));
        match summarize_task(g) {
            Some(t) => {
                totals.push(t.total_seconds);
                billables.push(t.billable_seconds);
                tasks.push(t);
                proof {
                    done = done + 1;
                }
                assert(totals@ =~= tasks@.map_values(|t: TaskSummary| t.total_seconds));
                assert(billables@ =~= tasks@.map_values(|t: TaskSummary| t.billable_seconds));
            },
            None => {
                assert(task_summary_of(gv[done].0, gv[done].1) is None);
                assert(group_totals_overflow(gv));
                assert(totals_overflow(all));
                return None;
            },
        }
    }
    let ghost tv = tasks@.map_values(|t: TaskSummary| t@);
    assert(task_groups(tv) =~= gv);
    assert(totals@ =~= task_totals(tv));
    assert(billables@ =~= task_billables(tv));
    assert(group_totals(gv) =~= totals@);
    assert(group_billables(gv) =~= billables@);
    let total = checked_total(&totals);
    let billable = checked_total(&billables);
    match (total, billable) {
        (Some(t), Some(b)) => {
            let p = ProjectSummary { project_name, total_seconds: t, billable_seconds: b, tasks };
            assert(p@.tasks == tv);
            assert forall|i: int| 0 <= i < tv.len() implies task_summary_of(
                tv[i].task_name,
                tv[i].entries,
            ) == Some(#[trigger] tv[i]) by {
                assert(tv[i] == tasks@[i]@);
            }
            assert(grouped_by_task(all, task_groups(tv)));
            proof {
                lemma_summary_excludes_overflow(project_name@, all, p@);
            }
            Some(p)
        },
        _ => {
            assert(group_totals_overflow(gv));
            assert(totals_overflow(all));
            None
        },
    }
}

} // verus!

verus! {

/// The entry of each row.
pub open spec fn row_entries(rows: Seq<(Seq<char>, DetailView)>) -> Seq<DetailView> {
    rows.map_values(|r: (Seq<char>, DetailView)| r.1)
}

/// The sum, over the names, of the values `f` gives the entries of each
/// name's task.
spec fn names_sum(
    rows: Seq<(Seq<char>, DetailView)>,
    names: Seq<Seq<char>>,
    f: spec_fn(DetailView) -> i64,
) -> int
    decreases names.len(),
{
    if names.len() == 0 {
        0
    } else {
        names_sum(rows, names.drop_last(), f) + sum_of(entries_of(rows, names.last()).map_values(f))
    }
}

proof fn lemma_sum_push(s: Seq<i64>, x: i64)
    ensures
        sum_of(s.push(x)) == sum_of(s) + x,
{
    assert(s.push(x).drop_last() =~= s);
}

proof fn lemma_checked_sum_value(s: Seq<i64>, v: i64)
    requires
        checked_sum(s) == Some(v),
    ensures
        v == sum_of(s),
{
    assert(s.take(s.len() as int) =~= s);
    assert(i64::MIN <= sum_of(s.take(s.len() as int)) <= i64::MAX);
}

proof fn lemma_names_sum_empty_rows(names: Seq<Seq<char>>, f: spec_fn(DetailView) -> i64)
    ensures
        names_sum(Seq::empty(), names, f) == 0,
    decreases names.len(),
{
    if names.len() > 0 {
        lemma_names_sum_empty_rows(names.drop_last(), f);
        let e = entries_of(Seq::empty(), names.last());
        assert(Seq::<(Seq<char>, DetailView)>::empty().filter(of_task(names.last())) =~= Seq::empty())
            by {
            Seq::<(Seq<char>, DetailView)>::empty().lemma_filter_len(of_task(names.last()));
        }
        assert(e.map_values(f) =~= Seq::<i64>::empty());
    }
}

/// One more row adds its value to the sum of its task's name, where the
/// names hold it once.
proof fn lemma_names_sum_push(
    rows: Seq<(Seq<char>, DetailView)>,
    row: (Seq<char>, DetailView),
    names: Seq<Seq<char>>,
    f: spec_fn(DetailView) -> i64,
)
    requires
        names_ascending(names),
    ensures
        names_sum(rows.push(row), names, f) == names_sum(rows, names, f) + if names.contains(row.0) {
            f(row.1) as int
        } else {
            0int
        },
    decreases names.len(),
{
    if names.len() > 0 {
        let init = names.drop_last();
        let last = names.last();
        assert(names_ascending(init)) by {
            assert forall|i: int, j: int| 0 <= i < j < init.len() implies name_lt(init[i], init[j]) by {
                assert(init[i] == names[i] && init[j] == names[j]);
            }
        }
        lemma_names_sum_push(rows, row, init, f);
        lemma_entries_of_push(rows, row, last);
        let e = entries_of(rows, last);
        if row.0 == last {
            assert(e.push(row.1).map_values(f) =~= e.map_values(f).push(f(row.1)));
            lemma_sum_push(e.map_values(f), f(row.1));
            assert(names.contains(row.0));
            assert(!init.contains(row.0)) by {
                if init.contains(row.0) {
                    let i = choose|i: int| 0 <= i < init.len() && init[i] == row.0;
                    assert(name_lt(names[i], names[names.len() - 1]));
                    lemma_name_lt_irreflexive(row.0);
                }
            }
        } else {
            assert(names.contains(row.0) == init.contains(row.0)) by {
                if names.contains(row.0) {
                    let i = choose|i: int| 0 <= i < names.len() && names[i] == row.0;
                    assert(i != names.len() - 1);
                    assert(init[i] == row.0);
                }
                if init.contains(row.0) {
                    let i = choose|i: int| 0 <= i < init.len() && init[i] == row.0;
                    assert(names[i] == row.0);
                }
            }
        }
    }
}

/// Summed name by name, over names that hold every row's task once, the
/// values of the rows' entries add up to the sum over all rows.
proof fn lemma_names_sum_all(
    rows: Seq<(Seq<char>, DetailView)>,
    names: Seq<Seq<char>>,
    f: spec_fn(DetailView) -> i64,
)
    requires
        names_ascending(names),
        forall|k: int| 0 <= k < rows.len() ==> names.contains(#[trigger] rows[k].0),
    ensures
        names_sum(rows, names, f) == sum_of(row_entries(rows).map_values(f)),
    decreases rows.len(),
{
    if rows.len() == 0 {
        lemma_names_sum_empty_rows(names, f);
        assert(rows =~= Seq::empty());
        assert(row_entries(rows).map_values(f) =~= Seq::<i64>::empty());
    } else {
        let init = rows.drop_last();
        let row = rows.last();
        assert forall|k: int| 0 <= k < init.len() implies names.contains(#[trigger] init[k].0) by {
            assert(init[k] == rows[k]);
        }
        lemma_names_sum_all(init, names, f);
        assert(init.push(row) =~= rows);
        lemma_names_sum_push(init, row, names, f);
        assert(names.contains(rows[rows.len() - 1].0));
        assert(row_entries(rows).map_values(f) =~= row_entries(init).map_values(f).push(f(row.1)));
        lemma_sum_push(row_entries(init).map_values(f), f(row.1));
    }
}

/// The sum of the tasks' values, each the sum over that task's entries, is
/// the sum over the task names of the rows.
proof fn lemma_task_values_sum(
    rows: Seq<(Seq<char>, DetailView)>,
    tasks: Seq<TaskSummaryView>,
    values: Seq<i64>,
    f: spec_fn(DetailView) -> i64,
)
    requires
        values.len() == tasks.len(),
        forall|i: int|
            0 <= i < tasks.len() ==> #[trigger] values[i] == sum_of(
                entries_of(rows, tasks[i].task_name).map_values(f),
            ),
    ensures
        sum_of(values) == names_sum(rows, group_names(task_groups(tasks)), f),
    decreases tasks.len(),
{
    if tasks.len() > 0 {
        let ti = tasks.drop_last();
        let vi = values.drop_last();
        assert forall|i: int| 0 <= i < ti.len() implies #[trigger] vi[i] == sum_of(
            entries_of(rows, ti[i].task_name).map_values(f),
        ) by {
            assert(vi[i] == values[i] && ti[i] == tasks[i]);
        }
        lemma_task_values_sum(rows, ti, vi, f);
        assert(group_names(task_groups(tasks)).drop_last() =~= group_names(task_groups(ti)));
        assert(group_names(task_groups(tasks)).last() == tasks.last().task_name);
        assert(values.last() == values[values.len() - 1]);
    }
}

/// A project's total time is the sum of the durations of all its entries,
/// and its billable time the sum of their billable durations (the actual
/// duration where an entry has none): grouping by task loses and repeats
/// no entry.
pub proof fn lemma_project_totals_are_entry_sums(
    name: Seq<char>,
    rows: Seq<(Seq<char>, DetailView)>,
    p: ProjectSummaryView,
)
    requires
        summarizes(name, rows, p),
    ensures
        p.total_seconds == sum_of(duration_values(row_entries(rows))),
        p.billable_seconds == sum_of(billable_values(row_entries(rows))),
{
    let fd = |d: DetailView| d.duration_seconds;
    let fb = |d: DetailView|
        match d.billable_seconds {
            Some(b) => b,
            None => d.duration_seconds,
        };
    let g = task_groups(p.tasks);
    let names = group_names(g);
    assert forall|i: int, j: int| 0 <= i < j < names.len() implies name_lt(names[i], names[j]) by {
        assert(name_lt(g[i].0, g[j].0));
    }
    assert forall|k: int| 0 <= k < rows.len() implies names.contains(#[trigger] rows[k].0) by {
        assert(group_names(g).contains(rows[k].0));
    }
    let totals = task_totals(p.tasks);
    let billables = task_billables(p.tasks);
    assert forall|i: int| #![trigger totals[i]] #![trigger billables[i]]
        0 <= i < p.tasks.len() implies totals[i] == sum_of(
            entries_of(rows, p.tasks[i].task_name).map_values(fd),
        ) && billables[i] == sum_of(entries_of(rows, p.tasks[i].task_name).map_values(fb)) by {
        let t = p.tasks[i];
        assert(task_summary_of(t.task_name, t.entries) == Some(t));
        assert(g[i] == (t.task_name, t.entries));
        assert(g[i].1 == entries_of(rows, g[i].0));
        assert(duration_values(t.entries) =~= t.entries.map_values(fd));
        assert(billable_values(t.entries) =~= t.entries.map_values(fb));
        lemma_checked_sum_value(duration_values(t.entries), t.total_seconds);
        lemma_checked_sum_value(billable_values(t.entries), t.billable_seconds);
    }
    lemma_task_values_sum(rows, p.tasks, totals, fd);
    lemma_task_values_sum(rows, p.tasks, billables, fb);
    lemma_names_sum_all(rows, names, fd);
    lemma_names_sum_all(rows, names, fb);
    lemma_checked_sum_value(totals, p.total_seconds);
    lemma_checked_sum_value(billables, p.billable_seconds);
    assert(duration_values(row_entries(rows)) =~= row_entries(rows).map_values(fd));
    assert(billable_values(row_entries(rows)) =~= row_entries(rows).map_values(fb));
}

} // verus!
