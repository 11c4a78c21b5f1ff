//! The command line's commands that decide: what starting, continuing and
//! amending do with the database, in which order, and when they refuse.
use vstd::prelude::*;
use crate::db::{
    ACTIVE_SELECT_SQL, ActiveEntry, Database, DbError, SquashResult, day_start_squashed, entry_amended, LAST_STOP_SELECT_SQL, LAST_TASK_SELECT_SQL, Project,
    Task, TimeEntry, active_entry_read, added, entry_started, extends, is_call, last_stop_read,
    last_task_read, project_got, task_got,
};
use crate::input::{DAY_FORMAT, UNSUPPORTED_DAY, parse_day, timestamp_answer_at};
use crate::sql::SqlCall;
use crate::summary::{NameOrder, order_names};
use crate::time::{Clock, day_of, now, local_offset_at, naive_date_from_text, spec_day, valid_timestamp, within_a_day};

verus! {

/// Why a start (or a continuation) did not happen.
#[derive(Debug)]
pub enum TrackError {
    /// Time is already being tracked for this project and task.
    AlreadyTracking { project: String, task: String },
    /// The lookup of the running entry failed.
    CheckFailed(DbError),
    /// Getting or making the project failed.
    ProjectFailed(DbError),
    /// Getting or making the task failed.
    TaskFailed(DbError),
    /// The start given could not be read; the message says why.
    BadStart(String),
    /// A start from the last stop was asked for, but no entry has stopped.
    NoPreviousStop,
    /// The lookup of the last stop failed.
    LastStopFailed(DbError),
    /// No entry has stopped, so there is no task to continue.
    NoPreviousTask,
    /// The lookup of the last task failed.
    LastTaskFailed(DbError),
    /// Inserting the entry failed.
    StartFailed(DbError),
}

/// The text given, if any, as a sequence of characters.
pub open spec fn text_view(t: Option<&str>) -> Option<Seq<char>> {
    match t {
        Some(s) => Some(s@),
        None => None,
    }
}

/// `calls` is the one insertion of an entry for the task from `start`, which
/// succeeded (`Ok`) or failed with the error.
pub open spec fn entry_inserted(
    task_id: i64,
    round: bool,
    start: i64,
    calls: Seq<SqlCall>,
    o: Result<(), DbError>,
) -> bool {
    &&& calls.len() == 1
    &&& exists|e: Result<TimeEntry, DbError>|
        #[trigger] entry_started(task_id, round, start, calls[0], e) && match e {
            Ok(_) => o is Ok,
            Err(x) => o == Err::<(), DbError>(x),
        }
}

/// The start inserted from `start`: `Ok(start)`, or the insertion's error.
pub open spec fn started_from(
    task_id: i64,
    round: bool,
    start: i64,
    calls: Seq<SqlCall>,
    r: Result<i64, TrackError>,
) -> bool {
    exists|o: Result<(), DbError>|
        #[trigger] entry_inserted(task_id, round, start, calls, o) && match o {
            Ok(_) => r == Ok::<i64, TrackError>(start),
            Err(x) => r == Err::<i64, TrackError>(TrackError::StartFailed(x)),
        }
}

/// The clock readings taken to go from `before` to `after`.
pub open spec fn readings_taken<A>(before: Seq<A>, after: Seq<A>) -> Seq<A> {
    after.skip(before.len() as int)
}

/// `after` is `before` with more readings written down.
pub open spec fn readings_extend<A>(before: Seq<A>, after: Seq<A>) -> bool {
    after.len() >= before.len() && after.take(before.len() as int) == before
}

/// After the task was got, with the clock readings `clock` taken: the start
/// chosen (the one given, a time of day on the day of the one reading; else
/// the last stop, with no reading; else the one reading itself) and the
/// entry inserted.
pub open spec fn start_chosen(
    task_id: i64,
    round: bool,
    given: Option<Seq<char>>,
    from_last_stop: bool,
    calls: Seq<SqlCall>,
    clock: Seq<i64>,
    zones: Seq<(i64, i32)>,
    r: Result<i64, TrackError>,
) -> bool {
    match given {
        Some(text) => {
            &&& clock.len() == 1
            &&& zones.len() == 1
            &&& zones[0].0 == clock[0]
            &&& started_as_given(task_id, round, text, calls, clock[0], zones[0].1, r)
        },
        None => zones.len() == 0 && if from_last_stop {
            clock.len() == 0 && started_at_last_stop(task_id, round, calls, r)
        } else {
            clock.len() == 1 && started_now(task_id, round, calls, clock[0], r)
        },
    }
}

/// The start read from `text` when the clock showed `now` and the machine's
/// clock was `offset` seconds ahead of UTC (a time of day on that day); no
/// call where it cannot be read.
pub open spec fn started_as_given(
    task_id: i64,
    round: bool,
    text: Seq<char>,
    calls: Seq<SqlCall>,
    now: i64,
    offset: i32,
    r: Result<i64, TrackError>,
) -> bool {
    exists|p: Result<i64, String>|
        #[trigger] timestamp_answer_at(text, now as int, offset as int, p) && match p {
            Ok(t) => valid_timestamp(t as int) && started_from(task_id, round, t, calls, r),
            Err(m) => calls.len() == 0 && r == Err::<i64, TrackError>(TrackError::BadStart(m)),
        }
}

/// The start taken from the last stop, which one query reads.
pub open spec fn started_at_last_stop(
    task_id: i64,
    round: bool,
    calls: Seq<SqlCall>,
    r: Result<i64, TrackError>,
) -> bool {
    &&& calls.len() >= 1
    &&& is_call(calls[0], LAST_STOP_SELECT_SQL@, seq![])
    &&& exists|l: Result<Option<i64>, DbError>|
        #[trigger] last_stop_read(calls[0].outcome, l) && match l {
            Ok(Some(t)) => started_from(task_id, round, t, calls.skip(1), r),
            Ok(None) => calls.len() == 1 && r == Err::<i64, TrackError>(TrackError::NoPreviousStop),
            Err(x) => calls.len() == 1 && r == Err::<i64, TrackError>(TrackError::LastStopFailed(x)),
        }
}

/// The start taken from the clock: the instant `now` it showed.
pub open spec fn started_now(task_id: i64, round: bool, calls: Seq<SqlCall>, now: i64, r: Result<i64, TrackError>) -> bool {
    started_from(task_id, round, now, calls, r)
}

/// After nothing was found running: the project got (or made), then its
/// task, then the start.
pub open spec fn project_task_start(
    project: Seq<char>,
    task: Seq<char>,
    round: bool,
    given: Option<Seq<char>>,
    from_last_stop: bool,
    calls: Seq<SqlCall>,
    clock: Seq<i64>,
    zones: Seq<(i64, i32)>,
    r: Result<i64, TrackError>,
) -> bool {
    exists|k: int, p: Result<Project, DbError>|
        0 <= k <= calls.len() && #[trigger] project_got(project, calls.take(k), p) && match p {
            Err(x) => k == calls.len() && clock.len() == 0 && zones.len() == 0 && r == Err::<i64, TrackError>(
                TrackError::ProjectFailed(x),
            ),
            Ok(pr) => exists|j: int, t: Result<Task, DbError>|
                k <= j <= calls.len() && #[trigger] task_got(pr.id, task, calls.subrange(k, j), t)
                    && match t {
                    Err(x) => j == calls.len() && clock.len() == 0 && zones.len() == 0 && r == Err::<i64, TrackError>(
                        TrackError::TaskFailed(x),
                    ),
                    Ok(tk) => start_chosen(tk.id, round, given, from_last_stop, calls.skip(j), clock, zones, r),
                },
        }
}

/// The lookup of the running entry that opens a start or a continuation:
/// `calls[0]`, read as `a`; `Some` entry refuses with its names, an error
/// stops with it, `None` goes on with the rest of the calls.
pub open spec fn nothing_running<T>(
    calls: Seq<SqlCall>,
    a: Result<Option<ActiveEntry>, DbError>,
    r: Result<T, TrackError>,
    rest: bool,
) -> bool {
    &&& calls.len() >= 1
    &&& is_call(calls[0], ACTIVE_SELECT_SQL@, seq![])
    &&& active_entry_read(calls[0].outcome, a)
    &&& match a {
        Err(x) => calls.len() == 1 && r == Err::<T, TrackError>(TrackError::CheckFailed(x)),
        Ok(Some(e)) => calls.len() == 1 && r == Err::<T, TrackError>(
            TrackError::AlreadyTracking { project: e.project_name, task: e.task_name },
        ),
        Ok(None) => rest,
    }
}

/// What starting to track does, call by call: it looks for a running entry
/// and refuses while one runs; gets (or makes) the project and the task;
/// chooses the start; inserts the entry. `Ok` holds the start.
pub open spec fn tracking_started(
    project: Seq<char>,
    task: Seq<char>,
    round: bool,
    given: Option<Seq<char>>,
    from_last_stop: bool,
    calls: Seq<SqlCall>,
    clock: Seq<i64>,
    zones: Seq<(i64, i32)>,
    r: Result<i64, TrackError>,
) -> bool {
    exists|a: Result<Option<ActiveEntry>, DbError>|
        #[trigger] nothing_running(
            calls,
            a,
            r,
            project_task_start(project, task, round, given, from_last_stop, calls.skip(1), clock, zones, r),
        ) && (!(a matches Ok(None)) ==> clock.len() == 0 && zones.len() == 0)
}

/// `added(a, c)` is `added(a, b)` followed by `added(b, c)`.
proof fn lemma_added_concat(a: Seq<SqlCall>, b: Seq<SqlCall>, c: Seq<SqlCall>)
    requires
        extends(a, b),
        extends(b, c),
    ensures
        extends(a, c),
        added(a, c) == added(a, b) + added(b, c),
{
    assert(c.take(a.len() as int) =~= c.take(b.len() as int).take(a.len() as int));
    assert(added(a, c) =~= added(a, b) + added(b, c));
}

proof fn lemma_extends_refl(s: Seq<SqlCall>)
    ensures
        extends(s, s),
        added(s, s) == Seq::<SqlCall>::empty(),
{
    assert(s.take(s.len() as int) =~= s);
    assert(added(s, s) =~= Seq::<SqlCall>::empty());
}

/// One reading written down: it is the one reading taken.
proof fn lemma_one_reading<A>(before: Seq<A>, after: Seq<A>)
    requires
        after == before.push(after.last()),
    ensures
        readings_extend(before, after),
        readings_taken(before, after) == seq![after.last()],
{
    assert(after.take(before.len() as int) =~= before);
    assert(readings_taken(before, after) =~= seq![after.last()]);
}

/// No reading taken.
proof fn lemma_no_reading<A>(s: Seq<A>)
    ensures
        readings_extend(s, s),
        readings_taken(s, s) == Seq::<A>::empty(),
{
    assert(s.take(s.len() as int) =~= s);
    assert(readings_taken(s, s) =~= Seq::<A>::empty());
}

/// Inserts the entry for the task from `start`.
fn insert_entry(db: &mut Database, task_id: i64, round: bool, start: i64) -> (r: Result<i64, TrackError>)
    requires
        valid_timestamp(start as int),
    ensures
        extends(old(db).calls(), final(db).calls()),
        final(db).readings() == old(db).readings(),
        final(db).zone_offsets() == old(db).zone_offsets(),
        started_from(task_id, round, start, added(old(db).calls(), final(db).calls()), r),
{
    let ghost before = db.calls();
    let e = db.start_time_entry(task_id, round, start);
    let ghost calls = added(before, db.calls());
    assert(calls[0] == db.calls().last());
    match e {
        Ok(_) => {
            assert(entry_inserted(task_id, round, start, calls, Ok(())));
            Ok(start)
        },
        Err(x) => {
            let ghost gx = x;
            let r = Err(TrackError::StartFailed(x));
            assert(entry_inserted(task_id, round, start, calls, Err(gx)));
            r
        },
    }
}

/// Chooses the start (the one given, else the last stop, else now) and
/// inserts the entry for the task.
fn choose_start_and_insert(
    db: &mut Database,
    task_id: i64,
    round: bool,
    started_at: Option<&str>,
    from_last_stop: bool,
) -> (r: Result<i64, TrackError>)
    ensures
        extends(old(db).calls(), final(db).calls()),
        readings_extend(old(db).readings(), final(db).readings()),
        start_chosen(
            task_id,
            round,
            text_view(started_at),
            from_last_stop,
            added(old(db).calls(), final(db).calls()),
            readings_taken(old(db).readings(), final(db).readings()),
            readings_taken(old(db).zone_offsets(), final(db).zone_offsets()),
            r,
        ),
        readings_extend(old(db).zone_offsets(), final(db).zone_offsets()),
{
    let ghost before = db.calls();
    let ghost seen = db.readings();
    let ghost zseen = db.zone_offsets();
    match started_at {
        Some(text) => {
            let p = db.read_timestamp(text);
            let ghost reading = db.readings().last();
            let ghost offset = db.zone_offsets().last().1;
            proof {
                lemma_one_reading(seen, db.readings());
                lemma_one_reading(zseen, db.zone_offsets());
                lemma_extends_refl(before);
            }
            match p {
                Ok(t) => {
                    let r = insert_entry(db, task_id, round, t);
                    assert(timestamp_answer_at(text@, reading as int, offset as int, Ok::<i64, String>(t)));
                    assert(started_as_given(task_id, round, text@, added(before, db.calls()), reading, offset, r));
                    r
                },
                Err(m) => {
                    let ghost gm = m;
                    let r = Err(TrackError::BadStart(m));
                    assert(timestamp_answer_at(text@, reading as int, offset as int, Err::<i64, String>(gm)));
                    assert(started_as_given(task_id, round, text@, added(before, db.calls()), reading, offset, r));
                    r
                },
            }
        },
        None => {
            proof {
                lemma_no_reading(zseen);
            }
            if from_last_stop {
                proof {
                    lemma_no_reading(seen);
                }
                let l = db.get_last_stopped_at();
                let ghost mid = db.calls();
                let ghost first = added(before, mid);
                assert(first[0] == mid.last());
                match l {
                    Ok(Some(t)) => {
                        let r = insert_entry(db, task_id, round, t);
                        proof {
                            lemma_added_concat(before, mid, db.calls());
                            let all = added(before, db.calls());
                            assert(all.skip(1) =~= added(mid, db.calls()));
                            assert(all[0] == first[0]);
                            assert(last_stop_read(all[0].outcome, Ok::<Option<i64>, DbError>(Some(t))));
                        }
                        r
                    },
                    Ok(None) => {
                        assert(last_stop_read(first[0].outcome, Ok::<Option<i64>, DbError>(None)));
                        Err(TrackError::NoPreviousStop)
                    },
                    Err(x) => {
                        let ghost gx = x;
                        assert(last_stop_read(first[0].outcome, Err::<Option<i64>, DbError>(gx)));
                        Err(TrackError::LastStopFailed(x))
                    },
                }
            } else {
                let t = db.read_clock();
                proof {
                    lemma_one_reading(seen, db.readings());
                }
                let r = insert_entry(db, task_id, round, t);
                assert(started_from(task_id, round, t, added(before, db.calls()), r));
                r
            }
        },
    }
}

/// Starts tracking the task `task` of the project `project`: refuses while
/// an entry runs; gets (or makes) the project and the task; starts at the
/// instant given (as `Database::read_timestamp` reads it), else at the last stop when
/// asked, else now; inserts the entry, billed in half hours when `round`.
/// `Ok` holds the start.
pub fn start_tracking(
    db: &mut Database,
    project: &str,
    task: &str,
    round: bool,
    started_at: Option<&str>,
    from_last_stop: bool,
) -> (r: Result<i64, TrackError>)
    ensures
        extends(old(db).calls(), final(db).calls()),
        tracking_started(
            project@,
            task@,
            round,
            text_view(started_at),
            from_last_stop,
            added(old(db).calls(), final(db).calls()),
            readings_taken(old(db).readings(), final(db).readings()),
            readings_taken(old(db).zone_offsets(), final(db).zone_offsets()),
            r,
        ),
        readings_extend(old(db).zone_offsets(), final(db).zone_offsets()),
        readings_extend(old(db).readings(), final(db).readings()),
        started_at is None && !from_last_stop ==> (r matches Ok(s) ==> final(db).readings() == old(db).readings().push(s)),
{
    let ghost before = db.calls();
    let ghost seen = db.readings();
    let ghost zseen = db.zone_offsets();
    proof {
        lemma_no_reading(seen);
        lemma_no_reading(zseen);
    }
    let ghost given = text_view(started_at);
    let a = db.get_active_entry();
    let ghost c1 = db.calls();
    let ghost ga = a;
    assert(added(before, c1)[0] == c1.last());
    match a {
        Err(x) => {
            let r = Err(TrackError::CheckFailed(x));
            assert(nothing_running(
                added(before, db.calls()),
                ga,
                r,
                project_task_start(project@, task@, round, given, from_last_stop, added(before, db.calls()).skip(1), readings_taken(seen, db.readings()), readings_taken(zseen, db.zone_offsets()), r),
            ));
            return r;
        },
        Ok(Some(e)) => {
            let r = Err(TrackError::AlreadyTracking { project: e.project_name, task: e.task_name });
            assert(nothing_running(
                added(before, db.calls()),
                ga,
                r,
                project_task_start(project@, task@, round, given, from_last_stop, added(before, db.calls()).skip(1), readings_taken(seen, db.readings()), readings_taken(zseen, db.zone_offsets()), r),
            ));
            return r;
        },
        Ok(None) => {},
    }
    let p = db.get_or_create_project(project);
    let ghost c2 = db.calls();
    let ghost gp = p;
    proof {
        lemma_added_concat(before, c1, c2);
        let all = added(before, c2);
        assert(all.skip(1) =~= added(c1, c2));
        assert(all.skip(1).take(added(c1, c2).len() as int) =~= added(c1, c2));
    }
    let pr = match p {
        Ok(pr) => pr,
        Err(x) => {
            let r = Err(TrackError::ProjectFailed(x));
            proof {
                let rest = added(before, c2).skip(1);
                let k = rest.len() as int;
                assert(rest.take(k) =~= rest);
                assert(project_task_start(project@, task@, round, given, from_last_stop, rest, readings_taken(seen, db.readings()), readings_taken(zseen, db.zone_offsets()), r));
                assert(nothing_running(added(before, c2), ga, r, project_task_start(project@, task@, round, given, from_last_stop, rest, readings_taken(seen, db.readings()), readings_taken(zseen, db.zone_offsets()), r)));
            }
            return r;
        },
    };
    let t = db.get_or_create_task(pr.id, task);
    let ghost c3 = db.calls();
    let ghost gt = t;
    proof {
        lemma_added_concat(c1, c2, c3);
        lemma_added_concat(before, c1, c3);
        let rest = added(before, c3).skip(1);
        assert(rest =~= added(c1, c3));
        let k = added(c1, c2).len() as int;
        assert(rest.take(k) =~= added(c1, c2));
        assert(rest.subrange(k, rest.len() as int) =~= added(c2, c3));
    }
    let tk = match t {
        Ok(tk) => tk,
        Err(x) => {
            let r = Err(TrackError::TaskFailed(x));
            proof {
                let rest = added(before, c3).skip(1);
                let k = added(c1, c2).len() as int;
                let j = rest.len() as int;
                assert(task_got(pr.id, task@, rest.subrange(k, j), gt));
                assert(project_got(project@, rest.take(k), gp));
                assert(project_task_start(project@, task@, round, given, from_last_stop, rest, readings_taken(seen, db.readings()), readings_taken(zseen, db.zone_offsets()), r));
                assert(nothing_running(added(before, c3), ga, r, project_task_start(project@, task@, round, given, from_last_stop, rest, readings_taken(seen, db.readings()), readings_taken(zseen, db.zone_offsets()), r)));
            }
            return r;
        },
    };
    let ghost seen3 = db.readings();
    let r = choose_start_and_insert(db, tk.id, round, started_at, from_last_stop);
    let ghost gr = r;
    proof {
        assert(seen3 == seen);
        let c4 = db.calls();
        lemma_added_concat(c1, c3, c4);
        lemma_added_concat(before, c1, c4);
        let rest = added(before, c4).skip(1);
        assert(rest =~= added(c1, c4));
        let k = added(c1, c2).len() as int;
        let j = k + added(c2, c3).len();
        assert(rest.take(k) =~= added(c1, c2));
        assert(rest.subrange(k, j) =~= added(c2, c3));
        assert(rest.skip(j) =~= added(c3, c4));
        assert(task_got(pr.id, task@, rest.subrange(k, j), gt));
        assert(project_got(project@, rest.take(k), gp));
        assert(start_chosen(tk.id, round, given, from_last_stop, rest.skip(j), readings_taken(seen, db.readings()), readings_taken(zseen, db.zone_offsets()), r));
        assert(project_task_start(project@, task@, round, given, from_last_stop, rest, readings_taken(seen, db.readings()), readings_taken(zseen, db.zone_offsets()), r));
        assert(nothing_running(added(before, c4), ga, r, project_task_start(project@, task@, round, given, from_last_stop, rest, readings_taken(seen, db.readings()), readings_taken(zseen, db.zone_offsets()), r)));
        if started_at is None && !from_last_stop {
            if let Ok(s) = gr {
                lemma_start_now_is_the_reading(project@, task@, round, added(before, c4), readings_taken(seen, db.readings()), readings_taken(zseen, db.zone_offsets()), s);
                lemma_readings_now(seen, db.readings(), s);
            }
        }
    }
    r
}

/// The readings written down are those before and then the ones taken.
proof fn lemma_readings_now(before: Seq<i64>, after: Seq<i64>, s: i64)
    requires
        readings_extend(before, after),
        readings_taken(before, after) == seq![s],
    ensures
        after == before.push(s),
{
    assert(after =~= before.push(s)) by {
        assert(readings_taken(before, after).len() == 1);
        assert(after.len() == before.len() + 1);
        assert forall|i: int| 0 <= i < after.len() implies after[i] == before.push(s)[i] by {
            if i < before.len() {
                assert(after.take(before.len() as int)[i] == after[i]);
            } else {
                assert(readings_taken(before, after)[0] == after[i]);
            }
        }
    }
}

/// Starting with neither a start given nor a start from the last stop takes
/// exactly one clock reading, and a start that succeeds is that reading.
pub proof fn lemma_start_now_is_the_reading(
    project: Seq<char>,
    task: Seq<char>,
    round: bool,
    calls: Seq<SqlCall>,
    clock: Seq<i64>,
    zones: Seq<(i64, i32)>,
    s: i64,
)
    requires
        tracking_started(project, task, round, None, false, calls, clock, zones, Ok(s)),
    ensures
        clock == seq![s],
        zones.len() == 0,
{
    let r = Ok::<i64, TrackError>(s);
    let a = choose|a: Result<Option<ActiveEntry>, DbError>|
        #[trigger] nothing_running(calls, a, r, project_task_start(project, task, round, None, false, calls.skip(1), clock, zones, r));
    let rest = calls.skip(1);
    let (k, p) = choose|k: int, p: Result<Project, DbError>|
        0 <= k <= rest.len() && #[trigger] project_got(project, rest.take(k), p) && match p {
            Err(x) => k == rest.len() && r == Err::<i64, TrackError>(TrackError::ProjectFailed(x)),
            Ok(pr) => exists|j: int, t: Result<Task, DbError>|
                k <= j <= rest.len() && #[trigger] task_got(pr.id, task, rest.subrange(k, j), t)
                    && match t {
                    Err(x) => j == rest.len() && r == Err::<i64, TrackError>(TrackError::TaskFailed(x)),
                    Ok(tk) => start_chosen(tk.id, round, None, false, rest.skip(j), clock, zones, r),
                },
        };
    let pr = p->Ok_0;
    let (j, t) = choose|j: int, t: Result<Task, DbError>|
        k <= j <= rest.len() && #[trigger] task_got(pr.id, task, rest.subrange(k, j), t) && match t {
            Err(x) => j == rest.len() && r == Err::<i64, TrackError>(TrackError::TaskFailed(x)),
            Ok(tk) => start_chosen(tk.id, round, None, false, rest.skip(j), clock, zones, r),
        };
    let tk = t->Ok_0;
    assert(started_from(tk.id, round, clock[0], rest.skip(j), r));
    let o = choose|o: Result<(), DbError>|
        #[trigger] entry_inserted(tk.id, round, clock[0], rest.skip(j), o) && match o {
            Ok(_) => r == Ok::<i64, TrackError>(clock[0]),
            Err(x) => r == Err::<i64, TrackError>(TrackError::StartFailed(x)),
        };
    assert(clock =~= seq![s]);
}

/// The continuation inserted for the last task `e` (project id, task id,
/// project name, task name, rounding) from `start`: `Ok` with the names and
/// the start, or the insertion's error.
pub open spec fn continued_from(
    e: (i64, i64, String, String, bool),
    start: i64,
    calls: Seq<SqlCall>,
    r: Result<(String, String, i64), TrackError>,
) -> bool {
    exists|o: Result<(), DbError>|
        #[trigger] entry_inserted(e.1, e.4, start, calls, o) && match o {
            Ok(_) => r == Ok::<(String, String, i64), TrackError>((e.2, e.3, start)),
            Err(x) => r == Err::<(String, String, i64), TrackError>(TrackError::StartFailed(x)),
        }
}

/// After nothing was found running: the last stopped task read by one query,
/// and its entry started at the one clock reading taken (`clock`), with its
/// rounding; no reading is taken when there is no task to continue.
pub open spec fn last_task_continued(
    calls: Seq<SqlCall>,
    clock: Seq<i64>,
    r: Result<(String, String, i64), TrackError>,
) -> bool {
    &&& calls.len() >= 1
    &&& is_call(calls[0], LAST_TASK_SELECT_SQL@, seq![])
    &&& exists|l: Result<Option<(i64, i64, String, String, bool)>, DbError>|
        #[trigger] last_task_read(calls[0].outcome, l) && match l {
            Err(x) => calls.len() == 1 && clock.len() == 0 && r == Err::<(String, String, i64), TrackError>(
                TrackError::LastTaskFailed(x),
            ),
            Ok(None) => calls.len() == 1 && clock.len() == 0 && r == Err::<(String, String, i64), TrackError>(
                TrackError::NoPreviousTask,
            ),
            Ok(Some(e)) => clock.len() == 1 && valid_timestamp(clock[0] as int)
                && continued_from(e, clock[0], calls.skip(1), r),
        }
}

/// What continuing does, call by call: it refuses while an entry runs,
/// reads the task that stopped last, and starts it again at the clock
/// reading it takes (`clock` holds the readings taken).
pub open spec fn tracking_continued(
    calls: Seq<SqlCall>,
    clock: Seq<i64>,
    r: Result<(String, String, i64), TrackError>,
) -> bool {
    exists|a: Result<Option<ActiveEntry>, DbError>|
        #[trigger] nothing_running(calls, a, r, last_task_continued(calls.skip(1), clock, r))
}

/// Continues the task that stopped last, now, with its rounding; refuses
/// while an entry runs. `Ok` holds the project's and task's names and the
/// start.
pub fn continue_tracking(db: &mut Database) -> (r: Result<(String, String, i64), TrackError>)
    ensures
        extends(old(db).calls(), final(db).calls()),
        readings_extend(old(db).readings(), final(db).readings()),
        tracking_continued(
            added(old(db).calls(), final(db).calls()),
            readings_taken(old(db).readings(), final(db).readings()),
            r,
        ),
        r matches Ok(c) ==> final(db).readings() == old(db).readings().push(c.2),
        final(db).zone_offsets() == old(db).zone_offsets(),
        r matches Ok(c) ==> final(db).readings() == old(db).readings().push(c.2),
        final(db).zone_offsets() == old(db).zone_offsets(),
{
    let ghost before = db.calls();
    let ghost seen = db.readings();
    proof {
        lemma_no_reading(seen);
    }
    let a = db.get_active_entry();
    let ghost c1 = db.calls();
    let ghost ga = a;
    assert(added(before, c1)[0] == c1.last());
    match a {
        Err(x) => {
            let r = Err(TrackError::CheckFailed(x));
            assert(nothing_running(added(before, c1), ga, r, last_task_continued(added(before, c1).skip(1), readings_taken(seen, db.readings()), r)));
            return r;
        },
        Ok(Some(e)) => {
            let r = Err(TrackError::AlreadyTracking { project: e.project_name, task: e.task_name });
            assert(nothing_running(added(before, c1), ga, r, last_task_continued(added(before, c1).skip(1), readings_taken(seen, db.readings()), r)));
            return r;
        },
        Ok(None) => {},
    }
    let l = db.get_last_stopped_task();
    let ghost c2 = db.calls();
    let ghost gl = l;
    proof {
        lemma_added_concat(before, c1, c2);
        let rest = added(before, c2).skip(1);
        assert(rest =~= added(c1, c2));
        assert(rest[0] == c2.last());
    }
    let e = match l {
        Err(x) => {
            let r = Err(TrackError::LastTaskFailed(x));
            proof {
                let rest = added(before, c2).skip(1);
                assert(last_task_read(rest[0].outcome, gl));
                assert(nothing_running(added(before, c2), ga, r, last_task_continued(rest, readings_taken(seen, db.readings()), r)));
            }
            return r;
        },
        Ok(None) => {
            let r = Err(TrackError::NoPreviousTask);
            proof {
                let rest = added(before, c2).skip(1);
                assert(last_task_read(rest[0].outcome, gl));
                assert(nothing_running(added(before, c2), ga, r, last_task_continued(rest, readings_taken(seen, db.readings()), r)));
            }
            return r;
        },
        Ok(Some(e)) => e,
    };
    let ghost ge = e;
    let start = db.read_clock();
    proof {
        lemma_one_reading(seen, db.readings());
    }
    let ins = db.start_time_entry(e.1, e.4, start);
    let ghost c3 = db.calls();
    assert(added(c2, c3)[0] == c3.last());
    let (_, _, project_name, task_name, _) = e;
    let r = match ins {
        Ok(_) => {
            proof {
                assert(entry_inserted(ge.1, ge.4, start, added(c2, c3), Ok(())));
            }
            Ok((project_name, task_name, start))
        },
        Err(x) => {
            let ghost gx = x;
            proof {
                assert(entry_inserted(ge.1, ge.4, start, added(c2, c3), Err(gx)));
            }
            Err(TrackError::StartFailed(x))
        },
    };
    proof {
        lemma_added_concat(c1, c2, c3);
        lemma_added_concat(before, c1, c3);
        let rest = added(before, c3).skip(1);
        assert(rest =~= added(c1, c3));
        assert(rest.skip(1) =~= added(c2, c3));
        assert(rest[0] == added(c1, c2)[0]);
        assert(last_task_read(rest[0].outcome, gl));
        assert(continued_from(ge, start, rest.skip(1), r));
        assert(nothing_running(added(before, c3), ga, r, last_task_continued(rest, readings_taken(seen, db.readings()), r)));
        assert(readings_taken(seen, db.readings()) =~= seq![start]);
        assert(db.readings() =~= seen.push(start));
    }
    r
}

/// Continuing takes exactly one clock reading when it succeeds, and the
/// entry it starts starts at that reading.
pub proof fn lemma_continue_is_the_reading(
    calls: Seq<SqlCall>,
    clock: Seq<i64>,
    project: String,
    task: String,
    s: i64,
)
    requires
        tracking_continued(calls, clock, Ok((project, task, s))),
    ensures
        clock == seq![s],
{
    let r = Ok::<(String, String, i64), TrackError>((project, task, s));
    let a = choose|a: Result<Option<ActiveEntry>, DbError>|
        #[trigger] nothing_running(calls, a, r, last_task_continued(calls.skip(1), clock, r));
    let rest = calls.skip(1);
    let l = choose|l: Result<Option<(i64, i64, String, String, bool)>, DbError>|
        #[trigger] last_task_read(rest[0].outcome, l) && match l {
            Err(x) => rest.len() == 1 && clock.len() == 0 && r == Err::<(String, String, i64), TrackError>(
                TrackError::LastTaskFailed(x),
            ),
            Ok(None) => rest.len() == 1 && clock.len() == 0 && r == Err::<(String, String, i64), TrackError>(
                TrackError::NoPreviousTask,
            ),
            Ok(Some(e)) => clock.len() == 1 && valid_timestamp(clock[0] as int)
                && continued_from(e, clock[0], rest.skip(1), r),
        };
    let e = l->Ok_0->Some_0;
    let o = choose|o: Result<(), DbError>|
        #[trigger] entry_inserted(e.1, e.4, clock[0], rest.skip(1), o) && match o {
            Ok(_) => r == Ok::<(String, String, i64), TrackError>((e.2, e.3, clock[0])),
            Err(x) => r == Err::<(String, String, i64), TrackError>(TrackError::StartFailed(x)),
        };
    assert(clock =~= seq![s]);
}

/// Why an amendment did not happen.
#[derive(Debug)]
pub enum AmendError {
    /// Neither a new start nor a new stop was given.
    NothingToAmend,
    /// The new start could not be read; the message says why.
    BadStartedAt(String),
    /// The new stop could not be read; the message says why.
    BadStoppedAt(String),
    /// The database refused (no such entry, a stop before the start, ...).
    Db(DbError),
}

/// The amendment itself, with the instants read.
pub open spec fn amend_made(
    id: Seq<char>,
    start: Option<i64>,
    stop: Option<i64>,
    calls: Seq<SqlCall>,
    r: Result<TimeEntry, AmendError>,
) -> bool {
    exists|x: Result<TimeEntry, DbError>|
        #[trigger] entry_amended(id, start, stop, calls, x) && match x {
            Ok(e) => r == Ok::<TimeEntry, AmendError>(e),
            Err(d) => r == Err::<TimeEntry, AmendError>(AmendError::Db(d)),
        }
}

/// The readings taken from `a` to `c` are those from `a` to `b`, then those
/// from `b` to `c`.
proof fn lemma_taken_split<A>(a: Seq<A>, b: Seq<A>, c: Seq<A>)
    requires
        readings_extend(a, b),
        readings_extend(b, c),
    ensures
        readings_extend(a, c),
        readings_taken(a, c) == readings_taken(a, b) + readings_taken(b, c),
{
    assert(c.take(a.len() as int) =~= c.take(b.len() as int).take(a.len() as int));
    assert(readings_taken(a, c) =~= readings_taken(a, b) + readings_taken(b, c));
}

/// After the new start was read (or not given): the new stop read, when
/// given, at the one clock reading `clock` and time zone reading `zones`
/// (none when not given), then the amendment.
pub open spec fn stop_read_then_amend(
    id: Seq<char>,
    start: Option<i64>,
    stopped: Option<Seq<char>>,
    calls: Seq<SqlCall>,
    clock: Seq<i64>,
    zones: Seq<(i64, i32)>,
    r: Result<TimeEntry, AmendError>,
) -> bool {
    match stopped {
        None => clock.len() == 0 && zones.len() == 0 && amend_made(id, start, None, calls, r),
        Some(text) => {
            &&& clock.len() == 1
            &&& zones.len() == 1
            &&& zones[0].0 == clock[0]
            &&& stop_text_then_amend(id, start, text, calls, clock[0], zones[0].1, r)
        },
    }
}

/// The new stop read from `text` when the clock showed `now` and the
/// machine's clock was `offset` seconds ahead of UTC, then the amendment.
pub open spec fn stop_text_then_amend(
    id: Seq<char>,
    start: Option<i64>,
    text: Seq<char>,
    calls: Seq<SqlCall>,
    now: i64,
    offset: i32,
    r: Result<TimeEntry, AmendError>,
) -> bool {
    exists|p: Result<i64, String>|
        #[trigger] timestamp_answer_at(text, now as int, offset as int, p) && match p {
            Ok(t) => valid_timestamp(t as int) && amend_made(id, start, Some(t), calls, r),
            Err(m) => calls.len() == 0 && r == Err::<TimeEntry, AmendError>(AmendError::BadStoppedAt(m)),
        }
}

/// The new start read from `text` at the first clock reading and time zone
/// reading, then the new stop at the next ones, then the amendment.
pub open spec fn start_text_then_amend(
    id: Seq<char>,
    text: Seq<char>,
    stopped: Option<Seq<char>>,
    calls: Seq<SqlCall>,
    clock: Seq<i64>,
    zones: Seq<(i64, i32)>,
    r: Result<TimeEntry, AmendError>,
) -> bool {
    &&& clock.len() >= 1
    &&& zones.len() >= 1
    &&& zones[0].0 == clock[0]
    &&& start_text_read(id, text, stopped, calls, clock, zones, r)
}

/// The answer for the new start `text` at the first readings, and what
/// follows it.
pub open spec fn start_text_read(
    id: Seq<char>,
    text: Seq<char>,
    stopped: Option<Seq<char>>,
    calls: Seq<SqlCall>,
    clock: Seq<i64>,
    zones: Seq<(i64, i32)>,
    r: Result<TimeEntry, AmendError>,
) -> bool {
    exists|p: Result<i64, String>|
        #[trigger] timestamp_answer_at(text, clock[0] as int, zones[0].1 as int, p) && match p {
            Ok(t) => valid_timestamp(t as int) && stop_read_then_amend(
                id,
                Some(t),
                stopped,
                calls,
                clock.skip(1),
                zones.skip(1),
                r,
            ),
            Err(m) => calls.len() == 0 && clock.len() == 1 && zones.len() == 1 && r == Err::<TimeEntry, AmendError>(
                AmendError::BadStartedAt(m),
            ),
        }
}

/// What amending does: nothing when neither instant is given; else the new
/// start read, the new stop read (each as `Database::read_timestamp` reads
/// it, with one reading of the clock and of the time zone each, the first
/// that cannot be read ending it), then the amendment of the entry. `clock`
/// and `zones` are the readings taken.
pub open spec fn entry_amend_done(
    id: Seq<char>,
    started: Option<Seq<char>>,
    stopped: Option<Seq<char>>,
    calls: Seq<SqlCall>,
    clock: Seq<i64>,
    zones: Seq<(i64, i32)>,
    r: Result<TimeEntry, AmendError>,
) -> bool {
    if started is None && stopped is None {
        calls.len() == 0 && clock.len() == 0 && zones.len() == 0 && r == Err::<TimeEntry, AmendError>(
            AmendError::NothingToAmend,
        )
    } else {
        match started {
            None => stop_read_then_amend(id, None, stopped, calls, clock, zones, r),
            Some(text) => start_text_then_amend(id, text, stopped, calls, clock, zones, r),
        }
    }
}

/// Amends the entry `id` with a new start and/or stop given as text.
pub fn amend_entry(
    db: &mut Database,
    id: &str,
    started_at: Option<&str>,
    stopped_at: Option<&str>,
) -> (r: Result<TimeEntry, AmendError>)
    ensures
        extends(old(db).calls(), final(db).calls()),
        readings_extend(old(db).readings(), final(db).readings()),
        readings_extend(old(db).zone_offsets(), final(db).zone_offsets()),
        entry_amend_done(
            id@,
            text_view(started_at),
            text_view(stopped_at),
            added(old(db).calls(), final(db).calls()),
            readings_taken(old(db).readings(), final(db).readings()),
            readings_taken(old(db).zone_offsets(), final(db).zone_offsets()),
            r,
        ),
{
    let ghost before = db.calls();
    let ghost seen = db.readings();
    let ghost zseen = db.zone_offsets();
    proof {
        lemma_extends_refl(before);
        lemma_no_reading(seen);
        lemma_no_reading(zseen);
    }
    if started_at.is_none() && stopped_at.is_none() {
        return Err(AmendError::NothingToAmend);
    }
    let start = match started_at {
        Some(text) => {
            let p = db.read_timestamp(text);
            proof {
                lemma_one_reading(seen, db.readings());
                lemma_one_reading(zseen, db.zone_offsets());
            }
            match p {
                Ok(t) => {
                    assert(timestamp_answer_at(
                        text@,
                        db.readings().last() as int,
                        db.zone_offsets().last().1 as int,
                        Ok::<i64, String>(t),
                    ));
                    Some(t)
                },
                Err(m) => {
                    let ghost gm = m;
                    let r = Err(AmendError::BadStartedAt(m));
                    proof {
                        let clock = readings_taken(seen, db.readings());
                        let zones = readings_taken(zseen, db.zone_offsets());
                        assert(timestamp_answer_at(text@, clock[0] as int, zones[0].1 as int, Err::<i64, String>(gm)));
                        assert(start_text_read(id@, text@, text_view(stopped_at), added(before, db.calls()), clock, zones, r));
                    }
                    return r;
                },
            }
        },
        None => None,
    };
    let ghost seen1 = db.readings();
    let ghost zseen1 = db.zone_offsets();
    proof {
        lemma_no_reading(seen1);
        lemma_no_reading(zseen1);
    }
    let stop = match stopped_at {
        Some(text) => {
            let p = db.read_timestamp(text);
            proof {
                lemma_one_reading(seen1, db.readings());
                lemma_one_reading(zseen1, db.zone_offsets());
            }
            match p {
                Ok(t) => Some(t),
                Err(m) => {
                    let ghost gm = m;
                    let r = Err(AmendError::BadStoppedAt(m));
                    proof {
                        let clock = readings_taken(seen1, db.readings());
                        let zones = readings_taken(zseen1, db.zone_offsets());
                        assert(timestamp_answer_at(text@, clock[0] as int, zones[0].1 as int, Err::<i64, String>(gm)));
                        assert(stop_text_then_amend(id@, start, text@, added(before, db.calls()), clock[0], zones[0].1, r));
                        assert(stop_read_then_amend(id@, start, text_view(stopped_at), added(before, db.calls()), clock, zones, r));
                        lemma_taken_split(seen, seen1, db.readings());
                        lemma_taken_split(zseen, zseen1, db.zone_offsets());
                        if let Some(t0) = started_at {
                            let all = readings_taken(seen, db.readings());
                            let zall = readings_taken(zseen, db.zone_offsets());
                            assert(all.skip(1) =~= clock);
                            assert(zall.skip(1) =~= zones);
                            assert(timestamp_answer_at(t0@, all[0] as int, zall[0].1 as int, Ok::<i64, String>(start.unwrap())));
                            assert(start_text_read(id@, t0@, text_view(stopped_at), added(before, db.calls()), all, zall, r));
                        }
                    }
                    return r;
                },
            }
        },
        None => None,
    };
    let x = db.amend_time_entry(id, start, stop);
    let ghost gx = x;
    let r = match x {
        Ok(e) => Ok(e),
        Err(d) => Err(AmendError::Db(d)),
    };
    proof {
        let calls = added(before, db.calls());
        let clock = readings_taken(seen1, db.readings());
        let zones = readings_taken(zseen1, db.zone_offsets());
        assert(amend_made(id@, start, stop, calls, r)) by {
            assert(entry_amended(id@, start, stop, calls, gx));
        }
        if let Some(t1) = stopped_at {
            assert(timestamp_answer_at(t1@, clock[0] as int, zones[0].1 as int, Ok::<i64, String>(stop.unwrap())));
            assert(stop_text_then_amend(id@, start, t1@, calls, clock[0], zones[0].1, r));
        }
        assert(stop_read_then_amend(id@, start, text_view(stopped_at), calls, clock, zones, r));
        lemma_taken_split(seen, seen1, db.readings());
        lemma_taken_split(zseen, zseen1, db.zone_offsets());
        if let Some(t0) = started_at {
            let all = readings_taken(seen, db.readings());
            let zall = readings_taken(zseen, db.zone_offsets());
            assert(all.skip(1) =~= clock);
            assert(zall.skip(1) =~= zones);
            assert(timestamp_answer_at(t0@, all[0] as int, zall[0].1 as int, Ok::<i64, String>(start.unwrap())));
            assert(start_text_read(id@, t0@, text_view(stopped_at), calls, all, zall, r));
        }
    }
    r
}

/// The day to squash: the day before `today` when asked for yesterday, else
/// the day given as `YYYY-MM-DD`, else `today`.
pub open spec fn day_chosen(given: Option<Seq<char>>, yesterday: bool, today: int, r: Result<i64, String>) -> bool {
    if yesterday {
        r == Ok::<i64, String>((today - 1) as i64)
    } else {
        match given {
            Some(text) => match naive_date_from_text(text, DAY_FORMAT@) {
                Some(d) => r == Ok::<i64, String>(d as i64),
                None => r matches Err(m) && m@ == UNSUPPORTED_DAY@,
            },
            None => r == Ok::<i64, String>(today as i64),
        }
    }
}

/// The day to squash, from the command line's choice and today's day.
pub fn choose_day(given: Option<&str>, yesterday: bool, today: i64) -> (r: Result<i64, String>)
    requires
        today > i64::MIN,
    ensures
        day_chosen(text_view(given), yesterday, today as int, r),
{
    if yesterday {
        return Ok(today - 1);
    }
    match given {
        Some(text) => match parse_day(text) {
            Ok(d) => Ok(d as i64),
            Err(m) => Err(m),
        },
        None => Ok(today),
    }
}

/// Today's day on the machine's clock (days since 1970-01-01).
pub fn current_day() -> (d: i64)
    ensures
        exists|t: int, offset: int|
            valid_timestamp(t) && -86400 < offset < 86400 && d == #[trigger] spec_day(t, offset),
{
    let mut clock = Clock::new();
    let t = now(&mut clock);
    let offset = local_offset_at(t, &mut clock);
    day_of(t, offset)
}

/// Why a squash did not happen.
#[derive(Debug)]
pub enum SquashError {
    /// The day given could not be read; the message says why.
    BadDay(String),
    /// The day lies outside the instants chrono holds.
    DayOutOfRange,
    /// The database failed.
    Db(DbError),
}

/// What `Database::squash_day` does for the day `d`: nothing where the
/// machine's clock skipped its midnight (`Io`), else squash the day from its
/// midnight, a UTC instant within a day of `d`'s start.
pub open spec fn squash_calls(d: i64, calls: Seq<SqlCall>, r: Result<SquashResult, DbError>) -> bool {
    &&& r matches Err(DbError::Io(_)) ==> calls.len() == 0
    &&& !(r matches Err(DbError::Io(_))) ==> exists|start: i64|
        {
            &&& valid_timestamp(start as int)
            &&& within_a_day(d * 86400, start as int)
            &&& #[trigger] day_start_squashed(start, calls, r)
        }
}

/// What squashing a chosen day does: the day chosen (from some today of the
/// machine's clock), refused where it cannot be read or lies out of range,
/// else squashed; `Ok` holds the day and what was merged.
pub open spec fn day_squash_done(
    given: Option<Seq<char>>,
    yesterday: bool,
    calls: Seq<SqlCall>,
    r: Result<(i64, SquashResult), SquashError>,
) -> bool {
    exists|today: int, c: Result<i64, String>|
        #[trigger] day_chosen(given, yesterday, today, c) && match c {
            Err(m) => calls.len() == 0 && r == Err::<(i64, SquashResult), SquashError>(SquashError::BadDay(m)),
            Ok(d) => if !valid_timestamp(d * 86400) {
                calls.len() == 0 && r == Err::<(i64, SquashResult), SquashError>(SquashError::DayOutOfRange)
            } else {
                exists|x: Result<SquashResult, DbError>|
                    #[trigger] squash_calls(d, calls, x) && match x {
                        Ok(res) => r == Ok::<(i64, SquashResult), SquashError>((d, res)),
                        Err(e) => r == Err::<(i64, SquashResult), SquashError>(SquashError::Db(e)),
                    }
            },
        }
}

/// Squashes the day asked for: yesterday, the day given, or today.
pub fn squash_chosen_day(db: &mut Database, given: Option<&str>, yesterday: bool) -> (r: Result<
    (i64, SquashResult),
    SquashError,
>)
    ensures
        extends(old(db).calls(), final(db).calls()),
        day_squash_done(text_view(given), yesterday, added(old(db).calls(), final(db).calls()), r),
{
    let ghost before = db.calls();
    proof {
        lemma_extends_refl(before);
    }
    let today = current_day();
    proof {
        let (t, off) = choose|t: int, offset: int|
            valid_timestamp(t) && -86400 < offset < 86400 && today == #[trigger] spec_day(t, offset);
        assert(today > i64::MIN) by (nonlinear_arith)
            requires
                today == (t + off) / 86400,
                -9000000000000000 < t + off < 9000000000000000;
    }
    let c = choose_day(given, yesterday, today);
    let ghost gc = c;
    let d = match c {
        Ok(d) => d,
        Err(m) => {
            let r = Err(SquashError::BadDay(m));
            assert(day_chosen(text_view(given), yesterday, today as int, gc));
            return r;
        },
    };
    if d < -96465293 || d > 95026236 {
        let r = Err(SquashError::DayOutOfRange);
        assert(!valid_timestamp(d * 86400));
        assert(day_chosen(text_view(given), yesterday, today as int, gc));
        return r;
    }
    if !(crate::time::MIN_TIMESTAMP <= d * 86400 && d * 86400 <= crate::time::MAX_TIMESTAMP) {
        let r = Err(SquashError::DayOutOfRange);
        assert(day_chosen(text_view(given), yesterday, today as int, gc));
        return r;
    }
    let x = db.squash_day(d);
    let ghost gx = x;
    let r = match x {
        Ok(res) => Ok((d, res)),
        Err(e) => Err(SquashError::Db(e)),
    };
    proof {
        let calls = added(before, db.calls());
        assert(squash_calls(d, calls, gx));
        assert(day_chosen(text_view(given), yesterday, today as int, gc));
    }
    r
}

/// Whether the character has Unicode's `White_Space` property, as
/// `char::is_whitespace` decides.
pub open spec fn is_white_space(c: char) -> bool {
    let n = c as int;
    ||| 0x9 <= n <= 0xD
    ||| n == 0x20
    ||| n == 0x85
    ||| n == 0xA0
    ||| n == 0x1680
    ||| 0x2000 <= n <= 0x200A
    ||| n == 0x2028
    ||| n == 0x2029
    ||| n == 0x202F
    ||| n == 0x205F
    ||| n == 0x3000
}

/// The text without its leading whitespace.
pub open spec fn without_leading_space(text: Seq<char>) -> Seq<char>
    decreases text.len(),
{
    if text.len() > 0 && is_white_space(text[0]) {
        without_leading_space(text.drop_first())
    } else {
        text
    }
}

/// The text without its trailing whitespace.
pub open spec fn without_trailing_space(text: Seq<char>) -> Seq<char>
    decreases text.len(),
{
    if text.len() > 0 && is_white_space(text.last()) {
        without_trailing_space(text.drop_last())
    } else {
        text
    }
}

/// What `str::trim` leaves of the text: the text without its leading and
/// trailing whitespace.
pub open spec fn trimmed_text(text: Seq<char>) -> Seq<char> {
    without_trailing_space(without_leading_space(text))
}

/// What `str::to_lowercase` makes of the text: each character by its
/// Unicode lowercase mapping.
pub uninterp spec fn lowercase_text(text: Seq<char>) -> Seq<char>;

/// `str::trim`. Claimed: it removes the leading and trailing characters of
/// Unicode's `White_Space` property, as std documents.
#[verifier::external_body]
fn trim_text(text: &str) -> (r: &str)
    ensures
        r@ == trimmed_text(text@),
{
    text.trim()
}

/// `str::to_lowercase`. Claimed: the result depends on the text alone.
#[verifier::external_body]
fn lowercase(text: &str) -> (r: String)
    ensures
        r@ == lowercase_text(text@),
{
    text.to_lowercase()
}

pub const YES_SHORT: &'static str = "y";

pub const YES_LONG: &'static str = "yes";

/// Whether the answer to "clear all entries?" agrees: "y" or "yes" in any
/// case, around whitespace.
pub open spec fn agrees(answer: Seq<char>) -> bool {
    let a = lowercase_text(trimmed_text(answer));
    a == YES_SHORT@ || a == YES_LONG@
}

/// Whether the answer agrees to clearing everything.
pub fn confirms_clear(answer: &str) -> (r: bool)
    ensures
        r == agrees(answer@),
{
    let a = lowercase(trim_text(answer));
    let short = matches!(order_names(a.as_str(), YES_SHORT), NameOrder::Same);
    let long = matches!(order_names(a.as_str(), YES_LONG), NameOrder::Same);
    short || long
}

} // verus!
