//! The time-tracking database: projects, tasks and time entries in SQLite.
//!
//! Each method sends fixed SQL statements through the connection; its
//! contract says which ones, with which parameters, and what the method makes
//! of what came back. What the database holds, and so what a query returns,
//! is not known here.
use vstd::prelude::*;
use crate::sql::{Cell, Outcome, SqlCall, SqlParam, SqlValue, Store, param_cells};
use crate::squash::{MergeView, SquashCandidate, SquashMerge, deleted_count, spec_squash_plan, squash_plan};
use crate::summary::{DetailView, LogEntry, ProjectSummary, ProjectSummaryView, TimeEntryDetail, project_views, summarize_project, summarizes, totals_overflow};
use crate::time::{
    Clock, current_instant, LocalMapping, MAX_TIMESTAMP, SECONDS_PER_DAY, STORAGE_FORMAT, datetime_text, format_datetime,
    local_to_utc, naive_datetime_from_text, now, parse_naive_datetime, parse_utc_datetime,
    round_down_to_30min, round_up_to_30min, spec_day, spec_round_down, spec_round_up,
    utc_datetime_from_text, valid_timestamp, within_a_day,
};

verus! {

/// An error of the standard library's I/O.
#[verifier::external_type_specification]
#[verifier::external_body]
pub struct ExIoError(std::io::Error);

/// What can go wrong with the database.
#[derive(Debug)]
pub enum DbError {
    /// SQLite reported an error.
    Sqlite(rusqlite::Error),
    /// No home directory to keep the database in.
    NoConfigDir,
    /// An I/O error, or a local time that does not exist.
    Io(std::io::Error),
    /// No time entry is running.
    NoActiveEntry,
    /// No time entry has the given id.
    EntryNotFound,
    /// A stop time not after the start time (or past the last instant chrono holds).
    InvalidTimeRange,
    /// A column held a value of another type than the schema gives it.
    UnexpectedColumn,
    /// A total of the log left the range of `i64`.
    TotalOutOfRange,
}

/// Where the database is kept, under the home directory.
pub const DATA_PATH_IN_HOME: &'static str = ".config/tm/data.sqlite";

/// `rest` joined to `home` as `PathBuf::join` joins a relative path: a `/`
/// between them only where `home` is not empty and does not end in one.
pub open spec fn joined_path(home: Seq<char>, rest: Seq<char>) -> Seq<char> {
    if home.len() == 0 {
        rest
    } else if home.last() == '/' {
        home + rest
    } else {
        home + seq!['/'] + rest
    }
}

/// The path of the database file for the home directory `home`, or
/// `NoConfigDir` where there is no home directory.
pub fn db_path_from_home(home: Option<&str>) -> (r: Result<String, DbError>)
    ensures
        home is None ==> r matches Err(DbError::NoConfigDir),
        home matches Some(h) ==> r matches Ok(p) && p@ == joined_path(h@, DATA_PATH_IN_HOME@),
{
    match home {
        None => Err(DbError::NoConfigDir),
        Some(h) => {
            let mut p = String::from_str(h);
            let n = h.unicode_len();
            if n > 0 && h.get_char(n - 1) != '/' {
                p.append("/");
                proof {
                    reveal_strlit("/");
                }
            }
            p.append(DATA_PATH_IN_HOME);
            proof {
                if n > 0 {
                    assert(h@.last() == h@[n - 1]);
                }
            }
            Ok(p)
        },
    }
}

/// `std::io::Error::new(ErrorKind::InvalidInput, message)`. Nothing is
/// claimed of the error.
#[verifier::external_body]
fn invalid_input_error(message: &str) -> std::io::Error {
    std::io::Error::new(std::io::ErrorKind::InvalidInput, message.to_string())
}

/// The rounded start and end of a time entry, when it is billed in half hours.
pub type BillableTimes = Option<(i64, i64)>;

#[derive(Debug)]
pub struct Project {
    pub id: i64,
    pub name: String,
    pub created_at: i64,
}

#[derive(Debug)]
pub struct Task {
    pub id: i64,
    pub project_id: i64,
    pub name: String,
    pub created_at: i64,
}

#[derive(Debug)]
pub struct TimeEntry {
    pub id: String,
    pub task_id: i64,
    pub started_at: i64,
    pub stopped_at: Option<i64>,
}

/// The running time entry, with the names of its project and task.
#[derive(Debug)]
pub struct ActiveEntry {
    pub project_name: String,
    pub task_name: String,
    pub started_at: i64,
}

/// How many tasks were squashed, and how many entries were deleted doing it.
#[derive(Debug)]
pub struct SquashResult {
    pub squashed_tasks: usize,
    pub deleted_entries: usize,
}

pub const SCHEMA_SQL: &'static str = "
            CREATE TABLE IF NOT EXISTS projects (
                id INTEGER PRIMARY KEY AUTOINCREMENT,
                name TEXT NOT NULL UNIQUE,
                created_at TEXT NOT NULL DEFAULT (datetime('now'))
            );

            CREATE TABLE IF NOT EXISTS tasks (
                id INTEGER PRIMARY KEY AUTOINCREMENT,
                project_id INTEGER NOT NULL,
                name TEXT NOT NULL,
                created_at TEXT NOT NULL DEFAULT (datetime('now')),
                FOREIGN KEY (project_id) REFERENCES projects(id),
                UNIQUE(project_id, name)
            );

            CREATE TABLE IF NOT EXISTS time_entries (
                id TEXT PRIMARY KEY,
                task_id INTEGER NOT NULL,
                started_at TEXT NOT NULL DEFAULT (datetime('now')),
                stopped_at TEXT,
                billable_started_at TEXT,
                billable_stopped_at TEXT,
                round_on_stop INTEGER NOT NULL DEFAULT 0,
                FOREIGN KEY (task_id) REFERENCES tasks(id)
            );

            CREATE INDEX IF NOT EXISTS idx_tasks_project_id ON tasks(project_id);
            CREATE INDEX IF NOT EXISTS idx_time_entries_task_id ON time_entries(task_id);
            CREATE INDEX IF NOT EXISTS idx_time_entries_stopped_at ON time_entries(stopped_at);
            ";

pub const PROJECT_SELECT_SQL: &'static str = "SELECT id, name, created_at FROM projects WHERE name = ?1";

pub const PROJECT_INSERT_SQL: &'static str = "INSERT INTO projects (name) VALUES (?1)";

pub const TASK_SELECT_SQL: &'static str = "SELECT id, project_id, name, created_at FROM tasks WHERE project_id = ?1 AND name = ?2";

pub const TASK_INSERT_SQL: &'static str = "INSERT INTO tasks (project_id, name) VALUES (?1, ?2)";

pub const ENTRY_INSERT_SQL: &'static str = "INSERT INTO time_entries (id, task_id, started_at, round_on_stop) VALUES (?1, ?2, ?3, ?4)";

pub const AMEND_SELECT_SQL: &'static str = "
                SELECT task_id, started_at, stopped_at, round_on_stop
                FROM time_entries
                WHERE id = ?1
                ";

pub const AMEND_UPDATE_SQL: &'static str = "
            UPDATE time_entries
            SET started_at = ?1,
                stopped_at = ?2,
                billable_started_at = ?3,
                billable_stopped_at = ?4
            WHERE id = ?5
            ";

pub const STOP_SELECT_SQL: &'static str = "SELECT id, started_at, round_on_stop FROM time_entries WHERE stopped_at IS NULL LIMIT 1";

pub const STOP_ROUNDED_UPDATE_SQL: &'static str = "UPDATE time_entries SET stopped_at = ?1, billable_started_at = ?2, billable_stopped_at = ?3 WHERE id = ?4";

pub const STOP_UPDATE_SQL: &'static str = "UPDATE time_entries SET stopped_at = ?1 WHERE id = ?2";

pub const CANCEL_SQL: &'static str = "DELETE FROM time_entries WHERE stopped_at IS NULL";

pub const ACTIVE_SELECT_SQL: &'static str = "
            SELECT p.name, t.name, te.started_at
            FROM time_entries te
            JOIN tasks t ON te.task_id = t.id
            JOIN projects p ON t.project_id = p.id
            WHERE te.stopped_at IS NULL
            LIMIT 1
            ";

pub const PROJECTS_SELECT_SQL: &'static str = "SELECT id, name FROM projects ORDER BY name";

pub const LOG_ENTRIES_SELECT_SQL: &'static str = "
                SELECT te.id, t.name, te.started_at, te.stopped_at,
                    te.billable_started_at, te.billable_stopped_at
                FROM time_entries te
                JOIN tasks t ON te.task_id = t.id
                WHERE t.project_id = ?1
                ORDER BY te.started_at DESC
                ";

pub const SQUASH_SELECT_SQL: &'static str = "
            SELECT id, task_id, started_at, stopped_at, billable_started_at, billable_stopped_at, round_on_stop
            FROM time_entries
            WHERE stopped_at IS NOT NULL
              AND started_at >= ?1
              AND started_at < ?2
            ORDER BY task_id, started_at, stopped_at, id
            ";

pub const SQUASH_UPDATE_SQL: &'static str = "
                UPDATE time_entries
                SET started_at = ?1,
                    stopped_at = ?2,
                    billable_started_at = ?3,
                    billable_stopped_at = ?4,
                    round_on_stop = ?5
                WHERE id = ?6
                ";

pub const DELETE_ENTRY_SQL: &'static str = "DELETE FROM time_entries WHERE id = ?1";

pub const LAST_TASK_SELECT_SQL: &'static str = "
            SELECT t.project_id, t.id, p.name, t.name, te.round_on_stop
            FROM time_entries te
            JOIN tasks t ON te.task_id = t.id
            JOIN projects p ON t.project_id = p.id
            WHERE te.stopped_at IS NOT NULL
            ORDER BY te.stopped_at DESC
            LIMIT 1
            ";

pub const LAST_STOP_SELECT_SQL: &'static str = "SELECT stopped_at FROM time_entries WHERE stopped_at IS NOT NULL ORDER BY stopped_at DESC LIMIT 1";

pub const CLEAR_SQL: &'static str = "
            DELETE FROM time_entries;
            DELETE FROM tasks;
            DELETE FROM projects;
            ";

// ---------------------------------------------------------------------------
// Reading columns
// ---------------------------------------------------------------------------

/// An `INTEGER` column.
pub open spec fn cell_int(c: Cell) -> Option<i64> {
    match c {
        Cell::Int(i) => Some(i),
        _ => None,
    }
}

/// A `TEXT` column that holds a value.
pub open spec fn cell_text(c: Cell) -> Option<Seq<char>> {
    match c {
        Cell::Text(t) => Some(t),
        _ => None,
    }
}

/// A `TEXT` column that may be `NULL`.
pub open spec fn cell_opt_text(c: Cell) -> Option<Option<Seq<char>>> {
    match c {
        Cell::Text(t) => Some(Some(t)),
        Cell::Null => Some(None),
        _ => None,
    }
}

/// A flag stored as an integer: anything but 0 is set.
pub open spec fn cell_flag(c: Cell) -> Option<bool> {
    match c {
        Cell::Int(i) => Some(i != 0),
        _ => None,
    }
}

fn int_at(row: &Vec<SqlValue>, i: usize) -> (r: Result<i64, DbError>)
    requires
        i < row.len(),
    ensures
        match cell_int(row@[i as int].cell()) {
            Some(v) => r == Ok::<i64, DbError>(v),
            None => r matches Err(DbError::UnexpectedColumn),
        },
{
    match &row[i] {
        SqlValue::Int(v) => Ok(*v),
        _ => Err(DbError::UnexpectedColumn),
    }
}

fn text_at(row: &Vec<SqlValue>, i: usize) -> (r: Result<String, DbError>)
    requires
        i < row.len(),
    ensures
        match cell_text(row@[i as int].cell()) {
            Some(t) => r matches Ok(s) && s@ == t,
            None => r matches Err(DbError::UnexpectedColumn),
        },
{
    match &row[i] {
        SqlValue::Text(s) => Ok(s.clone()),
        _ => Err(DbError::UnexpectedColumn),
    }
}

fn opt_text_at(row: &Vec<SqlValue>, i: usize) -> (r: Result<Option<String>, DbError>)
    requires
        i < row.len(),
    ensures
        match cell_opt_text(row@[i as int].cell()) {
            Some(None) => r matches Ok(None),
            Some(Some(t)) => r matches Ok(Some(s)) && s@ == t,
            None => r matches Err(DbError::UnexpectedColumn),
        },
{
    match &row[i] {
        SqlValue::Text(s) => Ok(Some(s.clone())),
        SqlValue::Null => Ok(None),
        _ => Err(DbError::UnexpectedColumn),
    }
}

fn flag_at(row: &Vec<SqlValue>, i: usize) -> (r: Result<bool, DbError>)
    requires
        i < row.len(),
    ensures
        match cell_flag(row@[i as int].cell()) {
            Some(b) => r == Ok::<bool, DbError>(b),
            None => r matches Err(DbError::UnexpectedColumn),
        },
{
    match &row[i] {
        SqlValue::Int(v) => Ok(*v != 0),
        _ => Err(DbError::UnexpectedColumn),
    }
}

/// An instant as stored text: an instant in the storage format as in `text`.
pub open spec fn text_of_instant(t: i64) -> Cell {
    Cell::Text(datetime_text(t, STORAGE_FORMAT@))
}

/// An optional instant as a parameter: `NULL` for none.
pub open spec fn optional_instant(t: Option<i64>) -> Cell {
    match t {
        Some(v) => text_of_instant(v),
        None => Cell::Null,
    }
}

/// A flag as a parameter: 1 or 0, as rusqlite binds a `bool`.
pub open spec fn flag_cell(b: bool) -> Cell {
    Cell::Int(if b { 1 } else { 0 })
}

/// Binds an instant in the storage format.
fn instant_param(t: i64) -> (p: SqlParam)
    requires
        valid_timestamp(t as int),
    ensures
        p.cell() == text_of_instant(t),
{
    SqlParam::Text(format_datetime(t, STORAGE_FORMAT))
}

fn optional_instant_param(t: Option<i64>) -> (p: SqlParam)
    requires
        t matches Some(v) ==> valid_timestamp(v as int),
    ensures
        p.cell() == optional_instant(t),
{
    match t {
        Some(v) => instant_param(v),
        None => SqlParam::Null,
    }
}

fn text_param(s: &str) -> (p: SqlParam)
    ensures
        p.cell() == Cell::Text(s@),
{
    SqlParam::Text(s.to_string())
}

/// What a stored instant reads as: RFC 3339, else the storage format.
pub open spec fn read_datetime(text: Seq<char>) -> Option<i64> {
    match utc_datetime_from_text(text) {
        Some(t) => Some(t),
        None => naive_datetime_from_text(text, STORAGE_FORMAT@),
    }
}

/// `t` is what `text` reads as, or, where it reads as nothing, the instant
/// the clock showed.
pub open spec fn reads_as(text: Seq<char>, t: i64) -> bool {
    &&& valid_timestamp(t as int)
    &&& read_datetime(text) matches Some(v) ==> t == v
}

/// `t` is what `text` reads as in RFC 3339, or else the instant the clock showed.
pub open spec fn reads_as_rfc3339(text: Seq<char>, t: i64) -> bool {
    &&& valid_timestamp(t as int)
    &&& utc_datetime_from_text(text) matches Some(v) ==> t == v
}

/// Reads a stored instant, or `None`.
fn read_optional_datetime(input: &str) -> (r: Option<i64>)
    ensures
        r == read_datetime(input@),
        r matches Some(t) ==> valid_timestamp(t as int),
{
    match parse_utc_datetime(input) {
        Some(t) => Some(t),
        None => parse_naive_datetime(input, STORAGE_FORMAT),
    }
}

/// Reads an RFC 3339 instant, or else takes the clock's.
fn read_rfc3339_or_now(input: &str) -> (r: i64)
    ensures
        reads_as_rfc3339(input@, r),
{
    match parse_utc_datetime(input) {
        Some(t) => t,
        None => current_instant(),
    }
}

/// The lowercase hexadecimal digit of `d` (0-15).
pub open spec fn hex_char(d: int) -> char {
    if d < 10 {
        (d + 48) as char
    } else {
        (d + 87) as char
    }
}

/// The bytes in lowercase hexadecimal, two digits each.
pub open spec fn hex_text(bytes: Seq<u8>) -> Seq<char>
    decreases bytes.len(),
{
    if bytes.len() == 0 {
        seq![]
    } else {
        hex_text(bytes.drop_last()) + seq![
            hex_char(bytes.last() as int / 16),
            hex_char(bytes.last() as int % 16),
        ]
    }
}

/// A time entry id: twelve lowercase hexadecimal digits.
pub open spec fn is_entry_id(id: Seq<char>) -> bool {
    exists|bytes: Seq<u8>| bytes.len() == 6 && id == hex_text(bytes)
}

/// `rand::rng().random::<[u8; 16]>()`: sixteen random bytes. Claimed: there
/// are sixteen of them.
#[verifier::external_body]
fn random_bytes() -> (r: Vec<u8>)
    ensures
        r.len() == 16,
{
    let bytes: [u8; 16] = rand::Rng::random(&mut rand::rng());
    bytes.to_vec()
}

fn hex_digit(d: u8) -> (s: &'static str)
    requires
        d < 16,
    ensures
        s@ == seq![hex_char(d as int)],
{
    let s = match d {
        0 => "0",
        1 => "1",
        2 => "2",
        3 => "3",
        4 => "4",
        5 => "5",
        6 => "6",
        7 => "7",
        8 => "8",
        9 => "9",
        10 => "a",
        11 => "b",
        12 => "c",
        13 => "d",
        14 => "e",
        _ => "f",
    };
    proof {
        reveal_strlit("0");
        reveal_strlit("1");
        reveal_strlit("2");
        reveal_strlit("3");
        reveal_strlit("4");
        reveal_strlit("5");
        reveal_strlit("6");
        reveal_strlit("7");
        reveal_strlit("8");
        reveal_strlit("9");
        reveal_strlit("a");
        reveal_strlit("b");
        reveal_strlit("c");
        reveal_strlit("d");
        reveal_strlit("e");
        reveal_strlit("f");
        assert(s@ =~= seq![hex_char(d as int)]);
    }
    s
}

/// The first `count` bytes in lowercase hexadecimal.
pub fn hex_prefix(bytes: &Vec<u8>, count: usize) -> (s: String)
    requires
        count <= bytes.len(),
    ensures
        s@ == hex_text(bytes@.take(count as int)),
{
    let mut s = String::new();
    let mut i: usize = 0;
    assert(bytes@.take(0) =~= Seq::<u8>::empty());
    while i < count
        invariant
            i <= count <= bytes.len(),
            s@ == hex_text(bytes@.take(i as int)),
        decreases count - i,
    {
        let b = bytes[i];
        s.append(hex_digit(b / 16));
        s.append(hex_digit(b % 16));
        assert(bytes@.take(i + 1).drop_last() =~= bytes@.take(i as int));
        i = i + 1;
    }
    s
}


/// `after` is `before` with one more call, of `sql` with `params`.
pub open spec fn one_call(before: Seq<SqlCall>, after: Seq<SqlCall>, sql: Seq<char>, params: Seq<Cell>) -> bool {
    &&& extends(before, after)
    &&& added(before, after).len() == 1
    &&& is_call(after.last(), sql, params)
}

/// What `get_active_entry` makes of the answer to its query.
pub open spec fn active_entry_read(o: Outcome, r: Result<Option<ActiveEntry>, DbError>) -> bool {
    match o {
        Outcome::Rows(rows) => if rows.len() == 0 {
            r matches Ok(None)
        } else {
            match (cell_text(rows[0][0]), cell_text(rows[0][1]), cell_text(rows[0][2])) {
                (Some(p), Some(t), Some(s)) => r matches Ok(Some(e)) && e.project_name@ == p
                    && e.task_name@ == t && reads_as(s, e.started_at),
                _ => r matches Err(DbError::UnexpectedColumn),
            }
        },
        _ => r matches Err(DbError::Sqlite(_)),
    }
}

/// What `get_last_stopped_task` makes of the answer to its query.
pub open spec fn last_task_read(
    o: Outcome,
    r: Result<Option<(i64, i64, String, String, bool)>, DbError>,
) -> bool {
    match o {
        Outcome::Rows(rows) => if rows.len() == 0 {
            r matches Ok(None)
        } else {
            match (
                cell_int(rows[0][0]),
                cell_int(rows[0][1]),
                cell_text(rows[0][2]),
                cell_text(rows[0][3]),
                cell_flag(rows[0][4]),
            ) {
                (Some(pid), Some(tid), Some(p), Some(t), Some(round)) => r matches Ok(Some(e)) && e.0
                    == pid && e.1 == tid && e.2@ == p && e.3@ == t && e.4 == round,
                _ => r matches Err(DbError::UnexpectedColumn),
            }
        },
        _ => r matches Err(DbError::Sqlite(_)),
    }
}

/// What `get_last_stopped_at` makes of the answer to its query.
pub open spec fn last_stop_read(o: Outcome, r: Result<Option<i64>, DbError>) -> bool {
    match o {
        Outcome::Rows(rows) => if rows.len() == 0 {
            r matches Ok(None)
        } else {
            match cell_text(rows[0][0]) {
                Some(s) => r matches Ok(Some(t)) && reads_as(s, t),
                _ => r matches Err(DbError::UnexpectedColumn),
            }
        },
        _ => r matches Err(DbError::Sqlite(_)),
    }
}


/// What `get_or_create_project` does for `name`: the lookup, and, when it
/// found nothing, the insertion and the new row's id.
pub open spec fn project_got(name: Seq<char>, calls: Seq<SqlCall>, r: Result<Project, DbError>) -> bool {
    &&& calls.len() >= 1
    &&& is_call(calls[0], PROJECT_SELECT_SQL@, seq![Cell::Text(name)])
    &&& match calls[0].outcome {
        Outcome::Rows(rows) => if rows.len() > 0 {
            &&& calls.len() == 1
            &&& match (cell_int(rows[0][0]), cell_text(rows[0][1]), cell_text(rows[0][2])) {
                (Some(id), Some(n), Some(c)) => r matches Ok(p) && p.id == id && p.name@ == n
                    && reads_as_rfc3339(c, p.created_at),
                _ => r matches Err(DbError::UnexpectedColumn),
            }
        } else {
            &&& calls.len() >= 2
            &&& is_call(calls[1], PROJECT_INSERT_SQL@, seq![Cell::Text(name)])
            &&& match calls[1].outcome {
                Outcome::Changed(_) => {
                    &&& calls.len() == 3
                    &&& is_call(calls[2], seq![], seq![])
                    &&& match (calls[2].outcome, r) {
                        (Outcome::LastId(id), Ok(p)) => p.id == id && p.name@ == name
                            && valid_timestamp(p.created_at as int),
                        _ => false,
                    }
                },
                _ => calls.len() == 2 && r matches Err(DbError::Sqlite(_)),
            }
        },
        _ => calls.len() == 1 && r matches Err(DbError::Sqlite(_)),
    }
}

/// What `get_or_create_task` does for the task `name` of the project
/// `project_id`: the lookup, and, when it found nothing, the insertion and
/// the new row's id.
pub open spec fn task_got(project_id: i64, name: Seq<char>, calls: Seq<SqlCall>, r: Result<Task, DbError>) -> bool {
    &&& calls.len() >= 1
    &&& is_call(calls[0], TASK_SELECT_SQL@, seq![Cell::Int(project_id), Cell::Text(name)])
    &&& match calls[0].outcome {
        Outcome::Rows(rows) => if rows.len() > 0 {
            &&& calls.len() == 1
            &&& match (
                cell_int(rows[0][0]),
                cell_int(rows[0][1]),
                cell_text(rows[0][2]),
                cell_text(rows[0][3]),
            ) {
                (Some(id), Some(pid), Some(n), Some(c)) => r matches Ok(t) && t.id == id && t.project_id
                    == pid && t.name@ == n && reads_as_rfc3339(c, t.created_at),
                _ => r matches Err(DbError::UnexpectedColumn),
            }
        } else {
            &&& calls.len() >= 2
            &&& is_call(calls[1], TASK_INSERT_SQL@, seq![Cell::Int(project_id), Cell::Text(name)])
            &&& match calls[1].outcome {
                Outcome::Changed(_) => {
                    &&& calls.len() == 3
                    &&& is_call(calls[2], seq![], seq![])
                    &&& match (calls[2].outcome, r) {
                        (Outcome::LastId(id), Ok(t)) => t.id == id && t.project_id == project_id
                            && t.name@ == name && valid_timestamp(t.created_at as int),
                        _ => false,
                    }
                },
                _ => calls.len() == 2 && r matches Err(DbError::Sqlite(_)),
            }
        },
        _ => calls.len() == 1 && r matches Err(DbError::Sqlite(_)),
    }
}

/// What `start_time_entry` does: one insertion of a fresh entry with a new
/// id, the task, the start in the storage format and the rounding flag.
pub open spec fn entry_started(
    task_id: i64,
    round_on_stop: bool,
    started_at: i64,
    c: SqlCall,
    r: Result<TimeEntry, DbError>,
) -> bool {
    &&& c.sql == ENTRY_INSERT_SQL@
    &&& c.params.len() == 4
    &&& c.params[0] matches Cell::Text(id) && is_entry_id(id)
    &&& c.params.skip(1) == seq![Cell::Int(task_id), text_of_instant(started_at), flag_cell(round_on_stop)]
    &&& match c.outcome {
        Outcome::Changed(_) => r matches Ok(e) && c.params[0] == Cell::Text(e.id@) && e.task_id == task_id
            && e.started_at == started_at && e.stopped_at is None,
        _ => r matches Err(DbError::Sqlite(_)),
    }
}


/// The latest instant whose upward rounding chrono still holds, with a margin.
pub open spec fn latest_roundable() -> int {
    MAX_TIMESTAMP - 1800
}

/// The billable start and stop of an entry: both rounded when it is billed in
/// half hours and has stopped, none otherwise.
pub open spec fn billable_pair(round: bool, start: i64, stop: Option<i64>) -> (Option<i64>, Option<i64>) {
    match stop {
        Some(s) => if round {
            (Some(spec_round_down(start as int) as i64), Some(spec_round_up(s as int) as i64))
        } else {
            (None, None)
        },
        None => (None, None),
    }
}

/// What stopping at `stop` does after finding the running entry `id`,
/// started at `start_text`: set the stop (and, for an entry billed in half
/// hours, the rounded times; refused where the stop is too late to round).
pub open spec fn stop_written(
    id: Seq<char>,
    start_text: Seq<char>,
    round: bool,
    stop: i64,
    calls: Seq<SqlCall>,
    r: Result<(bool, BillableTimes), DbError>,
) -> bool {
    if round {
        if stop > latest_roundable() {
            calls.len() == 1 && r matches Err(DbError::InvalidTimeRange)
        } else {
            &&& calls.len() == 2
            &&& exists|start: i64|
                {
                    &&& #[trigger] reads_as(start_text, start)
                    &&& is_call(
                        calls[1],
                        STOP_ROUNDED_UPDATE_SQL@,
                        seq![
                            text_of_instant(stop),
                            text_of_instant(spec_round_down(start as int) as i64),
                            text_of_instant(spec_round_up(stop as int) as i64),
                            Cell::Text(id),
                        ],
                    )
                    &&& match calls[1].outcome {
                        Outcome::Changed(_) => r == Ok::<(bool, BillableTimes), DbError>(
                            (
                                true,
                                Some(
                                    (
                                        spec_round_down(start as int) as i64,
                                        spec_round_up(stop as int) as i64,
                                    ),
                                ),
                            ),
                        ),
                        _ => r matches Err(DbError::Sqlite(_)),
                    }
                }
        }
    } else {
        &&& calls.len() == 2
        &&& is_call(calls[1], STOP_UPDATE_SQL@, seq![text_of_instant(stop), Cell::Text(id)])
        &&& match calls[1].outcome {
            Outcome::Changed(_) => r == Ok::<(bool, BillableTimes), DbError>((false, None)),
            _ => r matches Err(DbError::Sqlite(_)),
        }
    }
}

/// What stopping the running entry at `stop` does: find it, then stop it.
pub open spec fn entry_stopped(stop: i64, calls: Seq<SqlCall>, r: Result<(bool, BillableTimes), DbError>) -> bool {
    &&& calls.len() >= 1
    &&& is_call(calls[0], STOP_SELECT_SQL@, seq![])
    &&& match calls[0].outcome {
        Outcome::Rows(rows) => if rows.len() == 0 {
            calls.len() == 1 && r matches Err(DbError::NoActiveEntry)
        } else {
            match (cell_text(rows[0][0]), cell_text(rows[0][1]), cell_flag(rows[0][2])) {
                (Some(id), Some(st), Some(round)) => stop_written(id, st, round, stop, calls, r),
                _ => calls.len() == 1 && r matches Err(DbError::UnexpectedColumn),
            }
        },
        _ => calls.len() == 1 && r matches Err(DbError::Sqlite(_)),
    }
}

/// A rounded stop bills in half hours: from the half hour that holds the
/// entry's start to the first full or half hour not before the stop, which
/// is the instant written as the entry's stop.
pub proof fn lemma_stop_bills_half_hours(stop: i64, calls: Seq<SqlCall>, bs: i64, be: i64)
    requires
        valid_timestamp(stop as int),
        entry_stopped(stop, calls, Ok((true, Some((bs, be))))),
    ensures
        bs % 1800 == 0,
        be % 1800 == 0,
        stop <= be < stop + 1800,
        calls[1].params[0] == text_of_instant(stop),
        exists|start: i64| valid_timestamp(start as int) && bs <= start < bs + 1800,
{
    let r = Ok::<(bool, BillableTimes), DbError>((true, Some((bs, be))));
    let rows = calls[0].outcome->Rows_0;
    let id = cell_text(rows[0][0])->Some_0;
    let st = cell_text(rows[0][1])->Some_0;
    assert(stop_written(id, st, true, stop, calls, r));
    let start = choose|start: i64|
        {
            &&& #[trigger] reads_as(st, start)
            &&& is_call(
                calls[1],
                STOP_ROUNDED_UPDATE_SQL@,
                seq![
                    text_of_instant(stop),
                    text_of_instant(spec_round_down(start as int) as i64),
                    text_of_instant(spec_round_up(stop as int) as i64),
                    Cell::Text(id),
                ],
            )
            &&& match calls[1].outcome {
                Outcome::Changed(_) => r == Ok::<(bool, BillableTimes), DbError>(
                    (
                        true,
                        Some(
                            (
                                spec_round_down(start as int) as i64,
                                spec_round_up(stop as int) as i64,
                            ),
                        ),
                    ),
                ),
                _ => r matches Err(DbError::Sqlite(_)),
            }
        };
    crate::time::lemma_round_down(start as int);
    crate::time::lemma_round_up(stop as int);
    assert(calls[1].params[0] == text_of_instant(stop));
}

/// The start and stop an amendment gives an entry: each given one, else the
/// stored one (an unreadable stored start reads as the clock's instant, an
/// unreadable stored stop likewise).
pub open spec fn amended_times(
    started_at: Option<i64>,
    stopped_at: Option<i64>,
    stored_start: Seq<char>,
    stored_stop: Option<Seq<char>>,
    start: i64,
    stop: Option<i64>,
) -> bool {
    &&& match started_at {
        Some(v) => start == v,
        None => reads_as(stored_start, start),
    }
    &&& match stopped_at {
        Some(v) => stop == Some(v),
        None => match (stored_stop, stop) {
            (None, None) => true,
            (Some(t), Some(x)) => reads_as(t, x),
            _ => false,
        },
    }
}

/// What `amend_time_entry` does with the entry's new start and stop: refuse a
/// stop that is not after the start, else write both with the billable times.
pub open spec fn amend_written(
    entry_id: Seq<char>,
    task_id: i64,
    round: bool,
    start: i64,
    stop: Option<i64>,
    calls: Seq<SqlCall>,
    r: Result<TimeEntry, DbError>,
) -> bool {
    let stops_before = match stop {
        Some(s) => s <= start,
        None => false,
    };
    let too_late = match stop {
        Some(s) => round && s > latest_roundable(),
        None => false,
    };
    if stops_before || too_late {
        calls.len() == 1 && r matches Err(DbError::InvalidTimeRange)
    } else {
        &&& calls.len() == 2
        &&& is_call(
            calls[1],
            AMEND_UPDATE_SQL@,
            seq![
                text_of_instant(start),
                optional_instant(stop),
                optional_instant(billable_pair(round, start, stop).0),
                optional_instant(billable_pair(round, start, stop).1),
                Cell::Text(entry_id),
            ],
        )
        &&& match (calls[1].outcome, r) {
            (Outcome::Changed(_), Ok(e)) => e.id@ == entry_id && e.task_id == task_id && e.started_at
                == start && e.stopped_at == stop,
            (Outcome::Changed(_), Err(_)) => false,
            (_, Err(DbError::Sqlite(_))) => true,
            _ => false,
        }
    }
}

/// What `amend_time_entry` does: find the entry, then amend it.
pub open spec fn entry_amended(
    entry_id: Seq<char>,
    started_at: Option<i64>,
    stopped_at: Option<i64>,
    calls: Seq<SqlCall>,
    r: Result<TimeEntry, DbError>,
) -> bool {
    &&& calls.len() >= 1
    &&& is_call(calls[0], AMEND_SELECT_SQL@, seq![Cell::Text(entry_id)])
    &&& match calls[0].outcome {
        Outcome::Rows(rows) => if rows.len() == 0 {
            calls.len() == 1 && r matches Err(DbError::EntryNotFound)
        } else {
            match (
                cell_int(rows[0][0]),
                cell_text(rows[0][1]),
                cell_opt_text(rows[0][2]),
                cell_flag(rows[0][3]),
            ) {
                (Some(task_id), Some(cs), Some(cst), Some(round)) => exists|start: i64, stop: Option<i64>|
                    {
                        &&& amended_times(started_at, stopped_at, cs, cst, start, stop)
                        &&& amend_written(entry_id, task_id, round, start, stop, calls, r)
                    },
                _ => calls.len() == 1 && r matches Err(DbError::UnexpectedColumn),
            }
        },
        _ => calls.len() == 1 && r matches Err(DbError::Sqlite(_)),
    }
}

/// The billable times, where there are both, cover the actual ones.
pub open spec fn covers(billable: (Option<i64>, Option<i64>), start: i64, stop: Option<i64>) -> bool {
    match billable {
        (Some(bs), Some(be)) => bs <= start && match stop {
            Some(s) => s <= be,
            None => true,
        },
        _ => true,
    }
}

/// An amendment that succeeds writes a stop after the start, and,
/// for an entry billed in half hours, billable times that cover the actual
/// ones: the rounded start no later than the start, the rounded stop no
/// earlier than the stop.
pub proof fn lemma_amend_writes_ordered_times(
    entry_id: Seq<char>,
    started_at: Option<i64>,
    stopped_at: Option<i64>,
    calls: Seq<SqlCall>,
    e: TimeEntry,
)
    requires
        started_at matches Some(t) ==> valid_timestamp(t as int),
        stopped_at matches Some(t) ==> valid_timestamp(t as int),
        entry_amended(entry_id, started_at, stopped_at, calls, Ok(e)),
    ensures
        calls.len() == 2,
        e.stopped_at matches Some(s) ==> e.started_at < s,
        exists|round: bool|
            calls[1].params == seq![
                text_of_instant(e.started_at),
                optional_instant(e.stopped_at),
                optional_instant(#[trigger] billable_pair(round, e.started_at, e.stopped_at).0),
                optional_instant(billable_pair(round, e.started_at, e.stopped_at).1),
                Cell::Text(entry_id),
            ],
        forall|round: bool| covers(#[trigger] billable_pair(round, e.started_at, e.stopped_at), e.started_at, e.stopped_at),
{
    let rows = calls[0].outcome->Rows_0;
    let (task_id, round) = (cell_int(rows[0][0])->Some_0, cell_flag(rows[0][3])->Some_0);
    let (start, stop) = choose|start: i64, stop: Option<i64>|
        {
            &&& amended_times(
                started_at,
                stopped_at,
                cell_text(rows[0][1])->Some_0,
                cell_opt_text(rows[0][2])->Some_0,
                start,
                stop,
            )
            &&& amend_written(entry_id, task_id, round, start, stop, calls, Ok(e))
        };
    assert(e.started_at == start && e.stopped_at == stop);
    assert(calls[1].params == seq![
        text_of_instant(e.started_at),
        optional_instant(e.stopped_at),
        optional_instant(billable_pair(round, e.started_at, e.stopped_at).0),
        optional_instant(billable_pair(round, e.started_at, e.stopped_at).1),
        Cell::Text(entry_id),
    ]);
    assert(valid_timestamp(e.started_at as int));
    assert forall|rd: bool| covers(#[trigger] billable_pair(rd, e.started_at, e.stopped_at), e.started_at, e.stopped_at) by {
        if let Some(s) = e.stopped_at {
            assert(valid_timestamp(s as int));
            crate::time::lemma_billable_covers_actual(e.started_at as int, s as int);
            crate::time::lemma_round_down(e.started_at as int);
            crate::time::lemma_round_up(s as int);
        }
    }
}


/// A stored optional instant, read: `NULL` as none, text as what it reads as.
pub open spec fn optional_read(o: Option<Option<Seq<char>>>, v: Option<i64>) -> bool {
    match (o, v) {
        (Some(None), None) => true,
        (Some(Some(t)), Some(x)) => reads_as(t, x),
        _ => false,
    }
}

/// Every column of the row has the type the schema gives it.
pub open spec fn candidate_row_decodes(row: Seq<Cell>) -> bool {
    &&& cell_text(row[0]) is Some
    &&& cell_int(row[1]) is Some
    &&& cell_text(row[2]) is Some
    &&& cell_text(row[3]) is Some
    &&& cell_opt_text(row[4]) is Some
    &&& cell_opt_text(row[5]) is Some
    &&& cell_flag(row[6]) is Some
}

/// `c` is the squash candidate the row describes.
pub open spec fn candidate_read(row: Seq<Cell>, c: SquashCandidate) -> bool {
    &&& cell_text(row[0]) == Some(c.id@)
    &&& cell_int(row[1]) == Some(c.task_id)
    &&& match cell_text(row[2]) {
        Some(t) => reads_as(t, c.started_at),
        None => false,
    }
    &&& match cell_text(row[3]) {
        Some(t) => reads_as(t, c.stopped_at),
        None => false,
    }
    &&& optional_read(cell_opt_text(row[4]), c.billable_started_at)
    &&& optional_read(cell_opt_text(row[5]), c.billable_stopped_at)
    &&& cell_flag(row[6]) == Some(c.round_on_stop)
}

/// The statement and parameters of a call.
pub open spec fn call_pairs(calls: Seq<SqlCall>) -> Seq<(Seq<char>, Seq<Cell>)> {
    calls.map_values(|c: SqlCall| (c.sql, c.params))
}

/// Every call changed rows (none failed).
pub open spec fn all_changed(calls: Seq<SqlCall>) -> bool {
    forall|i: int| 0 <= i < calls.len() ==> (#[trigger] calls[i].outcome) is Changed
}

/// The deletion of the entry `id`.
pub open spec fn delete_call(id: Seq<char>) -> (Seq<char>, Seq<Cell>) {
    (DELETE_ENTRY_SQL@, seq![Cell::Text(id)])
}

/// The statements that carry out one merge: rewrite the kept entry, then
/// delete the others in order.
pub open spec fn merge_calls(m: MergeView) -> Seq<(Seq<char>, Seq<Cell>)> {
    seq![
        (
            SQUASH_UPDATE_SQL@,
            seq![
                text_of_instant(m.started_at),
                text_of_instant(m.stopped_at),
                optional_instant(m.billable_started_at),
                optional_instant(m.billable_stopped_at),
                flag_cell(m.round_on_stop),
                Cell::Text(m.keep_id),
            ],
        ),
    ] + m.delete_ids.map_values(|id: Seq<char>| delete_call(id))
}

/// The statements that carry out the merges, in order.
pub open spec fn plan_calls(ms: Seq<MergeView>) -> Seq<(Seq<char>, Seq<Cell>)>
    decreases ms.len(),
{
    if ms.len() == 0 {
        seq![]
    } else {
        plan_calls(ms.drop_last()) + merge_calls(ms.last())
    }
}

/// `a` is a prefix of `b`.
pub open spec fn is_prefix<A>(a: Seq<A>, b: Seq<A>) -> bool {
    a.len() <= b.len() && b.take(a.len() as int) == a
}

proof fn lemma_plan_calls_prefix(ms: Seq<MergeView>, i: int)
    requires
        0 <= i <= ms.len(),
    ensures
        is_prefix(plan_calls(ms.take(i)), plan_calls(ms)),
    decreases ms.len() - i,
{
    if i < ms.len() {
        lemma_plan_calls_prefix(ms, i + 1);
        assert(ms.take(i + 1).drop_last() =~= ms.take(i));
        let a = plan_calls(ms.take(i));
        let b = plan_calls(ms.take(i + 1));
        let c = plan_calls(ms);
        assert(b == a + merge_calls(ms[i]));
        assert(c.take(a.len() as int) =~= b.take(a.len() as int));
        assert(b.take(a.len() as int) =~= a);
    } else {
        assert(ms.take(i) =~= ms);
        assert(plan_calls(ms).take(plan_calls(ms).len() as int) =~= plan_calls(ms));
    }
}

/// What `squash_day` does with the candidates it read: carry out the plan,
/// stopping at the first statement that fails.
pub open spec fn squash_written(
    cands: Seq<SquashCandidate>,
    calls: Seq<SqlCall>,
    r: Result<SquashResult, DbError>,
) -> bool {
    let plan = spec_squash_plan(cands);
    match r {
        Ok(res) => {
            &&& call_pairs(calls) == plan_calls(plan)
            &&& all_changed(calls)
            &&& res.squashed_tasks == plan.len()
            &&& res.deleted_entries == deleted_count(plan)
        },
        Err(DbError::Sqlite(_)) => {
            &&& calls.len() > 0
            &&& is_prefix(call_pairs(calls), plan_calls(plan))
            &&& all_changed(calls.drop_last())
            &&& calls.last().outcome is Failed
        },
        _ => false,
    }
}

/// What `squash_day` does after working out the day's first instant `start`:
/// read the day's stopped entries, then merge each task's run of entries.
/// What squashing the day from `start` does: refuse a start within a day of
/// the last instant chrono holds, sending nothing; else query the entries of
/// the day from `start` and merge them.
pub open spec fn day_start_squashed(start: i64, calls: Seq<SqlCall>, r: Result<SquashResult, DbError>) -> bool {
    if start > MAX_TIMESTAMP - 86400 {
        calls.len() == 0 && r matches Err(DbError::InvalidTimeRange)
    } else {
        day_squashed(start, calls, r)
    }
}

pub open spec fn day_squashed(start: i64, calls: Seq<SqlCall>, r: Result<SquashResult, DbError>) -> bool {
    &&& calls.len() >= 1
    &&& is_call(
        calls[0],
        SQUASH_SELECT_SQL@,
        seq![text_of_instant(start), text_of_instant((start + 86400) as i64)],
    )
    &&& match calls[0].outcome {
        Outcome::Rows(rows) => if forall|k: int| 0 <= k < rows.len() ==> candidate_row_decodes(
            #[trigger] rows[k],
        ) {
            exists|cands: Seq<SquashCandidate>|
                {
                    &&& cands.len() == rows.len()
                    &&& forall|k: int| 0 <= k < rows.len() ==> candidate_read(#[trigger] rows[k], cands[k])
                    &&& squash_written(cands, calls.skip(1), r)
                }
        } else {
            calls.len() == 1 && r matches Err(DbError::UnexpectedColumn)
        },
        _ => calls.len() == 1 && r matches Err(DbError::Sqlite(_)),
    }
}


/// The instants of a merge lie in chrono's range.
pub open spec fn merge_valid(m: MergeView) -> bool {
    &&& valid_timestamp(m.started_at as int)
    &&& valid_timestamp(m.stopped_at as int)
    &&& m.billable_started_at matches Some(t) ==> valid_timestamp(t as int)
    &&& m.billable_stopped_at matches Some(t) ==> valid_timestamp(t as int)
}

/// The instants of a candidate lie in chrono's range.
pub open spec fn candidate_valid(c: SquashCandidate) -> bool {
    &&& valid_timestamp(c.started_at as int)
    &&& valid_timestamp(c.stopped_at as int)
    &&& c.billable_started_at matches Some(t) ==> valid_timestamp(t as int)
    &&& c.billable_stopped_at matches Some(t) ==> valid_timestamp(t as int)
}

proof fn lemma_candidates_valid(cands: Seq<SquashCandidate>, cells: Seq<Seq<Cell>>)
    requires
        cands.len() == cells.len(),
        forall|k: int| 0 <= k < cells.len() ==> candidate_read(#[trigger] cells[k], cands[k]),
    ensures
        forall|k: int| 0 <= k < cands.len() ==> candidate_valid(#[trigger] cands[k]),
{
    assert forall|k: int| 0 <= k < cands.len() implies candidate_valid(#[trigger] cands[k]) by {
        assert(candidate_read(cells[k], cands[k]));
    }
}

proof fn lemma_present_valid(s: Seq<Option<i64>>)
    requires
        forall|k: int| 0 <= k < s.len() ==> (#[trigger] s[k] matches Some(t) ==> valid_timestamp(t as int)),
    ensures
        crate::squash::min_present(s) matches Some(t) ==> valid_timestamp(t as int),
        crate::squash::max_present(s) matches Some(t) ==> valid_timestamp(t as int),
    decreases s.len(),
{
    if s.len() > 0 {
        let k = s.len() - 1;
        assert(s[k] == s.last());
        lemma_present_valid(s.drop_last());
    }
}

proof fn lemma_plan_valid(s: Seq<SquashCandidate>, rs: Seq<(int, int)>)
    requires
        forall|k: int| 0 <= k < s.len() ==> candidate_valid(#[trigger] s[k]),
        forall|i: int| 0 <= i < rs.len() ==> 0 <= #[trigger] rs[i].0 < rs[i].1 <= s.len(),
    ensures
        forall|k: int| 0 <= k < crate::squash::merges_of(s, rs).len() ==> merge_valid(#[trigger] crate::squash::merges_of(s, rs)[k]),
    decreases rs.len(),
{
    if rs.len() > 0 {
        lemma_plan_valid(s, rs.drop_last());
        let (a, b) = rs.last();
        assert(rs[rs.len() - 1] == rs.last());
        let ms = crate::squash::merges_of(s, rs);
        let prev = crate::squash::merges_of(s, rs.drop_last());
        if b - a >= 2 {
            assert(ms == prev.push(crate::squash::merge_of(s, a, b)));
            let run = s.subrange(a, b);
            let bs = run.map_values(|c: SquashCandidate| c.billable_started_at);
            let be = run.map_values(|c: SquashCandidate| c.billable_stopped_at);
            assert forall|k: int| 0 <= k < bs.len() implies (#[trigger] bs[k] matches Some(t) ==> valid_timestamp(t as int)) by {
                assert(candidate_valid(s[a + k]));
            }
            assert forall|k: int| 0 <= k < be.len() implies (#[trigger] be[k] matches Some(t) ==> valid_timestamp(t as int)) by {
                assert(candidate_valid(s[a + k]));
            }
            lemma_present_valid(bs);
            lemma_present_valid(be);
            assert(candidate_valid(s[a]));
            crate::squash::lemma_latest_stop(run);
            let j = choose|k: int| 0 <= k < run.len() && crate::squash::latest_stop(run) == #[trigger] run[k].stopped_at;
            assert(candidate_valid(s[a + j]));
            assert(merge_valid(crate::squash::merge_of(s, a, b)));
        } else {
            assert(ms == prev);
        }
        assert forall|k: int| 0 <= k < ms.len() implies merge_valid(#[trigger] ms[k]) by {
            if k < prev.len() {
                assert(ms[k] == prev[k]);
            }
        }
    }
}

proof fn lemma_deleted_bound(s: Seq<SquashCandidate>, rs: Seq<(int, int)>)
    requires
        crate::squash::runs_partition(crate::squash::task_ids(s), rs),
    ensures
        forall|k: int| 0 <= k <= crate::squash::merges_of(s, rs).len() ==> deleted_count(#[trigger] crate::squash::merges_of(s, rs).take(k)) <= s.len(),
{
    lemma_deleted_upto(s, rs);
    let ms = crate::squash::merges_of(s, rs);
    assert forall|k: int| 0 <= k <= ms.len() implies deleted_count(#[trigger] ms.take(k)) <= s.len() by {
        lemma_deleted_take(ms, k);
    }
}

proof fn lemma_deleted_take(ms: Seq<MergeView>, k: int)
    requires
        0 <= k <= ms.len(),
    ensures
        deleted_count(ms.take(k)) <= deleted_count(ms),
    decreases ms.len() - k,
{
    if k < ms.len() {
        lemma_deleted_take(ms, k + 1);
        assert(ms.take(k + 1).drop_last() =~= ms.take(k));
    } else {
        assert(ms.take(k) =~= ms);
    }
}

proof fn lemma_deleted_upto(s: Seq<SquashCandidate>, rs: Seq<(int, int)>)
    requires
        forall|i: int| 0 <= i < rs.len() ==> 0 <= #[trigger] rs[i].0 < rs[i].1 <= s.len(),
        forall|i: int, j: int| 0 <= i && j == i + 1 && j < rs.len() ==> #[trigger] rs[i].1 <= #[trigger] rs[j].0,
    ensures
        deleted_count(crate::squash::merges_of(s, rs)) <= if rs.len() == 0 { 0 } else { rs.last().1 },
    decreases rs.len(),
{
    if rs.len() > 0 {
        let prefix = rs.drop_last();
        assert forall|i: int, j: int| 0 <= i && j == i + 1 && j < prefix.len() implies #[trigger] prefix[i].1 <= #[trigger] prefix[j].0 by {
            assert(rs[i].1 <= rs[j].0);
        }
        lemma_deleted_upto(s, prefix);
        let n = rs.len() - 1;
        assert(rs[n] == rs.last());
        if n > 0 {
            assert(rs[n - 1].1 <= rs[n].0);
            assert(prefix.last() == rs[n - 1]);
        }
        let (a, b) = rs.last();
        if b - a >= 2 {
            let ms = crate::squash::merges_of(s, rs);
            assert(ms.drop_last() == crate::squash::merges_of(s, prefix));
            assert(ms.last().delete_ids.len() == b - a - 1);
        }
    }
}

proof fn lemma_extends_trans(a: Seq<SqlCall>, b: Seq<SqlCall>, c: Seq<SqlCall>)
    requires
        extends(a, b),
        extends(b, c),
    ensures
        extends(a, c),
{
    assert(c.take(a.len() as int) =~= c.take(b.len() as int).take(a.len() as int));
}

proof fn lemma_prefix_step(
    done: Seq<(Seq<char>, Seq<Cell>)>,
    mc: Seq<(Seq<char>, Seq<Cell>)>,
    k: int,
    all: Seq<(Seq<char>, Seq<Cell>)>,
)
    requires
        0 <= k <= mc.len(),
        is_prefix(done + mc, all),
    ensures
        is_prefix(done + mc.take(k), all),
{
    assert(all.take((done + mc.take(k)).len() as int) =~= (done + mc).take((done + mc.take(k)).len() as int));
    assert((done + mc).take((done + mc.take(k)).len() as int) =~= done + mc.take(k));
}

proof fn lemma_day_squashed(
    start: i64,
    before: Seq<SqlCall>,
    mid: Seq<SqlCall>,
    after: Seq<SqlCall>,
    cands: Seq<SquashCandidate>,
    cells: Seq<Seq<Cell>>,
    r: Result<SquashResult, DbError>,
)
    requires
        day_queried(before, mid, start, cells),
        extends(mid, after),
        cands.len() == cells.len(),
        forall|k: int| 0 <= k < cells.len() ==> candidate_read(#[trigger] cells[k], cands[k]),
        squash_written(cands, added(mid, after), r),
    ensures
        extends(before, after),
        day_squashed(start, added(before, after), r),
{
    lemma_extends_trans(before, mid, after);
    let calls = added(before, after);
    assert(calls[0] == mid.last());
    assert(calls.skip(1) =~= added(mid, after));
    assert forall|k: int| 0 <= k < cells.len() implies candidate_row_decodes(#[trigger] cells[k]) by {
        assert(candidate_read(cells[k], cands[k]));
    }
}


/// A stored optional instant, read without falling back: `NULL` or an
/// unreadable text as none.
pub open spec fn optional_reading(o: Option<Option<Seq<char>>>, v: Option<i64>) -> bool {
    match o {
        Some(None) => v is None,
        Some(Some(t)) => v == read_datetime(t),
        None => false,
    }
}

/// Every column of a row of the log query has the type the schema gives it.
pub open spec fn log_row_decodes(row: Seq<Cell>) -> bool {
    &&& cell_text(row[0]) is Some
    &&& cell_text(row[1]) is Some
    &&& cell_text(row[2]) is Some
    &&& cell_opt_text(row[3]) is Some
    &&& cell_opt_text(row[4]) is Some
    &&& cell_opt_text(row[5]) is Some
}

/// The seconds an entry has lasted at `now`: to its stop, or to `now` while
/// it runs.
pub open spec fn elapsed_at(start: i64, stop: Option<i64>, now: i64) -> i64 {
    (match stop {
        Some(s) => s,
        None => now,
    } - start) as i64
}

/// The billable seconds of an entry: from the billable start to the billable
/// stop, when both are there.
pub open spec fn billable_seconds_of(start: Option<i64>, stop: Option<i64>) -> Option<i64> {
    match (start, stop) {
        (Some(s), Some(e)) => Some((e - s) as i64),
        _ => None,
    }
}

/// `e` (task name and entry) is what the row of the log query describes:
/// the id, the task, the start (the clock's instant where unreadable), the
/// stop and billable times where readable, the seconds from the start to the
/// stop (to `now` while it runs), the start's day, and the billable seconds.
pub open spec fn log_entry_read(row: Seq<Cell>, now: i64, e: (Seq<char>, DetailView)) -> bool {
    let d = e.1;
    &&& cell_text(row[0]) == Some(d.id)
    &&& cell_text(row[1]) == Some(e.0)
    &&& match cell_text(row[2]) {
        Some(t) => reads_as(t, d.started_at),
        None => false,
    }
    &&& optional_reading(cell_opt_text(row[3]), d.stopped_at)
    &&& d.duration_seconds == elapsed_at(d.started_at, d.stopped_at, now)
    &&& optional_reading(cell_opt_text(row[4]), d.billable_started_at)
    &&& optional_reading(cell_opt_text(row[5]), d.billable_stopped_at)
    &&& d.date == spec_day(d.started_at as int, 0)
    &&& d.billable_seconds == billable_seconds_of(d.billable_started_at, d.billable_stopped_at)
}

/// `p` is the log of the project `name` whose entries the query returned as
/// `rows`.
pub open spec fn project_logged(name: Seq<char>, rows: Seq<Seq<Cell>>, now: i64, p: ProjectSummaryView) -> bool {
    exists|entries: Seq<(Seq<char>, DetailView)>|
        {
            &&& entries.len() == rows.len()
            &&& forall|i: int| 0 <= i < rows.len() ==> log_entry_read(#[trigger] rows[i], now, entries[i])
            &&& summarizes(name, entries, p)
        }
}

/// The summaries `ps` are what the entry queries `calls`, one for each
/// project row of `prows` in order, gave: one summary for each project with
/// entries, in the order of the projects.
pub open spec fn projects_logged(
    prows: Seq<Seq<Cell>>,
    calls: Seq<SqlCall>,
    now: i64,
    ps: Seq<ProjectSummaryView>,
) -> bool
    decreases prows.len(),
{
    if prows.len() == 0 {
        calls.len() == 0 && ps.len() == 0
    } else {
        let k = prows.len() - 1;
        &&& calls.len() == prows.len()
        &&& match (cell_int(prows[k][0]), cell_text(prows[k][1])) {
            (Some(pid), Some(name)) => {
                &&& is_call(calls[k], LOG_ENTRIES_SELECT_SQL@, seq![Cell::Int(pid)])
                &&& match calls[k].outcome {
                    Outcome::Rows(rows) => if rows.len() == 0 {
                        projects_logged(prows.drop_last(), calls.drop_last(), now, ps)
                    } else {
                        &&& ps.len() > 0
                        &&& projects_logged(prows.drop_last(), calls.drop_last(), now, ps.drop_last())
                        &&& project_logged(name, rows, now, ps.last())
                    },
                    _ => false,
                }
            },
            _ => false,
        }
    }
}

/// The entry rows of a project failed the log: some row does not decode
/// (`UnexpectedColumn`), or they all decode but a total leaves `i64`
/// (`TotalOutOfRange`).
pub open spec fn entries_failed(rows: Seq<Seq<Cell>>, now: i64, e: DbError) -> bool {
    if exists|i: int| 0 <= i < rows.len() && !log_row_decodes(#[trigger] rows[i]) {
        e is UnexpectedColumn
    } else {
        &&& e is TotalOutOfRange
        &&& exists|entries: Seq<(Seq<char>, DetailView)>|
            {
                &&& entries.len() == rows.len()
                &&& rows.len() > 0
                &&& forall|i: int| 0 <= i < rows.len() ==> log_entry_read(#[trigger] rows[i], now, entries[i])
                &&& #[trigger] totals_overflow(entries)
            }
    }
}

/// The log failed at some project row, as `log_failed_at` says.
pub open spec fn log_failed(prows: Seq<Seq<Cell>>, calls: Seq<SqlCall>, now: i64, e: DbError) -> bool {
    exists|k: int| #[trigger] log_failed_at(prows, calls, now, k, e)
}

/// The log failed at the project row `k`, the rows before it having been
/// logged: the row does not decode (`UnexpectedColumn`, no query sent for
/// it); or its entry query failed (`Sqlite`); or one of the entry rows does
/// not decode (`UnexpectedColumn`); or the entries decode but a total leaves
/// `i64` (`TotalOutOfRange`). `calls` are the calls after the projects query.
pub open spec fn log_failed_at(
    prows: Seq<Seq<Cell>>,
    calls: Seq<SqlCall>,
    now: i64,
    k: int,
    e: DbError,
) -> bool {
    &&& 0 <= k < prows.len()
    &&& exists|ps: Seq<ProjectSummaryView>| #[trigger] projects_logged(prows.take(k), calls.take(k), now, ps)
    &&& match (cell_int(prows[k][0]), cell_text(prows[k][1])) {
        (Some(pid), Some(name)) => {
            &&& calls.len() == k + 1
            &&& is_call(calls[k], LOG_ENTRIES_SELECT_SQL@, seq![Cell::Int(pid)])
            &&& match calls[k].outcome {
                Outcome::Rows(rows) => entries_failed(rows, now, e),
                _ => e is Sqlite,
            }
        },
        _ => calls.len() == k && e is UnexpectedColumn,
    }
}

/// What `get_log` does at `now`: read the projects in name order, then each
/// project's entries, and summarise each project that has entries. Only
/// these queries are sent, in this order, whatever the outcome; an error
/// comes only where a query failed, a row does not decode, or a total leaves
/// `i64`.
pub open spec fn log_read(calls: Seq<SqlCall>, now: i64, r: Result<Vec<ProjectSummary>, DbError>) -> bool {
    &&& calls.len() >= 1
    &&& is_call(calls[0], PROJECTS_SELECT_SQL@, seq![])
    &&& match calls[0].outcome {
        Outcome::Rows(prows) => match r {
            Ok(ps) => projects_logged(prows, calls.skip(1), now, project_views(ps@)),
            Err(e) => log_failed(prows, calls.skip(1), now, e),
        },
        _ => calls.len() == 1 && r matches Err(DbError::Sqlite(_)),
    }
}


/// Every entry of the summaries `ps` lasts, in seconds, from its start to its
/// stop, or, while it runs, to the instant `now`.
pub open spec fn entries_last_until(ps: Seq<ProjectSummaryView>, now: i64) -> bool {
    forall|i: int, j: int, k: int|
        0 <= i < ps.len() && 0 <= j < ps[i].tasks.len() && 0 <= k < ps[i].tasks[j].entries.len() ==> {
            let d = #[trigger] ps[i].tasks[j].entries[k];
            &&& d.stopped_at is None ==> d.duration_seconds == now - d.started_at
            &&& d.stopped_at matches Some(s) ==> d.duration_seconds == (s - d.started_at) as i64
        }
}

/// The entry `d` lasts from its start to its stop, or to `now` while it runs.
pub open spec fn entry_lasts_until(d: DetailView, now: i64) -> bool {
    &&& d.stopped_at is None ==> d.duration_seconds == now - d.started_at
    &&& d.stopped_at matches Some(s) ==> d.duration_seconds == (s - d.started_at) as i64
}

/// What a filter keeps comes from the sequence filtered.
proof fn lemma_filter_member(s: Seq<(Seq<char>, DetailView)>, pred: spec_fn((Seq<char>, DetailView)) -> bool, i: int)
    requires
        0 <= i < s.filter(pred).len(),
    ensures
        exists|m: int| 0 <= m < s.len() && s[m] == s.filter(pred)[i],
    decreases s.len(),
{
    reveal(Seq::filter);
    if s.len() > 0 {
        let d = s.drop_last();
        let sub = d.filter(pred);
        assert(s.filter(pred) == if pred(s.last()) { sub.push(s.last()) } else { sub });
        if pred(s.last()) && i == sub.len() {
            assert(s[s.len() - 1] == s.filter(pred)[i]);
        } else {
            assert(s.filter(pred)[i] == sub[i]);
            lemma_filter_member(d, pred, i);
            let m = choose|m: int| 0 <= m < d.len() && d[m] == sub[i];
            assert(s[m] == d[m]);
        }
    }
}

/// Each entry of a project's log lasts until its stop or `now`.
proof fn lemma_project_entries_last(name: Seq<char>, rows: Seq<Seq<Cell>>, now: i64, p: ProjectSummaryView)
    requires
        project_logged(name, rows, now, p),
        valid_timestamp(now as int),
    ensures
        forall|j: int, k: int|
            0 <= j < p.tasks.len() && 0 <= k < p.tasks[j].entries.len() ==> entry_lasts_until(
                #[trigger] p.tasks[j].entries[k],
                now,
            ),
{
    let entries = choose|entries: Seq<(Seq<char>, DetailView)>|
        {
            &&& entries.len() == rows.len()
            &&& forall|i: int| 0 <= i < rows.len() ==> log_entry_read(#[trigger] rows[i], now, entries[i])
            &&& summarizes(name, entries, p)
        };
    assert forall|j: int, k: int| 0 <= j < p.tasks.len() && 0 <= k < p.tasks[j].entries.len() implies entry_lasts_until(
        #[trigger] p.tasks[j].entries[k],
        now,
    ) by {
        let g = crate::summary::task_groups(p.tasks);
        assert(g[j] == (p.tasks[j].task_name, p.tasks[j].entries));
        assert(g[j].1 == crate::summary::entries_of(entries, g[j].0));
        let pred = crate::summary::of_task(g[j].0);
        let f = entries.filter(pred);
        assert(f.map_values(crate::summary::entry_part()).len() == f.len());
        assert(0 <= k < f.len());
        assert(p.tasks[j].entries[k] == f[k].1);
        let x = f[k];
        lemma_filter_member(entries, pred, k);
        let m = choose|m: int| 0 <= m < entries.len() && entries[m] == x;
        assert(log_entry_read(rows[m], now, entries[m]));
    }
}

/// Each entry of the logged projects lasts until its stop or `now`.
proof fn lemma_projects_entries_last(
    prows: Seq<Seq<Cell>>,
    calls: Seq<SqlCall>,
    now: i64,
    ps: Seq<ProjectSummaryView>,
)
    requires
        projects_logged(prows, calls, now, ps),
        valid_timestamp(now as int),
    ensures
        entries_last_until(ps, now),
    decreases prows.len(),
{
    if prows.len() > 0 {
        let k = prows.len() - 1;
        if let (Some(pid), Some(name)) = (cell_int(prows[k][0]), cell_text(prows[k][1])) {
            if let Outcome::Rows(rows) = calls[k].outcome {
                if rows.len() == 0 {
                    lemma_projects_entries_last(prows.drop_last(), calls.drop_last(), now, ps);
                } else {
                    lemma_projects_entries_last(prows.drop_last(), calls.drop_last(), now, ps.drop_last());
                    lemma_project_entries_last(name, rows, now, ps.last());
                    assert forall|i: int, j: int, kk: int|
                        0 <= i < ps.len() && 0 <= j < ps[i].tasks.len() && 0 <= kk < ps[i].tasks[j].entries.len()
                        implies entry_lasts_until(#[trigger] ps[i].tasks[j].entries[kk], now) by {
                        if i < ps.len() - 1 {
                            assert(ps[i] == ps.drop_last()[i]);
                            assert(entry_lasts_until(ps.drop_last()[i].tasks[j].entries[kk], now));
                        }
                    }
                }
            }
        }
    }
}

/// The log reads every entry to its stop, and a running entry to the instant
/// `now` it was read at: `get_log` reads it at the clock's reading taken in
/// the call, so a running entry has lasted from its start to that reading,
/// and not to any other instant.
pub proof fn lemma_log_running_until_now(calls: Seq<SqlCall>, now: i64, ps: Vec<ProjectSummary>)
    requires
        log_read(calls, now, Ok(ps)),
        valid_timestamp(now as int),
    ensures
        entries_last_until(project_views(ps@), now),
{
    if let Outcome::Rows(prows) = calls[0].outcome {
        lemma_projects_entries_last(prows, calls.skip(1), now, project_views(ps@));
    }
}

proof fn lemma_projects_logged_len(prows: Seq<Seq<Cell>>, calls: Seq<SqlCall>, now: i64, ps: Seq<ProjectSummaryView>)
    requires
        projects_logged(prows, calls, now, ps),
    ensures
        calls.len() == prows.len(),
{
}

proof fn lemma_log_failed(
    before: Seq<SqlCall>,
    mid: Seq<SqlCall>,
    after: Seq<SqlCall>,
    pcells: Seq<Seq<Cell>>,
    now: i64,
    k: int,
    e: DbError,
)
    requires
        extends(before, mid),
        added(before, mid).len() == 1,
        is_call(mid.last(), PROJECTS_SELECT_SQL@, seq![]),
        mid.last().outcome == Outcome::Rows(pcells),
        extends(mid, after),
        log_failed_at(pcells, added(mid, after), now, k, e),
    ensures
        extends(before, after),
        log_read(added(before, after), now, Err(e)),
{
    lemma_extends_trans(before, mid, after);
    let calls = added(before, after);
    assert(after.take(mid.len() as int) == mid);
    assert(after[before.len() as int] == after.take(mid.len() as int)[before.len() as int]);
    assert(calls[0] == mid.last());
    assert(calls.skip(1) =~= added(mid, after));
    assert(log_failed_at(pcells, calls.skip(1), now, k, e));
    assert(log_failed(pcells, calls.skip(1), now, e));
    assert(calls.len() >= 1);
    assert(is_call(calls[0], PROJECTS_SELECT_SQL@, seq![]));
    assert(calls[0].outcome == Outcome::Rows(pcells));
}

/// A row read as an entry decodes.
proof fn lemma_read_row_decodes(row: Seq<Cell>, now: i64, e: (Seq<char>, DetailView))
    requires
        log_entry_read(row, now, e),
    ensures
        log_row_decodes(row),
{
}

proof fn lemma_log_step(
    pcells: Seq<Seq<Cell>>,
    calls: Seq<SqlCall>,
    calls2: Seq<SqlCall>,
    now: i64,
    ps: Seq<ProjectSummaryView>,
    ps2: Seq<ProjectSummaryView>,
    k: int,
    pid: i64,
    name: Seq<char>,
    rows: Seq<Seq<Cell>>,
)
    requires
        0 <= k < pcells.len(),
        projects_logged(pcells.take(k), calls, now, ps),
        calls2 == calls.push(calls2.last()),
        cell_int(pcells[k][0]) == Some(pid),
        cell_text(pcells[k][1]) == Some(name),
        is_call(calls2.last(), LOG_ENTRIES_SELECT_SQL@, seq![Cell::Int(pid)]),
        calls2.last().outcome == Outcome::Rows(rows),
        rows.len() == 0 ==> ps2 == ps,
        rows.len() > 0 ==> ps2.len() > 0 && ps2.drop_last() == ps && project_logged(name, rows, now, ps2.last()),
    ensures
        projects_logged(pcells.take(k + 1), calls2, now, ps2),
{
    let p2 = pcells.take(k + 1);
    assert(p2.drop_last() =~= pcells.take(k));
    assert(p2[k] == pcells[k]);
    assert(calls2.drop_last() == calls);
    lemma_projects_logged_len(pcells.take(k), calls, now, ps);
}

/// The database, and the record of the calls made through its connection.
pub struct Database {
    store: Store,
    clock: Clock,
}

/// The cells of one row.
pub open spec fn row_cells_of(row: &Vec<SqlValue>) -> Seq<Cell> {
    crate::sql::row_cells(row@)
}

/// The cells of the rows.
pub open spec fn rows_cells_of(rows: &Vec<Vec<SqlValue>>) -> Seq<Seq<Cell>> {
    crate::sql::rows_cells(rows@)
}

/// The day's query has been made: one call after `before`, with the day's
/// bounds, which returned `cells`.
pub open spec fn day_queried(before: Seq<SqlCall>, mid: Seq<SqlCall>, start: i64, cells: Seq<Seq<Cell>>) -> bool {
    &&& extends(before, mid)
    &&& added(before, mid).len() == 1
    &&& is_call(mid.last(), SQUASH_SELECT_SQL@, seq![text_of_instant(start), text_of_instant((start + 86400) as i64)])
    &&& mid.last().outcome == Outcome::Rows(cells)
}

/// `after` is `before` with calls appended.
pub open spec fn extends(before: Seq<SqlCall>, after: Seq<SqlCall>) -> bool {
    after.len() >= before.len() && after.take(before.len() as int) == before
}

/// The calls appended to `before` to make `after`.
pub open spec fn added(before: Seq<SqlCall>, after: Seq<SqlCall>) -> Seq<SqlCall> {
    after.skip(before.len() as int)
}

/// The call is of `sql` with `params`.
pub open spec fn is_call(c: SqlCall, sql: Seq<char>, params: Seq<Cell>) -> bool {
    c.sql == sql && c.params == params
}

proof fn lemma_extends_refl(s: Seq<SqlCall>)
    ensures
        extends(s, s),
        added(s, s) == Seq::<SqlCall>::empty(),
{
    assert(s.take(s.len() as int) =~= s);
    assert(added(s, s) =~= Seq::<SqlCall>::empty());
}

proof fn lemma_one_more(before: Seq<SqlCall>, mid: Seq<SqlCall>, after: Seq<SqlCall>)
    requires
        extends(before, mid),
        after.len() == mid.len() + 1,
        after.drop_last() == mid,
    ensures
        extends(before, after),
        added(before, after) == added(before, mid).push(after.last()),
{
    assert(after.take(before.len() as int) =~= mid.take(before.len() as int));
    assert(added(before, after) =~= added(before, mid).push(after.last()));
}

impl Database {
    /// The calls made through the connection, oldest first.
    pub closed spec fn calls(&self) -> Seq<SqlCall> {
        self.store.calls()
    }

    /// The path of the database file.
    pub closed spec fn path(&self) -> Seq<char> {
        self.store.path()
    }

    /// The readings of the system clock this database took, oldest first.
    pub closed spec fn readings(&self) -> Seq<i64> {
        self.clock.readings()
    }

    /// The offsets of the machine's time zone this database read, each with
    /// the instant it was read for, oldest first.
    pub closed spec fn zone_offsets(&self) -> Seq<(i64, i32)> {
        self.clock.offsets()
    }

    /// An instant given on the command line, a time of day taken on the day
    /// of a reading of the clock, which is written down.
    pub fn read_timestamp(&mut self, input: &str) -> (r: Result<i64, String>)
        ensures
            final(self).readings() == old(self).readings().push(final(self).readings().last()),
            final(self).zone_offsets() == old(self).zone_offsets().push(
                (final(self).readings().last(), final(self).zone_offsets().last().1),
            ),
            valid_timestamp(final(self).readings().last() as int),
            -86400 < final(self).zone_offsets().last().1 < 86400,
            crate::input::timestamp_answer_at(
                input@,
                final(self).readings().last() as int,
                final(self).zone_offsets().last().1 as int,
                r,
            ),
            crate::input::answer_at_reading(input@, final(self).readings().last(), r),
            r matches Ok(t) ==> valid_timestamp(t as int),
            final(self).calls() == old(self).calls(),
            final(self).path() == old(self).path(),
    {
        crate::input::timestamp_on_clock(input, &mut self.clock)
    }

    /// Reads the system clock, writing the reading down.
    pub fn read_clock(&mut self) -> (r: i64)
        ensures
            valid_timestamp(r as int),
            final(self).readings() == old(self).readings().push(r),
            final(self).zone_offsets() == old(self).zone_offsets(),
            final(self).calls() == old(self).calls(),
            final(self).path() == old(self).path(),
    {
        now(&mut self.clock)
    }

    /// An instant stored as text: RFC 3339, else the storage format, else
    /// (an unreadable text) the instant the clock shows.
    pub fn parse_datetime(input: &str) -> (r: i64)
        ensures
            reads_as(input@, r),
    {
        match read_optional_datetime(input) {
            Some(t) => t,
            None => current_instant(),
        }
    }

    /// A random id for a time entry, like a short git hash: the first six of
    /// sixteen random bytes in lowercase hexadecimal.
    pub fn generate_hash_id() -> (id: String)
        ensures
            is_entry_id(id@),
            id@.len() == 12,
    {
        let bytes = random_bytes();
        let id = hex_prefix(&bytes, 6);
        proof {
            lemma_hex_len(bytes@.take(6));
        }
        id
    }

    /// Opens the database file at `path` and creates the tables and indexes
    /// that are missing.
    pub fn open(path: &str) -> (r: Result<Database, DbError>)
        ensures
            r matches Ok(db) ==> db.calls().len() == 1 && is_call(
                db.calls()[0],
                SCHEMA_SQL@,
                seq![],
            ) && db.calls()[0].outcome == Outcome::Done,
            r matches Ok(db) ==> db.path() == path@,
            r matches Err(e) ==> e is Sqlite,
    {
        match Store::open(path) {
            Ok(store) => {
                let mut db = Database { store, clock: Clock::new() };
                match db.init_schema() {
                    Ok(()) => Ok(db),
                    Err(e) => Err(e),
                }
            },
            Err(e) => Err(DbError::Sqlite(e)),
        }
    }

    /// Creates the tables and indexes that are missing.
    pub fn init_schema(&mut self) -> (r: Result<(), DbError>)
        ensures
            final(self).readings() == old(self).readings(),
            final(self).zone_offsets() == old(self).zone_offsets(),
            extends(old(self).calls(), final(self).calls()),
            added(old(self).calls(), final(self).calls()).len() == 1,
            is_call(final(self).calls().last(), SCHEMA_SQL@, seq![]),
            r is Ok <==> final(self).calls().last().outcome == Outcome::Done,
            r matches Err(e) ==> e is Sqlite,
            final(self).path() == old(self).path(),
    {
        let r = self.store.execute_batch(SCHEMA_SQL);
        proof {
            lemma_extends_refl(old(self).calls());
            lemma_one_more(old(self).calls(), old(self).calls(), self.calls());
        }
        match r {
            Ok(()) => Ok(()),
            Err(e) => Err(DbError::Sqlite(e)),
        }
    }

    /// Deletes every time entry, task and project.
    pub fn clear_all(&mut self) -> (r: Result<(), DbError>)
        ensures
            final(self).readings() == old(self).readings(),
            final(self).zone_offsets() == old(self).zone_offsets(),
            extends(old(self).calls(), final(self).calls()),
            added(old(self).calls(), final(self).calls()).len() == 1,
            is_call(final(self).calls().last(), CLEAR_SQL@, seq![]),
            r is Ok <==> final(self).calls().last().outcome == Outcome::Done,
            r matches Err(e) ==> e is Sqlite,
    {
        let r = self.store.execute_batch(CLEAR_SQL);
        proof {
            lemma_extends_refl(old(self).calls());
            lemma_one_more(old(self).calls(), old(self).calls(), self.calls());
        }
        match r {
            Ok(()) => Ok(()),
            Err(e) => Err(DbError::Sqlite(e)),
        }
    }


    /// The running time entry with the names of its project and task, if any.
    pub fn get_active_entry(&mut self) -> (r: Result<Option<ActiveEntry>, DbError>)
        ensures
            final(self).readings() == old(self).readings(),
            final(self).zone_offsets() == old(self).zone_offsets(),
            one_call(old(self).calls(), final(self).calls(), ACTIVE_SELECT_SQL@, seq![]),
            active_entry_read(final(self).calls().last().outcome, r),
    {
        let params: Vec<SqlParam> = Vec::new();
        let r = self.store.query(ACTIVE_SELECT_SQL, &params, 3);
        proof {
            lemma_extends_refl(old(self).calls());
            lemma_one_more(old(self).calls(), old(self).calls(), self.calls());
            assert(param_cells(params@) =~= seq![]);
        }
        match r {
            Err(e) => Err(DbError::Sqlite(e)),
            Ok(rows) => {
                if rows.len() == 0 {
                    return Ok(None);
                }
                let row = &rows[0];
                assert(row.len() == 3);
                let started_at_text = text_at(row, 2)?;
                let project_name = text_at(row, 0)?;
                let task_name = text_at(row, 1)?;
                let started_at = Database::parse_datetime(started_at_text.as_str());
                Ok(Some(ActiveEntry { project_name, task_name, started_at }))
            },
        }
    }

    /// The project, id and name of the task whose entry stopped last, and
    /// whether that entry was rounded: (project id, task id, project name,
    /// task name, rounded).
    pub fn get_last_stopped_task(&mut self) -> (r: Result<Option<(i64, i64, String, String, bool)>, DbError>)
        ensures
            final(self).readings() == old(self).readings(),
            final(self).zone_offsets() == old(self).zone_offsets(),
            one_call(old(self).calls(), final(self).calls(), LAST_TASK_SELECT_SQL@, seq![]),
            last_task_read(final(self).calls().last().outcome, r),
    {
        let params: Vec<SqlParam> = Vec::new();
        let r = self.store.query(LAST_TASK_SELECT_SQL, &params, 5);
        proof {
            lemma_extends_refl(old(self).calls());
            lemma_one_more(old(self).calls(), old(self).calls(), self.calls());
            assert(param_cells(params@) =~= seq![]);
        }
        match r {
            Err(e) => Err(DbError::Sqlite(e)),
            Ok(rows) => {
                if rows.len() == 0 {
                    return Ok(None);
                }
                let row = &rows[0];
                assert(row.len() == 5);
                let project_id = int_at(row, 0)?;
                let task_id = int_at(row, 1)?;
                let project_name = text_at(row, 2)?;
                let task_name = text_at(row, 3)?;
                let round_on_stop = flag_at(row, 4)?;
                Ok(Some((project_id, task_id, project_name, task_name, round_on_stop)))
            },
        }
    }

    /// When the entry that stopped last stopped, if any entry stopped.
    pub fn get_last_stopped_at(&mut self) -> (r: Result<Option<i64>, DbError>)
        ensures
            final(self).readings() == old(self).readings(),
            final(self).zone_offsets() == old(self).zone_offsets(),
            one_call(old(self).calls(), final(self).calls(), LAST_STOP_SELECT_SQL@, seq![]),
            last_stop_read(final(self).calls().last().outcome, r),
    {
        let params: Vec<SqlParam> = Vec::new();
        let r = self.store.query(LAST_STOP_SELECT_SQL, &params, 1);
        proof {
            lemma_extends_refl(old(self).calls());
            lemma_one_more(old(self).calls(), old(self).calls(), self.calls());
            assert(param_cells(params@) =~= seq![]);
        }
        match r {
            Err(e) => Err(DbError::Sqlite(e)),
            Ok(rows) => {
                if rows.len() == 0 {
                    return Ok(None);
                }
                let row = &rows[0];
                assert(row.len() == 1);
                let text = text_at(row, 0)?;
                Ok(Some(Database::parse_datetime(text.as_str())))
            },
        }
    }


    /// The project called `name`, created when there is none.
    pub fn get_or_create_project(&mut self, name: &str) -> (r: Result<Project, DbError>)
        ensures
            final(self).readings() == old(self).readings(),
            final(self).zone_offsets() == old(self).zone_offsets(),
            extends(old(self).calls(), final(self).calls()),
            project_got(name@, added(old(self).calls(), final(self).calls()), r),
    {
        let ghost before = self.calls();
        let mut params: Vec<SqlParam> = Vec::new();
        params.push(text_param(name));
        let found = self.store.query(PROJECT_SELECT_SQL, &params, 3);
        let ghost mid = self.calls();
        proof {
            lemma_extends_refl(before);
            lemma_one_more(before, before, mid);
            assert(param_cells(params@) =~= seq![Cell::Text(name@)]);
        }
        match found {
            Err(e) => Err(DbError::Sqlite(e)),
            Ok(rows) => {
                if rows.len() > 0 {
                    let row = &rows[0];
                    assert(row.len() == 3);
                    let id = int_at(row, 0)?;
                    let found_name = text_at(row, 1)?;
                    let created = text_at(row, 2)?;
                    let created_at = read_rfc3339_or_now(created.as_str());
                    return Ok(Project { id, name: found_name, created_at });
                }
                let inserted = self.store.execute(PROJECT_INSERT_SQL, &params);
                let ghost mid2 = self.calls();
                proof {
                    lemma_one_more(before, mid, mid2);
                }
                match inserted {
                    Err(e) => Err(DbError::Sqlite(e)),
                    Ok(_) => {
                        let id = self.store.last_insert_rowid();
                        proof {
                            lemma_one_more(before, mid2, self.calls());
                        }
                        Ok(Project { id, name: name.to_string(), created_at: current_instant() })
                    },
                }
            },
        }
    }

    /// The task called `name` of the project `project_id`, created when there
    /// is none.
    pub fn get_or_create_task(&mut self, project_id: i64, name: &str) -> (r: Result<Task, DbError>)
        ensures
            final(self).readings() == old(self).readings(),
            final(self).zone_offsets() == old(self).zone_offsets(),
            extends(old(self).calls(), final(self).calls()),
            task_got(project_id, name@, added(old(self).calls(), final(self).calls()), r),
    {
        let ghost before = self.calls();
        let mut params: Vec<SqlParam> = Vec::new();
        params.push(SqlParam::Int(project_id));
        params.push(text_param(name));
        let found = self.store.query(TASK_SELECT_SQL, &params, 4);
        let ghost mid = self.calls();
        proof {
            lemma_extends_refl(before);
            lemma_one_more(before, before, mid);
            assert(param_cells(params@) =~= seq![Cell::Int(project_id), Cell::Text(name@)]);
        }
        match found {
            Err(e) => Err(DbError::Sqlite(e)),
            Ok(rows) => {
                if rows.len() > 0 {
                    let row = &rows[0];
                    assert(row.len() == 4);
                    let id = int_at(row, 0)?;
                    let found_project = int_at(row, 1)?;
                    let found_name = text_at(row, 2)?;
                    let created = text_at(row, 3)?;
                    let created_at = read_rfc3339_or_now(created.as_str());
                    return Ok(
                        Task { id, project_id: found_project, name: found_name, created_at },
                    );
                }
                let inserted = self.store.execute(TASK_INSERT_SQL, &params);
                let ghost mid2 = self.calls();
                proof {
                    lemma_one_more(before, mid, mid2);
                }
                match inserted {
                    Err(e) => Err(DbError::Sqlite(e)),
                    Ok(_) => {
                        let id = self.store.last_insert_rowid();
                        proof {
                            lemma_one_more(before, mid2, self.calls());
                        }
                        Ok(Task { id, project_id, name: name.to_string(), created_at: current_instant() })
                    },
                }
            },
        }
    }

    /// Starts a time entry for the task at `started_at`, to be rounded to half
    /// hours when it stops if `round_on_stop` is set.
    pub fn start_time_entry(&mut self, task_id: i64, round_on_stop: bool, started_at: i64) -> (r:
        Result<TimeEntry, DbError>)
        requires
            valid_timestamp(started_at as int),
        ensures
            final(self).readings() == old(self).readings(),
            final(self).zone_offsets() == old(self).zone_offsets(),
            extends(old(self).calls(), final(self).calls()),
            added(old(self).calls(), final(self).calls()).len() == 1,
            entry_started(task_id, round_on_stop, started_at, final(self).calls().last(), r),
    {
        let id = Database::generate_hash_id();
        let mut params: Vec<SqlParam> = Vec::new();
        params.push(text_param(id.as_str()));
        params.push(SqlParam::Int(task_id));
        params.push(instant_param(started_at));
        params.push(SqlParam::Int(if round_on_stop { 1 } else { 0 }));
        let r = self.store.execute(ENTRY_INSERT_SQL, &params);
        proof {
            lemma_extends_refl(old(self).calls());
            lemma_one_more(old(self).calls(), old(self).calls(), self.calls());
            assert(param_cells(params@).skip(1) =~= seq![
                Cell::Int(task_id),
                text_of_instant(started_at),
                flag_cell(round_on_stop),
            ]);
        }
        match r {
            Err(e) => Err(DbError::Sqlite(e)),
            Ok(_) => Ok(TimeEntry { id, task_id, started_at, stopped_at: None }),
        }
    }


    /// Stops the running time entry at the clock's instant. An entry billed in
    /// half hours gets its start rounded down and its stop rounded up;
    /// returns whether it was, and the rounded times. `NoActiveEntry` when
    /// nothing runs.
    pub fn stop_active_entry(&mut self) -> (r: Result<(bool, BillableTimes), DbError>)
        ensures
            extends(old(self).calls(), final(self).calls()),
            final(self).readings() == old(self).readings().push(final(self).readings().last()),
            final(self).zone_offsets() == old(self).zone_offsets(),
            valid_timestamp(final(self).readings().last() as int),
            entry_stopped(final(self).readings().last(), added(old(self).calls(), final(self).calls()), r),
    {
        let stopped_at = self.read_clock();
        self.stop_active_entry_at(stopped_at)
    }

    /// Stops the running entry at `stopped_at`; an entry billed in half hours
    /// gets its start rounded down and its stop rounded up to half hours.
    pub fn stop_active_entry_at(&mut self, stopped_at: i64) -> (r: Result<(bool, BillableTimes), DbError>)
        requires
            valid_timestamp(stopped_at as int),
        ensures
            final(self).readings() == old(self).readings(),
            final(self).zone_offsets() == old(self).zone_offsets(),
            extends(old(self).calls(), final(self).calls()),
            entry_stopped(stopped_at, added(old(self).calls(), final(self).calls()), r),
    {
        let ghost before = self.calls();
        let params: Vec<SqlParam> = Vec::new();
        let found = self.store.query(STOP_SELECT_SQL, &params, 3);
        let ghost mid = self.calls();
        proof {
            lemma_extends_refl(before);
            lemma_one_more(before, before, mid);
            assert(param_cells(params@) =~= seq![]);
        }
        let rows = match found {
            Err(e) => {
                return Err(DbError::Sqlite(e));
            },
            Ok(rows) => rows,
        };
        if rows.len() == 0 {
            return Err(DbError::NoActiveEntry);
        }
        let row = &rows[0];
        assert(row.len() == 3);
        let entry_id = text_at(row, 0)?;
        let started_at_text = text_at(row, 1)?;
        let round_on_stop = flag_at(row, 2)?;
        if round_on_stop {
            let started_at = Database::parse_datetime(started_at_text.as_str());
            if stopped_at > MAX_TIMESTAMP - 1800 {
                return Err(DbError::InvalidTimeRange);
            }
            proof {
                crate::time::lemma_round_up(stopped_at as int);
            }
            let billable_start = round_down_to_30min(started_at);
            let billable_stop = round_up_to_30min(stopped_at);
            let mut update: Vec<SqlParam> = Vec::new();
            update.push(instant_param(stopped_at));
            update.push(instant_param(billable_start));
            update.push(instant_param(billable_stop));
            update.push(text_param(entry_id.as_str()));
            let written = self.store.execute(STOP_ROUNDED_UPDATE_SQL, &update);
            proof {
                lemma_one_more(before, mid, self.calls());
                assert(param_cells(update@) =~= seq![
                    text_of_instant(stopped_at),
                    text_of_instant(spec_round_down(started_at as int) as i64),
                    text_of_instant(spec_round_up(stopped_at as int) as i64),
                    Cell::Text(entry_id@),
                ]);
            }
            match written {
                Err(e) => Err(DbError::Sqlite(e)),
                Ok(_) => Ok((true, Some((billable_start, billable_stop)))),
            }
        } else {
            let mut update: Vec<SqlParam> = Vec::new();
            update.push(instant_param(stopped_at));
            update.push(text_param(entry_id.as_str()));
            let written = self.store.execute(STOP_UPDATE_SQL, &update);
            proof {
                lemma_one_more(before, mid, self.calls());
                assert(param_cells(update@) =~= seq![text_of_instant(stopped_at), Cell::Text(entry_id@)]);
            }
            match written {
                Err(e) => Err(DbError::Sqlite(e)),
                Ok(_) => Ok((false, None)),
            }
        }
    }

    /// Changes the start, the stop or both of the entry `entry_id`; the one
    /// not given stays. Refuses a stop that is not after the start. An entry billed in
    /// half hours gets its billable times rounded anew from the new times.
    pub fn amend_time_entry(
        &mut self,
        entry_id: &str,
        started_at: Option<i64>,
        stopped_at: Option<i64>,
    ) -> (r: Result<TimeEntry, DbError>)
        requires
            started_at matches Some(t) ==> valid_timestamp(t as int),
            stopped_at matches Some(t) ==> valid_timestamp(t as int),
        ensures
            final(self).readings() == old(self).readings(),
            final(self).zone_offsets() == old(self).zone_offsets(),
            extends(old(self).calls(), final(self).calls()),
            entry_amended(entry_id@, started_at, stopped_at, added(old(self).calls(), final(self).calls()), r),
    {
        let ghost before = self.calls();
        let mut params: Vec<SqlParam> = Vec::new();
        params.push(text_param(entry_id));
        let found = self.store.query(AMEND_SELECT_SQL, &params, 4);
        let ghost mid = self.calls();
        proof {
            lemma_extends_refl(before);
            lemma_one_more(before, before, mid);
            assert(param_cells(params@) =~= seq![Cell::Text(entry_id@)]);
        }
        let rows = match found {
            Err(e) => {
                return Err(DbError::Sqlite(e));
            },
            Ok(rows) => rows,
        };
        if rows.len() == 0 {
            return Err(DbError::EntryNotFound);
        }
        let row = &rows[0];
        assert(row.len() == 4);
        let task_id = int_at(row, 0)?;
        let current_started_at = text_at(row, 1)?;
        let current_stopped_at = opt_text_at(row, 2)?;
        let round_on_stop = flag_at(row, 3)?;
        let start = match started_at {
            Some(t) => t,
            None => Database::parse_datetime(current_started_at.as_str()),
        };
        let stop = match stopped_at {
            Some(t) => Some(t),
            None => match &current_stopped_at {
                Some(text) => Some(Database::parse_datetime(text.as_str())),
                None => None,
            },
        };
        let ghost stored_stop = match current_stopped_at {
            Some(t) => Some(t@),
            None => None::<Seq<char>>,
        };
        assert(amended_times(started_at, stopped_at, current_started_at@, stored_stop, start, stop));
        if let Some(s) = stop {
            if s <= start || (round_on_stop && s > MAX_TIMESTAMP - 1800) {
                assert(amend_written(
                    entry_id@,
                    task_id,
                    round_on_stop,
                    start,
                    stop,
                    added(before, self.calls()),
                    Err::<TimeEntry, DbError>(DbError::InvalidTimeRange),
                ));
                return Err(DbError::InvalidTimeRange);
            }
        }
        let (billable_started_at, billable_stopped_at) = if round_on_stop {
            match stop {
                Some(s) => {
                    proof {
                        crate::time::lemma_round_up(s as int);
                    }
                    (Some(round_down_to_30min(start)), Some(round_up_to_30min(s)))
                },
                None => (None, None),
            }
        } else {
            (None, None)
        };
        let mut update: Vec<SqlParam> = Vec::new();
        update.push(instant_param(start));
        update.push(optional_instant_param(stop));
        update.push(optional_instant_param(billable_started_at));
        update.push(optional_instant_param(billable_stopped_at));
        update.push(text_param(entry_id));
        let written = self.store.execute(AMEND_UPDATE_SQL, &update);
        proof {
            lemma_one_more(before, mid, self.calls());
            assert(param_cells(update@) =~= seq![
                text_of_instant(start),
                optional_instant(stop),
                optional_instant(billable_pair(round_on_stop, start, stop).0),
                optional_instant(billable_pair(round_on_stop, start, stop).1),
                Cell::Text(entry_id@),
            ]);
        }
        let r = match written {
            Err(e) => Err(DbError::Sqlite(e)),
            Ok(_) => Ok(TimeEntry { id: entry_id.to_string(), task_id, started_at: start, stopped_at: stop }),
        };
        assert(amend_written(entry_id@, task_id, round_on_stop, start, stop, added(before, self.calls()), r));
        r
    }


    /// The instant at which the wall-clock time `local` (whole seconds from
    /// 1970-01-01 00:00:00 on the machine's clock) happens; the earlier one
    /// when the clock was turned back over it, an error when it skipped it.
    /// It lies within a day of `local`, as a time zone's offset does.
    pub fn local_datetime_to_utc(local: i64) -> (r: Result<i64, DbError>)
        requires
            valid_timestamp(local as int),
        ensures
            r matches Ok(t) ==> valid_timestamp(t as int) && within_a_day(local as int, t as int),
            r matches Err(e) ==> e is Io,
    {
        let mapping = local_to_utc(local);
        Database::utc_of_mapping(mapping)
    }

    /// The instant a wall-clock time happens at, given how the time zone
    /// maps it: the earlier one when the clock was turned back over it; an
    /// I/O error (of kind invalid input) when the clock skipped it.
    pub fn utc_of_mapping(m: LocalMapping) -> (r: Result<i64, DbError>)
        ensures
            match crate::input::mapped_instant(m) {
                Some(t) => r == Ok::<i64, DbError>(t),
                None => r matches Err(DbError::Io(_)),
            },
    {
        match crate::input::instant_of_mapping(m) {
            Some(t) => Ok(t),
            None => Err(DbError::Io(invalid_input_error("Invalid local datetime"))),
        }
    }

    /// Reads one squash candidate from a row of the squash query.
    fn read_candidate(row: &Vec<SqlValue>) -> (r: Result<SquashCandidate, DbError>)
        requires
            row.len() == 7,
        ensures
            r matches Ok(c) ==> candidate_read(row_cells_of(row), c),
            r is Err ==> !candidate_row_decodes(row_cells_of(row)) && r matches Err(
                DbError::UnexpectedColumn,
            ),
    {
        let ghost cells = row_cells_of(row);
        assert(forall|i: int| 0 <= i < 7 ==> cells[i] == row@[i].cell());
        let id = text_at(row, 0)?;
        let task_id = int_at(row, 1)?;
        let started = text_at(row, 2)?;
        let stopped = text_at(row, 3)?;
        let billable_start = opt_text_at(row, 4)?;
        let billable_stop = opt_text_at(row, 5)?;
        let round_on_stop = flag_at(row, 6)?;
        let billable_started_at = match &billable_start {
            Some(t) => Some(Database::parse_datetime(t.as_str())),
            None => None,
        };
        let billable_stopped_at = match &billable_stop {
            Some(t) => Some(Database::parse_datetime(t.as_str())),
            None => None,
        };
        Ok(
            SquashCandidate {
                id,
                task_id,
                started_at: Database::parse_datetime(started.as_str()),
                stopped_at: Database::parse_datetime(stopped.as_str()),
                billable_started_at,
                billable_stopped_at,
                round_on_stop,
            },
        )
    }

    /// Merges the stopped entries that started on `day` (a day counted from
    /// 1970-01-01, from its local midnight to the next): each run of entries
    /// of one task (two or more) becomes the first of them, stretched from
    /// its start to the latest stop, with the widest billable times; the
    /// others are deleted. Fails with `Io`, sending nothing, where the
    /// machine's clock skipped that midnight.
    pub fn squash_day(&mut self, day: i64) -> (r: Result<SquashResult, DbError>)
        requires
            valid_timestamp(day * 86400),
        ensures
            final(self).readings() == old(self).readings(),
            final(self).zone_offsets() == old(self).zone_offsets(),
            extends(old(self).calls(), final(self).calls()),
            r matches Err(DbError::Io(_)) ==> final(self).calls() == old(self).calls(),
            !(r matches Err(DbError::Io(_))) ==> exists|start: i64|
                {
                    &&& valid_timestamp(start as int)
                    &&& within_a_day(day * 86400, start as int)
                    &&& #[trigger] day_start_squashed(start, added(old(self).calls(), final(self).calls()), r)
                },
    {
        proof {
            lemma_extends_refl(self.calls());
        }
        let day_start = Database::local_datetime_to_utc(day * SECONDS_PER_DAY)?;
        self.squash_day_from(day_start)
    }

    /// Merges the stopped entries that started from `day_start` (a UTC
    /// instant) to a day later, as `squash_day` does for a day; refuses,
    /// sending nothing, a start within a day of the last instant chrono holds.
    pub fn squash_day_from(&mut self, day_start: i64) -> (r: Result<SquashResult, DbError>)
        requires
            valid_timestamp(day_start as int),
        ensures
            final(self).readings() == old(self).readings(),
            final(self).zone_offsets() == old(self).zone_offsets(),
            extends(old(self).calls(), final(self).calls()),
            day_start_squashed(day_start, added(old(self).calls(), final(self).calls()), r),
    {
        let ghost before = self.calls();
        proof {
            lemma_extends_refl(before);
        }
        if day_start > MAX_TIMESTAMP - SECONDS_PER_DAY {
            return Err(DbError::InvalidTimeRange);
        }
        let day_end = day_start + SECONDS_PER_DAY;
        let mut params: Vec<SqlParam> = Vec::new();
        params.push(instant_param(day_start));
        params.push(instant_param(day_end));
        let found = self.store.query(SQUASH_SELECT_SQL, &params, 7);
        let ghost mid = self.calls();
        proof {
            lemma_one_more(before, before, mid);
            assert(param_cells(params@) =~= seq![text_of_instant(day_start), text_of_instant(day_end)]);
        }
        let rows = match found {
            Err(e) => {
                proof {
                    assert(added(before, self.calls())[0] == mid.last());
                    assert(day_squashed(day_start, added(before, self.calls()), Err(DbError::Sqlite(e))));
                }
                return Err(DbError::Sqlite(e));
            },
            Ok(rows) => rows,
        };
        let ghost cells = rows_cells_of(&rows);
        assert(day_queried(before, mid, day_start, cells));
        let mut cands: Vec<SquashCandidate> = Vec::new();
        let mut i: usize = 0;
        while i < rows.len()
            invariant
                self.readings() == old(self).readings(),
                self.zone_offsets() == old(self).zone_offsets(),
                i <= rows.len(),
                cells == rows_cells_of(&rows),
                day_queried(before, mid, day_start, cells),
                before == old(self).calls(),
                self.calls() == mid,
                valid_timestamp(day_start as int),
                valid_timestamp(day_start + 86400),
                forall|k: int| 0 <= k < rows.len() ==> #[trigger] rows@[k].len() == 7,
                cands.len() == i,
                forall|k: int| 0 <= k < i ==> candidate_read(#[trigger] cells[k], cands@[k]),
                forall|k: int| 0 <= k < i ==> candidate_row_decodes(#[trigger] cells[k]),
            decreases rows.len() - i,
        {
            assert(cells[i as int] == row_cells_of(&rows[i as int]));
            match Database::read_candidate(&rows[i]) {
                Ok(c) => {
                    cands.push(c);
                },
                Err(e) => {
                    proof {
                        assert(!candidate_row_decodes(cells[i as int]));
                        assert(added(before, self.calls())[0] == mid.last());
                        assert(day_squashed(day_start, added(before, self.calls()), Err(DbError::UnexpectedColumn)));
                    }
                    return Err(e);
                },
            }
            i = i + 1;
        }
        let plan = squash_plan(&cands);
        let ghost pv = plan@.map_values(|m: SquashMerge| m@);
        let mut squashed_tasks: usize = 0;
        let mut deleted_entries: usize = 0;
        let mut m: usize = 0;
        proof {
            lemma_extends_refl(mid);
            assert(pv.take(0) =~= Seq::<MergeView>::empty());
            assert(call_pairs(added(mid, mid)) =~= Seq::empty());
        }
        proof {
            let ids = crate::squash::task_ids(cands@);
            let rs = crate::squash::runs(ids);
            crate::squash::lemma_runs_partition(ids);
            assert(ids.len() == cands@.len());
            assert forall|i: int| 0 <= i < rs.len() implies 0 <= #[trigger] rs[i].0 < rs[i].1 <= cands@.len() by {
                assert(0 <= rs[i].0 < rs[i].1 <= ids.len());
            }
            lemma_candidates_valid(cands@, cells);
            lemma_plan_valid(cands@, crate::squash::runs(crate::squash::task_ids(cands@)));
            lemma_deleted_bound(cands@, crate::squash::runs(crate::squash::task_ids(cands@)));
        }
        while m < plan.len()
            invariant
                self.readings() == old(self).readings(),
                self.zone_offsets() == old(self).zone_offsets(),
                m <= plan.len(),
                pv.len() == plan.len(),
                day_queried(before, mid, day_start, cells),
                before == old(self).calls(),
                cands.len() == cells.len(),
                forall|k: int| 0 <= k < cells.len() ==> candidate_read(#[trigger] cells[k], cands@[k]),
                valid_timestamp(day_start as int),
                valid_timestamp(day_start + 86400),
                pv == plan@.map_values(|mm: SquashMerge| mm@),
                pv == spec_squash_plan(cands@),
                forall|k: int| 0 <= k < pv.len() ==> merge_valid(#[trigger] pv[k]),
                forall|k: int| 0 <= k <= pv.len() ==> deleted_count(#[trigger] pv.take(k)) <= cands.len(),
                cands.len() == rows.len(),
                extends(before, mid),
                extends(mid, self.calls()),
                call_pairs(added(mid, self.calls())) == plan_calls(pv.take(m as int)),
                all_changed(added(mid, self.calls())),
                squashed_tasks == m,
                deleted_entries == deleted_count(pv.take(m as int)),
            decreases plan.len() - m,
        {
            let mg = &plan[m];
            let ghost mv = pv[m as int];
            assert(mv == mg@);
            assert(merge_valid(mv));
            let ghost start_calls = self.calls();
            let mut update: Vec<SqlParam> = Vec::new();
            update.push(instant_param(mg.started_at));
            update.push(instant_param(mg.stopped_at));
            update.push(optional_instant_param(mg.billable_started_at));
            update.push(optional_instant_param(mg.billable_stopped_at));
            update.push(SqlParam::Int(if mg.round_on_stop { 1 } else { 0 }));
            update.push(text_param(mg.keep_id.as_str()));
            let written = self.store.execute(SQUASH_UPDATE_SQL, &update);
            let ghost done_pairs = plan_calls(pv.take(m as int));
            let ghost mc = merge_calls(mv);
            proof {
                assert(pv.take(m + 1).drop_last() =~= pv.take(m as int));
                assert(pv.take(m + 1).last() == mv);
                assert(deleted_count(pv.take(m + 1)) == deleted_count(pv.take(m as int)) + mv.delete_ids.len());
                assert(added(mid, self.calls()) =~= added(mid, start_calls).push(self.calls().last()));
                lemma_one_more(mid, start_calls, self.calls());
                lemma_extends_trans(before, mid, self.calls());
                assert(param_cells(update@) =~= mc[0].1);
                assert(call_pairs(added(mid, self.calls())) =~= done_pairs + mc.take(1));
                assert(pv.take(m + 1).drop_last() =~= pv.take(m as int));
                lemma_plan_calls_prefix(pv, m + 1);
                lemma_prefix_step(done_pairs, mc, 1, plan_calls(pv));
            }
            if let Err(e) = written {
                proof {
                    assert(added(mid, self.calls()).drop_last() =~= added(mid, start_calls));
                    assert(squash_written(cands@, added(mid, self.calls()), Err(DbError::Sqlite(e))));
                    lemma_day_squashed(day_start, before, mid, self.calls(), cands@, cells, Err(DbError::Sqlite(e)));
                }
                return Err(DbError::Sqlite(e));
            }
            let mut j: usize = 0;
            while j < mg.delete_ids.len()
                invariant
                    self.readings() == old(self).readings(),
                    self.zone_offsets() == old(self).zone_offsets(),
                    j <= mg.delete_ids.len(),
                    mv == mg@,
                    mc == merge_calls(mv),
                    done_pairs == plan_calls(pv.take(m as int)),
                    is_prefix(done_pairs + mc, plan_calls(pv)),
                    extends(before, mid),
                    extends(mid, self.calls()),
                    call_pairs(added(mid, self.calls())) == done_pairs + mc.take(j + 1),
                    all_changed(added(mid, self.calls())),
                    deleted_entries == deleted_count(pv.take(m as int)) + j,
                    deleted_count(pv.take(m + 1)) == deleted_count(pv.take(m as int)) + mv.delete_ids.len(),
                    deleted_count(pv.take(m + 1)) <= cands.len(),
                    mv.delete_ids.len() == mg.delete_ids.len(),
                    cands.len() == rows.len(),
                    m < pv.len(),
                    pv.len() == plan.len(),
                    pv == spec_squash_plan(cands@),
                    day_queried(before, mid, day_start, cells),
                    before == old(self).calls(),
                    cands.len() == cells.len(),
                    forall|k: int| 0 <= k < cells.len() ==> candidate_read(#[trigger] cells[k], cands@[k]),
                    valid_timestamp(day_start as int),
                    valid_timestamp(day_start + 86400),
                decreases mg.delete_ids.len() - j,
            {
                let ghost step_calls = self.calls();
                let mut del: Vec<SqlParam> = Vec::new();
                del.push(text_param(mg.delete_ids[j].as_str()));
                let deleted = self.store.execute(DELETE_ENTRY_SQL, &del);
                proof {
                    lemma_one_more(mid, step_calls, self.calls());
                    lemma_extends_trans(before, mid, self.calls());
                    assert(param_cells(del@) =~= seq![Cell::Text(mg.delete_ids@[j as int]@)]);
                    assert(mv.delete_ids[j as int] == mg.delete_ids@[j as int]@);
                    assert(mc[j + 1] == delete_call(mv.delete_ids[j as int]));
                    assert(call_pairs(added(mid, self.calls())) =~= call_pairs(added(mid, step_calls)).push(
                        (self.calls().last().sql, self.calls().last().params),
                    ));
                    assert(mc.take(j + 2) =~= mc.take(j + 1).push(mc[j + 1]));
                    assert(call_pairs(added(mid, self.calls())) =~= done_pairs + mc.take(j + 2));
                    lemma_prefix_step(done_pairs, mc, j + 2, plan_calls(pv));
                }
                if let Err(e) = deleted {
                    proof {
                        assert(added(mid, self.calls()).drop_last() =~= added(mid, step_calls));
                        assert(squash_written(cands@, added(mid, self.calls()), Err(DbError::Sqlite(e))));
                        lemma_day_squashed(day_start, before, mid, self.calls(), cands@, cells, Err(DbError::Sqlite(e)));
                    }
                    return Err(DbError::Sqlite(e));
                }
                proof {
                    assert forall|q: int| 0 <= q < added(mid, self.calls()).len() implies (#[trigger] added(
                        mid,
                        self.calls(),
                    )[q].outcome) is Changed by {
                        if q < added(mid, step_calls).len() {
                            assert(added(mid, self.calls())[q] == added(mid, step_calls)[q]);
                        }
                    }
                }
                deleted_entries = deleted_entries + 1;
                j = j + 1;
            }
            proof {
                assert(mc.take(j + 1) =~= mc);
                assert(plan_calls(pv.take(m + 1)) == done_pairs + mc);
            }
            squashed_tasks = squashed_tasks + 1;
            m = m + 1;
        }
        proof {
            assert(pv.take(m as int) =~= pv);
            assert(squash_written(cands@, added(mid, self.calls()), Ok(SquashResult { squashed_tasks, deleted_entries })));
            lemma_day_squashed(day_start, before, mid, self.calls(), cands@, cells, Ok(SquashResult { squashed_tasks, deleted_entries }));
        }
        Ok(SquashResult { squashed_tasks, deleted_entries })
    }


    /// Reads one entry of the log from a row of the log query.
    fn read_log_entry(row: &Vec<SqlValue>, now: i64) -> (r: Result<LogEntry, DbError>)
        requires
            row.len() == 6,
            valid_timestamp(now as int),
        ensures
            r matches Ok(e) ==> log_entry_read(row_cells_of(row), now, (e.task_name@, e.detail@)),
            r is Err ==> !log_row_decodes(row_cells_of(row)) && r matches Err(DbError::UnexpectedColumn),
    {
        let ghost cells = row_cells_of(row);
        assert(forall|i: int| 0 <= i < 6 ==> cells[i] == row@[i].cell());
        let id = text_at(row, 0)?;
        let task_name = text_at(row, 1)?;
        let started_text = text_at(row, 2)?;
        let stopped_text = opt_text_at(row, 3)?;
        let billable_start_text = opt_text_at(row, 4)?;
        let billable_stop_text = opt_text_at(row, 5)?;
        let started_at = Database::parse_datetime(started_text.as_str());
        let stopped_at = match &stopped_text {
            Some(t) => read_optional_datetime(t.as_str()),
            None => None,
        };
        let end = match stopped_at {
            Some(t) => t,
            None => now,
        };
        let duration = end - started_at;
        let date = crate::time::day_of(started_at, 0);
        let billable_started_at = match &billable_start_text {
            Some(t) => read_optional_datetime(t.as_str()),
            None => None,
        };
        let billable_stopped_at = match &billable_stop_text {
            Some(t) => read_optional_datetime(t.as_str()),
            None => None,
        };
        let billable_seconds = match (billable_started_at, billable_stopped_at) {
            (Some(s), Some(e)) => Some(e - s),
            _ => None,
        };
        Ok(
            LogEntry {
                task_name,
                detail: TimeEntryDetail {
                    id,
                    date,
                    started_at,
                    stopped_at,
                    duration_seconds: duration,
                    billable_seconds,
                    billable_started_at,
                    billable_stopped_at,
                },
            },
        )
    }

    /// Every project that has time entries, in name order, with its entries
    /// grouped by task (tasks in name order, entries latest start first) and
    /// the total and billable time of each task and project. The billable
    /// time of an entry is its rounded time where it was rounded, its actual
    /// time otherwise. The clock is read once, and a running entry lasts
    /// until that reading.
    pub fn get_log(&mut self) -> (r: Result<Vec<ProjectSummary>, DbError>)
        ensures
            extends(old(self).calls(), final(self).calls()),
            final(self).readings() == old(self).readings().push(final(self).readings().last()),
            final(self).zone_offsets() == old(self).zone_offsets(),
            valid_timestamp(final(self).readings().last() as int),
            log_read(added(old(self).calls(), final(self).calls()), final(self).readings().last(), r),
            r matches Ok(ps) ==> entries_last_until(project_views(ps@), final(self).readings().last()),
    {
        let now = self.read_clock();
        let r = self.get_log_at(now);
        let ghost gr = r;
        proof {
            if let Ok(ps) = gr {
                lemma_log_running_until_now(added(old(self).calls(), self.calls()), now, ps);
            }
        }
        r
    }

    /// The log at the instant `now`: running entries last until `now`.
    pub fn get_log_at(&mut self, now: i64) -> (r: Result<Vec<ProjectSummary>, DbError>)
        requires
            valid_timestamp(now as int),
        ensures
            final(self).readings() == old(self).readings(),
            final(self).zone_offsets() == old(self).zone_offsets(),
            extends(old(self).calls(), final(self).calls()),
            log_read(added(old(self).calls(), final(self).calls()), now, r),
    {
        let ghost before = self.calls();
        let params: Vec<SqlParam> = Vec::new();
        let found = self.store.query(PROJECTS_SELECT_SQL, &params, 2);
        let ghost mid = self.calls();
        proof {
            lemma_extends_refl(before);
            lemma_one_more(before, before, mid);
            assert(param_cells(params@) =~= seq![]);
        }
        let prows = match found {
            Err(e) => {
                return Err(DbError::Sqlite(e));
            },
            Ok(rows) => rows,
        };
        let ghost pcells = rows_cells_of(&prows);
        let mut projects: Vec<ProjectSummary> = Vec::new();
        let mut k: usize = 0;
        proof {
            lemma_extends_refl(mid);
            assert(pcells.take(0) =~= Seq::<Seq<Cell>>::empty());
            assert(project_views(projects@) =~= Seq::<ProjectSummaryView>::empty());
        }
        while k < prows.len()
            invariant
                self.readings() == old(self).readings(),
                self.zone_offsets() == old(self).zone_offsets(),
                k <= prows.len(),
                valid_timestamp(now as int),
                pcells == rows_cells_of(&prows),
                forall|q: int| 0 <= q < prows.len() ==> #[trigger] prows@[q].len() == 2,
                extends(before, mid),
                added(before, mid).len() == 1,
                is_call(mid.last(), PROJECTS_SELECT_SQL@, seq![]),
                mid.last().outcome == Outcome::Rows(pcells),
                before == old(self).calls(),
                extends(mid, self.calls()),
                projects_logged(pcells.take(k as int), added(mid, self.calls()), now, project_views(projects@)),
            decreases prows.len() - k,
        {
            let ghost step = self.calls();
            let ghost done = project_views(projects@);
            let prow = &prows[k];
            assert(prow.len() == 2);
            assert(pcells[k as int] == row_cells_of(prow));
            assert(forall|i: int| 0 <= i < 2 ==> #[trigger] pcells[k as int][i] == prow@[i].cell());
            proof {
                lemma_extends_trans(before, mid, self.calls());
                lemma_projects_logged_len(pcells.take(k as int), added(mid, self.calls()), now, done);
                assert(added(mid, step).take(k as int) =~= added(mid, step));
            }
            let project_id = match int_at(prow, 0) {
                Ok(v) => v,
                Err(e) => {
                    proof {
                        assert(projects_logged(pcells.take(k as int), added(mid, self.calls()).take(k as int), now, done));
                        assert(log_failed_at(pcells, added(mid, self.calls()), now, k as int, e));
                        lemma_log_failed(before, mid, self.calls(), pcells, now, k as int, e);
                    }
                    return Err(e);
                },
            };
            let project_name = match text_at(prow, 1) {
                Ok(v) => v,
                Err(e) => {
                    proof {
                        assert(projects_logged(pcells.take(k as int), added(mid, self.calls()).take(k as int), now, done));
                        assert(log_failed_at(pcells, added(mid, self.calls()), now, k as int, e));
                        lemma_log_failed(before, mid, self.calls(), pcells, now, k as int, e);
                    }
                    return Err(e);
                },
            };
            let mut eparams: Vec<SqlParam> = Vec::new();
            eparams.push(SqlParam::Int(project_id));
            let efound = self.store.query(LOG_ENTRIES_SELECT_SQL, &eparams, 6);
            let ghost qcalls = added(mid, self.calls());
            proof {
                lemma_one_more(mid, step, self.calls());
                lemma_extends_trans(before, mid, self.calls());
                assert(param_cells(eparams@) =~= seq![Cell::Int(project_id)]);
                assert(qcalls.take(k as int) =~= added(mid, step));
                assert(qcalls[k as int] == self.calls().last());
            }
            let erows = match efound {
                Err(e) => {
                    proof {
                        assert(projects_logged(pcells.take(k as int), qcalls.take(k as int), now, done));
                        assert(log_failed_at(pcells, qcalls, now, k as int, DbError::Sqlite(e)));
                        lemma_log_failed(before, mid, self.calls(), pcells, now, k as int, DbError::Sqlite(e));
                    }
                    return Err(DbError::Sqlite(e));
                },
                Ok(rows) => rows,
            };
            let ghost ecells = rows_cells_of(&erows);
            let mut entries: Vec<LogEntry> = Vec::new();
            let mut i: usize = 0;
            while i < erows.len()
                invariant
                    self.readings() == old(self).readings(),
                    self.zone_offsets() == old(self).zone_offsets(),
                    i <= erows.len(),
                    valid_timestamp(now as int),
                    ecells == rows_cells_of(&erows),
                    forall|q: int| 0 <= q < erows.len() ==> #[trigger] erows@[q].len() == 6,
                    entries.len() == i,
                    forall|q: int| 0 <= q < i ==> log_entry_read(#[trigger] ecells[q], now, crate::summary::log_views(entries@)[q]),
                    k < prows.len(),
                    extends(before, mid),
                    added(before, mid).len() == 1,
                    is_call(mid.last(), PROJECTS_SELECT_SQL@, seq![]),
                    mid.last().outcome == Outcome::Rows(pcells),
                    before == old(self).calls(),
                    extends(mid, self.calls()),
                    qcalls == added(mid, self.calls()),
                    qcalls.len() == k + 1,
                    qcalls.take(k as int) == added(mid, step),
                    projects_logged(pcells.take(k as int), added(mid, step), now, done),
                    is_call(qcalls[k as int], LOG_ENTRIES_SELECT_SQL@, seq![Cell::Int(project_id)]),
                    qcalls[k as int].outcome == Outcome::Rows(ecells),
                    cell_int(pcells[k as int][0]) == Some(project_id),
                    cell_text(pcells[k as int][1]) == Some(project_name@),
                    pcells.len() == prows.len(),
                decreases erows.len() - i,
            {
                assert(ecells[i as int] == row_cells_of(&erows[i as int]));
                match Database::read_log_entry(&erows[i], now) {
                    Ok(e) => {
                        entries.push(e);
                        assert(crate::summary::log_views(entries@)[i as int] == (e.task_name@, e.detail@));
                    },
                    Err(e) => {
                        proof {
                            assert(!log_row_decodes(ecells[i as int]));
                            assert(ecells.len() == erows.len());
                            assert(exists|j: int| 0 <= j < ecells.len() && !log_row_decodes(#[trigger] ecells[j]));
                            assert(entries_failed(ecells, now, e));
                            assert(projects_logged(pcells.take(k as int), qcalls.take(k as int), now, done));
                            assert(log_failed_at(pcells, qcalls, now, k as int, e));
                            lemma_log_failed(before, mid, self.calls(), pcells, now, k as int, e);
                        }
                        return Err(e);
                    },
                }
                i = i + 1;
            }
            let ghost entry_views = crate::summary::log_views(entries@);
            let ghost pname = project_name@;
            if entries.len() == 0 {
                proof {
                    lemma_log_step(pcells, added(mid, step), added(mid, self.calls()), now, done, done, k as int, project_id, pname, ecells);
                }
            } else {
                match summarize_project(project_name, entries) {
                    Some(p) => {
                        projects.push(p);
                        proof {
                            assert(project_views(projects@) =~= done.push(p@));
                            assert(entry_views.len() == ecells.len());
                            assert(summarizes(pname, entry_views, p@));
                            assert(forall|q: int| 0 <= q < ecells.len() ==> log_entry_read(#[trigger] ecells[q], now, entry_views[q]));
                            assert(project_logged(pname, ecells, now, p@));
                            assert(project_views(projects@).drop_last() =~= done);
                            assert(project_views(projects@).last() == p@);
                            lemma_log_step(pcells, added(mid, step), added(mid, self.calls()), now, done, project_views(projects@), k as int, project_id, pname, ecells);
                        }
                    },
                    None => {
                        proof {
                            assert forall|q: int| 0 <= q < ecells.len() implies log_row_decodes(#[trigger] ecells[q]) by {
                                lemma_read_row_decodes(ecells[q], now, entry_views[q]);
                            }
                            assert(entry_views.len() == ecells.len());
                            assert(totals_overflow(entry_views));
                            assert(entries_failed(ecells, now, DbError::TotalOutOfRange));
                            assert(projects_logged(pcells.take(k as int), qcalls.take(k as int), now, done));
                            assert(log_failed_at(pcells, qcalls, now, k as int, DbError::TotalOutOfRange));
                            lemma_log_failed(before, mid, self.calls(), pcells, now, k as int, DbError::TotalOutOfRange);
                        }
                        return Err(DbError::TotalOutOfRange);
                    },
                }
            }
            k = k + 1;
        }
        proof {
            lemma_extends_trans(before, mid, self.calls());
            assert(pcells.take(k as int) =~= pcells);
            let calls = added(before, self.calls());
            assert(calls[0] == mid.last());
            assert(calls.skip(1) =~= added(mid, self.calls()));
        }
        Ok(projects)
    }

    /// Deletes the running time entry; `NoActiveEntry` when none ran.
    pub fn cancel_active_entry(&mut self) -> (r: Result<(), DbError>)
        ensures
            final(self).readings() == old(self).readings(),
            final(self).zone_offsets() == old(self).zone_offsets(),
            extends(old(self).calls(), final(self).calls()),
            added(old(self).calls(), final(self).calls()).len() == 1,
            is_call(final(self).calls().last(), CANCEL_SQL@, seq![]),
            match final(self).calls().last().outcome {
                Outcome::Changed(n) => if n == 0 {
                    r matches Err(DbError::NoActiveEntry)
                } else {
                    r is Ok
                },
                _ => r matches Err(DbError::Sqlite(_)),
            },
    {
        let params: Vec<SqlParam> = Vec::new();
        let r = self.store.execute(CANCEL_SQL, &params);
        proof {
            lemma_extends_refl(old(self).calls());
            lemma_one_more(old(self).calls(), old(self).calls(), self.calls());
            assert(param_cells(params@) =~= seq![]);
        }
        match r {
            Ok(n) => if n == 0 {
                Err(DbError::NoActiveEntry)
            } else {
                Ok(())
            },
            Err(e) => Err(DbError::Sqlite(e)),
        }
    }
}

proof fn lemma_hex_len(bytes: Seq<u8>)
    ensures
        hex_text(bytes).len() == 2 * bytes.len(),
    decreases bytes.len(),
{
    if bytes.len() > 0 {
        lemma_hex_len(bytes.drop_last());
    }
}

} // verus!
