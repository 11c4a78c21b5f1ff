//! The SQLite connection, the statements sent through it, and the values that
//! come back. Every call is written down in a ghost record of the calls
//! (`Store::calls`), so that the contracts above can say which statements were
//! sent with which parameters, and what the library made of the answers.
use vstd::prelude::*;
use rusqlite::types::Value;

verus! {

/// A connection to a SQLite database (rusqlite).
#[verifier::external_type_specification]
#[verifier::external_body]
pub struct ExConnection(rusqlite::Connection);

/// An error reported by rusqlite or SQLite.
#[verifier::external_type_specification]
#[verifier::external_body]
pub struct ExSqliteError(rusqlite::Error);

/// A parameter bound to a statement.
pub enum SqlParam {
    Null,
    Int(i64),
    Text(String),
}

/// A column value read from a row; `Other` stands for a real number or a blob,
/// which this library never stores.
pub enum SqlValue {
    Null,
    Int(i64),
    Text(String),
    Other,
}

/// A parameter or a column value, as a mathematical value.
pub enum Cell {
    Null,
    Int(i64),
    Text(Seq<char>),
    Other,
}

/// What came back from one call.
pub enum Outcome {
    /// The rows a query returned.
    Rows(Seq<Seq<Cell>>),
    /// The number of rows a statement changed.
    Changed(nat),
    /// A batch of statements ran.
    Done,
    /// The row id of the last insertion.
    LastId(i64),
    /// The call failed.
    Failed,
}

/// One call: the SQL text, the parameters bound, and the outcome.
pub struct SqlCall {
    pub sql: Seq<char>,
    pub params: Seq<Cell>,
    pub outcome: Outcome,
}

impl SqlParam {
    pub open spec fn cell(self) -> Cell {
        match self {
            SqlParam::Null => Cell::Null,
            SqlParam::Int(i) => Cell::Int(i),
            SqlParam::Text(s) => Cell::Text(s@),
        }
    }
}

impl SqlValue {
    pub open spec fn cell(self) -> Cell {
        match self {
            SqlValue::Null => Cell::Null,
            SqlValue::Int(i) => Cell::Int(i),
            SqlValue::Text(s) => Cell::Text(s@),
            SqlValue::Other => Cell::Other,
        }
    }
}

pub open spec fn param_cells(params: Seq<SqlParam>) -> Seq<Cell> {
    params.map_values(|p: SqlParam| p.cell())
}

pub open spec fn row_cells(row: Seq<SqlValue>) -> Seq<Cell> {
    row.map_values(|v: SqlValue| v.cell())
}

pub open spec fn rows_cells(rows: Seq<Vec<SqlValue>>) -> Seq<Seq<Cell>> {
    rows.map_values(|r: Vec<SqlValue>| row_cells(r@))
}

/// `rusqlite::Connection::open`. Nothing is claimed: success depends on the
/// file system.
#[verifier::external_body]
fn open_connection(path: &str) -> (r: Result<rusqlite::Connection, rusqlite::Error>) {
    rusqlite::Connection::open(path)
}

/// `calls` is `before` followed by one call of `sql` with `params`.
pub open spec fn one_more_call(
    before: Seq<SqlCall>,
    calls: Seq<SqlCall>,
    sql: Seq<char>,
    params: Seq<Cell>,
) -> bool {
    &&& calls.len() == before.len() + 1
    &&& calls.drop_last() == before
    &&& calls.last().sql == sql
    &&& calls.last().params == params
}

/// An open connection, the path of the file it was opened on, and the
/// record of what was sent through it.
pub struct Store {
    conn: rusqlite::Connection,
    path: Ghost<Seq<char>>,
    record: Ghost<Seq<SqlCall>>,
}

impl Store {
    /// The calls made through this connection, oldest first.
    pub closed spec fn calls(&self) -> Seq<SqlCall> {
        self.record@
    }

    /// The path of the database file the connection was opened on.
    pub closed spec fn path(&self) -> Seq<char> {
        self.path@
    }

    /// Opens the database file at `path`; a fresh connection has made no call.
    pub fn open(path: &str) -> (r: Result<Store, rusqlite::Error>)
        ensures
            r matches Ok(s) ==> s.calls() == Seq::<SqlCall>::empty() && s.path() == path@,
    {
        match open_connection(path) {
            Ok(conn) => Ok(Store { conn, path: Ghost(path@), record: Ghost(Seq::empty()) }),
            Err(e) => Err(e),
        }
    }

    /// `rusqlite::Connection::execute_batch`: runs the statements of `sql` in
    /// turn. Claimed: the call is recorded with its outcome, the path kept; whether it
    /// succeeds depends on the database.
    #[verifier::external_body]
    pub(crate) fn execute_batch(&mut self, sql: &str) -> (r: Result<(), rusqlite::Error>)
        ensures
            one_more_call(old(self).calls(), final(self).calls(), sql@, Seq::<Cell>::empty()),
            final(self).path() == old(self).path(),
            final(self).calls().last().outcome == (if r is Ok {
                Outcome::Done
            } else {
                Outcome::Failed
            }),
    {
        self.conn.execute_batch(sql)
    }

    /// `rusqlite::Connection::execute` with the parameters bound in order
    /// (`params_from_iter`). Claimed: the call is recorded, the path kept, with the number of
    /// changed rows it returns; that number depends on the database.
    #[verifier::external_body]
    pub(crate) fn execute(&mut self, sql: &str, params: &Vec<SqlParam>) -> (r: Result<usize, rusqlite::Error>)
        ensures
            one_more_call(old(self).calls(), final(self).calls(), sql@, param_cells(params@)),
            final(self).path() == old(self).path(),
            final(self).calls().last().outcome == (match r {
                Ok(n) => Outcome::Changed(n as nat),
                Err(_) => Outcome::Failed,
            }),
    {
        let args = params.iter().map(|p| match p {
            SqlParam::Null => Value::Null,
            SqlParam::Int(i) => Value::Integer(*i),
            SqlParam::Text(s) => Value::Text(s.clone()),
        });
        self.conn.execute(sql, rusqlite::params_from_iter(args))
    }

    /// `rusqlite::Connection::prepare` and `Statement::query_map` with the
    /// parameters bound in order, each row read as its first `columns` values
    /// (`Row::get::<_, Value>`; a real number or a blob becomes `Other`), all
    /// rows collected. Claimed: the call is recorded, the path kept, with the rows it returns,
    /// each of `columns` values; which rows come back depends on the database.
    #[verifier::external_body]
    pub(crate) fn query(&mut self, sql: &str, params: &Vec<SqlParam>, columns: usize) -> (r: Result<
        Vec<Vec<SqlValue>>,
        rusqlite::Error,
    >)
        ensures
            one_more_call(old(self).calls(), final(self).calls(), sql@, param_cells(params@)),
            final(self).path() == old(self).path(),
            final(self).calls().last().outcome == (match r {
                Ok(rows) => Outcome::Rows(rows_cells(rows@)),
                Err(_) => Outcome::Failed,
            }),
            r matches Ok(rows) ==> forall|i: int| 0 <= i < rows.len() ==> #[trigger] rows[i].len() == columns,
    {
        let mut stmt = self.conn.prepare(sql)?;
        let args = rusqlite::params_from_iter(params.iter().map(|p| match p {
            SqlParam::Null => Value::Null,
            SqlParam::Int(i) => Value::Integer(*i),
            SqlParam::Text(s) => Value::Text(s.clone()),
        }));
        let rows = stmt.query_map(args, |row| (0..columns).map(|i| row.get::<_, Value>(i).map(|v| match v {
            Value::Null => SqlValue::Null,
            Value::Integer(i) => SqlValue::Int(i),
            Value::Text(s) => SqlValue::Text(s),
            Value::Real(_) => SqlValue::Other,
            Value::Blob(_) => SqlValue::Other,
        })).collect())?;
        rows.collect()
    }

    /// `rusqlite::Connection::last_insert_rowid`. Claimed: the call is recorded, the path kept,
    /// with the id it returns, which depends on the database.
    #[verifier::external_body]
    pub(crate) fn last_insert_rowid(&mut self) -> (r: i64)
        ensures
            one_more_call(old(self).calls(), final(self).calls(), Seq::<char>::empty(), Seq::<Cell>::empty()),
            final(self).path() == old(self).path(),
            final(self).calls().last().outcome == Outcome::LastId(r),
    {
        self.conn.last_insert_rowid()
    }
}

} // verus!
