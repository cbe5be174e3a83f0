//! The calls into SQLite. Nothing in this file is proved: each function hands
//! its arguments to `rusqlite` and its result back.

use rusqlite::types::{Type, Value};
use rusqlite::{Connection, Error};
use vstd::prelude::*;
use crate::table::StoredRow;

verus! {

/// A connection to a SQLite database. Nothing is known of what the database
/// holds.
#[verifier::external_type_specification]
#[verifier::external_body]
pub struct ExConnection(Connection);

/// What `rusqlite` reports when a call fails.
#[verifier::external_type_specification]
#[verifier::external_body]
pub struct ExSqlError(Error);

/// A value bound to a parameter of a statement.
#[verifier::external_type_specification]
pub struct ExValue(Value);

/// The five types that a stored value can have.
#[verifier::external_type_specification]
pub struct ExType(Type);

/// `Connection::open`: opens the database at `path`, or creates it. Whether
/// that succeeds depends on the file system, so nothing is claimed.
#[verifier::external_body]
pub(crate) fn open_database(path: &str) -> (r: Result<Connection, Error>) {
    Connection::open(path)
}

/// `Connection::execute`: runs one statement that returns no rows, with
/// `params` bound to its parameters in order. On success the number is the
/// count of rows that the database changed; nothing is claimed of it.
#[verifier::external_body]
pub(crate) fn execute(conn: &Connection, sql: &str, params: &Vec<Value>) -> (r: Result<
    usize,
    Error,
>) {
    conn.execute(sql, params)
}

/// `Connection::prepare` and `Statement::query_map`: runs one statement that
/// returns rows of three columns, and hands all rows back in the order in
/// which the database gave them. Of each row it takes the first column as an
/// integer and the second as a string, as `Row::get` reads them, and of the
/// third the type (`ValueRef::data_type`) and the string, where
/// `ValueRef::as_str` gives one. Nothing is claimed of the rows.
#[verifier::external_body]
pub(crate) fn query(conn: &Connection, sql: &str, params: &Vec<Value>) -> (r: Result<
    Vec<StoredRow>,
    Error,
>) {
    let mut statement = conn.prepare(sql)?;
    let rows = statement.query_map(params, |row| {
        let state = row.get_raw_checked(2)?;
        Ok(StoredRow {
            id: row.get(0)?,
            content: row.get(1)?,
            kind: state.data_type(),
            state: state.as_str().ok().map(String::from),
        })
    })?;
    rows.collect()
}

/// `Connection::last_insert_rowid`: the row id of the last row that this
/// connection inserted.
#[verifier::external_body]
pub(crate) fn last_insert_rowid(conn: &Connection) -> (rowid: i64) {
    conn.last_insert_rowid()
}

/// The text that `Display` gives for an error of `rusqlite`. Nothing is
/// claimed of it.
#[verifier::external_body]
pub(crate) fn describe(error: &Error) -> (text: String) {
    format!("{}", error)
}

} // verus!
