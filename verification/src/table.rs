//! The row store: one SQLite table of tasks, written through on every call.

use rusqlite::types::{Type, Value};
use rusqlite::Connection;
use vstd::prelude::*;
use vstd::string::StringExecFns;
use crate::book::{ascending, ids_grow, models};
use crate::error::StoreError;
use crate::sql::{describe, execute, last_insert_rowid, open_database, query};
use crate::state::{ColumnError, TaskState};
use crate::task::{Task, TaskModel};
use crate::number::{decimal, push_decimal};
use crate::text::{push_text, string_of};

verus! {

/// Makes the table of tasks unless it is there: an id that the database
/// gives out, a text and the name of a state.
pub const CREATE_TABLE: &'static str =
    "create table if not exists task (id integer primary key autoincrement, content text, state text)";

/// Inserts a task. Its parameters are the text and the name of the state.
pub const INSERT: &'static str = "insert into task (content, state) values (?1, ?2)";

/// Selects the row with the id that is its parameter.
pub const SELECT_ONE: &'static str = "select id, content, state from task where id=?1";

/// Selects all rows, by id.
pub const SELECT_ALL: &'static str = "select id, content, state from task order by id";

/// Deletes the row with the id that is its parameter.
pub const DELETE: &'static str = "delete from task where id=?1";

/// A row of the table as the database hands it out: the id, the text, and
/// of the state the type of the stored value and its text, where it has one
/// that can be read as a string.
#[derive(Debug)]
pub struct StoredRow {
    pub id: i64,
    pub content: String,
    pub kind: Type,
    pub state: Option<String>,
}

/// The task id that a row id of the database stands for, if it is one.
pub open spec fn row_id(rowid: i64) -> Result<u32, StoreError> {
    if 0 <= rowid <= u32::MAX {
        Ok(rowid as u32)
    } else {
        Err(StoreError::IdOutOfRange(rowid))
    }
}

/// The characters of a text that may be missing.
pub open spec fn chars(text: Option<String>) -> Option<Seq<char>> {
    match text {
        Some(text) => Some(text@),
        None => None,
    }
}

/// The task that a row of the table stands for. A row whose id is no task
/// id, or whose state column is no state, stands for none; the id is looked
/// at first.
pub open spec fn row_task(row: StoredRow) -> Result<TaskModel, StoreError> {
    match row_id(row.id) {
        Err(e) => Err(e),
        Ok(id) => match TaskState::stored(row.kind, chars(row.state)) {
            Ok(state) => Ok(TaskModel { id, content: row.content@, state }),
            Err(ColumnError::InvalidType) => Err(StoreError::InvalidType),
            Err(ColumnError::Unknown(_)) => Err(StoreError::UnknownState),
        },
    }
}

/// The tasks that a run of rows stands for, in the rows' order. If a row
/// stands for none, the first such row gives the error.
pub open spec fn rows_tasks(rows: Seq<StoredRow>) -> Result<Seq<TaskModel>, StoreError>
    decreases rows.len(),
{
    if rows.len() == 0 {
        Ok(Seq::empty())
    } else {
        match rows_tasks(rows.drop_last()) {
            Err(e) => Err(e),
            Ok(tasks) => match row_task(rows.last()) {
                Ok(task) => Ok(tasks.push(task)),
                Err(e) => Err(e),
            },
        }
    }
}

/// What a lookup by id makes of the rows that the database found: nothing
/// where there is no row, else the task that the first row stands for. A
/// task with another id than the one asked for is malformed data.
pub open spec fn found_in(rows: Seq<StoredRow>, id: u32) -> Result<Option<TaskModel>, StoreError> {
    if rows.len() == 0 {
        Ok(None)
    } else {
        match row_task(rows[0]) {
            Err(e) => Err(e),
            Ok(task) => if task.id == id {
                Ok(Some(task))
            } else {
                Err(StoreError::Malformed)
            },
        }
    }
}

/// What a listing makes of the rows that the database handed out: the tasks
/// that they stand for, in their order. Tasks whose ids do not grow are
/// malformed data.
pub open spec fn listed_in(rows: Seq<StoredRow>) -> Result<Seq<TaskModel>, StoreError> {
    match rows_tasks(rows) {
        Err(e) => Err(e),
        Ok(tasks) => if ascending(tasks) {
            Ok(tasks)
        } else {
            Err(StoreError::Malformed)
        },
    }
}

/// The ids of an update statement, in decimal and parted by commas.
pub open spec fn id_list(ids: Seq<u32>) -> Seq<char>
    decreases ids.len(),
{
    if ids.len() == 0 {
        Seq::empty()
    } else if ids.len() == 1 {
        decimal(ids[0] as nat)
    } else {
        id_list(ids.drop_last()) + ", "@ + decimal(ids.last() as nat)
    }
}

/// The one statement that puts the rows with these ids in a state. The state
/// is its only parameter; the ids are written out.
pub open spec fn update_statement(ids: Seq<u32>) -> Seq<char> {
    "update task set state=?1 where id in ("@ + id_list(ids) + ")"@
}

/// The parameters with which a task is inserted: its text, and the name of
/// the state in which every task starts.
pub fn insert_params(content: String) -> (params: Vec<Value>)
    ensures
        params@.len() == 2,
        params@[0] == Value::Text(content),
        params@[1] matches Value::Text(name) && name@ == TaskState::DOING.name(),
{
    let mut params: Vec<Value> = Vec::new();
    params.push(Value::Text(content));
    params.push(Value::Text(TaskState::DOING.to_string()));
    params
}

/// The one parameter of an update: the name of the state.
pub fn state_params(state: TaskState) -> (params: Vec<Value>)
    ensures
        params@.len() == 1,
        params@[0] matches Value::Text(name) && name@ == state.name(),
{
    let mut params: Vec<Value> = Vec::new();
    params.push(Value::Text(state.to_string()));
    params
}

/// The one parameter of a statement that names a row: its id.
pub fn id_params(id: u32) -> (params: Vec<Value>)
    ensures
        params@ == seq![Value::Integer(id as i64)],
{
    let mut params: Vec<Value> = Vec::new();
    params.push(Value::Integer(id as i64));
    assert(params@ =~= seq![Value::Integer(id as i64)]);
    params
}

/// The task id that `rowid` stands for.
pub fn task_id_of(rowid: i64) -> (r: Result<u32, StoreError>)
    ensures
        r == row_id(rowid),
{
    if 0 <= rowid && rowid <= 0xffff_ffff {
        Ok(rowid as u32)
    } else {
        Err(StoreError::IdOutOfRange(rowid))
    }
}

/// The task that `row` stands for.
pub fn task_of_row(row: &StoredRow) -> (r: Result<Task, StoreError>)
    ensures
        match r {
            Ok(task) => row_task(*row) == Ok::<TaskModel, StoreError>(task@),
            Err(e) => row_task(*row) == Err::<TaskModel, StoreError>(e),
        },
{
    match task_id_of(row.id) {
        Err(e) => Err(e),
        Ok(id) => match TaskState::column_result(&row.kind, &row.state) {
            Ok(state) => Ok(Task { id, content: row.content.clone(), state }),
            Err(ColumnError::InvalidType) => Err(StoreError::InvalidType),
            Err(ColumnError::Unknown(_)) => Err(StoreError::UnknownState),
        },
    }
}

/// The tasks that `rows` stand for, in the rows' order.
pub fn tasks_of_rows(rows: &Vec<StoredRow>) -> (r: Result<Vec<Task>, StoreError>)
    ensures
        match r {
            Ok(tasks) => rows_tasks(rows@) == Ok::<Seq<TaskModel>, StoreError>(models(tasks@)),
            Err(e) => rows_tasks(rows@) == Err::<Seq<TaskModel>, StoreError>(e),
        },
{
    let mut tasks: Vec<Task> = Vec::new();
    let mut i: usize = 0;
    assert(rows@.take(0) =~= Seq::empty());
    assert(models(tasks@) =~= Seq::empty());
    while i < rows.len()
        invariant
            i <= rows.len(),
            rows_tasks(rows@.take(i as int)) == Ok::<Seq<TaskModel>, StoreError>(models(tasks@)),
        decreases rows.len() - i,
    {
        assert(rows@.take(i + 1).drop_last() =~= rows@.take(i as int));
        assert(rows@.take(i + 1).last() == rows@[i as int]);
        match task_of_row(&rows[i]) {
            Ok(task) => {
                let ghost before = models(tasks@);
                tasks.push(task);
                assert(models(tasks@) =~= before.push(task@));
            },
            Err(e) => {
                proof {
                    lemma_first_bad_row_decides(rows@, i + 1);
                }
                return Err(e);
            },
        }
        i += 1;
    }
    assert(rows@.take(rows.len() as int) =~= rows@);
    Ok(tasks)
}

/// Once a row stands for no task, the rows after it change nothing.
proof fn lemma_first_bad_row_decides(rows: Seq<StoredRow>, n: int)
    requires
        0 <= n <= rows.len(),
        rows_tasks(rows.take(n)) is Err,
    ensures
        rows_tasks(rows) == rows_tasks(rows.take(n)),
    decreases rows.len(),
{
    if n == rows.len() {
        assert(rows.take(n) =~= rows);
    } else {
        assert(rows.drop_last().take(n) =~= rows.take(n));
        lemma_first_bad_row_decides(rows.drop_last(), n);
    }
}

/// Rows fail to stand for tasks in three ways only, and a lookup and a
/// listing add a fourth.
pub proof fn lemma_row_errors(rows: Seq<StoredRow>, id: u32)
    ensures
        rows_tasks(rows) matches Err(e) ==> e is IdOutOfRange || e is InvalidType
            || e is UnknownState,
        listed_in(rows) matches Err(e) ==> e is IdOutOfRange || e is InvalidType
            || e is UnknownState || e is Malformed,
        listed_in(rows) matches Ok(tasks) ==> ascending(tasks),
        found_in(rows, id) matches Err(e) ==> e is IdOutOfRange || e is InvalidType
            || e is UnknownState || e is Malformed,
        found_in(rows, id) matches Ok(Some(task)) ==> task.id == id,
    decreases rows.len(),
{
    if rows.len() > 0 {
        lemma_row_errors(rows.drop_last(), id);
    }
}

/// The task with the id `id` among the rows that a lookup found.
pub fn found_task(rows: &Vec<StoredRow>, id: u32) -> (r: Result<Option<Task>, StoreError>)
    ensures
        match r {
            Ok(Some(task)) => found_in(rows@, id) == Ok::<Option<TaskModel>, StoreError>(
                Some(task@),
            ),
            Ok(None) => found_in(rows@, id) == Ok::<Option<TaskModel>, StoreError>(None),
            Err(e) => found_in(rows@, id) == Err::<Option<TaskModel>, StoreError>(e),
        },
{
    if rows.len() == 0 {
        return Ok(None);
    }
    match task_of_row(&rows[0]) {
        Err(e) => Err(e),
        Ok(task) => if task.id == id {
            Ok(Some(task))
        } else {
            Err(StoreError::Malformed)
        },
    }
}

/// The tasks that the rows of a listing stand for.
pub fn listed_tasks(rows: &Vec<StoredRow>) -> (r: Result<Vec<Task>, StoreError>)
    ensures
        match r {
            Ok(all) => listed_in(rows@) == Ok::<Seq<TaskModel>, StoreError>(models(all@)),
            Err(e) => listed_in(rows@) == Err::<Seq<TaskModel>, StoreError>(e),
        },
{
    match tasks_of_rows(rows) {
        Err(e) => Err(e),
        Ok(all) => if ids_grow(&all) {
            Ok(all)
        } else {
            Err(StoreError::Malformed)
        },
    }
}

/// The text of the statement that puts the rows with these ids in a state.
pub fn update_statement_for(ids: &Vec<u32>) -> (sql: String)
    ensures
        sql@ == update_statement(ids@),
{
    let mut out: Vec<char> = Vec::new();
    push_text(&mut out, "update task set state=?1 where id in (");
    let ghost start = out@;
    let mut i: usize = 0;
    assert(ids@.take(0) =~= Seq::empty());
    while i < ids.len()
        invariant
            i <= ids.len(),
            out@ == start + id_list(ids@.take(i as int)),
        decreases ids.len() - i,
    {
        assert(ids@.take(i + 1).drop_last() =~= ids@.take(i as int));
        assert(ids@.take(i + 1).last() == ids@[i as int]);
        if i > 0 {
            push_text(&mut out, ", ");
        } else {
            assert(ids@.take(1)[0] == ids@[0]);
        }
        push_decimal(&mut out, ids[i]);
        i += 1;
    }
    assert(ids@.take(ids.len() as int) =~= ids@);
    push_text(&mut out, ")");
    string_of(&out)
}

/// The tasks of one user in a table of a SQLite database. The database gives
/// out the ids.
pub struct TaskTable {
    pub db_conn: Option<Connection>,
}

impl TaskTable {
    /// Whether a connection to the database is open.
    pub open spec fn connected(&self) -> bool {
        self.db_conn is Some
    }

    /// A table that is not connected yet.
    pub fn new() -> (table: TaskTable)
        ensures
            !table.connected(),
    {
        TaskTable { db_conn: None }
    }

    /// Opens the database at `path`, creating it if need be, and makes sure
    /// that it holds the table of tasks. On success the connection is kept; on
    /// failure the table is left as it was.
    pub fn init_db_conn(&mut self, path: &str) -> (r: Result<(), StoreError>)
        ensures
            match r {
                Ok(_) => final(self).connected(),
                Err(e) => (e is Open || e is CreateTable) && *final(self) == *old(self),
            },
    {
        match open_database(path) {
            Ok(conn) => {
                let made = execute(&conn, CREATE_TABLE, &Vec::new());
                match made {
                    Ok(_) => {
                        self.db_conn = Some(conn);
                        Ok(())
                    },
                    Err(e) => Err(StoreError::CreateTable(describe(&e))),
                }
            },
            Err(e) => Err(StoreError::Open(describe(&e))),
        }
    }

    /// Makes the table ready for use: the same as [`TaskTable::init_db_conn`],
    /// since the tasks themselves stay in the database.
    pub fn load_data(&mut self, path: &str) -> (r: Result<(), StoreError>)
        ensures
            match r {
                Ok(_) => final(self).connected(),
                Err(e) => (e is Open || e is CreateTable) && *final(self) == *old(self),
            },
    {
        self.init_db_conn(path)
    }

    /// Does nothing: every call has already written its change to the
    /// database.
    pub fn save_data(&self) {
    }

    /// Inserts a task with this text, open, and returns the id that the
    /// database gave it. Without a connection nothing is tried. Otherwise the
    /// database decides: a refused insert and a row id that is no task id
    /// are the two errors.
    pub fn new_task(&self, content: String) -> (r: Result<u32, StoreError>)
        ensures
            !self.connected() ==> r == Err::<u32, StoreError>(StoreError::NotConnected),
            self.connected() ==> (r matches Err(e) ==> e is Insert || e is IdOutOfRange),
    {
        match &self.db_conn {
            None => Err(StoreError::NotConnected),
            Some(conn) => {
                match execute(conn, INSERT, &insert_params(content)) {
                    Ok(_) => task_id_of(last_insert_rowid(conn)),
                    Err(e) => Err(StoreError::Insert(describe(&e))),
                }
            },
        }
    }

    /// Puts every row whose id is among `ids` in `state`, with one statement.
    /// An id that no row has is passed over by the database, and nothing is
    /// reported of it. Without a connection nothing is tried.
    pub fn set_task_state(&self, ids: Vec<u32>, state: TaskState) -> (r: Result<(), StoreError>)
        ensures
            !self.connected() ==> r == Err::<(), StoreError>(StoreError::NotConnected),
            self.connected() ==> (r matches Err(e) ==> e is Update),
    {
        match &self.db_conn {
            None => Err(StoreError::NotConnected),
            Some(conn) => {
                let sql = update_statement_for(&ids);
                match execute(conn, sql.as_str(), &state_params(state)) {
                    Ok(_) => Ok(()),
                    Err(e) => Err(StoreError::Update(describe(&e))),
                }
            },
        }
    }

    /// The task in the row with this id, or nothing if the database finds no
    /// such row. Without a connection nothing is tried. Otherwise the query
    /// is made, and either it fails or [`found_task`] says what its rows give.
    pub fn find_task(&self, id: u32) -> (r: Result<Option<Task>, StoreError>)
        ensures
            !self.connected() ==> r == Err::<Option<Task>, StoreError>(StoreError::NotConnected),
            self.connected() ==> match r {
                Ok(Some(task)) => task.id == id,
                Ok(None) => true,
                Err(e) => e is Query || e is IdOutOfRange || e is InvalidType || e is UnknownState
                    || e is Malformed,
            },
    {
        match &self.db_conn {
            None => Err(StoreError::NotConnected),
            Some(conn) => match query(conn, SELECT_ONE, &id_params(id)) {
                Ok(rows) => {
                    proof {
                        lemma_row_errors(rows@, id);
                    }
                    found_task(&rows, id)
                },
                Err(e) => Err(StoreError::Query(describe(&e))),
            },
        }
    }

    /// All tasks of the table, by id, so that no two of them share an id.
    /// Without a connection nothing is tried. Otherwise the query is made,
    /// and either it fails or [`listed_tasks`] says what its rows give.
    pub fn list(&self) -> (r: Result<Vec<Task>, StoreError>)
        ensures
            !self.connected() ==> r == Err::<Vec<Task>, StoreError>(StoreError::NotConnected),
            self.connected() ==> match r {
                Ok(all) => ascending(models(all@)),
                Err(e) => e is Query || e is IdOutOfRange || e is InvalidType || e is UnknownState
                    || e is Malformed,
            },
    {
        match &self.db_conn {
            None => Err(StoreError::NotConnected),
            Some(conn) => match query(conn, SELECT_ALL, &Vec::new()) {
                Ok(rows) => {
                    proof {
                        lemma_row_errors(rows@, 0);
                    }
                    listed_tasks(&rows)
                },
                Err(e) => Err(StoreError::Query(describe(&e))),
            },
        }
    }

    /// Removes the row with this id and returns the id. A failure is handed
    /// back as a message: that there is no connection, or that the database
    /// refused, followed by the database's own words.
    pub fn del_task(&self, id: u32) -> (r: Result<u32, String>)
        ensures
            match r {
                Ok(removed) => self.connected() && removed == id,
                Err(message) => if self.connected() {
                    "fail to delete record: "@.is_prefix_of(message@)
                } else {
                    message@ == "fail to connect to database"@
                },
            },
    {
        match &self.db_conn {
            None => Err("fail to connect to database".to_owned()),
            Some(conn) => {
                match execute(conn, DELETE, &id_params(id)) {
                    Ok(_) => Ok(id),
                    Err(e) => {
                        let mut message = "fail to delete record: ".to_owned();
                        message.append(describe(&e).as_str());
                        Err(message)
                    },
                }
            },
        }
    }
}

} // verus!
