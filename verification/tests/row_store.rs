use rusqlite::types::{Type, Value};
use taskbook::error::StoreError;
use taskbook::state::TaskState;
use taskbook::table::{
    found_task, id_params, insert_params, listed_tasks, state_params, task_id_of, task_of_row,
    tasks_of_rows, update_statement_for, StoredRow, TaskTable,
};
use taskbook::task::Task;

fn row(id: i64, content: &str, state: &str) -> StoredRow {
    StoredRow {
        id,
        content: String::from(content),
        kind: Type::Text,
        state: Some(String::from(state)),
    }
}

fn task(id: u32, content: &str, state: TaskState) -> Task {
    Task { id, content: String::from(content), state }
}

fn memory_table() -> TaskTable {
    let mut tb = TaskTable::new();
    tb.init_db_conn(":memory:").unwrap();
    tb
}

#[test]
fn sqlite_create_table() {
    let mut tb = TaskTable::new();
    tb.init_db_conn(":memory:").unwrap();
}

#[test]
fn sqlite_insert_task() {
    let mut tb = TaskTable::new();
    tb.init_db_conn(":memory:").unwrap();
    tb.new_task(String::from("hello world test test test")).unwrap();

    let conn = tb.db_conn.unwrap();

    if let Ok(count) = conn.execute(
        "select * from task where content='hello world test test test'",
        rusqlite::NO_PARAMS,
    ) {
        assert!(true, "{}", count > 0);
    }

    conn.execute(
        "delete from task where content='hello world test test test'",
        rusqlite::NO_PARAMS,
    )
    .unwrap();
}

#[test]
fn update_task_state() {
    let mut tb = TaskTable::new();
    tb.init_db_conn(":memory:").unwrap();
    let task_id01 = tb.new_task(String::from("test task zero")).unwrap();
    let task01 = tb.find_task(task_id01).unwrap().unwrap();
    assert_eq!(task01.state, TaskState::DOING);
    tb.set_task_state(vec![task_id01], TaskState::DONE).unwrap();
    let task01 = tb.find_task(task_id01).unwrap().unwrap();
    assert_eq!(task01.state, TaskState::DONE);
    let r = tb.del_task(task01.id);
    assert_eq!(r, Ok(task01.id));
}

#[test]
fn fresh_table_is_empty_and_ids_start_at_one() {
    let tb = memory_table();
    assert_eq!(tb.list(), Ok(Vec::new()));
    assert_eq!(tb.new_task(String::from("x")), Ok(1));
    let found = tb.find_task(1).unwrap().unwrap();
    assert_eq!(found.content, "x");
    assert_eq!(found.id, 1);
    assert_eq!(found.state, TaskState::DOING);
    assert_eq!(tb.del_task(1), Ok(1));
    assert_eq!(tb.find_task(1), Ok(None));
}

#[test]
fn table_ids_increase() {
    let tb = memory_table();
    let a = tb.new_task(String::from("a")).unwrap();
    let b = tb.new_task(String::from("b")).unwrap();
    let c = tb.new_task(String::from("c")).unwrap();
    assert!(a < b && b < c);
    tb.del_task(c).unwrap();
    let d = tb.new_task(String::from("d")).unwrap();
    assert!(c < d);
}

#[test]
fn table_updates_the_named_rows_only() {
    let tb = memory_table();
    let a = tb.new_task(String::from("a")).unwrap();
    let b = tb.new_task(String::from("b")).unwrap();
    let c = tb.new_task(String::from("c")).unwrap();
    assert_eq!(tb.set_task_state(vec![a, c, 4000], TaskState::DEAD), Ok(()));
    let all = tb.list().unwrap();
    assert_eq!(
        all,
        vec![
            Task { id: a, content: String::from("a"), state: TaskState::DEAD },
            Task { id: b, content: String::from("b"), state: TaskState::DOING },
            Task { id: c, content: String::from("c"), state: TaskState::DEAD },
        ]
    );
    assert_eq!(tb.set_task_state(vec![a], TaskState::DONE), Ok(()));
    assert_eq!(tb.set_task_state(vec![a], TaskState::DOING), Ok(()));
    assert_eq!(tb.find_task(a).unwrap().unwrap().state, TaskState::DOING);
    assert_eq!(tb.set_task_state(Vec::new(), TaskState::DONE), Ok(()));
    assert_eq!(tb.find_task(b).unwrap().unwrap().state, TaskState::DOING);
}

#[test]
fn table_keeps_odd_text() {
    let tb = memory_table();
    let text = "it's \"quoted\"; drop table task; -- \u{e9}\n";
    let id = tb.new_task(String::from(text)).unwrap();
    assert_eq!(tb.find_task(id).unwrap().unwrap().content, text);
}

#[test]
fn unconnected_table_refuses() {
    let tb = TaskTable::new();
    assert_eq!(tb.new_task(String::from("x")), Err(StoreError::NotConnected));
    assert_eq!(tb.set_task_state(vec![1], TaskState::DONE), Err(StoreError::NotConnected));
    assert_eq!(tb.find_task(1), Err(StoreError::NotConnected));
    assert_eq!(tb.list(), Err(StoreError::NotConnected));
    assert_eq!(tb.del_task(1), Err(String::from("fail to connect to database")));
}

#[test]
fn database_that_cannot_be_opened() {
    let mut tb = TaskTable::new();
    let r = tb.init_db_conn("/no/such/directory/taskbook.db");
    assert!(matches!(r, Err(StoreError::Open(_))));
    assert!(tb.db_conn.is_none());
}

#[test]
fn unknown_state_in_a_row_is_an_error() {
    let tb = memory_table();
    let id = tb.new_task(String::from("x")).unwrap();
    tb.db_conn
        .as_ref()
        .unwrap()
        .execute("update task set state='Sleeping'", rusqlite::NO_PARAMS)
        .unwrap();
    assert_eq!(tb.find_task(id), Err(StoreError::UnknownState));
    assert_eq!(tb.list(), Err(StoreError::UnknownState));
}

#[test]
fn state_of_another_type_is_refused() {
    let tb = memory_table();
    let id = tb.new_task(String::from("x")).unwrap();
    let conn = tb.db_conn.as_ref().unwrap();
    for value in ["x'00ff'", "null"] {
        conn.execute(&format!("update task set state={}", value), rusqlite::NO_PARAMS).unwrap();
        assert_eq!(tb.find_task(id), Err(StoreError::InvalidType), "{}", value);
        assert_eq!(tb.list(), Err(StoreError::InvalidType), "{}", value);
    }
    // A number put in a text column is kept as a text, which names no state.
    conn.execute("update task set state=7", rusqlite::NO_PARAMS).unwrap();
    assert_eq!(tb.find_task(id), Err(StoreError::UnknownState));
}

#[test]
fn state_text_that_is_no_string_is_unknown() {
    let tb = memory_table();
    let id = tb.new_task(String::from("x")).unwrap();
    tb.db_conn
        .as_ref()
        .unwrap()
        .execute("update task set state=cast(x'ff' as text)", rusqlite::NO_PARAMS)
        .unwrap();
    assert_eq!(tb.find_task(id), Err(StoreError::UnknownState));
}

#[test]
fn content_of_another_type_is_a_query_error() {
    let tb = memory_table();
    let id = tb.new_task(String::from("x")).unwrap();
    tb.db_conn
        .as_ref()
        .unwrap()
        .execute("update task set content=x'00ff'", rusqlite::NO_PARAMS)
        .unwrap();
    assert!(matches!(tb.find_task(id), Err(StoreError::Query(_))));
}

#[test]
fn delete_failure_is_a_message() {
    let tb = memory_table();
    tb.db_conn.as_ref().unwrap().execute("drop table task", rusqlite::NO_PARAMS).unwrap();
    let r = tb.del_task(1);
    assert!(r.unwrap_err().starts_with("fail to delete record: "));
    assert!(matches!(tb.new_task(String::from("x")), Err(StoreError::Insert(_))));
    assert!(matches!(tb.set_task_state(vec![1], TaskState::DONE), Err(StoreError::Update(_))));
    assert!(matches!(tb.list(), Err(StoreError::Query(_))));
}

#[test]
fn row_ids_outside_the_task_ids() {
    assert_eq!(task_id_of(0), Ok(0));
    assert_eq!(task_id_of(4294967295), Ok(4294967295));
    assert_eq!(task_id_of(4294967296), Err(StoreError::IdOutOfRange(4294967296)));
    assert_eq!(task_id_of(-1), Err(StoreError::IdOutOfRange(-1)));
}

#[test]
fn rows_become_tasks() {
    assert_eq!(task_of_row(&row(7, "t", "Done")), Ok(task(7, "t", TaskState::DONE)));
    assert_eq!(task_of_row(&row(7, "t", "DONE")), Err(StoreError::UnknownState));
    assert_eq!(task_of_row(&row(-7, "t", "DONE")), Err(StoreError::IdOutOfRange(-7)));
    let blob = StoredRow { id: 7, content: String::from("t"), kind: Type::Blob, state: None };
    assert_eq!(task_of_row(&blob), Err(StoreError::InvalidType));
    let broken = StoredRow { id: 7, content: String::from("t"), kind: Type::Text, state: None };
    assert_eq!(task_of_row(&broken), Err(StoreError::UnknownState));
    let far = StoredRow { id: 1 << 40, content: String::from("t"), kind: Type::Null, state: None };
    assert_eq!(task_of_row(&far), Err(StoreError::IdOutOfRange(1 << 40)));
    let rows = vec![row(1, "a", "Doing"), row(2, "b", "Dead")];
    assert_eq!(
        tasks_of_rows(&rows),
        Ok(vec![task(1, "a", TaskState::DOING), task(2, "b", TaskState::DEAD)])
    );
    let bad = vec![row(1, "a", "Doing"), row(2, "b", ""), row(-3, "c", "Dead")];
    assert_eq!(tasks_of_rows(&bad), Err(StoreError::UnknownState));
    assert_eq!(tasks_of_rows(&Vec::new()), Ok(Vec::new()));
}

#[test]
fn what_a_lookup_makes_of_rows() {
    let rows = vec![row(1, "a", "Doing"), row(2, "b", "Dead")];
    assert_eq!(found_task(&rows, 1), Ok(Some(task(1, "a", TaskState::DOING))));
    assert_eq!(found_task(&rows, 2), Err(StoreError::Malformed));
    assert_eq!(found_task(&Vec::new(), 1), Ok(None));
    assert_eq!(found_task(&vec![row(1, "a", "Asleep")], 1), Err(StoreError::UnknownState));
    assert_eq!(found_task(&vec![row(-1, "a", "Done")], 1), Err(StoreError::IdOutOfRange(-1)));
    assert_eq!(
        found_task(&vec![row(4294967295, "a", "Done"), row(-1, "b", "")], 4294967295),
        Ok(Some(task(4294967295, "a", TaskState::DONE)))
    );
}

#[test]
fn what_a_listing_makes_of_rows() {
    let rows = vec![row(1, "a", "Doing"), row(2, "b", "Dead"), row(9, "c", "Done")];
    assert_eq!(
        listed_tasks(&rows),
        Ok(vec![
            task(1, "a", TaskState::DOING),
            task(2, "b", TaskState::DEAD),
            task(9, "c", TaskState::DONE),
        ])
    );
    assert_eq!(listed_tasks(&Vec::new()), Ok(Vec::new()));
    assert_eq!(
        listed_tasks(&vec![row(2, "b", "Dead"), row(1, "a", "Doing")]),
        Err(StoreError::Malformed)
    );
    assert_eq!(
        listed_tasks(&vec![row(1, "a", "Doing"), row(1, "a", "Doing")]),
        Err(StoreError::Malformed)
    );
    assert_eq!(
        listed_tasks(&vec![row(2, "b", "Dead"), row(1, "a", "doing")]),
        Err(StoreError::UnknownState)
    );
}

#[test]
fn update_statement_text() {
    assert_eq!(update_statement_for(&Vec::new()), "update task set state=?1 where id in ()");
    assert_eq!(update_statement_for(&vec![0]), "update task set state=?1 where id in (0)");
    assert_eq!(
        update_statement_for(&vec![10, 4294967295, 7]),
        "update task set state=?1 where id in (10, 4294967295, 7)"
    );
}

#[test]
fn file_that_is_no_database() {
    // The running program itself: a file that is there and is no database.
    let mut tb = TaskTable::new();
    let r = tb.init_db_conn("/proc/self/exe");
    assert!(matches!(r, Err(StoreError::CreateTable(_))), "{:?}", r);
    assert!(tb.db_conn.is_none());
}

#[test]
fn row_id_beyond_the_task_ids() {
    let tb = memory_table();
    tb.db_conn
        .as_ref()
        .unwrap()
        .execute(
            "insert into task (id, content, state) values (5000000000, 'far', 'Doing')",
            rusqlite::NO_PARAMS,
        )
        .unwrap();
    assert_eq!(tb.list(), Err(StoreError::IdOutOfRange(5000000000)));
    assert_eq!(tb.new_task(String::from("next")), Err(StoreError::IdOutOfRange(5000000001)));
}

#[test]
fn table_load_and_save() {
    let mut tb = TaskTable::new();
    assert_eq!(tb.load_data(":memory:"), Ok(()));
    assert_eq!(tb.new_task(String::from("x")), Ok(1));
    tb.save_data();
    assert_eq!(
        tb.list(),
        Ok(vec![Task { id: 1, content: String::from("x"), state: TaskState::DOING }])
    );
}

#[test]
fn parameters_of_the_statements() {
    assert_eq!(
        insert_params(String::from("x")),
        vec![Value::Text(String::from("x")), Value::Text(String::from("Doing"))]
    );
    assert_eq!(state_params(TaskState::DEAD), vec![Value::Text(String::from("Dead"))]);
    assert_eq!(id_params(4294967295), vec![Value::Integer(4294967295)]);
}
