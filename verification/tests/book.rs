use taskbook::book::{ids_grow, put_in_order, TaskBook};
use taskbook::error::StoreError;
use taskbook::state::TaskState;
use taskbook::task::Task;

fn task(id: u32, content: &str, state: TaskState) -> Task {
    Task { id, content: String::from(content), state }
}

#[test]
fn books_stay_well_formed() {
    let mut book = TaskBook::new();
    assert!(book.well_formed());
    book.new_task(String::from("a")).unwrap();
    book.new_task(String::from("b")).unwrap();
    book.set_task_state(vec![1, 5], TaskState::DEAD);
    assert!(book.well_formed());
    assert_eq!(book.load_data("nothing"), Err(StoreError::Malformed));
    assert!(book.well_formed());
    assert_eq!(book.load_data(&TaskBook::new().save_data()), Ok(()));
    assert!(book.well_formed());
}

#[test]
fn new_book_is_empty() {
    let book = TaskBook::new();
    assert_eq!(book.list(), Vec::new());
    assert_eq!(book.next_id(), 0);
    assert_eq!(book.find_task(0), None);
}

#[test]
fn buy_milk_and_walk_dog() {
    let mut book = TaskBook::new();
    assert_eq!(book.new_task(String::from("buy milk")), Ok(0));
    assert_eq!(book.new_task(String::from("walk dog")), Ok(1));
    book.set_task_state(vec![0], TaskState::DONE);
    assert_eq!(
        book.list(),
        vec![task(0, "buy milk", TaskState::DONE), task(1, "walk dog", TaskState::DOING)]
    );
    assert_eq!(book.next_id(), 2);
}

#[test]
fn new_task_starts_open() {
    let t = Task::new(5, String::from("water plants"));
    assert_eq!(t, task(5, "water plants", TaskState::DOING));
}

#[test]
fn task_state_is_overwritten() {
    let mut t = Task::new(5, String::from("water plants"));
    t.set_state(TaskState::DEAD);
    assert_eq!(t, task(5, "water plants", TaskState::DEAD));
    t.set_state(TaskState::DEAD);
    assert_eq!(t.state, TaskState::DEAD);
    t.set_state(TaskState::DOING);
    assert_eq!(t, task(5, "water plants", TaskState::DOING));
    assert_eq!(t.clone(), t);
}

#[test]
fn listing_twice_gives_the_same() {
    let mut book = TaskBook::new();
    book.new_task(String::from("a")).unwrap();
    book.new_task(String::from("b")).unwrap();
    let first = book.list();
    let second = book.list();
    assert_eq!(first, second);
    assert_eq!(first.len(), 2);
}

#[test]
fn ids_grow_and_never_repeat() {
    let mut book = TaskBook::new();
    let mut last = None;
    for i in 0..50u32 {
        let id = book.new_task(format!("task {}", i)).unwrap();
        assert_eq!(id, i);
        if let Some(before) = last {
            assert!(before < id);
        }
        last = Some(id);
    }
    assert_eq!(book.next_id(), 50);
}

#[test]
fn ids_go_on_after_a_restart() {
    let mut book = TaskBook::new();
    assert_eq!(book.new_task(String::from("a")), Ok(0));
    assert_eq!(book.new_task(String::from("b")), Ok(1));
    let saved = book.save_data();
    let mut again = TaskBook::new();
    assert_eq!(again.load_data(&saved), Ok(()));
    assert_eq!(again.new_task(String::from("c")), Ok(2));
    assert_eq!(again.next_id(), 3);
}

#[test]
fn any_state_may_follow_any_state() {
    let mut book = TaskBook::new();
    let id = book.new_task(String::from("a")).unwrap();
    book.set_task_state(vec![id], TaskState::DONE);
    assert_eq!(book.find_task(id).unwrap().state, TaskState::DONE);
    book.set_task_state(vec![id], TaskState::DOING);
    assert_eq!(book.find_task(id).unwrap().state, TaskState::DOING);
    book.set_task_state(vec![id], TaskState::DEAD);
    book.set_task_state(vec![id], TaskState::DONE);
    assert_eq!(book.find_task(id), Some(task(id, "a", TaskState::DONE)));
}

#[test]
fn unknown_id_is_passed_over() {
    let mut book = TaskBook::new();
    let a = book.new_task(String::from("a")).unwrap();
    let b = book.new_task(String::from("b")).unwrap();
    book.set_task_state(vec![a, 77], TaskState::DONE);
    assert_eq!(book.list(), vec![task(a, "a", TaskState::DONE), task(b, "b", TaskState::DOING)]);
    book.set_task_state(vec![77, 78], TaskState::DEAD);
    assert_eq!(book.list(), vec![task(a, "a", TaskState::DONE), task(b, "b", TaskState::DOING)]);
    book.set_task_state(Vec::new(), TaskState::DEAD);
    assert_eq!(book.list(), vec![task(a, "a", TaskState::DONE), task(b, "b", TaskState::DOING)]);
    book.set_task_state(vec![b, b, 99, a], TaskState::DEAD);
    assert_eq!(book.list(), vec![task(a, "a", TaskState::DEAD), task(b, "b", TaskState::DEAD)]);
    assert_eq!(book.next_id(), 2);
}

#[test]
fn find_task_by_id() {
    let mut book = TaskBook::new();
    book.new_task(String::from("a")).unwrap();
    book.new_task(String::from("b")).unwrap();
    assert_eq!(book.find_task(1), Some(task(1, "b", TaskState::DOING)));
    assert_eq!(book.find_task(2), None);
}

#[test]
fn last_id_is_never_given_out() {
    let mut book = TaskBook::new();
    assert_eq!(book.load_data("{\"tasks\":{},\"nextId\":4294967294}"), Ok(()));
    assert_eq!(book.new_task(String::from("last")), Ok(4294967294));
    assert_eq!(book.next_id(), 4294967295);
    assert_eq!(book.new_task(String::from("one too many")), Err(StoreError::IdsExhausted));
    assert_eq!(book.list(), vec![task(4294967294, "last", TaskState::DOING)]);
    assert_eq!(book.next_id(), 4294967295);
}

#[test]
fn error_messages() {
    assert_eq!(StoreError::NotConnected.to_string(), "the database is not initialized");
    assert_eq!(
        StoreError::Open(String::from("no such directory")).to_string(),
        "fail to open database: no such directory"
    );
    assert_eq!(
        StoreError::CreateTable(String::from("x")).to_string(),
        "fail to create db table: x"
    );
    assert_eq!(
        StoreError::Insert(String::from("x")).to_string(),
        "failed to insert task into database: x"
    );
    assert_eq!(StoreError::Update(String::new()).to_string(), "fail to update task state: ");
    assert_eq!(StoreError::Query(String::from("q")).to_string(), "fail to read tasks: q");
    assert_eq!(
        StoreError::IdOutOfRange(-4).to_string(),
        "a row holds an id that is no task id"
    );
    assert_eq!(StoreError::InvalidType.to_string(), "a row holds a state that is no text");
    assert_eq!(StoreError::UnknownState.to_string(), "unknown task state");
    assert_eq!(StoreError::IdsExhausted.to_string(), "every task id has been given out");
    assert_eq!(StoreError::Malformed.to_string(), "the stored data is malformed");
}

#[test]
fn ids_that_grow() {
    let a = task(1, "a", TaskState::DOING);
    let b = task(2, "b", TaskState::DOING);
    let c = task(4294967295, "c", TaskState::DOING);
    assert!(ids_grow(&Vec::new()));
    assert!(ids_grow(&vec![c.clone()]));
    assert!(ids_grow(&vec![a.clone(), b.clone(), c.clone()]));
    assert!(!ids_grow(&vec![a.clone(), c.clone(), b.clone()]));
    assert!(!ids_grow(&vec![a.clone(), a.clone()]));
    assert!(!ids_grow(&vec![b, a]));
}

#[test]
fn task_is_taken_out() {
    let mut book = TaskBook::new();
    book.new_task(String::from("a")).unwrap();
    book.new_task(String::from("b")).unwrap();
    book.new_task(String::from("c")).unwrap();
    assert_eq!(book.del_task(1), Ok(1));
    assert_eq!(book.list(), vec![task(0, "a", TaskState::DOING), task(2, "c", TaskState::DOING)]);
    assert_eq!(book.find_task(1), None);
    assert_eq!(book.next_id(), 3);
    assert_eq!(book.del_task(1), Ok(1));
    assert_eq!(book.del_task(77), Ok(77));
    assert_eq!(book.list(), vec![task(0, "a", TaskState::DOING), task(2, "c", TaskState::DOING)]);
    assert!(book.well_formed());
}

#[test]
fn id_of_a_task_that_is_gone_is_not_given_again() {
    let mut book = TaskBook::new();
    let a = book.new_task(String::from("a")).unwrap();
    book.set_task_state(vec![a], TaskState::DONE);
    assert_eq!(book.find_task(a).unwrap().state, TaskState::DONE);
    assert_eq!(book.del_task(a), Ok(a));
    assert_eq!(book.list(), Vec::new());
    let b = book.new_task(String::from("b")).unwrap();
    assert!(a < b);
    assert_eq!(b, 1);
    let saved = book.save_data();
    assert_eq!(
        saved,
        "{\"tasks\":{\"1\":{\"id\":1,\"content\":\"b\",\"state\":\"Doing\"}},\"nextId\":2}"
    );
    let mut again = TaskBook::new();
    assert_eq!(again.load_data(&saved), Ok(()));
    assert_eq!(again.del_task(b), Ok(b));
    let c = again.new_task(String::from("c")).unwrap();
    assert!(b < c);
}

#[test]
fn listing_goes_by_id() {
    let mut book = TaskBook::new();
    for i in 0..300u32 {
        assert_eq!(book.new_task(format!("task {}", i)), Ok(i));
    }
    for i in 0..300u32 {
        if i % 3 == 1 {
            assert_eq!(book.del_task(i), Ok(i));
        }
    }
    let all = book.list();
    assert_eq!(all.len(), 200);
    for pair in all.windows(2) {
        assert!(pair[0].id < pair[1].id);
    }
    assert_eq!(all[0].id, 0);
    assert_eq!(all[1].id, 2);
    assert_eq!(all[199].id, 299);
    assert_eq!(all[199].content, "task 299");
}

#[test]
fn ids_are_put_in_order() {
    let mut ids = Vec::new();
    for id in [5u32, 1, 9, 5, 0, 4294967295, 9, 3] {
        put_in_order(&mut ids, id);
    }
    assert_eq!(ids, vec![0, 1, 3, 5, 9, 4294967295]);
}
