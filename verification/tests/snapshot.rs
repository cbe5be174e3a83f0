use taskbook::book::TaskBook;
use taskbook::error::StoreError;
use taskbook::escape::{push_escaped, read_char, read_text};
use taskbook::format::{push_entry, write_document};
use taskbook::number::{digit_char, push_decimal, read_number};
use taskbook::reader::{makes_book, read_book, read_entries, read_entry};
use taskbook::state::TaskState;
use taskbook::task::Task;
use taskbook::text::{chars_of, push_text, same_chars, skip_word, string_of};

fn task(id: u32, content: &str, state: TaskState) -> Task {
    Task { id, content: String::from(content), state }
}

fn loaded(text: &str) -> Result<TaskBook, StoreError> {
    let mut book = TaskBook::new();
    book.load_data(text).map(|_| book)
}

fn refused(text: &str) {
    let mut book = TaskBook::new();
    book.new_task(String::from("kept")).unwrap();
    assert_eq!(book.load_data(text), Err(StoreError::Malformed), "{}", text);
    assert_eq!(book.list(), vec![task(0, "kept", TaskState::DOING)]);
    assert_eq!(book.next_id(), 1);
}

#[test]
fn empty_book_snapshot() {
    assert_eq!(TaskBook::new().save_data(), "{\"tasks\":{},\"nextId\":0}");
    let book = loaded("{\"tasks\":{},\"nextId\":0}").unwrap();
    assert_eq!(book.list(), Vec::new());
    assert_eq!(book.next_id(), 0);
}

#[test]
fn snapshot_of_two_tasks() {
    let mut book = TaskBook::new();
    book.new_task(String::from("buy milk")).unwrap();
    book.new_task(String::from("walk dog")).unwrap();
    book.set_task_state(vec![0], TaskState::DONE);
    let text = "{\"tasks\":{\"0\":{\"id\":0,\"content\":\"buy milk\",\"state\":\"Done\"},\
                \"1\":{\"id\":1,\"content\":\"walk dog\",\"state\":\"Doing\"}},\"nextId\":2}";
    assert_eq!(book.save_data(), text);
    let again = loaded(text).unwrap();
    assert_eq!(again.list(), book.list());
    assert_eq!(again.next_id(), 2);
}

#[test]
fn snapshot_with_gaps_in_the_ids() {
    let text = "{\"tasks\":{\"3\":{\"id\":3,\"content\":\"\",\"state\":\"Dead\"},\
                \"10\":{\"id\":10,\"content\":\"x\",\"state\":\"Done\"}},\"nextId\":4294967295}";
    let book = loaded(text).unwrap();
    assert_eq!(book.list(), vec![task(3, "", TaskState::DEAD), task(10, "x", TaskState::DONE)]);
    assert_eq!(book.next_id(), 4294967295);
    assert_eq!(book.save_data(), text);
}

#[test]
fn saving_and_loading_gives_the_book_back() {
    let mut book = TaskBook::new();
    let contents = [
        "plain",
        "",
        "say \"hi\"",
        "back\\slash",
        "\\\"",
        "line\nbreak\ttab\r\u{0}\u{1f}\u{7f}",
        "caf\u{e9} \u{4efb}\u{52a1} \u{1f600}",
        "\\u0041 {\"tasks\":{}} ,\"state\":\"Done\"}",
    ];
    for content in contents {
        book.new_task(String::from(content)).unwrap();
    }
    book.set_task_state(vec![1, 3], TaskState::DONE);
    book.set_task_state(vec![2], TaskState::DEAD);
    let saved = book.save_data();
    let again = loaded(&saved).unwrap();
    assert_eq!(again.list(), book.list());
    assert_eq!(again.next_id(), book.next_id());
    assert_eq!(again.save_data(), saved);
    for (i, content) in contents.iter().enumerate() {
        assert_eq!(again.list()[i].content, *content);
    }
}

#[test]
fn control_characters_are_written_by_code() {
    let mut book = TaskBook::new();
    book.new_task(String::from("a\nb\u{1f}\"c\\")).unwrap();
    assert_eq!(
        book.save_data(),
        "{\"tasks\":{\"0\":{\"id\":0,\"content\":\"a\\u000ab\\u001f\\\"c\\\\\",\"state\":\"Doing\"}},\"nextId\":1}"
    );
}

#[test]
fn malformed_snapshots_are_refused() {
    let good = "{\"tasks\":{\"0\":{\"id\":0,\"content\":\"a\",\"state\":\"Done\"}},\"nextId\":1}";
    assert!(loaded(good).is_ok());
    refused("");
    refused("{}");
    refused("not a snapshot");
    refused("{\"tasks\":{},\"nextId\":0");
    refused("{\"tasks\":{},\"nextId\":0}}");
    refused("{\"tasks\":{},\"nextId\":0} ");
    refused(" {\"tasks\":{},\"nextId\":0}");
    refused("{\"tasks\": {},\"nextId\":0}");
    refused("{\"tasks\":{},\"nextId\":}");
    refused("{\"tasks\":{},\"nextId\":-1}");
    refused("{\"tasks\":{},\"nextId\":00}");
    refused("{\"tasks\":{},\"nextId\":01}");
    refused("{\"tasks\":{},\"nextId\":4294967296}");
    refused("{\"tasks\":{},\"nextId\":99999999999999999999999999}");
    refused("{\"nextId\":0,\"tasks\":{}}");
    refused(&good[..good.len() - 1]);
    refused(&good[1..]);
    refused(&good.replace("Done", "DONE"));
    refused(&good.replace("Done", "Sleeping"));
    refused(&good.replace("Done", ""));
    refused(&good.replace("\"0\":", "\"1\":"));
    refused(&good.replace("\"id\":0", "\"id\":1"));
    refused(&good.replace("\"id\":0", "\"id\":00"));
    refused(&good.replace("\"0\":", "0:"));
    refused(&good.replace("\"nextId\":1", "\"nextId\":0"));
    refused(&good.replace("\"a\"", "\"a\nb\""));
    refused(&good.replace("\"a\"", "\"a\\nb\""));
    refused(&good.replace("\"a\"", "\"a\\u0041b\""));
    refused(&good.replace("\"a\"", "\"a\\u000Ab\""));
    refused(&good.replace("\"a\"", "\"a\\u00\""));
    refused(&good.replace("\"a\"", "\"a\\\""));
    refused(&good.replace("\"a\"", "\"a\"b\""));
    refused(&good.replace("\"a\"", "a"));
    refused(&good.replace("}},", "},},"));
    refused(&good.replace("}},", "},"));
}

#[test]
fn ids_out_of_order_are_refused() {
    let a = "\"1\":{\"id\":1,\"content\":\"a\",\"state\":\"Done\"}";
    let b = "\"2\":{\"id\":2,\"content\":\"b\",\"state\":\"Done\"}";
    assert!(loaded(&format!("{{\"tasks\":{{{},{}}},\"nextId\":3}}", a, b)).is_ok());
    refused(&format!("{{\"tasks\":{{{},{}}},\"nextId\":3}}", b, a));
    refused(&format!("{{\"tasks\":{{{},{}}},\"nextId\":3}}", a, a));
    refused(&format!("{{\"tasks\":{{{},{}}},\"nextId\":2}}", a, b));
    refused(&format!("{{\"tasks\":{{{}{}}},\"nextId\":3}}", a, b));
    refused(&format!("{{\"tasks\":{{{},{},}},\"nextId\":3}}", a, b));
    refused(&format!("{{\"tasks\":{{,{},{}}},\"nextId\":3}}", a, b));
}

#[test]
fn decimal_notation() {
    for (n, text) in [(0u32, "0"), (7, "7"), (10, "10"), (120, "120"), (4294967295, "4294967295")] {
        let mut out = vec!['#'];
        push_decimal(&mut out, n);
        assert_eq!(string_of(&out), format!("#{}", text));
        let chars = chars_of(&format!("ab{}c", text));
        assert_eq!(read_number(&chars, 2), Some((n, 2 + text.len())));
        let alone = chars_of(text);
        assert_eq!(read_number(&alone, 0), Some((n, text.len())));
    }
    assert_eq!(digit_char(0), '0');
    assert_eq!(digit_char(9), '9');
    assert_eq!(read_number(&chars_of(""), 0), None);
    assert_eq!(read_number(&chars_of("x1"), 0), None);
    assert_eq!(read_number(&chars_of("12"), 2), None);
    assert_eq!(read_number(&chars_of("007"), 0), None);
    assert_eq!(read_number(&chars_of("007"), 2), Some((7, 3)));
    assert_eq!(read_number(&chars_of("4294967296"), 0), None);
    assert_eq!(read_number(&chars_of("42949672950"), 0), None);
    assert_eq!(read_number(&chars_of("\u{661}"), 0), None);
}

#[test]
fn text_between_quotes() {
    let mut out = vec!['>'];
    push_escaped(&mut out, &chars_of("a\"b\\c\u{0}\u{1b}\u{20}\u{7f}\u{e9}"));
    assert_eq!(string_of(&out), ">a\\\"b\\\\c\\u0000\\u001b\u{20}\u{7f}\u{e9}");
    out.push('"');
    assert_eq!(
        read_text(&out, 1),
        Some((chars_of("a\"b\\c\u{0}\u{1b}\u{20}\u{7f}\u{e9}"), out.len() - 1))
    );
    assert_eq!(read_text(&chars_of("\""), 0), Some((Vec::new(), 0)));
    assert_eq!(read_text(&chars_of("abc"), 0), None);
    assert_eq!(read_text(&chars_of("abc\""), 4), None);
    assert_eq!(read_char(&chars_of("\\\""), 0), Some(('"', 2)));
    assert_eq!(read_char(&chars_of("\\\\"), 0), Some(('\\', 2)));
    assert_eq!(read_char(&chars_of("\\u001f"), 0), Some(('\u{1f}', 6)));
    assert_eq!(read_char(&chars_of("\\u0010"), 0), Some(('\u{10}', 6)));
    assert_eq!(read_char(&chars_of("\\u0020"), 0), None);
    assert_eq!(read_char(&chars_of("\\u001F"), 0), None);
    assert_eq!(read_char(&chars_of("\\u001"), 0), None);
    assert_eq!(read_char(&chars_of("\\n"), 0), None);
    assert_eq!(read_char(&chars_of("\\"), 0), None);
    assert_eq!(read_char(&chars_of("\""), 0), None);
    assert_eq!(read_char(&chars_of("\n"), 0), None);
    assert_eq!(read_char(&chars_of("x"), 0), Some(('x', 1)));
    assert_eq!(read_char(&chars_of("x"), 1), None);
}

#[test]
fn words_and_characters() {
    let text = chars_of("h\u{e9}llo world");
    assert_eq!(text.len(), 11);
    assert_eq!(string_of(&text), "h\u{e9}llo world");
    assert!(same_chars(&text, &chars_of("h\u{e9}llo world")));
    assert!(!same_chars(&text, &chars_of("h\u{e9}llo worle")));
    assert!(!same_chars(&text, &chars_of("h\u{e9}llo worl")));
    assert_eq!(skip_word(&text, 6, "world"), Some(11));
    assert_eq!(skip_word(&text, 6, "word"), None);
    assert_eq!(skip_word(&text, 7, "world"), None);
    assert_eq!(skip_word(&text, 11, ""), Some(11));
    let mut out = chars_of("ab");
    push_text(&mut out, "cd");
    assert_eq!(string_of(&out), "abcd");
}

#[test]
fn one_task_in_the_document() {
    let mut out = Vec::new();
    push_entry(&mut out, &task(12, "a\"b", TaskState::DEAD));
    let text = "\"12\":{\"id\":12,\"content\":\"a\\\"b\",\"state\":\"Dead\"}";
    assert_eq!(string_of(&out), text);
    assert_eq!(read_entry(&out, 0), Some((task(12, "a\"b", TaskState::DEAD), out.len())));
    assert_eq!(read_entry(&out, 1), None);
    assert_eq!(
        read_entries(&out, 0),
        Some((vec![task(12, "a\"b", TaskState::DEAD)], out.len()))
    );
    assert_eq!(read_entries(&chars_of("}"), 0), Some((Vec::new(), 0)));
    assert_eq!(read_entries(&chars_of(""), 0), Some((Vec::new(), 0)));
}

#[test]
fn tasks_and_next_id_that_make_a_book() {
    let a = task(1, "a", TaskState::DOING);
    let b = task(4, "b", TaskState::DONE);
    assert!(makes_book(&Vec::new(), 0));
    assert!(makes_book(&vec![a.clone(), b.clone()], 5));
    assert!(!makes_book(&vec![a.clone(), b.clone()], 4));
    assert!(!makes_book(&vec![b.clone(), a.clone()], 5));
    assert!(!makes_book(&vec![a.clone(), a.clone()], 5));
    let doc = write_document(&vec![a.clone(), b.clone()], 5);
    assert_eq!(read_book(&doc), Some((vec![a.clone(), b.clone()], 5)));
    let bad = write_document(&vec![b, a], 5);
    assert_eq!(read_book(&bad), None);
}
