//! The snapshot: the one document that holds a whole book between runs.
//!
//! It is a JSON object without any white space. Under `tasks` stands an
//! object with one member for each task, in the order of the book, whose key
//! is the task's id and whose value holds the id, the text and the state;
//! under `nextId` stands the id that the next task will get:
//!
//! `{"tasks":{"0":{"id":0,"content":"buy milk","state":"Done"}},"nextId":1}`
//!
//! A book has exactly one document, and only that text is read back as the
//! book: the same JSON value written in another way (with white space, with
//! the members in another order, with other escapes) is refused.

use vstd::prelude::*;
use crate::book::{models, BookModel};
use crate::escape::{escaped, push_escaped};
use crate::number::{decimal, push_decimal};
use crate::task::{Task, TaskModel};
use crate::text::{chars_of, push_text};

verus! {

/// What opens the document, up to the first task.
pub const OPENING: &'static str = "{\"tasks\":{";

/// What stands between the last task and the next id.
pub const MIDDLE: &'static str = "},\"nextId\":";

/// What closes the document.
pub const CLOSING: &'static str = "}";

/// What opens a task: the quote before its key.
pub const KEY: &'static str = "\"";

/// What stands between the key of a task and its id.
pub const ID: &'static str = "\":{\"id\":";

/// What stands between the id of a task and its text.
pub const CONTENT: &'static str = ",\"content\":\"";

/// What stands between the text of a task and the name of its state.
pub const STATE: &'static str = "\",\"state\":\"";

/// What closes a task.
pub const END: &'static str = "\"}";

/// What separates two tasks.
pub const COMMA: &'static str = ",";

/// One task as it stands in the document.
pub open spec fn entry(task: TaskModel) -> Seq<char> {
    KEY@ + decimal(task.id as nat) + ID@ + decimal(task.id as nat) + CONTENT@ + escaped(
        task.content,
    ) + STATE@ + task.state.name() + END@
}

/// The tasks that follow the first one, each behind a comma.
pub open spec fn more_entries(tasks: Seq<TaskModel>) -> Seq<char>
    decreases tasks.len(),
{
    if tasks.len() == 0 {
        Seq::empty()
    } else {
        COMMA@ + entry(tasks[0]) + more_entries(tasks.drop_first())
    }
}

/// The tasks as they stand in the document, parted by commas.
pub open spec fn entries(tasks: Seq<TaskModel>) -> Seq<char> {
    if tasks.len() == 0 {
        Seq::empty()
    } else {
        entry(tasks[0]) + more_entries(tasks.drop_first())
    }
}

/// The document that holds the book.
pub open spec fn document(book: BookModel) -> Seq<char> {
    OPENING@ + entries(book.tasks) + MIDDLE@ + decimal(book.next_id) + CLOSING@
}

/// One more task is written behind the others, after a comma.
pub proof fn lemma_more_entries_push(tasks: Seq<TaskModel>, task: TaskModel)
    ensures
        more_entries(tasks.push(task)) == more_entries(tasks) + COMMA@ + entry(task),
    decreases tasks.len(),
{
    if tasks.len() == 0 {
        assert(tasks.push(task).drop_first() =~= Seq::empty());
        assert(more_entries(Seq::<TaskModel>::empty()) =~= Seq::empty());
        assert(more_entries(tasks.push(task)) =~= more_entries(tasks) + COMMA@ + entry(task));
    } else {
        assert(tasks.push(task).drop_first() =~= tasks.drop_first().push(task));
        lemma_more_entries_push(tasks.drop_first(), task);
        assert(more_entries(tasks.push(task)) =~= more_entries(tasks) + COMMA@ + entry(task));
    }
}

/// One more task is written behind the others: after a comma if it is not
/// the first.
pub proof fn lemma_entries_push(tasks: Seq<TaskModel>, task: TaskModel)
    ensures
        entries(tasks.push(task)) == if tasks.len() == 0 {
            entry(task)
        } else {
            entries(tasks) + COMMA@ + entry(task)
        },
{
    if tasks.len() == 0 {
        assert(tasks.push(task).drop_first() =~= Seq::empty());
        assert(more_entries(Seq::<TaskModel>::empty()) =~= Seq::empty());
        assert(entries(tasks.push(task)) =~= entry(task));
    } else {
        assert(tasks.push(task).drop_first() =~= tasks.drop_first().push(task));
        lemma_more_entries_push(tasks.drop_first(), task);
        assert(entries(tasks.push(task)) =~= entries(tasks) + COMMA@ + entry(task));
    }
}

/// Adds one task, as it stands in the document, at the end of `out`.
pub fn push_entry(out: &mut Vec<char>, task: &Task)
    ensures
        final(out)@ == old(out)@ + entry(task@),
{
    push_text(out, KEY);
    push_decimal(out, task.id);
    push_text(out, ID);
    push_decimal(out, task.id);
    push_text(out, CONTENT);
    push_escaped(out, &chars_of(task.content.as_str()));
    push_text(out, STATE);
    push_text(out, task.state.to_string().as_str());
    push_text(out, END);
    assert(out@ =~= old(out)@ + entry(task@));
}

/// The document that holds these tasks and this next id.
pub fn write_document(tasks: &Vec<Task>, next_id: u32) -> (out: Vec<char>)
    ensures
        out@ == document(BookModel { tasks: models(tasks@), next_id: next_id as nat }),
{
    let mut out: Vec<char> = Vec::new();
    push_text(&mut out, OPENING);
    let mut i: usize = 0;
    assert(models(tasks@).take(0) =~= Seq::empty());
    while i < tasks.len()
        invariant
            i <= tasks.len(),
            out@ == OPENING@ + entries(models(tasks@).take(i as int)),
        decreases tasks.len() - i,
    {
        proof {
            assert(models(tasks@).take(i + 1) =~= models(tasks@).take(i as int).push(tasks@[i as int]@));
            lemma_entries_push(models(tasks@).take(i as int), tasks@[i as int]@);
        }
        if i > 0 {
            push_text(&mut out, COMMA);
        }
        push_entry(&mut out, &tasks[i]);
        i += 1;
    }
    assert(models(tasks@).take(tasks.len() as int) =~= models(tasks@));
    push_text(&mut out, MIDDLE);
    push_decimal(&mut out, next_id);
    push_text(&mut out, CLOSING);
    out
}

} // verus!
