//! Reading a snapshot back: what a text stands for, position by position,
//! and the functions that compute it.

use vstd::prelude::*;
use crate::book::{ids_grow, models, BookModel};
use crate::escape::{
    escaped, lemma_plain_text_is_kept, lemma_read_text_was_written, lemma_written_text_is_read,
    read_text, text_at,
};
use crate::format::{
    document, entries, entry, more_entries, CLOSING, COMMA, CONTENT, END, ID, KEY, MIDDLE, OPENING,
    STATE,
};
use crate::number::{
    decimal, lemma_read_number_was_written, lemma_written_number_is_read, number_at, read_number,
};
use crate::state::{lemma_state_name_round_trip, TaskState};
use crate::task::{Task, TaskModel};
use crate::text::{
    lemma_char_stands, lemma_part_stands, lemma_starts_at_first, lemma_starts_at_joined,
    lemma_whole_text, skip_word, starts_at, string_of,
};

verus! {

/// The position behind `word`, if it stands at `pos`.
pub open spec fn word_at(text: Seq<char>, pos: int, word: Seq<char>) -> Option<int> {
    if starts_at(text, pos, word) {
        Some(pos + word.len())
    } else {
        None
    }
}

/// The task written at `pos`, with the position behind it. The key and the
/// id must be the same number.
pub open spec fn entry_at(text: Seq<char>, pos: int) -> Option<(TaskModel, int)> {
    match word_at(text, pos, KEY@) {
        None => None,
        Some(at_key) => match number_at(text, at_key) {
            None => None,
            Some((key, key_end)) => match word_at(text, key_end, ID@) {
                None => None,
                Some(at_id) => match number_at(text, at_id) {
                    None => None,
                    Some((id, id_end)) => match word_at(text, id_end, CONTENT@) {
                        None => None,
                        Some(at_content) => match text_at(text, at_content) {
                            None => None,
                            Some((content, content_end)) => match word_at(
                                text,
                                content_end,
                                STATE@,
                            ) {
                                None => None,
                                Some(at_state) => match text_at(text, at_state) {
                                    None => None,
                                    Some((name, name_end)) => match word_at(text, name_end, END@) {
                                        None => None,
                                        Some(end) => match TaskState::named(name) {
                                            None => None,
                                            Some(state) => if key == id {
                                                Some((TaskModel { id, content, state }, end))
                                            } else {
                                                None
                                            },
                                        },
                                    },
                                },
                            },
                        },
                    },
                },
            },
        },
    }
}

/// The tasks written from `pos` on, each behind a comma, with the position
/// behind the last. Where no comma stands there are none. (A written task
/// takes up at least one position and ends within the text; the test for
/// it is there to show that the reading ends.)
pub open spec fn more_entries_at(text: Seq<char>, pos: int) -> Option<(Seq<TaskModel>, int)>
    decreases text.len() - pos,
{
    if 0 <= pos < text.len() && text[pos] == ',' {
        match entry_at(text, pos + 1) {
            None => None,
            Some((task, next)) => if next <= pos || next > text.len() {
                None
            } else {
                match more_entries_at(text, next) {
                    None => None,
                    Some((rest, end)) => Some((seq![task] + rest, end)),
                }
            },
        }
    } else {
        Some((Seq::empty(), pos))
    }
}

/// The tasks written from `pos` on, with the position behind the last.
/// Where no task begins there are none.
pub open spec fn entries_at(text: Seq<char>, pos: int) -> Option<(Seq<TaskModel>, int)> {
    if 0 <= pos < text.len() && text[pos] == '"' {
        match entry_at(text, pos) {
            None => None,
            Some((task, next)) => match more_entries_at(text, next) {
                None => None,
                Some((rest, end)) => Some((seq![task] + rest, end)),
            },
        }
    } else {
        Some((Seq::empty(), pos))
    }
}

/// The book that a text stands for, if it is a snapshot: the whole text is
/// read, and the tasks and the next id must make a book.
pub open spec fn book_of(text: Seq<char>) -> Option<BookModel> {
    match word_at(text, 0, OPENING@) {
        None => None,
        Some(at_tasks) => match entries_at(text, at_tasks) {
            None => None,
            Some((tasks, tasks_end)) => match word_at(text, tasks_end, MIDDLE@) {
                None => None,
                Some(at_next) => match number_at(text, at_next) {
                    None => None,
                    Some((next_id, next_end)) => match word_at(text, next_end, CLOSING@) {
                        None => None,
                        Some(end) => {
                            let book = BookModel { tasks, next_id: next_id as nat };
                            if end == text.len() && book.wf() {
                                Some(book)
                            } else {
                                None
                            }
                        },
                    },
                },
            },
        },
    }
}

/// The characters that the parts of a document begin with.
proof fn lemma_marks()
    ensures
        OPENING@.len() == 10,
        KEY@ == seq!['"'],
        COMMA@ == seq![','],
        CLOSING@ == seq!['}'],
        ID@.len() == 8 && ID@[0] == '"',
        CONTENT@.len() == 12 && CONTENT@[0] == ',',
        STATE@.len() == 11 && STATE@[0] == '"',
        END@.len() == 2 && END@[0] == '"',
        MIDDLE@.len() == 11 && MIDDLE@[0] == '}',
{
    reveal_strlit("{\"tasks\":{");
    reveal_strlit("},\"nextId\":");
    reveal_strlit("}");
    reveal_strlit("\"");
    reveal_strlit("\":{\"id\":");
    reveal_strlit(",\"content\":\"");
    reveal_strlit("\",\"state\":\"");
    reveal_strlit("\"}");
    reveal_strlit(",");
    assert(KEY@ =~= seq!['"']);
    assert(COMMA@ =~= seq![',']);
    assert(CLOSING@ =~= seq!['}']);
}

/// The name of a state is written between quotes as it is.
proof fn lemma_state_name_is_plain(state: TaskState)
    ensures
        escaped(state.name()) == state.name(),
{
    reveal_strlit("Done");
    reveal_strlit("Doing");
    reveal_strlit("Dead");
    lemma_plain_text_is_kept(state.name());
}

/// A written task is read back as the task it was written for.
pub proof fn lemma_written_entry_is_read(text: Seq<char>, pos: int, task: TaskModel)
    requires
        starts_at(text, pos, entry(task)),
    ensures
        entry_at(text, pos) == Some((task, pos + entry(task).len())),
{
    lemma_marks();
    let number = decimal(task.id as nat);
    let content = escaped(task.content);
    let name = task.state.name();
    let w1 = KEY@ + number;
    let w2 = w1 + ID@;
    let w3 = w2 + number;
    let w4 = w3 + CONTENT@;
    let w5 = w4 + content;
    let w6 = w5 + STATE@;
    let w7 = w6 + name;
    lemma_starts_at_joined(text, pos, w7, END@);
    lemma_starts_at_joined(text, pos, w6, name);
    lemma_starts_at_joined(text, pos, w5, STATE@);
    lemma_starts_at_joined(text, pos, w4, content);
    lemma_starts_at_joined(text, pos, w3, CONTENT@);
    lemma_starts_at_joined(text, pos, w2, number);
    lemma_starts_at_joined(text, pos, w1, ID@);
    lemma_starts_at_joined(text, pos, KEY@, number);
    let at_key = pos + 1;
    let key_end = at_key + number.len();
    let at_id = key_end + ID@.len();
    let id_end = at_id + number.len();
    let at_content = id_end + CONTENT@.len();
    let content_end = at_content + content.len();
    let at_state = content_end + STATE@.len();
    let name_end = at_state + name.len();
    lemma_starts_at_first(text, key_end, ID@);
    lemma_written_number_is_read(text, at_key, task.id);
    lemma_starts_at_first(text, id_end, CONTENT@);
    lemma_written_number_is_read(text, at_id, task.id);
    lemma_starts_at_first(text, content_end, STATE@);
    lemma_char_stands(text, content_end);
    lemma_starts_at_joined(text, at_content, content, seq!['"']);
    assert(content + seq!['"'] =~= content.push('"'));
    lemma_written_text_is_read(text, at_content, task.content);
    lemma_starts_at_first(text, name_end, END@);
    lemma_char_stands(text, name_end);
    lemma_state_name_is_plain(task.state);
    lemma_starts_at_joined(text, at_state, name, seq!['"']);
    assert(name + seq!['"'] =~= escaped(name).push('"'));
    lemma_written_text_is_read(text, at_state, name);
    lemma_state_name_round_trip(task.state, name);
}

/// What is read as a task was written for that task.
pub proof fn lemma_read_entry_was_written(text: Seq<char>, pos: int)
    requires
        entry_at(text, pos) is Some,
    ensures
        ({
            let (task, next) = entry_at(text, pos)->0;
            &&& pos < next <= text.len()
            &&& starts_at(text, pos, entry(task))
            &&& next == pos + entry(task).len()
        }),
{
    lemma_marks();
    let (task, next) = entry_at(text, pos)->0;
    let at_key = word_at(text, pos, KEY@)->0;
    let (key, key_end) = number_at(text, at_key)->0;
    let at_id = word_at(text, key_end, ID@)->0;
    let (id, id_end) = number_at(text, at_id)->0;
    let at_content = word_at(text, id_end, CONTENT@)->0;
    let (content, content_end) = text_at(text, at_content)->0;
    let at_state = word_at(text, content_end, STATE@)->0;
    let (name, name_end) = text_at(text, at_state)->0;
    lemma_starts_at_first(text, pos, KEY@);
    lemma_read_number_was_written(text, at_key);
    lemma_starts_at_first(text, key_end, ID@);
    lemma_read_number_was_written(text, at_id);
    lemma_read_text_was_written(text, at_content);
    lemma_read_text_was_written(text, at_state);
    lemma_state_name_round_trip(task.state, name);
    lemma_state_name_is_plain(task.state);
    let number = decimal(task.id as nat);
    let w1 = KEY@ + number;
    let w2 = w1 + ID@;
    let w3 = w2 + number;
    let w4 = w3 + CONTENT@;
    let w5 = w4 + escaped(content);
    let w6 = w5 + STATE@;
    let w7 = w6 + name;
    lemma_starts_at_joined(text, pos, KEY@, number);
    lemma_starts_at_joined(text, pos, w1, ID@);
    lemma_starts_at_joined(text, pos, w2, number);
    lemma_starts_at_joined(text, pos, w3, CONTENT@);
    lemma_starts_at_joined(text, pos, w4, escaped(content));
    lemma_starts_at_joined(text, pos, w5, STATE@);
    lemma_starts_at_joined(text, pos, w6, name);
    lemma_starts_at_joined(text, pos, w7, END@);
    lemma_starts_at_first(text, name_end, END@);
}

/// Written tasks, each behind its comma and followed by no further comma,
/// are read back as the tasks they were written for.
pub proof fn lemma_written_more_entries_are_read(
    text: Seq<char>,
    pos: int,
    tasks: Seq<TaskModel>,
)
    requires
        starts_at(text, pos, more_entries(tasks)),
        pos + more_entries(tasks).len() == text.len() || text[pos + more_entries(tasks).len()]
            != ',',
    ensures
        more_entries_at(text, pos) == Some((tasks, pos + more_entries(tasks).len())),
    decreases tasks.len(),
{
    lemma_marks();
    if tasks.len() == 0 {
        assert(tasks =~= Seq::empty());
    } else {
        let first = COMMA@ + entry(tasks[0]);
        let rest = tasks.drop_first();
        lemma_starts_at_joined(text, pos, first, more_entries(rest));
        lemma_starts_at_joined(text, pos, COMMA@, entry(tasks[0]));
        lemma_starts_at_first(text, pos, first);
        lemma_starts_at_first(text, pos, COMMA@);
        lemma_written_entry_is_read(text, pos + 1, tasks[0]);
        lemma_written_more_entries_are_read(text, pos + first.len(), rest);
        assert(seq![tasks[0]] + rest =~= tasks);
    }
}

/// What is read as tasks behind commas was written for those tasks, and no
/// comma follows.
pub proof fn lemma_read_more_entries_were_written(text: Seq<char>, pos: int)
    requires
        0 <= pos <= text.len(),
        more_entries_at(text, pos) is Some,
    ensures
        ({
            let (tasks, end) = more_entries_at(text, pos)->0;
            &&& pos <= end <= text.len()
            &&& starts_at(text, pos, more_entries(tasks))
            &&& end == pos + more_entries(tasks).len()
            &&& end == text.len() || text[end] != ','
        }),
    decreases text.len() - pos,
{
    lemma_marks();
    let (tasks, end) = more_entries_at(text, pos)->0;
    if pos < text.len() && text[pos] == ',' {
        let (task, next) = entry_at(text, pos + 1)->0;
        let (rest, _) = more_entries_at(text, next)->0;
        lemma_read_entry_was_written(text, pos + 1);
        lemma_read_more_entries_were_written(text, next);
        assert(tasks.drop_first() =~= rest);
        lemma_char_stands(text, pos);
        lemma_starts_at_joined(text, pos, COMMA@, entry(task));
        lemma_starts_at_joined(text, pos, COMMA@ + entry(task), more_entries(rest));
    } else {
        lemma_part_stands(text, pos, pos);
        assert(text.subrange(pos, pos) =~= more_entries(tasks));
    }
}

/// Written tasks, followed by neither a comma nor a quote, are read back as
/// the tasks they were written for.
pub proof fn lemma_written_entries_are_read(text: Seq<char>, pos: int, tasks: Seq<TaskModel>)
    requires
        starts_at(text, pos, entries(tasks)),
        pos + entries(tasks).len() == text.len() || (text[pos + entries(tasks).len()] != ','
            && text[pos + entries(tasks).len()] != '"'),
    ensures
        entries_at(text, pos) == Some((tasks, pos + entries(tasks).len())),
{
    lemma_marks();
    if tasks.len() == 0 {
        assert(tasks =~= Seq::empty());
    } else {
        let rest = tasks.drop_first();
        lemma_starts_at_joined(text, pos, entry(tasks[0]), more_entries(rest));
        lemma_starts_at_joined(text, pos, KEY@, entry(tasks[0]).subrange(
            1,
            entry(tasks[0]).len() as int,
        ));
        assert(entry(tasks[0]) =~= KEY@ + entry(tasks[0]).subrange(
            1,
            entry(tasks[0]).len() as int,
        ));
        lemma_starts_at_first(text, pos, KEY@);
        lemma_written_entry_is_read(text, pos, tasks[0]);
        lemma_written_more_entries_are_read(text, pos + entry(tasks[0]).len(), rest);
        assert(seq![tasks[0]] + rest =~= tasks);
    }
}

/// What is read as tasks was written for those tasks, and no comma follows.
pub proof fn lemma_read_entries_were_written(text: Seq<char>, pos: int)
    requires
        0 <= pos <= text.len(),
        entries_at(text, pos) is Some,
    ensures
        ({
            let (tasks, end) = entries_at(text, pos)->0;
            &&& pos <= end <= text.len()
            &&& starts_at(text, pos, entries(tasks))
            &&& end == pos + entries(tasks).len()
        }),
{
    let (tasks, end) = entries_at(text, pos)->0;
    if pos < text.len() && text[pos] == '"' {
        let (task, next) = entry_at(text, pos)->0;
        let (rest, _) = more_entries_at(text, next)->0;
        lemma_read_entry_was_written(text, pos);
        lemma_read_more_entries_were_written(text, next);
        assert(tasks.drop_first() =~= rest);
        lemma_starts_at_joined(text, pos, entry(task), more_entries(rest));
    } else {
        lemma_part_stands(text, pos, pos);
        assert(text.subrange(pos, pos) =~= entries(tasks));
    }
}

/// A text stands for a book only if it is the document of that book, and
/// the book is then well formed.
pub proof fn lemma_read_book_was_written(text: Seq<char>)
    requires
        book_of(text) is Some,
    ensures
        book_of(text)->0.wf(),
        document(book_of(text)->0) == text,
{
    lemma_marks();
    let book = book_of(text)->0;
    let at_tasks = word_at(text, 0, OPENING@)->0;
    let (tasks, tasks_end) = entries_at(text, at_tasks)->0;
    lemma_starts_at_first(text, 0, OPENING@);
    lemma_read_entries_were_written(text, at_tasks);
    let at_next = word_at(text, tasks_end, MIDDLE@)->0;
    let (next_id, next_end) = number_at(text, at_next)->0;
    lemma_starts_at_first(text, tasks_end, MIDDLE@);
    lemma_read_number_was_written(text, at_next);
    let w1 = OPENING@ + entries(tasks);
    let w2 = w1 + MIDDLE@;
    let w3 = w2 + decimal(next_id as nat);
    lemma_starts_at_joined(text, 0, OPENING@, entries(tasks));
    lemma_starts_at_joined(text, 0, w1, MIDDLE@);
    lemma_starts_at_joined(text, 0, w2, decimal(next_id as nat));
    lemma_starts_at_joined(text, 0, w3, CLOSING@);
    lemma_whole_text(text, w3 + CLOSING@);
}

/// The document of a well-formed book stands for that book.
pub proof fn lemma_written_book_is_read(book: BookModel)
    requires
        book.wf(),
    ensures
        book_of(document(book)) == Some(book),
{
    lemma_marks();
    let text = document(book);
    let next_id = book.next_id as u32;
    let w1 = OPENING@ + entries(book.tasks);
    let w2 = w1 + MIDDLE@;
    let w3 = w2 + decimal(book.next_id);
    lemma_whole_text(text, text);
    lemma_starts_at_joined(text, 0, w3, CLOSING@);
    lemma_starts_at_joined(text, 0, w2, decimal(book.next_id));
    lemma_starts_at_joined(text, 0, w1, MIDDLE@);
    lemma_starts_at_joined(text, 0, OPENING@, entries(book.tasks));
    let at_tasks = OPENING@.len() as int;
    let tasks_end = at_tasks + entries(book.tasks).len();
    let at_next = tasks_end + MIDDLE@.len();
    let next_end = at_next + decimal(book.next_id).len();
    lemma_starts_at_first(text, tasks_end, MIDDLE@);
    lemma_written_entries_are_read(text, at_tasks, book.tasks);
    lemma_starts_at_first(text, next_end, CLOSING@);
    lemma_written_number_is_read(text, at_next, next_id);
}

/// Reads the task written at `pos`.
pub fn read_entry(text: &Vec<char>, pos: usize) -> (r: Option<(Task, usize)>)
    requires
        pos <= text.len(),
    ensures
        match r {
            Some((task, next)) => entry_at(text@, pos as int) == Some((task@, next as int)) && pos
                < next <= text.len(),
            None => entry_at(text@, pos as int) is None,
        },
{
    let at_key = match skip_word(text, pos, KEY) {
        None => {
            return None;
        },
        Some(at) => at,
    };
    let (key, key_end) = match read_number(text, at_key) {
        None => {
            return None;
        },
        Some(found) => found,
    };
    let at_id = match skip_word(text, key_end, ID) {
        None => {
            return None;
        },
        Some(at) => at,
    };
    let (id, id_end) = match read_number(text, at_id) {
        None => {
            return None;
        },
        Some(found) => found,
    };
    let at_content = match skip_word(text, id_end, CONTENT) {
        None => {
            return None;
        },
        Some(at) => at,
    };
    let (content, content_end) = match read_text(text, at_content) {
        None => {
            return None;
        },
        Some(found) => found,
    };
    let at_state = match skip_word(text, content_end, STATE) {
        None => {
            return None;
        },
        Some(at) => at,
    };
    let (name, name_end) = match read_text(text, at_state) {
        None => {
            return None;
        },
        Some(found) => found,
    };
    let end = match skip_word(text, name_end, END) {
        None => {
            return None;
        },
        Some(at) => at,
    };
    let state = match TaskState::from_chars(&name) {
        Err(_) => {
            return None;
        },
        Ok(state) => state,
    };
    if key != id {
        return None;
    }
    Some((Task { id, content: string_of(&content), state }, end))
}

/// Reads the tasks written from `pos` on.
pub fn read_entries(text: &Vec<char>, pos: usize) -> (r: Option<(Vec<Task>, usize)>)
    requires
        pos <= text.len(),
    ensures
        match r {
            Some((tasks, end)) => entries_at(text@, pos as int) == Some(
                (models(tasks@), end as int),
            ) && pos <= end <= text.len(),
            None => entries_at(text@, pos as int) is None,
        },
{
    let mut tasks: Vec<Task> = Vec::new();
    if pos >= text.len() || text[pos] != '"' {
        assert(models(tasks@) =~= Seq::empty());
        return Some((tasks, pos));
    }
    let mut i: usize = match read_entry(text, pos) {
        None => {
            return None;
        },
        Some((task, next)) => {
            tasks.push(task);
            assert(models(tasks@) =~= seq![task@]);
            next
        },
    };
    loop
        invariant
            pos <= i <= text.len(),
            entries_at(text@, pos as int) == match more_entries_at(text@, i as int) {
                None => None::<(Seq<TaskModel>, int)>,
                Some((rest, end)) => Some((models(tasks@) + rest, end)),
            },
        decreases text.len() - i,
    {
        if i >= text.len() || text[i] != ',' {
            assert(models(tasks@) + Seq::<TaskModel>::empty() =~= models(tasks@));
            return Some((tasks, i));
        }
        match read_entry(text, i + 1) {
            None => {
                return None;
            },
            Some((task, next)) => {
                proof {
                    let ghost before = models(tasks@);
                    assert forall|rest: Seq<TaskModel>| before + (seq![task@] + rest)
                        == #[trigger] (before.push(task@) + rest) by {
                        assert(before + (seq![task@] + rest) =~= before.push(task@) + rest);
                    }
                    assert(models(tasks@.push(task)) =~= before.push(task@));
                }
                tasks.push(task);
                i = next;
            },
        }
    }
}

/// Whether these tasks and this next id make a book: the ids grow along the
/// tasks and stay below the next id.
pub fn makes_book(tasks: &Vec<Task>, next_id: u32) -> (ok: bool)
    ensures
        ok == (BookModel { tasks: models(tasks@), next_id: next_id as nat }).wf(),
{
    let ghost book = BookModel { tasks: models(tasks@), next_id: next_id as nat };
    let mut i: usize = 0;
    while i < tasks.len()
        invariant
            i <= tasks.len(),
            book == (BookModel { tasks: models(tasks@), next_id: next_id as nat }),
            forall|j: int| 0 <= j < i ==> (#[trigger] book.tasks[j]).id < next_id,
        decreases tasks.len() - i,
    {
        assert(book.tasks[i as int] == tasks@[i as int]@);
        if tasks[i].id >= next_id {
            return false;
        }
        i += 1;
    }
    ids_grow(tasks)
}

/// Reads the book that a text stands for.
pub fn read_book(text: &Vec<char>) -> (r: Option<(Vec<Task>, u32)>)
    ensures
        match r {
            Some((tasks, next_id)) => book_of(text@) == Some(
                BookModel { tasks: models(tasks@), next_id: next_id as nat },
            ),
            None => book_of(text@) is None,
        },
{
    let at_tasks = match skip_word(text, 0, OPENING) {
        None => {
            return None;
        },
        Some(at) => at,
    };
    let (tasks, tasks_end) = match read_entries(text, at_tasks) {
        None => {
            return None;
        },
        Some(found) => found,
    };
    let at_next = match skip_word(text, tasks_end, MIDDLE) {
        None => {
            return None;
        },
        Some(at) => at,
    };
    let (next_id, next_end) = match read_number(text, at_next) {
        None => {
            return None;
        },
        Some(found) => found,
    };
    let end = match skip_word(text, next_end, CLOSING) {
        None => {
            return None;
        },
        Some(at) => at,
    };
    if end != text.len() || !makes_book(&tasks, next_id) {
        return None;
    }
    Some((tasks, next_id))
}

} // verus!
