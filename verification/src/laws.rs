//! What holds of every book, whatever is done with it.

use vstd::prelude::*;
use crate::book::{loads_as, models, BookModel, Step};
use crate::error::StoreError;
use crate::format::document;
use crate::reader::lemma_written_book_is_read;
use crate::state::TaskState;
use crate::task::{Task, TaskModel};

verus! {

/// Ids are given out in growing order and never twice. The task made in a
/// book gets the book's next id, which no task of the book has and which is
/// larger than the id of each; the book after it gives out the id after that
/// one.
pub proof fn lemma_new_id_is_fresh(book: BookModel, content: Seq<char>)
    requires
        book.wf(),
        book.next_id < u32::MAX,
    ensures
        book.created(content).wf(),
        book.created(content).next_id == book.next_id + 1,
        book.created(content).tasks.last() == TaskModel::fresh(book.next_id as u32, content),
        book.created(content).has(book.next_id as u32),
        !book.has(book.next_id as u32),
        forall|i: int| 0 <= i < book.tasks.len() ==> (#[trigger] book.tasks[i]).id < book.next_id,
        forall|i: int|
            0 <= i < book.tasks.len() ==> book.created(content).tasks[i] == book.tasks[i],
{
    let after = book.created(content);
    assert(after.tasks[after.tasks.len() - 1].id == book.next_id);
}

/// However many tasks are made one after the other, the k-th of them gets
/// the k-th id after the book's next id, and the tasks that were there stay as
/// they were. So the ids that are handed back grow by one each time, and the
/// book stays one whose ids are all different.
pub proof fn lemma_ids_are_given_in_order(book: BookModel, contents: Seq<Seq<char>>)
    requires
        book.wf(),
        book.next_id + contents.len() <= u32::MAX,
    ensures
        book.created_all(contents).wf(),
        book.created_all(contents).next_id == book.next_id + contents.len(),
        book.created_all(contents).tasks.len() == book.tasks.len() + contents.len(),
        forall|i: int|
            0 <= i < book.tasks.len() ==> book.created_all(contents).tasks[i] == book.tasks[i],
        forall|k: int|
            0 <= k < contents.len() ==> #[trigger] book.created_all(contents).tasks[book.tasks.len()
                + k] == TaskModel::fresh((book.next_id + k) as u32, contents[k]),
    decreases contents.len(),
{
    if contents.len() > 0 {
        let before = book.created_all(contents.drop_last());
        lemma_ids_are_given_in_order(book, contents.drop_last());
        lemma_new_id_is_fresh(before, contents.last());
        let after = book.created_all(contents);
        assert forall|k: int| 0 <= k < contents.len() implies #[trigger] after.tasks[book.tasks.len()
            + k] == TaskModel::fresh((book.next_id + k) as u32, contents[k]) by {
            if k < contents.len() - 1 {
                assert(after.tasks[book.tasks.len() + k] == before.tasks[book.tasks.len() + k]);
                assert(contents.drop_last()[k] == contents[k]);
            }
        }
    }
}

/// Setting a state touches the state of the named tasks and nothing else:
/// the book keeps its tasks, their order, ids and texts, and its next id.
pub proof fn lemma_with_state_keeps_the_rest(book: BookModel, ids: Seq<u32>, state: TaskState)
    requires
        book.wf(),
    ensures
        book.with_state(ids, state).wf(),
        book.with_state(ids, state).next_id == book.next_id,
        book.with_state(ids, state).tasks.len() == book.tasks.len(),
        forall|i: int|
            0 <= i < book.tasks.len() ==> {
                let after = #[trigger] book.with_state(ids, state).tasks[i];
                &&& after.id == book.tasks[i].id
                &&& after.content == book.tasks[i].content
                &&& after.state == if ids.contains(book.tasks[i].id) {
                    state
                } else {
                    book.tasks[i].state
                }
            },
        forall|id: u32| book.with_state(ids, state).has(id) == book.has(id),
{
    let after = book.with_state(ids, state);
    assert forall|id: u32| after.has(id) == book.has(id) by {
        if book.has(id) {
            let i = choose|i: int| 0 <= i < book.tasks.len() && (#[trigger] book.tasks[i]).id == id;
            assert(after.tasks[i].id == id);
        }
        if after.has(id) {
            let i = choose|i: int|
                0 <= i < after.tasks.len() && (#[trigger] after.tasks[i]).id == id;
            assert(book.tasks[i].id == id);
        }
    }
}

/// No change of state is forbidden: whatever state was set first, the state
/// set last for the same ids is the one that the tasks are left in.
pub proof fn lemma_last_state_wins(
    book: BookModel,
    ids: Seq<u32>,
    first: TaskState,
    second: TaskState,
)
    ensures
        book.with_state(ids, first).with_state(ids, second) == book.with_state(ids, second),
{
    assert(book.with_state(ids, first).with_state(ids, second).tasks =~= book.with_state(
        ids,
        second,
    ).tasks);
}

/// An id that no task has may stand among the ids: the tasks named by the
/// other ids are served as if it were not there.
pub proof fn lemma_unknown_id_is_passed_over(
    book: BookModel,
    ids: Seq<u32>,
    at: int,
    unknown: u32,
    state: TaskState,
)
    requires
        !book.has(unknown),
        0 <= at <= ids.len(),
    ensures
        book.with_state(ids.insert(at, unknown), state) == book.with_state(ids, state),
{
    let more = ids.insert(at, unknown);
    assert forall|i: int| 0 <= i < book.tasks.len() implies more.contains(
        #[trigger] book.tasks[i].id,
    ) == ids.contains(book.tasks[i].id) by {
        let id = book.tasks[i].id;
        if ids.contains(id) {
            let k = choose|k: int| 0 <= k < ids.len() && ids[k] == id;
            if k < at {
                assert(more[k] == id);
            } else {
                assert(more[k + 1] == id);
            }
        }
        if more.contains(id) {
            let k = choose|k: int| 0 <= k < more.len() && more[k] == id;
            if k < at {
                assert(ids[k] == id);
            } else {
                assert(k != at);
                assert(ids[k - 1] == id);
            }
        }
    }
    assert(book.with_state(more, state).tasks =~= book.with_state(ids, state).tasks);
}

/// Listing changes nothing and depends on the book alone: two listings of
/// one book hold the same tasks in the same order.
pub proof fn lemma_listing_repeats(book: BookModel, first: Seq<Task>, second: Seq<Task>)
    requires
        models(first) == book.tasks,
        models(second) == book.tasks,
    ensures
        models(first) == models(second),
        first.len() == second.len(),
        forall|i: int| 0 <= i < first.len() ==> (#[trigger] first[i])@ == second[i]@,
{
    assert(models(first).len() == first.len());
    assert(models(second).len() == second.len());
    assert forall|i: int| 0 <= i < first.len() implies (#[trigger] first[i])@ == second[i]@ by {
        assert(models(first)[i] == first[i]@);
        assert(models(second)[i] == second[i]@);
    }
}

/// Two books with the same snapshot are the same book.
pub proof fn lemma_snapshot_tells_the_book(first: BookModel, second: BookModel)
    requires
        first.wf(),
        second.wf(),
        document(first) == document(second),
    ensures
        first == second,
{
    lemma_written_book_is_read(first);
    lemma_written_book_is_read(second);
}

/// Saving a book and loading what was saved gives the book back: the same
/// tasks in the same order, and the same next id. So the next task made after
/// a restart gets the id that it would have got without one.
pub proof fn lemma_saved_book_is_loaded(
    saved: BookModel,
    before: BookModel,
    r: Result<(), StoreError>,
    after: BookModel,
)
    requires
        saved.wf(),
        loads_as(document(saved), before, r, after),
    ensures
        r is Ok,
        after == saved,
        after.next_id == saved.next_id,
        after.tasks == saved.tasks,
{
    if r is Ok {
        lemma_snapshot_tells_the_book(after, saved);
    }
}

/// A text that is the snapshot of no well-formed book is refused as
/// malformed, and loading it changes nothing.
pub proof fn lemma_malformed_text_is_refused(
    text: Seq<char>,
    before: BookModel,
    r: Result<(), StoreError>,
    after: BookModel,
)
    requires
        forall|book: BookModel| book.wf() ==> document(book) != text,
        loads_as(text, before, r, after),
    ensures
        r == Err::<(), StoreError>(StoreError::Malformed),
        after == before,
{
}

/// Taking a task out touches nothing else: the other tasks stay as they
/// were and in their order, and the next id stays, so that the id of the task
/// that is gone is not given out again.
pub proof fn lemma_without_keeps_the_rest(book: BookModel, id: u32)
    requires
        book.wf(),
    ensures
        book.without(id).wf(),
        book.without(id).next_id == book.next_id,
        !book.without(id).has(id),
        forall|other: u32| other != id ==> book.without(id).has(other) == book.has(other),
{
    let after = book.without(id);
    if book.has(id) {
        let at = book.position(id);
        assert forall|j: int| 0 <= j < after.tasks.len() implies #[trigger] after.tasks[j]
            == book.tasks[if j < at {
            j
        } else {
            j + 1
        }] by {}
        assert(after.wf()) by {
            assert forall|a: int, b: int| 0 <= a < b < after.tasks.len() implies (
            #[trigger] after.tasks[a]).id < (#[trigger] after.tasks[b]).id by {
                let a0 = if a < at { a } else { a + 1 };
                let b0 = if b < at { b } else { b + 1 };
                assert(book.tasks[a0].id < book.tasks[b0].id);
            }
            assert forall|j: int| 0 <= j < after.tasks.len() implies (#[trigger] after.tasks[j]).id
                < after.next_id by {
                let j0 = if j < at { j } else { j + 1 };
                assert(book.tasks[j0].id < book.next_id);
            }
        }
        if after.has(id) {
            let j = choose|j: int| 0 <= j < after.tasks.len() && (#[trigger] after.tasks[j]).id == id;
            let j0 = if j < at { j } else { j + 1 };
            assert(book.tasks[j0].id == id);
            if j0 < at {
                assert(book.tasks[j0].id < book.tasks[at].id);
            } else {
                assert(book.tasks[at].id < book.tasks[j0].id);
            }
        }
        assert forall|other: u32| other != id implies after.has(other) == book.has(other) by {
            if book.has(other) {
                let i = choose|i: int| 0 <= i < book.tasks.len() && (#[trigger] book.tasks[i]).id == other;
                if i < at {
                    assert(after.tasks[i].id == other);
                } else {
                    assert(after.tasks[i - 1].id == other);
                }
            }
            if after.has(other) {
                let j = choose|j: int|
                    0 <= j < after.tasks.len() && (#[trigger] after.tasks[j]).id == other;
                let j0 = if j < at { j } else { j + 1 };
                assert(book.tasks[j0].id == other);
            }
        }
    }
}

/// Whatever is done with a book, it stays well formed and its next id never
/// falls: it grows by one with each task that is made and stays otherwise.
pub proof fn lemma_next_id_never_falls(book: BookModel, steps: Seq<Step>)
    requires
        book.wf(),
    ensures
        book.after_all(steps).wf(),
        book.after_all(steps).next_id >= book.next_id,
    decreases steps.len(),
{
    if steps.len() > 0 {
        let before = book.after_all(steps.drop_last());
        lemma_next_id_never_falls(book, steps.drop_last());
        match steps.last() {
            Step::Create(content) => {
                if before.next_id < u32::MAX {
                    lemma_new_id_is_fresh(before, content);
                }
            },
            Step::SetState(ids, state) => {
                lemma_with_state_keeps_the_rest(before, ids, state);
            },
            Step::Delete(id) => {
                lemma_without_keeps_the_rest(before, id);
            },
        }
    }
}

/// No id is given out twice, whatever happens between two makings. If a task
/// was made under the id `a`, then after any run of further makings, changes
/// of state and removals the next id is larger than `a`, and no task of the
/// book has it: a task that is made then gets a larger id than `a`, also where
/// the task with the id `a` is gone by then.
pub proof fn lemma_ids_grow_over_any_run(
    book: BookModel,
    first: Seq<char>,
    steps: Seq<Step>,
    second: Seq<char>,
)
    requires
        book.wf(),
        book.next_id < u32::MAX,
    ensures
        ({
            let a = book.next_id;
            let later = book.created(first).after_all(steps);
            &&& later.wf()
            &&& a < later.next_id
            &&& !later.has(later.next_id as u32)
            &&& later.next_id < u32::MAX ==> {
                &&& later.created(second).tasks.last().id == later.next_id
                &&& later.created(second).wf()
            }
        }),
{
    lemma_new_id_is_fresh(book, first);
    let later = book.created(first).after_all(steps);
    lemma_next_id_never_falls(book.created(first), steps);
    if later.has(later.next_id as u32) {
        let i = choose|i: int|
            0 <= i < later.tasks.len() && (#[trigger] later.tasks[i]).id == later.next_id as u32;
        assert(later.tasks[i].id < later.next_id);
    }
    if later.next_id < u32::MAX {
        lemma_new_id_is_fresh(later, second);
    }
}

} // verus!
