//! The book: all tasks of one user, each under its id, and the id that the
//! next task will get.

use std::collections::HashMap;
use vstd::prelude::*;
use vstd::std_specs::hash::group_hash_axioms;
use crate::error::StoreError;
use crate::format::{document, write_document};
use crate::reader::{lemma_read_book_was_written, lemma_written_book_is_read, read_book};
use crate::state::TaskState;
use crate::task::{Task, TaskModel};
use crate::text::{chars_of, string_of};

verus! {

broadcast use group_hash_axioms;

/// What a book is to the contracts: its tasks by id, and the next id to give
/// out.
pub ghost struct BookModel {
    pub tasks: Seq<TaskModel>,
    pub next_id: nat,
}

/// Whether the ids grow along the tasks, so that no two tasks share one.
pub open spec fn ascending(tasks: Seq<TaskModel>) -> bool {
    forall|i: int, j: int|
        0 <= i < j < tasks.len() ==> (#[trigger] tasks[i]).id < (#[trigger] tasks[j]).id
}

impl BookModel {
    /// The ids grow along the book and stay below the next id, which is
    /// itself an id or one past the last.
    pub open spec fn wf(self) -> bool {
        &&& self.next_id <= u32::MAX
        &&& forall|i: int|
            0 <= i < self.tasks.len() ==> (#[trigger] self.tasks[i]).id < self.next_id
        &&& ascending(self.tasks)
    }

    /// The book without tasks, which gives out id 0 first.
    pub open spec fn empty() -> BookModel {
        BookModel { tasks: Seq::empty(), next_id: 0 }
    }

    /// Whether a task of the book has this id.
    pub open spec fn has(self, id: u32) -> bool {
        exists|i: int| 0 <= i < self.tasks.len() && (#[trigger] self.tasks[i]).id == id
    }

    /// Where the task with this id stands, in a book that has one.
    pub open spec fn position(self, id: u32) -> int {
        choose|i: int| 0 <= i < self.tasks.len() && (#[trigger] self.tasks[i]).id == id
    }

    /// The book after a task with this text was made in it.
    pub open spec fn created(self, content: Seq<char>) -> BookModel {
        BookModel {
            tasks: self.tasks.push(TaskModel::fresh(self.next_id as u32, content)),
            next_id: self.next_id + 1,
        }
    }

    /// The book after one task was made for each of `contents`, in order.
    pub open spec fn created_all(self, contents: Seq<Seq<char>>) -> BookModel
        decreases contents.len(),
    {
        if contents.len() == 0 {
            self
        } else {
            self.created_all(contents.drop_last()).created(contents.last())
        }
    }

    /// The book after every task whose id is among `ids` was put in `state`.
    /// An id that no task has changes nothing.
    pub open spec fn with_state(self, ids: Seq<u32>, state: TaskState) -> BookModel {
        BookModel {
            tasks: Seq::new(
                self.tasks.len(),
                |i: int|
                    if ids.contains(self.tasks[i].id) {
                        self.tasks[i].in_state(state)
                    } else {
                        self.tasks[i]
                    },
            ),
            next_id: self.next_id,
        }
    }

    /// The book after the task with this id was taken out. The next id stays:
    /// an id that was given out once is not given out again.
    pub open spec fn without(self, id: u32) -> BookModel {
        if self.has(id) {
            BookModel { tasks: self.tasks.remove(self.position(id)), next_id: self.next_id }
        } else {
            self
        }
    }
}

/// One change that a book's operations make to it. Looking a task up,
/// listing and saving change nothing.
pub ghost enum Step {
    /// A task with this text is to be made.
    Create(Seq<char>),
    /// The tasks with these ids are put in this state.
    SetState(Seq<u32>, TaskState),
    /// The task with this id is taken out.
    Delete(u32),
}

impl BookModel {
    /// The book after one change. A task is made only while an id is left.
    pub open spec fn after(self, step: Step) -> BookModel {
        match step {
            Step::Create(content) => if self.next_id < u32::MAX {
                self.created(content)
            } else {
                self
            },
            Step::SetState(ids, state) => self.with_state(ids, state),
            Step::Delete(id) => self.without(id),
        }
    }

    /// The book after a run of changes, one after the other.
    pub open spec fn after_all(self, steps: Seq<Step>) -> BookModel
        decreases steps.len(),
    {
        if steps.len() == 0 {
            self
        } else {
            self.after_all(steps.drop_last()).after(steps.last())
        }
    }
}

/// What loading a text does to a book. Either the text is the snapshot of a
/// well-formed book, and that book is taken over; or it is the snapshot of
/// none, the text is refused as malformed, and the book stays as it was.
pub open spec fn loads_as(
    text: Seq<char>,
    before: BookModel,
    r: Result<(), StoreError>,
    after: BookModel,
) -> bool {
    match r {
        Ok(_) => after.wf() && document(after) == text,
        Err(e) => {
            &&& e == StoreError::Malformed
            &&& after == before
            &&& forall|book: BookModel| book.wf() ==> document(book) != text
        },
    }
}

/// The models of a run of tasks.
pub open spec fn models(tasks: Seq<Task>) -> Seq<TaskModel> {
    Seq::new(tasks.len(), |i: int| tasks[i]@)
}

/// The tasks that a map holds under the ids below `n`, by id.
pub open spec fn tasks_below(tasks: Map<u32, Task>, n: nat) -> Seq<TaskModel>
    decreases n,
{
    if n == 0 {
        Seq::empty()
    } else if tasks.contains_key((n - 1) as u32) {
        tasks_below(tasks, (n - 1) as nat).push(tasks[(n - 1) as u32]@)
    } else {
        tasks_below(tasks, (n - 1) as nat)
    }
}

/// Whether every task of the map stands under its own id, and that id is
/// below `n`.
pub open spec fn keyed(tasks: Map<u32, Task>, n: nat) -> bool {
    forall|id: u32| #[trigger] tasks.contains_key(id) ==> id < n && tasks[id].id == id
}

/// Whether `listed` holds, by id, exactly the tasks that the map holds under
/// the ids below `n`.
pub open spec fn lists(tasks: Map<u32, Task>, n: nat, listed: Seq<TaskModel>) -> bool {
    &&& ascending(listed)
    &&& forall|i: int|
        0 <= i < listed.len() ==> {
            let task = #[trigger] listed[i];
            task.id < n && tasks.contains_key(task.id) && tasks[task.id]@ == task
        }
    &&& forall|id: u32|
        id < n && #[trigger] tasks.contains_key(id) ==> exists|i: int|
            0 <= i < listed.len() && (#[trigger] listed[i]).id == id
}

/// The tasks below `n` are listed by id, each once.
pub proof fn lemma_tasks_below_lists(tasks: Map<u32, Task>, n: nat)
    requires
        n <= u32::MAX + 1,
        forall|id: u32| #[trigger] tasks.contains_key(id) ==> tasks[id].id == id,
    ensures
        lists(tasks, n, tasks_below(tasks, n)),
    decreases n,
{
    if n > 0 {
        let below = tasks_below(tasks, (n - 1) as nat);
        let listed = tasks_below(tasks, n);
        let last = (n - 1) as u32;
        lemma_tasks_below_lists(tasks, (n - 1) as nat);
        if tasks.contains_key(last) {
            assert forall|id: u32| id < n && #[trigger] tasks.contains_key(id) implies exists|
                i: int,
            | 0 <= i < listed.len() && (#[trigger] listed[i]).id == id by {
                if id == last {
                    assert(listed[listed.len() - 1].id == id);
                } else {
                    let i = choose|i: int| 0 <= i < below.len() && (#[trigger] below[i]).id == id;
                    assert(listed[i].id == id);
                }
            }
            assert(ascending(listed)) by {
                assert forall|i: int, j: int| 0 <= i < j < listed.len() implies (
                #[trigger] listed[i]).id < (#[trigger] listed[j]).id by {
                    if j < below.len() {
                        assert(below[i].id < below[j].id);
                    } else {
                        assert(below[i].id < n - 1);
                    }
                }
            }
        } else {
            assert forall|id: u32| id < n && #[trigger] tasks.contains_key(id) implies exists|
                i: int,
            | 0 <= i < listed.len() && (#[trigger] listed[i]).id == id by {
                let i = choose|i: int| 0 <= i < below.len() && (#[trigger] below[i]).id == id;
                assert(listed[i].id == id);
            }
        }
    }
}

/// Only one run of tasks lists a map by id: the tasks below `n`.
pub proof fn lemma_lists_is_tasks_below(tasks: Map<u32, Task>, n: nat, listed: Seq<TaskModel>)
    requires
        n <= u32::MAX + 1,
        lists(tasks, n, listed),
    ensures
        listed == tasks_below(tasks, n),
    decreases n,
{
    if n == 0 {
        if listed.len() > 0 {
            assert(listed[0].id < n);
        }
        assert(listed =~= Seq::empty());
    } else {
        let last = (n - 1) as u32;
        if tasks.contains_key(last) {
            let at = choose|i: int| 0 <= i < listed.len() && (#[trigger] listed[i]).id == last;
            if at < listed.len() - 1 {
                assert(listed[at].id < listed[listed.len() - 1].id);
                assert(listed[listed.len() - 1].id < n);
            }
            let init = listed.drop_last();
            assert(lists(tasks, (n - 1) as nat, init)) by {
                assert forall|i: int| 0 <= i < init.len() implies {
                    let task = #[trigger] init[i];
                    task.id < n - 1 && tasks.contains_key(task.id) && tasks[task.id]@ == task
                } by {
                    assert(init[i] == listed[i]);
                    assert(listed[i].id < listed[at].id);
                }
                assert forall|id: u32| id < n - 1 && #[trigger] tasks.contains_key(id) implies exists|
                    i: int,
                | 0 <= i < init.len() && (#[trigger] init[i]).id == id by {
                    let i = choose|i: int| 0 <= i < listed.len() && (#[trigger] listed[i]).id == id;
                    assert(init[i].id == id);
                }
                assert forall|i: int, j: int| 0 <= i < j < init.len() implies (#[trigger] init[i]).id
                    < (#[trigger] init[j]).id by {
                    assert(listed[i].id < listed[j].id);
                }
            }
            lemma_lists_is_tasks_below(tasks, (n - 1) as nat, init);
            assert(listed =~= init.push(tasks[last]@));
        } else {
            assert(lists(tasks, (n - 1) as nat, listed)) by {
                assert forall|i: int| 0 <= i < listed.len() implies {
                    let task = #[trigger] listed[i];
                    task.id < n - 1 && tasks.contains_key(task.id) && tasks[task.id]@ == task
                } by {
                    assert(tasks.contains_key(listed[i].id));
                }
            }
            lemma_lists_is_tasks_below(tasks, (n - 1) as nat, listed);
        }
    }
}

/// The tasks that were beside a listed task list the map without it.
proof fn lemma_rest_lists(tasks: Map<u32, Task>, n: nat, listed: Seq<TaskModel>, at: int)
    requires
        lists(tasks, n, listed),
        0 <= at < listed.len(),
    ensures
        lists(tasks.remove(listed[at].id), n, listed.remove(at)),
{
    let id = listed[at].id;
    let rest = tasks.remove(id);
    let now = listed.remove(at);
    assert forall|j: int| 0 <= j < now.len() implies #[trigger] now[j] == listed[if j < at {
        j
    } else {
        j + 1
    }] by {}
    assert forall|j: int| 0 <= j < now.len() implies {
        let task = #[trigger] now[j];
        task.id < n && rest.contains_key(task.id) && rest[task.id]@ == task
    } by {
        if j < at {
            assert(listed[j].id < listed[at].id);
        } else {
            assert(listed[at].id < listed[j + 1].id);
        }
    }
    assert forall|k: u32| k < n && #[trigger] rest.contains_key(k) implies exists|j: int|
        0 <= j < now.len() && (#[trigger] now[j]).id == k by {
        assert(tasks.contains_key(k));
        let j = choose|j: int| 0 <= j < listed.len() && (#[trigger] listed[j]).id == k;
        if j < at {
            assert(now[j].id == k);
        } else {
            assert(now[j - 1].id == k);
        }
    }
    assert forall|a: int, b: int| 0 <= a < b < now.len() implies (#[trigger] now[a]).id < (
    #[trigger] now[b]).id by {
        let a0 = if a < at { a } else { a + 1 };
        let b0 = if b < at { b } else { b + 1 };
        assert(listed[a0].id < listed[b0].id);
    }
}

/// Taking the task under an id out of the map takes the task with that id
/// out of the book, and leaves each other task under its own id.
proof fn lemma_removed_task(tasks: Map<u32, Task>, n: nat, id: u32)
    requires
        n <= u32::MAX,
        keyed(tasks, n),
    ensures
        keyed(tasks.remove(id), n),
        (BookModel { tasks: tasks_below(tasks.remove(id), n), next_id: n }) == (BookModel {
            tasks: tasks_below(tasks, n),
            next_id: n,
        }).without(id),
        (BookModel { tasks: tasks_below(tasks.remove(id), n), next_id: n }).wf(),
{
    let was = tasks_below(tasks, n);
    let book = BookModel { tasks: was, next_id: n };
    lemma_tasks_below_lists(tasks, n);
    lemma_tasks_below_lists(tasks.remove(id), n);
    if tasks.contains_key(id) {
        assert(book.has(id));
        let at = book.position(id);
        lemma_rest_lists(tasks, n, was, at);
        lemma_lists_is_tasks_below(tasks.remove(id), n, was.remove(at));
    } else {
        if book.has(id) {
            let j = choose|j: int| 0 <= j < was.len() && (#[trigger] was[j]).id == id;
            assert(tasks.contains_key(was[j].id));
        }
        assert(tasks.remove(id) =~= tasks);
    }
}

/// All tasks of one user, each under its id, and the id that the next one
/// will get.
pub struct TaskBook {
    tasks: HashMap<u32, Task>,
    next_id: u32,
}

impl View for TaskBook {
    type V = BookModel;

    closed spec fn view(&self) -> BookModel {
        BookModel {
            tasks: tasks_below(self.tasks@, self.next_id as nat),
            next_id: self.next_id as nat,
        }
    }
}

/// Whether the numbers grow along the sequence.
pub open spec fn grows(ids: Seq<u32>) -> bool {
    forall|i: int, j: int| 0 <= i < j < ids.len() ==> ids[i] < ids[j]
}

/// Puts `id` in its place among ids that grow, unless it is there.
pub fn put_in_order(ids: &mut Vec<u32>, id: u32)
    requires
        grows(old(ids)@),
    ensures
        grows(final(ids)@),
        forall|x: u32| final(ids)@.contains(x) <==> old(ids)@.contains(x) || x == id,
{
    let mut at: usize = 0;
    while at < ids.len() && ids[at] < id
        invariant
            at <= ids.len(),
            ids@ == old(ids)@,
            forall|j: int| 0 <= j < at ==> ids@[j] < id,
        decreases ids.len() - at,
    {
        at += 1;
    }
    if at < ids.len() && ids[at] == id {
        assert(ids@.contains(id));
        return;
    }
    ids.insert(at, id);
    proof {
        let before = old(ids)@;
        let after = ids@;
        assert forall|x: u32| after.contains(x) <==> before.contains(x) || x == id by {
            if after.contains(x) {
                let j = choose|j: int| 0 <= j < after.len() && after[j] == x;
                if j < at {
                    assert(before[j] == x);
                } else if j > at {
                    assert(before[j - 1] == x);
                }
            }
            if before.contains(x) {
                let j = choose|j: int| 0 <= j < before.len() && before[j] == x;
                if j < at {
                    assert(after[j] == x);
                } else {
                    assert(after[j + 1] == x);
                }
            }
            if x == id {
                assert(after[at as int] == x);
            }
        }
        assert forall|i: int, j: int| 0 <= i < j < after.len() implies after[i] < after[j] by {
            if j > at && i <= at {
                assert(before[j - 1] >= before[at as int]);
            } else if i > at {
                assert(before[i - 1] < before[j - 1]);
            }
        }
    }
}

/// Whether the ids grow along the tasks.
pub fn ids_grow(tasks: &Vec<Task>) -> (ok: bool)
    ensures
        ok == ascending(models(tasks@)),
{
    if tasks.len() == 0 {
        return true;
    }
    let ghost all = models(tasks@);
    let mut i: usize = 1;
    while i < tasks.len()
        invariant
            1 <= i <= tasks.len(),
            all == models(tasks@),
            forall|a: int, b: int| 0 <= a < b < i ==> (#[trigger] all[a]).id < (#[trigger] all[b]).id,
        decreases tasks.len() - i,
    {
        assert(all[i - 1] == tasks@[i - 1]@);
        assert(all[i as int] == tasks@[i as int]@);
        if tasks[i - 1].id >= tasks[i].id {
            return false;
        }
        assert forall|a: int, b: int| 0 <= a < b < i + 1 implies (#[trigger] all[a]).id < (
        #[trigger] all[b]).id by {
            if b == i && a < i - 1 {
                assert(all[a].id < all[i - 1].id);
            }
        }
        i += 1;
    }
    true
}

impl TaskBook {
    /// What holds of every book that was made empty or loaded, and then
    /// changed by its own operations only: each task stands under its own id,
    /// and the ids are below the next id.
    pub closed spec fn wf(&self) -> bool {
        keyed(self.tasks@, self.next_id as nat)
    }

    /// The tasks of such a book are in the order of their ids, which stay
    /// below the next id.
    pub proof fn lemma_model_is_well_formed(&self)
        requires
            self.wf(),
        ensures
            self@.wf(),
    {
        lemma_tasks_below_lists(self.tasks@, self.next_id as nat);
    }

    /// An empty book.
    pub fn new() -> (book: TaskBook)
        ensures
            book.wf(),
            book@.wf(),
            book@ == BookModel::empty(),
    {
        let book = TaskBook { tasks: HashMap::new(), next_id: 0 };
        assert(book@.tasks =~= Seq::empty());
        book
    }

    /// Makes a task with this text, open, under the next id, and returns
    /// the id. Only a book that has given out every id refuses.
    pub fn new_task(&mut self, content: String) -> (r: Result<u32, StoreError>)
        requires
            old(self).wf(),
        ensures
            final(self).wf(),
            final(self)@.wf(),
            final(self)@ == old(self)@.after(Step::Create(content@)),
            match r {
                Ok(id) => {
                    &&& id == old(self)@.next_id
                    &&& id < u32::MAX
                    &&& final(self)@ == old(self)@.created(content@)
                },
                Err(e) => {
                    &&& e == StoreError::IdsExhausted
                    &&& old(self)@.next_id == u32::MAX
                    &&& final(self)@ == old(self)@
                },
            },
    {
        proof {
            lemma_tasks_below_lists(self.tasks@, self.next_id as nat);
        }
        if self.next_id == u32::MAX {
            return Err(StoreError::IdsExhausted);
        }
        let id = self.next_id;
        let task = Task::new(id, content);
        self.tasks.insert(id, task);
        self.next_id = id + 1;
        proof {
            let before = old(self)@.tasks;
            let after = before.push(task@);
            assert(lists(self.tasks@, self.next_id as nat, after)) by {
                assert forall|i: int| 0 <= i < after.len() implies {
                    let t = #[trigger] after[i];
                    t.id < self.next_id && self.tasks@.contains_key(t.id) && self.tasks@[t.id]@ == t
                } by {
                    if i < before.len() {
                        assert(after[i] == before[i]);
                    }
                }
                assert forall|k: u32|
                    k < self.next_id && #[trigger] self.tasks@.contains_key(k) implies exists|i: int|
                    0 <= i < after.len() && (#[trigger] after[i]).id == k by {
                    if k == id {
                        assert(after[after.len() - 1].id == k);
                    } else {
                        assert(old(self).tasks@.contains_key(k));
                        let i = choose|i: int|
                            0 <= i < before.len() && (#[trigger] before[i]).id == k;
                        assert(after[i].id == k);
                    }
                }
                assert forall|i: int, j: int| 0 <= i < j < after.len() implies (
                #[trigger] after[i]).id < (#[trigger] after[j]).id by {
                    assert(after[i] == before[i]);
                    if j < before.len() {
                        assert(after[j] == before[j]);
                    }
                }
            }
            lemma_lists_is_tasks_below(self.tasks@, self.next_id as nat, after);
            lemma_tasks_below_lists(self.tasks@, self.next_id as nat);
        }
        Ok(id)
    }

    /// The ids of the book's tasks, in growing order.
    fn ids(&self) -> (ids: Vec<u32>)
        ensures
            grows(ids@),
            forall|id: u32| ids@.contains(id) <==> self.tasks@.contains_key(id),
    {
        let mut ids: Vec<u32> = Vec::new();
        for id in walk: self.tasks.keys()
            invariant
                walk.seq().unref().to_set() == self.tasks@.dom(),
                grows(ids@),
                forall|x: u32| ids@.contains(x) ==> self.tasks@.contains_key(x),
                forall|j: int|
                    0 <= j < walk.index() ==> ids@.contains(#[trigger] walk.seq().unref()[j]),
                forall|k: u32| self.tasks@.contains_key(k) ==> walk.seq().unref().contains(k),
        {
            assert(walk.seq().unref()[walk.index() as int] == *id);
            assert(walk.seq().unref().to_set().contains(*id));
            put_in_order(&mut ids, *id);
        }
        ids
    }

    /// All tasks, in the order of their ids, which is the order in which
    /// they were made.
    pub fn list(&self) -> (all: Vec<Task>)
        requires
            self.wf(),
        ensures
            models(all@) == self@.tasks,
    {
        let ids = self.ids();
        let mut all: Vec<Task> = Vec::new();
        let mut i: usize = 0;
        while i < ids.len()
            invariant
                i <= ids.len(),
                all.len() == i,
                forall|id: u32| ids@.contains(id) <==> self.tasks@.contains_key(id),
                forall|j: int| 0 <= j < i ==> (#[trigger] all@[j])@ == self.tasks@[ids@[j]]@,
            decreases ids.len() - i,
        {
            assert(ids@.contains(ids@[i as int]));
            match self.tasks.get(&ids[i]) {
                Some(task) => {
                    all.push(task.clone());
                },
                None => {
                    assert(false);
                },
            }
            i += 1;
        }
        proof {
            let listed = models(all@);
            assert(lists(self.tasks@, self.next_id as nat, listed)) by {
                assert forall|j: int| 0 <= j < listed.len() implies {
                    let task = #[trigger] listed[j];
                    task.id < self.next_id && self.tasks@.contains_key(task.id)
                        && self.tasks@[task.id]@ == task
                } by {
                    assert(ids@.contains(ids@[j]));
                    assert(listed[j] == all@[j]@);
                }
                assert forall|id: u32|
                    id < self.next_id && #[trigger] self.tasks@.contains_key(id) implies exists|
                    j: int,
                | 0 <= j < listed.len() && (#[trigger] listed[j]).id == id by {
                    assert(ids@.contains(id));
                    let j = choose|j: int| 0 <= j < ids@.len() && ids@[j] == id;
                    assert(listed[j] == all@[j]@);
                }
                assert forall|a: int, b: int| 0 <= a < b < listed.len() implies (
                #[trigger] listed[a]).id < (#[trigger] listed[b]).id by {
                    assert(ids@.contains(ids@[a]));
                    assert(ids@.contains(ids@[b]));
                    assert(listed[a] == all@[a]@);
                    assert(listed[b] == all@[b]@);
                }
            }
            lemma_lists_is_tasks_below(self.tasks@, self.next_id as nat, listed);
        }
        all
    }

    /// The task with this id, if the book has one. It has at most one, since
    /// its ids grow along the tasks.
    pub fn find_task(&self, id: u32) -> (found: Option<Task>)
        requires
            self.wf(),
        ensures
            match found {
                Some(task) => task.id == id && self@.tasks.contains(task@),
                None => !self@.has(id),
            },
    {
        proof {
            lemma_tasks_below_lists(self.tasks@, self.next_id as nat);
        }
        let ghost listed = self@.tasks;
        match self.tasks.get(&id) {
            Some(task) => {
                let found = task.clone();
                proof {
                    assert(self.tasks@.contains_key(id));
                    let i = choose|i: int| 0 <= i < listed.len() && (#[trigger] listed[i]).id == id;
                    assert(listed[i] == found@);
                }
                Some(found)
            },
            None => {
                proof {
                    if self@.has(id) {
                        let i = choose|i: int|
                            0 <= i < listed.len() && (#[trigger] listed[i]).id == id;
                        assert(self.tasks@.contains_key(listed[i].id));
                    }
                }
                None
            },
        }
    }

    /// Puts every task whose id is among `ids` in `state`, whatever state it
    /// was in. An id that no task has is passed over: the others are still
    /// served, and nothing is reported.
    pub fn set_task_state(&mut self, ids: Vec<u32>, state: TaskState)
        requires
            old(self).wf(),
        ensures
            final(self).wf(),
            final(self)@.wf(),
            final(self)@ == old(self)@.with_state(ids@, state),
    {
        let ghost start = self.tasks@;
        let mut i: usize = 0;
        while i < ids.len()
            invariant
                i <= ids.len(),
                self.next_id == old(self).next_id,
                start == old(self).tasks@,
                forall|k: u32| self.tasks@.contains_key(k) <==> start.contains_key(k),
                forall|k: u32|
                    start.contains_key(k) ==> (#[trigger] self.tasks@[k])@ == if ids@.take(
                        i as int,
                    ).contains(k) {
                        start[k]@.in_state(state)
                    } else {
                        start[k]@
                    },
            decreases ids.len() - i,
        {
            let id = ids[i];
            let ghost before = self.tasks@;
            let ghost done = ids@.take(i as int);
            proof {
                assert(ids@.take(i + 1) =~= done.push(id));
                assert forall|k: u32| ids@.take(i + 1).contains(k) <==> done.contains(k) || k
                    == id by {
                    if done.contains(k) {
                        let j = choose|j: int| 0 <= j < done.len() && done[j] == k;
                        assert(done.push(id)[j] == k);
                    }
                    if k == id {
                        assert(done.push(id)[done.len() as int] == k);
                    }
                }
            }
            match self.tasks.remove(&id) {
                Some(task) => {
                    let mut task = task;
                    task.set_state(state);
                    self.tasks.insert(id, task);
                    assert(before.contains_key(id));
                },
                None => {
                    assert(!before.contains_key(id));
                    assert(self.tasks@ =~= before);
                },
            }
            i += 1;
        }
        proof {
            assert(ids@.take(ids.len() as int) =~= ids@);
            let n = self.next_id as nat;
            lemma_tasks_below_lists(start, n);
            let was = old(self)@.tasks;
            let now = old(self)@.with_state(ids@, state).tasks;
            assert(lists(self.tasks@, n, now)) by {
                assert forall|j: int| 0 <= j < now.len() implies {
                    let task = #[trigger] now[j];
                    task.id < n && self.tasks@.contains_key(task.id) && self.tasks@[task.id]@ == task
                } by {
                    assert(start.contains_key(was[j].id));
                    assert(start[was[j].id]@ == was[j]);
                }
                assert forall|k: u32| k < n && #[trigger] self.tasks@.contains_key(k) implies exists|
                    j: int,
                | 0 <= j < now.len() && (#[trigger] now[j]).id == k by {
                    assert(start.contains_key(k));
                    let j = choose|j: int| 0 <= j < was.len() && (#[trigger] was[j]).id == k;
                    assert(now[j].id == k);
                }
                assert forall|a: int, b: int| 0 <= a < b < now.len() implies (#[trigger] now[a]).id
                    < (#[trigger] now[b]).id by {
                    assert(was[a].id < was[b].id);
                }
            }
            lemma_lists_is_tasks_below(self.tasks@, n, now);
            assert(keyed(self.tasks@, n)) by {
                assert forall|k: u32| #[trigger] self.tasks@.contains_key(k) implies k < n
                    && self.tasks@[k].id == k by {
                    assert(start.contains_key(k));
                    assert(self.tasks@[k]@.id == start[k]@.id);
                }
            }
            lemma_tasks_below_lists(self.tasks@, n);
        }
    }

    /// Takes the task with this id out of the book, if there is one, and
    /// returns the id. The next id stays as it is. In memory nothing can fail.
    pub fn del_task(&mut self, id: u32) -> (r: Result<u32, String>)
        requires
            old(self).wf(),
        ensures
            final(self).wf(),
            final(self)@.wf(),
            r == Ok::<u32, String>(id),
            final(self)@ == old(self)@.without(id),
    {
        proof {
            lemma_removed_task(self.tasks@, self.next_id as nat, id);
        }
        self.tasks.remove(&id);
        Ok(id)
    }

    /// The book of these tasks and this next id.
    fn of_tasks(found: &Vec<Task>, next_id: u32) -> (book: TaskBook)
        requires
            (BookModel { tasks: models(found@), next_id: next_id as nat }).wf(),
        ensures
            book.wf(),
            book@ == (BookModel { tasks: models(found@), next_id: next_id as nat }),
    {
        let ghost listed = models(found@);
        let ghost n = next_id as nat;
        let mut tasks: HashMap<u32, Task> = HashMap::new();
        let mut i: usize = 0;
        while i < found.len()
            invariant
                i <= found.len(),
                listed == models(found@),
                (BookModel { tasks: listed, next_id: n }).wf(),
                forall|k: u32| #[trigger]
                    tasks@.contains_key(k) ==> exists|j: int|
                        0 <= j < i && (#[trigger] listed[j]).id == k,
                forall|j: int|
                    0 <= j < i ==> tasks@.contains_key((#[trigger] listed[j]).id)
                        && tasks@[listed[j].id]@ == listed[j],
            decreases found.len() - i,
        {
            let ghost before = tasks@;
            assert(listed[i as int] == found@[i as int]@);
            tasks.insert(found[i].id, found[i].clone());
            proof {
                assert forall|j: int| 0 <= j < i + 1 implies tasks@.contains_key(
                    (#[trigger] listed[j]).id,
                ) && tasks@[listed[j].id]@ == listed[j] by {
                    if j < i {
                        assert(listed[j].id < listed[i as int].id);
                        assert(before.contains_key(listed[j].id));
                    }
                }
                assert forall|k: u32| #[trigger] tasks@.contains_key(k) implies exists|
                    j: int,
                | 0 <= j < i + 1 && (#[trigger] listed[j]).id == k by {
                    if k == listed[i as int].id {
                        assert(listed[i as int].id == k);
                    } else {
                        assert(before.contains_key(k));
                        let j = choose|j: int|
                            0 <= j < i && (#[trigger] listed[j]).id == k;
                        assert(listed[j].id == k);
                    }
                }
            }
            i += 1;
        }
        proof {
            assert(lists(tasks@, n, listed)) by {
                assert forall|k: u32| k < n && #[trigger] tasks@.contains_key(k) implies exists|
                    j: int,
                | 0 <= j < listed.len() && (#[trigger] listed[j]).id == k by {
                    let j = choose|j: int| 0 <= j < i && (#[trigger] listed[j]).id == k;
                    assert(listed[j].id == k);
                }
            }
            lemma_lists_is_tasks_below(tasks@, n, listed);
            assert(keyed(tasks@, n)) by {
                assert forall|k: u32| #[trigger] tasks@.contains_key(k) implies k < n
                    && tasks@[k].id == k by {
                    let j = choose|j: int| 0 <= j < i && (#[trigger] listed[j]).id == k;
                    assert(tasks@[listed[j].id]@ == listed[j]);
                }
            }
        }
        TaskBook { tasks, next_id }
    }

    /// The snapshot of the book: the document that holds all of it.
    pub fn save_data(&self) -> (text: String)
        requires
            self.wf(),
        ensures
            text@ == document(self@),
    {
        string_of(&write_document(&self.list(), self.next_id))
    }

    /// Takes over the book that a snapshot holds. A text that is the
    /// snapshot of no book is refused, and the book is left as it was: no
    /// part of such a text is taken over.
    pub fn load_data(&mut self, text: &str) -> (r: Result<(), StoreError>)
        ensures
            r is Ok ==> final(self).wf(),
            r is Err ==> *final(self) == *old(self),
            loads_as(text@, old(self)@, r, final(self)@),
    {
        let chars = chars_of(text);
        match read_book(&chars) {
            Some((found, next_id)) => {
                proof {
                    lemma_read_book_was_written(chars@);
                }
                *self = TaskBook::of_tasks(&found, next_id);
                Ok(())
            },
            None => {
                assert forall|book: BookModel| book.wf() implies document(book) != text@ by {
                    if document(book) == text@ {
                        lemma_written_book_is_read(book);
                    }
                }
                Err(StoreError::Malformed)
            },
        }
    }

    /// Whether each task stands under its own id and the ids are below the
    /// next id, as it is in every book that was made empty or loaded, and then
    /// changed by its own operations only.
    pub fn well_formed(&self) -> (ok: bool)
        ensures
            ok == self.wf(),
    {
        for id in walk: self.tasks.keys()
            invariant
                walk.seq().unref().to_set() == self.tasks@.dom(),
                forall|k: u32| self.tasks@.contains_key(k) ==> walk.seq().unref().contains(k),
                forall|j: int|
                    0 <= j < walk.index() ==> {
                        let k = #[trigger] walk.seq().unref()[j];
                        k < self.next_id && self.tasks@[k].id == k
                    },
        {
            assert(walk.seq().unref()[walk.index() as int] == *id);
            assert(walk.seq().unref().to_set().contains(*id));
            match self.tasks.get(id) {
                Some(task) => {
                    if task.id != *id || *id >= self.next_id {
                        return false;
                    }
                },
                None => {
                    assert(false);
                },
            }
        }
        true
    }

    /// The id that the next task will get.
    pub fn next_id(&self) -> (id: u32)
        ensures
            id == self@.next_id,
    {
        self.next_id
    }
}

} // verus!
