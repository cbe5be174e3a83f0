//! A single task: an id, a text and a state.

use vstd::prelude::*;
use crate::state::TaskState;

verus! {

/// One to-do item. The id and the text are given when the task is made; only
/// the state changes afterwards.
#[derive(Debug, PartialEq, Eq)]
pub struct Task {
    pub id: u32,
    pub content: String,
    pub state: TaskState,
}

/// What a task is to the contracts: its id, the characters of its text and
/// its state.
pub ghost struct TaskModel {
    pub id: u32,
    pub content: Seq<char>,
    pub state: TaskState,
}

impl View for Task {
    type V = TaskModel;

    open spec fn view(&self) -> TaskModel {
        TaskModel { id: self.id, content: self.content@, state: self.state }
    }
}

impl TaskModel {
    /// A task as it is when it is made: open.
    pub open spec fn fresh(id: u32, content: Seq<char>) -> TaskModel {
        TaskModel { id, content, state: TaskState::DOING }
    }

    /// The same task in another state.
    pub open spec fn in_state(self, state: TaskState) -> TaskModel {
        TaskModel { id: self.id, content: self.content, state }
    }
}

impl Task {
    /// A new task with the given id and text. It starts open.
    pub fn new(id: u32, content: String) -> (task: Task)
        ensures
            task@ == TaskModel::fresh(id, content@),
    {
        Task { id, content, state: TaskState::DOING }
    }

    /// Puts the task in `state`, whatever state it was in.
    pub fn set_state(&mut self, state: TaskState)
        ensures
            final(self)@ == old(self)@.in_state(state),
    {
        self.state = state;
    }
}

impl Clone for Task {
    fn clone(&self) -> (copy: Task)
        ensures
            copy@ == self@,
    {
        Task { id: self.id, content: self.content.clone(), state: self.state }
    }
}

/// Any state can follow any state: the last one set is the one that stays.
pub proof fn lemma_last_state_stays(task: TaskModel, first: TaskState, second: TaskState)
    ensures
        task.in_state(first).in_state(second) == task.in_state(second),
        task.in_state(second).state == second,
        task.in_state(second).id == task.id,
        task.in_state(second).content == task.content,
{
}

} // verus!
