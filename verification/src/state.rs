//! The lifecycle state of a task and the name under which it is stored.

use rusqlite::types::Type;
use vstd::prelude::*;
use crate::text::{chars_of, same_chars};

verus! {

/// Where a task stands: completed, open or abandoned.
#[allow(non_camel_case_types)]
#[derive(Clone, Copy, Debug, PartialEq, Eq, Structural)]
pub enum TaskState {
    DONE,
    DOING,
    DEAD,
}

/// A stored text that is the name of no state.
#[derive(Clone, Copy, Debug, PartialEq, Eq, Structural)]
pub struct UnknownTaskStateError;

/// Why a stored column is no state.
#[derive(Clone, Copy, Debug, PartialEq, Eq, Structural)]
pub enum ColumnError {
    /// The column holds something else than a text.
    InvalidType,
    /// The column holds a text that is the name of no state.
    Unknown(UnknownTaskStateError),
}

impl UnknownTaskStateError {
    /// The message that goes with the error.
    pub fn to_string(&self) -> (message: String)
        ensures
            message@ == "unknown task state"@,
    {
        "unknown task state".to_owned()
    }
}

impl TaskState {
    /// The name under which both stores keep the state.
    pub open spec fn name(self) -> Seq<char> {
        match self {
            TaskState::DONE => "Done"@,
            TaskState::DOING => "Doing"@,
            TaskState::DEAD => "Dead"@,
        }
    }

    /// The state that a stored text names, if it names one.
    pub open spec fn named(text: Seq<char>) -> Option<TaskState> {
        if text == "Done"@ {
            Some(TaskState::DONE)
        } else if text == "Doing"@ {
            Some(TaskState::DOING)
        } else if text == "Dead"@ {
            Some(TaskState::DEAD)
        } else {
            None
        }
    }

    /// The state that a stored column stands for. The column's type is
    /// looked at first: only a text can be a state. A text stands for the
    /// state that it names; a text that names none, and a text that could not
    /// be read as a string, stand for none.
    pub open spec fn stored(kind: Type, text: Option<Seq<char>>) -> Result<TaskState, ColumnError> {
        if kind != Type::Text {
            Err(ColumnError::InvalidType)
        } else {
            match text {
                None => Err(ColumnError::Unknown(UnknownTaskStateError)),
                Some(name) => match TaskState::named(name) {
                    Some(state) => Ok(state),
                    None => Err(ColumnError::Unknown(UnknownTaskStateError)),
                },
            }
        }
    }

    /// The state's stored name, as a string.
    pub fn to_string(&self) -> (text: String)
        ensures
            text@ == self.name(),
    {
        match self {
            TaskState::DONE => "Done".to_owned(),
            TaskState::DOING => "Doing".to_owned(),
            TaskState::DEAD => "Dead".to_owned(),
        }
    }

    /// Reads a state back from the characters of its stored name. Any other
    /// text is the name of no state.
    pub fn from_chars(chars: &Vec<char>) -> (r: Result<TaskState, UnknownTaskStateError>)
        ensures
            r == match TaskState::named(chars@) {
                Some(state) => Ok::<TaskState, UnknownTaskStateError>(state),
                None => Err(UnknownTaskStateError),
            },
    {
        if same_chars(chars, &chars_of("Done")) {
            Ok(TaskState::DONE)
        } else if same_chars(chars, &chars_of("Doing")) {
            Ok(TaskState::DOING)
        } else if same_chars(chars, &chars_of("Dead")) {
            Ok(TaskState::DEAD)
        } else {
            Err(UnknownTaskStateError)
        }
    }

    /// Reads a state back from a stored column, given by its type and, where
    /// it could be read as a string, its text.
    pub fn column_result(kind: &Type, text: &Option<String>) -> (r: Result<TaskState, ColumnError>)
        ensures
            r == TaskState::stored(
                *kind,
                match text {
                    Some(name) => Some(name@),
                    None => None,
                },
            ),
    {
        match kind {
            Type::Text => match text {
                None => Err(ColumnError::Unknown(UnknownTaskStateError)),
                Some(name) => match TaskState::from_chars(&chars_of(name.as_str())) {
                    Ok(state) => Ok(state),
                    Err(e) => Err(ColumnError::Unknown(e)),
                },
            },
            _ => Err(ColumnError::InvalidType),
        }
    }
}

/// A state is read back from its stored name, and a text names a state only
/// if it is that state's name. So no two states share a name.
pub proof fn lemma_state_name_round_trip(state: TaskState, text: Seq<char>)
    ensures
        TaskState::named(state.name()) == Some(state),
        TaskState::named(text) == Some(state) <==> text == state.name(),
{
    reveal_strlit("Done");
    reveal_strlit("Doing");
    reveal_strlit("Dead");
    assert("Done"@.len() == 4 && "Dead"@.len() == 4 && "Doing"@.len() == 5);
    assert("Done"@[1] == 'o' && "Dead"@[1] == 'e');
}

} // verus!
