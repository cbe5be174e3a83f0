use rusqlite::types::Type;
use taskbook::state::{ColumnError, TaskState, UnknownTaskStateError};
use taskbook::text::chars_of;

#[test]
fn state_names() {
    assert_eq!(TaskState::DONE.to_string(), "Done");
    assert_eq!(TaskState::DOING.to_string(), "Doing");
    assert_eq!(TaskState::DEAD.to_string(), "Dead");
}

#[test]
fn states_are_read_back_from_their_names() {
    for state in [TaskState::DONE, TaskState::DOING, TaskState::DEAD] {
        assert_eq!(TaskState::column_result(&Type::Text, &Some(state.to_string())), Ok(state));
        assert_eq!(TaskState::from_chars(&chars_of(&state.to_string())), Ok(state));
    }
}

#[test]
fn other_texts_name_no_state() {
    for text in ["", "done", "DONE", "DOING", "DEAD", "Done ", " Done", "Don", "Doingg", "Dea d"] {
        assert_eq!(
            TaskState::column_result(&Type::Text, &Some(String::from(text))),
            Err(ColumnError::Unknown(UnknownTaskStateError))
        );
        assert_eq!(TaskState::from_chars(&chars_of(text)), Err(UnknownTaskStateError));
    }
}

#[test]
fn text_that_is_no_string_names_no_state() {
    assert_eq!(
        TaskState::column_result(&Type::Text, &None),
        Err(ColumnError::Unknown(UnknownTaskStateError))
    );
}

#[test]
fn only_a_text_is_a_state() {
    for kind in [Type::Null, Type::Integer, Type::Real, Type::Blob] {
        assert_eq!(TaskState::column_result(&kind, &None), Err(ColumnError::InvalidType));
        assert_eq!(
            TaskState::column_result(&kind, &Some(String::from("Done"))),
            Err(ColumnError::InvalidType)
        );
    }
}

#[test]
fn unknown_state_message() {
    assert_eq!(UnknownTaskStateError.to_string(), "unknown task state");
}
