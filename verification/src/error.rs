//! The ways in which a store can fail.

use vstd::prelude::*;
use vstd::string::StringExecFns;

verus! {

/// Why an operation on a book or on its store did not go through.
#[derive(Debug, PartialEq, Eq)]
pub enum StoreError {
    /// The table was used before a connection to it was opened.
    NotConnected,
    /// The database could not be opened. The text is the database's own.
    Open(String),
    /// The table could not be created. The text is the database's own.
    CreateTable(String),
    /// A task could not be inserted. The text is the database's own.
    Insert(String),
    /// The states could not be updated. The text is the database's own.
    Update(String),
    /// The tasks could not be read. The text is the database's own.
    Query(String),
    /// A row holds an id that is no task id.
    IdOutOfRange(i64),
    /// A row holds a state that is no text.
    InvalidType,
    /// A row holds a state text that is the name of no state.
    UnknownState,
    /// Every id has been given out.
    IdsExhausted,
    /// What was stored is not what a book stores: a text that is the
    /// snapshot of no book, or rows that no table of tasks holds.
    Malformed,
}

impl StoreError {
    /// What the message begins with.
    pub open spec fn headline(&self) -> Seq<char> {
        match self {
            StoreError::NotConnected => "the database is not initialized"@,
            StoreError::Open(_) => "fail to open database: "@,
            StoreError::CreateTable(_) => "fail to create db table: "@,
            StoreError::Insert(_) => "failed to insert task into database: "@,
            StoreError::Update(_) => "fail to update task state: "@,
            StoreError::Query(_) => "fail to read tasks: "@,
            StoreError::IdOutOfRange(_) => "a row holds an id that is no task id"@,
            StoreError::InvalidType => "a row holds a state that is no text"@,
            StoreError::UnknownState => "unknown task state"@,
            StoreError::IdsExhausted => "every task id has been given out"@,
            StoreError::Malformed => "the stored data is malformed"@,
        }
    }

    /// What the database said, where it was the database that failed.
    pub open spec fn detail(&self) -> Seq<char> {
        match self {
            StoreError::Open(text) => text@,
            StoreError::CreateTable(text) => text@,
            StoreError::Insert(text) => text@,
            StoreError::Update(text) => text@,
            StoreError::Query(text) => text@,
            _ => Seq::empty(),
        }
    }

    /// The message for the user: what failed, followed by what the database
    /// said of it, if it said anything.
    pub fn to_string(&self) -> (message: String)
        ensures
            message@ == self.headline() + self.detail(),
    {
        let message = match self {
            StoreError::NotConnected => "the database is not initialized".to_owned(),
            StoreError::Open(text) => "fail to open database: ".to_owned().concat(text.as_str()),
            StoreError::CreateTable(text) => "fail to create db table: ".to_owned().concat(
                text.as_str(),
            ),
            StoreError::Insert(text) => "failed to insert task into database: ".to_owned().concat(
                text.as_str(),
            ),
            StoreError::Update(text) => "fail to update task state: ".to_owned().concat(
                text.as_str(),
            ),
            StoreError::Query(text) => "fail to read tasks: ".to_owned().concat(text.as_str()),
            StoreError::IdOutOfRange(_) => "a row holds an id that is no task id".to_owned(),
            StoreError::InvalidType => "a row holds a state that is no text".to_owned(),
            StoreError::UnknownState => "unknown task state".to_owned(),
            StoreError::IdsExhausted => "every task id has been given out".to_owned(),
            StoreError::Malformed => "the stored data is malformed".to_owned(),
        };
        assert(message@ =~= self.headline() + self.detail());
        message
    }
}

} // verus!
