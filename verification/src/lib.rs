//! A personal task tracker: tasks with a three-valued state, the book that
//! owns them and hands out their ids, and the two stores that keep a book
//! between runs (a snapshot document and a single SQLite table).

pub mod book;
pub mod error;
pub mod escape;
pub mod format;
pub mod laws;
pub mod number;
pub mod reader;
pub mod sql;
pub mod state;
pub mod table;
pub mod task;
pub mod text;
