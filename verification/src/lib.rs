//! Core of a small task-tracking application.
//!
//! The crate has three parts:
//! - the task record itself (`ToDo`, below);
//! - `client`: the browser-side state machine that applies optimistic
//!   mutations to an in-memory task list and reconciles them against
//!   asynchronous confirmation or failure from the persistence service;
//! - `codec` and `server`: the persistence side — the canonical JSON form
//!   of a record, the key a record is stored under, and the cursor-driven
//!   traversal that lists every record of a key-value store that has no
//!   native "list all" primitive.
//!
//! All I/O (HTTP, the key-value store, the clock) lives outside this crate;
//! the functions here are pure and fully specified.
use vstd::prelude::*;

pub mod client;
pub mod codec;
pub mod server;

verus! {

/// Shown when a stored or received value cannot be decoded as a task.
pub const UNABLE_TO_PARSE_DATA: &'static str = "Unable to parse data";

/// A single task record: an identifier, the note's text, and the timestamp
/// the client assigned when the note was edited.
#[derive(Debug, PartialEq, Eq)]
pub struct ToDo {
    pub id: usize,
    pub todo_info: String,
    pub todo_date: String,
}

impl ToDo {
    /// Builds a record from its parts.
    pub fn new(todo_info: &str, todo_date: &str, id: usize) -> (r: Self)
        ensures
            r.id == id,
            r.todo_info@ == todo_info@,
            r.todo_date@ == todo_date@,
    {
        Self { id, todo_info: todo_info.to_owned(), todo_date: todo_date.to_owned() }
    }
}

impl Clone for ToDo {
    fn clone(&self) -> (r: Self)
        ensures
            r == *self,
    {
        let r = ToDo {
            id: self.id,
            todo_info: self.todo_info.clone(),
            todo_date: self.todo_date.clone(),
        };
        r
    }
}

} // verus!
