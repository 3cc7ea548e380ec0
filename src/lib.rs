//! Match tracking and bounded undo history for a text editor's toolbar,
//! with the request rules of the document store behind it.
pub mod history;
pub mod search;
pub mod store;
