//! A file-backed hierarchical to-do list: a forest of tasks, each task owning
//! an ordered list of subtasks. The forest persists as a JSON document; the
//! codec, the tree operations and the command dispatch are verified.

pub mod codec;
pub mod command;
pub mod task;
pub mod text;
