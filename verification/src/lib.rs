//! Process-to-window resolution engine.
//!
//! Given a process identifier (a numeric PID or a substring of a process
//! name), the library resolves it to one record of a process snapshot,
//! derives the parent/child tree of that snapshot, and searches the window
//! listings of the available window-system backends for the window owned by
//! the process or by one of its descendants. A small fixed table maps a
//! resolved window to the program identifier handed to the external
//! activation tool.
//!
//! Capturing the snapshot, invoking the external window tools and rendering
//! tables are left to the surrounding application; this crate holds the
//! matching logic, the fallback ordering and the text parsing, each with a
//! verified contract.

pub mod activation;

pub mod envinfo;

pub mod process;

pub mod text;

pub mod tree;

pub mod window;
