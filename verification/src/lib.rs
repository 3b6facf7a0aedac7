//! zero_shell: the decision logic of a small interactive shell.
//!
//! The library tokenizes command lines, decides which built-in command a line
//! names, resolves paths against the current directory, and renders the text
//! that each built-in prints. Everything that touches the file system, the
//! terminal or the process environment lives in the binary around it.

pub mod text;
pub mod parse;
pub mod order;
pub mod format;
pub mod paths;
pub mod listing;
pub mod commands;
pub mod shell;
