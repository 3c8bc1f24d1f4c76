//! Command-line support: the dot commands of the shell.

pub mod commands;
pub mod formatter;
pub mod repl;
