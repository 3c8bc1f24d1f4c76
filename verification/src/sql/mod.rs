//! The SQL front end: tokens, lexer, syntax tree and parser.

pub mod tokens;
pub mod lexer;
pub mod ast;
pub mod grammar;
pub mod parser;
