//! DeepSQL: an embedded relational database with a paged B+Tree storage
//! engine, a SQL lexer and parser, a query planner and a catalog.

pub mod error;
pub mod text;
pub mod storage;
pub mod transaction;
pub mod locking;
pub mod sql;
pub mod catalog;
pub mod cli;
pub mod planner;
pub mod vm;
pub mod index;
pub mod execution;
pub mod sql_engine;
pub mod engine;

