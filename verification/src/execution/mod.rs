//! Statement executors: INSERT, UPDATE and DELETE, and the ORDER BY and
//! LIMIT stages of a query.

pub mod insert;
pub mod update;
pub mod delete;
pub mod order_by;
pub mod limit;
