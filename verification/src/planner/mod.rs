//! The query planner: syntax tree to logical plan, logical plan to physical
//! plan, rule-based rewriting, and compilation to VM instructions.

pub mod logical;
pub mod physical;
pub mod builder;
pub mod optimizer;
pub mod compiler;




