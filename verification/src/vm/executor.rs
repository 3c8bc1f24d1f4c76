//! Results of executing a statement.
use vstd::prelude::*;
use crate::storage::record::Value;

verus! {

/// The outcome of a statement: result rows, or a count of affected rows
#[derive(Debug)]
pub struct QueryResult {
    /// Result rows
    pub rows: Vec<Vec<Value>>,
    /// Number of rows changed
    pub rows_affected: usize,
}

impl QueryResult {
    /// An empty result
    pub fn new() -> (r: Self)
        ensures
            r.rows@.len() == 0,
            r.rows_affected == 0,
    {
        QueryResult { rows: Vec::new(), rows_affected: 0 }
    }

    /// A result that only counts affected rows
    pub fn with_affected(n: usize) -> (r: Self)
        ensures
            r.rows@.len() == 0,
            r.rows_affected == n,
    {
        QueryResult { rows: Vec::new(), rows_affected: n }
    }
}

} // verus!
