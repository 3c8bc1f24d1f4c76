//! DELETE execution.
use vstd::prelude::*;
use crate::catalog::manager::{CatalogManager, no_such_table, quoted_message};
use crate::catalog::schema::has_table;
use crate::error::{Error, ErrorView, Result};
use crate::planner::logical::{LogicalPlan, LogicalPlanView};
use crate::storage::pager::Pager;
use crate::text::string_of;
use crate::vm::executor::QueryResult;

verus! {

/// DELETE executor
pub struct DeleteExecutor;

impl DeleteExecutor {
    /// Runs a DELETE plan: no row counts as deleted, once its table exists
    pub fn execute(plan: LogicalPlan, catalog: &CatalogManager, pager: &mut Pager) -> (r: Result<QueryResult>)
        ensures
            
            *final(pager) == *old(pager),
            match plan@ {
                LogicalPlanView::Delete { table, .. } => if has_table(catalog.spec_catalog().tables@, table) {
                    r matches Ok(q) && q.rows@.len() == 0 && q.rows_affected == 0
                } else {
                    r matches Err(e) && e@ == ErrorView::Internal(no_such_table(table))
                },
                _ => r matches Err(e) && e@ == ErrorView::Internal("Expected DELETE plan"@),
            },
    {
        match plan {
            LogicalPlan::Delete { table, .. } => {
                match catalog.get_table(table.as_str()) {
                    None => {
                        return Err(Error::Internal(quoted_message(table.as_str(), "' does not exist")));
                    },
                    Some(_) => {},
                }
                Ok(QueryResult::with_affected(0))
            },
            _ => Err(Error::Internal(string_of("Expected DELETE plan"))),
        }
    }
}

} // verus!
