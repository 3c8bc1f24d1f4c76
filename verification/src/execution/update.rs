//! UPDATE execution.
use vstd::prelude::*;
use crate::catalog::manager::{CatalogManager, no_such_table, quoted_message};
use crate::catalog::schema::has_table;
use crate::error::{Error, ErrorView, Result};
use crate::planner::logical::{LogicalPlan, LogicalPlanView};
use crate::storage::pager::Pager;
use crate::text::string_of;
use crate::vm::executor::QueryResult;

verus! {

/// UPDATE executor
pub struct UpdateExecutor;

impl UpdateExecutor {
    /// Runs an UPDATE plan: no row counts as updated, once its table exists
    pub fn execute(plan: LogicalPlan, catalog: &CatalogManager, pager: &mut Pager) -> (r: Result<QueryResult>)
        ensures
            
            *final(pager) == *old(pager),
            match plan@ {
                LogicalPlanView::Update { table, .. } => if has_table(catalog.spec_catalog().tables@, table) {
                    r matches Ok(q) && q.rows@.len() == 0 && q.rows_affected == 0
                } else {
                    r matches Err(e) && e@ == ErrorView::Internal(no_such_table(table))
                },
                _ => r matches Err(e) && e@ == ErrorView::Internal("Expected UPDATE plan"@),
            },
    {
        match plan {
            LogicalPlan::Update { table, .. } => {
                match catalog.get_table(table.as_str()) {
                    None => {
                        return Err(Error::Internal(quoted_message(table.as_str(), "' does not exist")));
                    },
                    Some(_) => {},
                }
                Ok(QueryResult::with_affected(0))
            },
            _ => Err(Error::Internal(string_of("Expected UPDATE plan"))),
        }
    }
}

} // verus!
