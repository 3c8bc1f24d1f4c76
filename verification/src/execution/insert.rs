//! INSERT execution.
use vstd::prelude::*;
use crate::catalog::manager::{CatalogManager, no_such_table, quoted_message};
use crate::catalog::schema::has_table;
use crate::error::{Error, ErrorView, Result};
use crate::planner::logical::{LogicalPlan, LogicalPlanView};
use crate::storage::pager::Pager;
use crate::text::string_of;
use crate::vm::executor::QueryResult;

verus! {

/// INSERT executor
pub struct InsertExecutor;

impl InsertExecutor {
    /// Runs an INSERT plan: every row of values counts as inserted, once its table exists
    pub fn execute(plan: LogicalPlan, catalog: &mut CatalogManager, pager: &mut Pager) -> (r: Result<QueryResult>)
        ensures
            *final(catalog) == *old(catalog),
            *final(pager) == *old(pager),
            match plan@ {
                LogicalPlanView::Insert { table, values, .. } => if has_table(old(catalog).spec_catalog().tables@, table) {
                    r matches Ok(q) && q.rows@.len() == 0 && q.rows_affected == values.len()
                } else {
                    r matches Err(e) && e@ == ErrorView::Internal(no_such_table(table))
                },
                _ => r matches Err(e) && e@ == ErrorView::Internal("Expected INSERT plan"@),
            },
    {
        match plan {
            LogicalPlan::Insert { table, values, .. } => {
                match catalog.get_table(table.as_str()) {
                    None => {
                        return Err(Error::Internal(quoted_message(table.as_str(), "' does not exist")));
                    },
                    Some(_) => {},
                }
                Ok(QueryResult::with_affected(values.len()))
            },
            _ => Err(Error::Internal(string_of("Expected INSERT plan"))),
        }
    }
}

} // verus!
