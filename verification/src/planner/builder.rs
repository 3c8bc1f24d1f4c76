//! Building logical plans from parsed statements.
use vstd::prelude::*;
use crate::error::{Error, ErrorView, Result};
use crate::planner::logical::{ColumnSpec, ColumnSpecView, DataType, LogicalPlan, LogicalPlanView, ProjectionExpr, projections_view};
use crate::sql::ast::{
    ColumnConstraint, ColumnConstraintView, ColumnDef, ColumnDefView, CreateTableStatement, Expr, ExprView,
    SelectColumn, SelectColumnView, SelectStatement, SelectView, Statement, StatementView, expr_view, opt_str_view,
};
use crate::sql::ast;
use crate::text::string_of;

verus! {

/// Builds logical plans from SQL statements
pub struct PlanBuilder;

/// The projection that a selected column becomes; `*` becomes the column
/// named `*`.
pub open spec fn column_projection(c: SelectColumnView) -> (ExprView, Option<Seq<char>>) {
    match c {
        SelectColumnView::Star => (ExprView::Column { table: None, name: "*"@ }, None),
        SelectColumnView::Expr { expr, alias } => (expr, alias),
    }
}

/// The plan of a SELECT that reads from a table: a scan, filtered by the
/// WHERE clause, projected, sorted when it has an ORDER BY and limited
/// when it has a LIMIT.
pub open spec fn select_plan(s: SelectView, table: Seq<char>) -> LogicalPlanView {
    let scan = LogicalPlanView::Scan { table, alias: None };
    let filtered = match s.where_clause {
        Some(p) => LogicalPlanView::Filter { input: Box::new(scan), predicate: p },
        None => scan,
    };
    let projected = LogicalPlanView::Projection {
        input: Box::new(filtered),
        expressions: s.columns.map_values(|c: SelectColumnView| column_projection(c)),
    };
    let sorted = if s.order_by.len() == 0 {
        projected
    } else {
        LogicalPlanView::Sort { input: Box::new(projected), order_by: s.order_by }
    };
    match s.limit {
        Some(l) => LogicalPlanView::Limit { input: Box::new(sorted), limit: l, offset: s.offset },
        None => sorted,
    }
}

pub open spec fn plan_data_type(t: ast::DataType) -> DataType {
    match t {
        ast::DataType::Integer => DataType::Integer,
        ast::DataType::Real => DataType::Real,
        ast::DataType::Text => DataType::Text,
        ast::DataType::Blob => DataType::Blob,
    }
}

/// The column specification of a column definition: PRIMARY KEY implies
/// NOT NULL, and defaults are not carried over.
pub open spec fn column_spec_of(c: ColumnDefView) -> ColumnSpecView {
    ColumnSpecView {
        name: c.name,
        data_type: plan_data_type(c.data_type),
        not_null: c.constraints.contains(ColumnConstraintView::NotNull)
            || c.constraints.contains(ColumnConstraintView::PrimaryKey),
        primary_key: c.constraints.contains(ColumnConstraintView::PrimaryKey),
        unique: c.constraints.contains(ColumnConstraintView::Unique),
        default: None,
    }
}

/// The logical plan of a statement; `None` for a SELECT without FROM.
pub open spec fn statement_plan(s: StatementView) -> Option<LogicalPlanView> {
    match s {
        StatementView::Select(sel) => match sel.from {
            Some(t) => Some(select_plan(sel, t)),
            None => None,
        },
        StatementView::Insert(i) => Some(LogicalPlanView::Insert { table: i.table, columns: i.columns, values: i.values }),
        StatementView::Update(u) =>
            Some(LogicalPlanView::Update { table: u.table, assignments: u.assignments, filter: u.where_clause }),
        StatementView::Delete(d) => Some(LogicalPlanView::Delete { table: d.table, filter: d.where_clause }),
        StatementView::CreateTable(c) => Some(LogicalPlanView::CreateTable {
            table: c.table,
            columns: c.columns.map_values(|d: ColumnDefView| column_spec_of(d)),
        }),
        StatementView::CreateIndex(c) =>
            Some(LogicalPlanView::CreateIndex { name: c.name, table: c.table, columns: c.columns, unique: c.unique }),
        StatementView::Begin => Some(LogicalPlanView::Transaction { operation: "BEGIN"@ }),
        StatementView::Commit => Some(LogicalPlanView::Transaction { operation: "COMMIT"@ }),
        StatementView::Rollback => Some(LogicalPlanView::Transaction { operation: "ROLLBACK"@ }),
    }
}

/// The projections of a SELECT's columns.
fn select_projections(columns: Vec<SelectColumn>) -> (r: Vec<ProjectionExpr>)
    ensures
        projections_view(r@) == columns@.map_values(|c: SelectColumn| c@).map_values(|c: SelectColumnView| column_projection(c)),
{
    let ghost all = columns@;
    let ghost n = all.len();
    let mut rest = columns;
    let mut out: Vec<ProjectionExpr> = Vec::new();
    while rest.len() > 0
        invariant
            n == all.len(),
            out@.len() + rest@.len() == n,
            rest@ == all.subrange(out@.len() as int, n as int),
            forall|i: int| 0 <= i < out@.len() ==>
                (expr_view((#[trigger] out@[i]).expr), opt_str_view(out@[i].alias)) == column_projection(all[i]@),
        decreases rest.len(),
    {
        let c = rest.remove(0);
        let p = match c {
            SelectColumn::Star => ProjectionExpr {
                expr: Expr::Column { table: None, name: string_of("*") },
                alias: None,
            },
            SelectColumn::Expr { expr, alias } => ProjectionExpr { expr, alias },
        };
        out.push(p);
    }
    assert(projections_view(out@) =~= all.map_values(|c: SelectColumn| c@).map_values(|c: SelectColumnView| column_projection(c)));
    out
}

/// Whether a constraint list holds a constraint of the given kind.
fn has_constraint(cs: &Vec<ColumnConstraint>, kind: u8) -> (r: bool)
    requires
        kind < 3,
    ensures
        r == cs@.map_values(|c: ColumnConstraint| c@).contains(
            if kind == 0 { ColumnConstraintView::NotNull } else if kind == 1 { ColumnConstraintView::PrimaryKey } else { ColumnConstraintView::Unique }),
{
    let ghost target = if kind == 0 { ColumnConstraintView::NotNull } else if kind == 1 { ColumnConstraintView::PrimaryKey } else { ColumnConstraintView::Unique };
    let ghost vs = cs@.map_values(|c: ColumnConstraint| c@);
    let mut i: usize = 0;
    while i < cs.len()
        invariant
            i <= cs.len(),
            kind < 3,
            vs == cs@.map_values(|c: ColumnConstraint| c@),
            target == (if kind == 0 { ColumnConstraintView::NotNull } else if kind == 1 { ColumnConstraintView::PrimaryKey } else { ColumnConstraintView::Unique }),
            forall|j: int| 0 <= j < i ==> vs[j] != target,
        decreases cs.len() - i,
    {
        assert(vs[i as int] == cs@[i as int]@);
        let c = &cs[i];
        let hit = match c {
            ColumnConstraint::NotNull => {
                assert(vs[i as int] == ColumnConstraintView::NotNull);
                kind == 0
            },
            ColumnConstraint::PrimaryKey => {
                assert(vs[i as int] == ColumnConstraintView::PrimaryKey);
                kind == 1
            },
            ColumnConstraint::Unique => {
                assert(vs[i as int] == ColumnConstraintView::Unique);
                kind == 2
            },
            ColumnConstraint::Default(d) => {
                assert(vs[i as int] == ColumnConstraintView::Default(d@));
                false
            },
        };
        assert(hit <==> vs[i as int] == target);
        if hit {
            return true;
        }
        i = i + 1;
    }
    assert forall|x: ColumnConstraintView| vs.contains(x) implies x != target by {
        let j = choose|j: int| 0 <= j < vs.len() && vs[j] == x;
    }
    false
}

/// The column specification of a column definition.
fn column_spec(col: ColumnDef) -> (r: ColumnSpec)
    ensures
        r@ == column_spec_of(col@),
{
    let not_null_c = has_constraint(&col.constraints, 0);
    let pk = has_constraint(&col.constraints, 1);
    let unique = has_constraint(&col.constraints, 2);
    let data_type = match col.data_type {
        ast::DataType::Integer => DataType::Integer,
        ast::DataType::Real => DataType::Real,
        ast::DataType::Text => DataType::Text,
        ast::DataType::Blob => DataType::Blob,
    };
    ColumnSpec { name: col.name, data_type, not_null: not_null_c || pk, primary_key: pk, unique, default: None }
}

impl PlanBuilder {
    /// Create a new plan builder
    pub fn new() -> (b: Self) {
        PlanBuilder
    }

    /// Build a logical plan from a SQL statement
    pub fn build(&self, statement: Statement) -> (r: Result<LogicalPlan>)
        ensures
            match (r, statement_plan(statement@)) {
                (Ok(p), Some(q)) => p@ == q,
                (Err(e), None) => e@ == ErrorView::Internal("SELECT must have FROM clause"@),
                _ => false,
            },
    {
        match statement {
            Statement::Select(select) => self.build_select(select),
            Statement::Insert(insert) => Ok(LogicalPlan::Insert { table: insert.table, columns: insert.columns, values: insert.values }),
            Statement::Update(update) => self.build_update(update),
            Statement::Delete(delete) => Ok(LogicalPlan::Delete { table: delete.table, filter: delete.where_clause }),
            Statement::CreateTable(create) => self.build_create_table(create),
            Statement::CreateIndex(idx) => Ok(LogicalPlan::CreateIndex {
                name: idx.name,
                table: idx.table,
                columns: idx.columns,
                unique: idx.unique,
            }),
            Statement::Begin => Ok(LogicalPlan::Transaction { operation: string_of("BEGIN") }),
            Statement::Commit => Ok(LogicalPlan::Transaction { operation: string_of("COMMIT") }),
            Statement::Rollback => Ok(LogicalPlan::Transaction { operation: string_of("ROLLBACK") }),
        }
    }

    /// Build SELECT plan
    fn build_select(&self, select: SelectStatement) -> (r: Result<LogicalPlan>)
        ensures
            match (r, select@.from) {
                (Ok(p), Some(t)) => p@ == select_plan(select@, t),
                (Err(e), None) => e@ == ErrorView::Internal("SELECT must have FROM clause"@),
                _ => false,
            },
    {
        let ghost sv = select@;
        let table = match select.from {
            Some(t) => t,
            None => { return Err(Error::Internal(string_of("SELECT must have FROM clause"))); },
        };
        let ghost tv = table@;
        let mut plan = LogicalPlan::Scan { table, alias: None };
        let ghost scan = LogicalPlanView::Scan { table: tv, alias: None };
        assert(plan@ == scan);
        match select.where_clause {
            Some(predicate) => {
                plan = LogicalPlan::Filter { input: Box::new(plan), predicate };
            },
            None => {},
        }
        let ghost filtered = match sv.where_clause {
            Some(p) => LogicalPlanView::Filter { input: Box::new(scan), predicate: p },
            None => scan,
        };
        assert(plan@ == filtered);
        let expressions = select_projections(select.columns);
        plan = LogicalPlan::Projection { input: Box::new(plan), expressions };
        let ghost projected = LogicalPlanView::Projection {
            input: Box::new(filtered),
            expressions: sv.columns.map_values(|c: SelectColumnView| column_projection(c)),
        };
        assert(plan@ == projected);
        if select.order_by.len() > 0 {
            plan = LogicalPlan::Sort { input: Box::new(plan), order_by: select.order_by };
        }
        let ghost sorted = if sv.order_by.len() == 0 {
            projected
        } else {
            LogicalPlanView::Sort { input: Box::new(projected), order_by: sv.order_by }
        };
        assert(plan@ == sorted);
        match select.limit {
            Some(limit) => {
                plan = LogicalPlan::Limit { input: Box::new(plan), limit, offset: select.offset };
            },
            None => {},
        }
        Ok(plan)
    }

    /// Build UPDATE plan
    fn build_update(&self, update: ast::UpdateStatement) -> (r: Result<LogicalPlan>)
        ensures
            r matches Ok(p) && p@ == (LogicalPlanView::Update {
                table: update@.table,
                assignments: update@.assignments,
                filter: update@.where_clause,
            }),
    {
        let ghost all = update.assignments@;
        let ghost n = all.len();
        let mut rest = update.assignments;
        let mut out: Vec<(String, Expr)> = Vec::new();
        while rest.len() > 0
            invariant
                n == all.len(),
                out@.len() + rest@.len() == n,
                rest@ == all.subrange(out@.len() as int, n as int),
                forall|i: int| 0 <= i < out@.len() ==>
                    ((#[trigger] out@[i]).0@, expr_view(out@[i].1)) == (all[i].column@, expr_view(all[i].value)),
            decreases rest.len(),
        {
            let a = rest.remove(0);
            out.push((a.column, a.value));
        }
        let r = LogicalPlan::Update { table: update.table, assignments: out, filter: update.where_clause };
        assert(r@->Update_assignments =~= update@.assignments);
        Ok(r)
    }

    /// Build CREATE TABLE plan
    fn build_create_table(&self, create: CreateTableStatement) -> (r: Result<LogicalPlan>)
        ensures
            r matches Ok(p) && p@ == (LogicalPlanView::CreateTable {
                table: create@.table,
                columns: create@.columns.map_values(|d: ColumnDefView| column_spec_of(d)),
            }),
    {
        let ghost all = create.columns@;
        let ghost n = all.len();
        let mut rest = create.columns;
        let mut out: Vec<ColumnSpec> = Vec::new();
        while rest.len() > 0
            invariant
                n == all.len(),
                out@.len() + rest@.len() == n,
                rest@ == all.subrange(out@.len() as int, n as int),
                forall|i: int| 0 <= i < out@.len() ==> (#[trigger] out@[i])@ == column_spec_of(all[i]@),
            decreases rest.len(),
        {
            let c = rest.remove(0);
            out.push(column_spec(c));
        }
        let r = LogicalPlan::CreateTable { table: create.table, columns: out };
        assert(r@->CreateTable_columns =~= create@.columns.map_values(|d: ColumnDefView| column_spec_of(d)));
        Ok(r)
    }
}

impl Default for PlanBuilder {
    fn default() -> (b: Self) {
        PlanBuilder
    }
}

} // verus!
