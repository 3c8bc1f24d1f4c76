//! Logical plans: the operators of a query before any physical choice.
use vstd::prelude::*;
use crate::sql::ast::{Expr, ExprView, OrderBy, OrderDirection, expr_view, opt_expr_view, opt_str_view, exprs_view, strings_view};
use crate::text::{decimal, push_str, u64_to_decimal};

verus! {

/// Logical plan node
#[derive(Debug, PartialEq)]
pub enum LogicalPlan {
    /// Table scan
    Scan { table: String, alias: Option<String> },
    /// Filter (WHERE clause)
    Filter { input: Box<LogicalPlan>, predicate: Expr },
    /// Projection (SELECT columns)
    Projection { input: Box<LogicalPlan>, expressions: Vec<ProjectionExpr> },
    /// Sort (ORDER BY)
    Sort { input: Box<LogicalPlan>, order_by: Vec<OrderBy> },
    /// Limit
    Limit { input: Box<LogicalPlan>, limit: usize, offset: Option<usize> },
    /// Insert
    Insert { table: String, columns: Option<Vec<String>>, values: Vec<Vec<Expr>> },
    /// Update
    Update { table: String, assignments: Vec<(String, Expr)>, filter: Option<Expr> },
    /// Delete
    Delete { table: String, filter: Option<Expr> },
    /// Create Table
    CreateTable { table: String, columns: Vec<ColumnSpec> },
    /// Create Index
    CreateIndex { name: String, table: String, columns: Vec<String>, unique: bool },
    /// Transaction control: BEGIN, COMMIT or ROLLBACK
    Transaction { operation: String },
}

/// Projection expression with optional alias
#[derive(Debug, PartialEq)]
pub struct ProjectionExpr {
    pub expr: Expr,
    pub alias: Option<String>,
}

/// Column specification for CREATE TABLE
#[derive(Debug, Clone, PartialEq)]
pub struct ColumnSpec {
    pub name: String,
    pub data_type: DataType,
    pub not_null: bool,
    pub primary_key: bool,
    pub unique: bool,
    pub default: Option<String>,
}

/// Data type specification
#[derive(Debug, Clone, Copy, PartialEq, Eq, Structural)]
pub enum DataType {
    Integer,
    Real,
    Text,
    Blob,
}

/// The mathematical content of a column specification.
pub struct ColumnSpecView {
    pub name: Seq<char>,
    pub data_type: DataType,
    pub not_null: bool,
    pub primary_key: bool,
    pub unique: bool,
    pub default: Option<Seq<char>>,
}

impl View for ColumnSpec {
    type V = ColumnSpecView;

    open spec fn view(&self) -> ColumnSpecView {
        ColumnSpecView {
            name: self.name@,
            data_type: self.data_type,
            not_null: self.not_null,
            primary_key: self.primary_key,
            unique: self.unique,
            default: opt_str_view(self.default),
        }
    }
}

/// The mathematical content of a logical plan.
pub enum LogicalPlanView {
    Scan { table: Seq<char>, alias: Option<Seq<char>> },
    Filter { input: Box<LogicalPlanView>, predicate: ExprView },
    Projection { input: Box<LogicalPlanView>, expressions: Seq<(ExprView, Option<Seq<char>>)> },
    Sort { input: Box<LogicalPlanView>, order_by: Seq<(ExprView, OrderDirection)> },
    Limit { input: Box<LogicalPlanView>, limit: usize, offset: Option<usize> },
    Insert { table: Seq<char>, columns: Option<Seq<Seq<char>>>, values: Seq<Seq<ExprView>> },
    Update { table: Seq<char>, assignments: Seq<(Seq<char>, ExprView)>, filter: Option<ExprView> },
    Delete { table: Seq<char>, filter: Option<ExprView> },
    CreateTable { table: Seq<char>, columns: Seq<ColumnSpecView> },
    CreateIndex { name: Seq<char>, table: Seq<char>, columns: Seq<Seq<char>>, unique: bool },
    Transaction { operation: Seq<char> },
}

pub open spec fn projection_view(p: ProjectionExpr) -> (ExprView, Option<Seq<char>>) {
    (expr_view(p.expr), opt_str_view(p.alias))
}

pub open spec fn projections_view(ps: Seq<ProjectionExpr>) -> Seq<(ExprView, Option<Seq<char>>)> {
    ps.map_values(|p: ProjectionExpr| projection_view(p))
}

pub open spec fn order_view(os: Seq<OrderBy>) -> Seq<(ExprView, OrderDirection)> {
    os.map_values(|o: OrderBy| (expr_view(o.expr), o.direction))
}

pub open spec fn rows_view(rows: Seq<Vec<Expr>>) -> Seq<Seq<ExprView>> {
    rows.map_values(|row: Vec<Expr>| exprs_view(row@))
}

pub open spec fn opt_strings_view(o: Option<Vec<String>>) -> Option<Seq<Seq<char>>> {
    match o {
        Some(c) => Some(strings_view(c@)),
        None => None,
    }
}

pub open spec fn assignments_view(a: Seq<(String, Expr)>) -> Seq<(Seq<char>, ExprView)> {
    a.map_values(|p: (String, Expr)| (p.0@, expr_view(p.1)))
}

/// The view of a logical plan.
pub open spec fn plan_view(p: LogicalPlan) -> LogicalPlanView
    decreases p,
{
    match p {
        LogicalPlan::Scan { table, alias } => LogicalPlanView::Scan { table: table@, alias: opt_str_view(alias) },
        LogicalPlan::Filter { input, predicate } =>
            LogicalPlanView::Filter { input: Box::new(plan_view(*input)), predicate: expr_view(predicate) },
        LogicalPlan::Projection { input, expressions } =>
            LogicalPlanView::Projection { input: Box::new(plan_view(*input)), expressions: projections_view(expressions@) },
        LogicalPlan::Sort { input, order_by } =>
            LogicalPlanView::Sort { input: Box::new(plan_view(*input)), order_by: order_view(order_by@) },
        LogicalPlan::Limit { input, limit, offset } =>
            LogicalPlanView::Limit { input: Box::new(plan_view(*input)), limit, offset },
        LogicalPlan::Insert { table, columns, values } =>
            LogicalPlanView::Insert { table: table@, columns: opt_strings_view(columns), values: rows_view(values@) },
        LogicalPlan::Update { table, assignments, filter } =>
            LogicalPlanView::Update { table: table@, assignments: assignments_view(assignments@), filter: opt_expr_view(filter) },
        LogicalPlan::Delete { table, filter } => LogicalPlanView::Delete { table: table@, filter: opt_expr_view(filter) },
        LogicalPlan::CreateTable { table, columns } =>
            LogicalPlanView::CreateTable { table: table@, columns: columns@.map_values(|c: ColumnSpec| c@) },
        LogicalPlan::CreateIndex { name, table, columns, unique } =>
            LogicalPlanView::CreateIndex { name: name@, table: table@, columns: strings_view(columns@), unique },
        LogicalPlan::Transaction { operation } => LogicalPlanView::Transaction { operation: operation@ },
    }
}

impl View for LogicalPlan {
    type V = LogicalPlanView;

    open spec fn view(&self) -> LogicalPlanView {
        plan_view(*self)
    }
}

/// The input of a plan node, for the nodes that have one.
pub open spec fn plan_input(p: LogicalPlan) -> Option<LogicalPlan> {
    match p {
        LogicalPlan::Filter { input, .. } => Some(*input),
        LogicalPlan::Projection { input, .. } => Some(*input),
        LogicalPlan::Sort { input, .. } => Some(*input),
        LogicalPlan::Limit { input, .. } => Some(*input),
        _ => None,
    }
}

/// A plan with its input replaced by `i` (the plan itself when it has no
/// input).
pub open spec fn with_input(p: LogicalPlan, i: LogicalPlan) -> LogicalPlan {
    match p {
        LogicalPlan::Filter { predicate, .. } => LogicalPlan::Filter { input: Box::new(i), predicate },
        LogicalPlan::Projection { expressions, .. } => LogicalPlan::Projection { input: Box::new(i), expressions },
        LogicalPlan::Sort { order_by, .. } => LogicalPlan::Sort { input: Box::new(i), order_by },
        LogicalPlan::Limit { limit, offset, .. } => LogicalPlan::Limit { input: Box::new(i), limit, offset },
        _ => p,
    }
}

/// How a plan reads as text: one line per operator, each input on the next
/// line after two spaces.
pub open spec fn plan_text(p: LogicalPlanView) -> Seq<char>
    decreases p,
{
    match p {
        LogicalPlanView::Scan { table, alias } => match alias {
            Some(a) => "Scan: "@ + table + " AS "@ + a,
            None => "Scan: "@ + table,
        },
        LogicalPlanView::Filter { input, .. } => "Filter\n  "@ + plan_text(*input),
        LogicalPlanView::Projection { input, expressions } =>
            "Project: "@ + decimal(expressions.len()) + " columns\n  "@ + plan_text(*input),
        LogicalPlanView::Sort { input, order_by } =>
            "Sort: "@ + decimal(order_by.len()) + " columns\n  "@ + plan_text(*input),
        LogicalPlanView::Limit { input, limit, offset } => match offset {
            Some(o) => "Limit: "@ + decimal(limit as nat) + " OFFSET "@ + decimal(o as nat) + "\n  "@ + plan_text(*input),
            None => "Limit: "@ + decimal(limit as nat) + "\n  "@ + plan_text(*input),
        },
        LogicalPlanView::Insert { table, .. } => "Insert: "@ + table,
        LogicalPlanView::Update { table, .. } => "Update: "@ + table,
        LogicalPlanView::Delete { table, .. } => "Delete: "@ + table,
        LogicalPlanView::CreateTable { table, columns } =>
            "CreateTable: "@ + table + " ("@ + decimal(columns.len()) + " columns)"@,
        LogicalPlanView::CreateIndex { name, table, .. } => "CreateIndex: "@ + name + " ON "@ + table,
        LogicalPlanView::Transaction { operation } => "Transaction: "@ + operation,
    }
}

impl LogicalPlan {
    /// Get the input plan (for plans that have one)
    pub fn input(&self) -> (r: Option<&LogicalPlan>)
        ensures
            match (r, plan_input(*self)) {
                (Some(a), Some(b)) => *a == b,
                (None, None) => true,
                _ => false,
            },
    {
        match self {
            LogicalPlan::Filter { input, .. } => Some(&**input),
            LogicalPlan::Projection { input, .. } => Some(&**input),
            LogicalPlan::Sort { input, .. } => Some(&**input),
            LogicalPlan::Limit { input, .. } => Some(&**input),
            _ => None,
        }
    }

    /// The plan as text, one operator per line
    pub fn to_string(&self) -> (r: String)
        ensures
            r@ == plan_text(self@),
        decreases self,
    {
        let mut out = String::new();
        match self {
            LogicalPlan::Scan { table, alias } => {
                push_str(&mut out, "Scan: ");
                push_str(&mut out, table.as_str());
                if let Some(a) = alias {
                    push_str(&mut out, " AS ");
                    push_str(&mut out, a.as_str());
                }
            },
            LogicalPlan::Filter { input, .. } => {
                push_str(&mut out, "Filter\n  ");
                let inner = input.to_string();
                push_str(&mut out, inner.as_str());
            },
            LogicalPlan::Projection { input, expressions } => {
                push_str(&mut out, "Project: ");
                let n = u64_to_decimal(expressions.len() as u64);
                push_str(&mut out, n.as_str());
                push_str(&mut out, " columns\n  ");
                let inner = input.to_string();
                push_str(&mut out, inner.as_str());
            },
            LogicalPlan::Sort { input, order_by } => {
                push_str(&mut out, "Sort: ");
                let n = u64_to_decimal(order_by.len() as u64);
                push_str(&mut out, n.as_str());
                push_str(&mut out, " columns\n  ");
                let inner = input.to_string();
                push_str(&mut out, inner.as_str());
            },
            LogicalPlan::Limit { input, limit, offset } => {
                push_str(&mut out, "Limit: ");
                let n = u64_to_decimal(*limit as u64);
                push_str(&mut out, n.as_str());
                if let Some(o) = offset {
                    push_str(&mut out, " OFFSET ");
                    let m = u64_to_decimal(*o as u64);
                    push_str(&mut out, m.as_str());
                }
                push_str(&mut out, "\n  ");
                let inner = input.to_string();
                push_str(&mut out, inner.as_str());
            },
            LogicalPlan::Insert { table, .. } => {
                push_str(&mut out, "Insert: ");
                push_str(&mut out, table.as_str());
            },
            LogicalPlan::Update { table, .. } => {
                push_str(&mut out, "Update: ");
                push_str(&mut out, table.as_str());
            },
            LogicalPlan::Delete { table, .. } => {
                push_str(&mut out, "Delete: ");
                push_str(&mut out, table.as_str());
            },
            LogicalPlan::CreateTable { table, columns } => {
                push_str(&mut out, "CreateTable: ");
                push_str(&mut out, table.as_str());
                push_str(&mut out, " (");
                let n = u64_to_decimal(columns.len() as u64);
                push_str(&mut out, n.as_str());
                push_str(&mut out, " columns)");
            },
            LogicalPlan::CreateIndex { name, table, .. } => {
                push_str(&mut out, "CreateIndex: ");
                push_str(&mut out, name.as_str());
                push_str(&mut out, " ON ");
                push_str(&mut out, table.as_str());
            },
            LogicalPlan::Transaction { operation } => {
                push_str(&mut out, "Transaction: ");
                push_str(&mut out, operation.as_str());
            },
        }
        out
    }

    /// Get a mutable reference to the input plan
    pub fn input_mut(&mut self) -> (r: Option<&mut LogicalPlan>)
        ensures
            match plan_input(*old(self)) {
                Some(b) => {
                    &&& r is Some
                    &&& *r->Some_0 == b
                    &&& *final(self) == with_input(*old(self), *final(r->Some_0))
                },
                None => r is None && *final(self) == *old(self),
            },
    {
        match self {
            LogicalPlan::Filter { input, .. } => Some(&mut **input),
            LogicalPlan::Projection { input, .. } => Some(&mut **input),
            LogicalPlan::Sort { input, .. } => Some(&mut **input),
            LogicalPlan::Limit { input, .. } => Some(&mut **input),
            _ => None,
        }
    }
}

} // verus!
