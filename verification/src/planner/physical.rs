//! Physical plans: the concrete operators that the VM compiler turns into
//! instructions.
use vstd::prelude::*;
use crate::sql::ast::{Expr, ExprView, OrderBy, OrderDirection, expr_view, opt_expr_view, opt_str_view};
use crate::planner::logical::{LogicalPlan, LogicalPlanView, ProjectionExpr, order_view, opt_strings_view, rows_view, assignments_view, projections_view};
use crate::text::{decimal, push_str, u64_to_decimal};

verus! {

/// Physical plan node (maps to VM opcodes)
#[derive(Debug, PartialEq)]
pub enum PhysicalPlan {
    /// Table scan
    TableScan { table: String },
    /// Index scan
    IndexScan { table: String, index: String },
    /// Filter rows
    Filter { input: Box<PhysicalPlan>, predicate: Expr },
    /// Project columns
    Project { input: Box<PhysicalPlan>, expressions: Vec<Expr>, aliases: Vec<Option<String>> },
    /// Sort rows
    Sort { input: Box<PhysicalPlan>, order_by: Vec<OrderBy> },
    /// Limit rows
    Limit { input: Box<PhysicalPlan>, limit: usize, offset: usize },
    /// Insert rows
    Insert { table: String, columns: Option<Vec<String>>, values: Vec<Vec<Expr>> },
    /// Update rows
    Update { table: String, assignments: Vec<(String, Expr)>, filter: Option<Expr> },
    /// Delete rows
    Delete { table: String, filter: Option<Expr> },
}

/// The mathematical content of a physical plan.
pub enum PhysicalPlanView {
    TableScan { table: Seq<char> },
    IndexScan { table: Seq<char>, index: Seq<char> },
    Filter { input: Box<PhysicalPlanView>, predicate: ExprView },
    Project { input: Box<PhysicalPlanView>, expressions: Seq<ExprView>, aliases: Seq<Option<Seq<char>>> },
    Sort { input: Box<PhysicalPlanView>, order_by: Seq<(ExprView, OrderDirection)> },
    Limit { input: Box<PhysicalPlanView>, limit: usize, offset: usize },
    Insert { table: Seq<char>, columns: Option<Seq<Seq<char>>>, values: Seq<Seq<ExprView>> },
    Update { table: Seq<char>, assignments: Seq<(Seq<char>, ExprView)>, filter: Option<ExprView> },
    Delete { table: Seq<char>, filter: Option<ExprView> },
}

/// The view of a physical plan.
pub open spec fn physical_view(p: PhysicalPlan) -> PhysicalPlanView
    decreases p,
{
    match p {
        PhysicalPlan::TableScan { table } => PhysicalPlanView::TableScan { table: table@ },
        PhysicalPlan::IndexScan { table, index } => PhysicalPlanView::IndexScan { table: table@, index: index@ },
        PhysicalPlan::Filter { input, predicate } =>
            PhysicalPlanView::Filter { input: Box::new(physical_view(*input)), predicate: expr_view(predicate) },
        PhysicalPlan::Project { input, expressions, aliases } => PhysicalPlanView::Project {
            input: Box::new(physical_view(*input)),
            expressions: expressions@.map_values(|e: Expr| expr_view(e)),
            aliases: aliases@.map_values(|a: Option<String>| opt_str_view(a)),
        },
        PhysicalPlan::Sort { input, order_by } =>
            PhysicalPlanView::Sort { input: Box::new(physical_view(*input)), order_by: order_view(order_by@) },
        PhysicalPlan::Limit { input, limit, offset } =>
            PhysicalPlanView::Limit { input: Box::new(physical_view(*input)), limit, offset },
        PhysicalPlan::Insert { table, columns, values } =>
            PhysicalPlanView::Insert { table: table@, columns: opt_strings_view(columns), values: rows_view(values@) },
        PhysicalPlan::Update { table, assignments, filter } =>
            PhysicalPlanView::Update { table: table@, assignments: assignments_view(assignments@), filter: opt_expr_view(filter) },
        PhysicalPlan::Delete { table, filter } => PhysicalPlanView::Delete { table: table@, filter: opt_expr_view(filter) },
    }
}

impl View for PhysicalPlan {
    type V = PhysicalPlanView;

    open spec fn view(&self) -> PhysicalPlanView {
        physical_view(*self)
    }
}

/// Whether a logical plan contains no CREATE TABLE node, which has no
/// physical form.
pub open spec fn has_physical_form(p: LogicalPlanView) -> bool
    decreases p,
{
    match p {
        LogicalPlanView::CreateTable { .. } => false,
        LogicalPlanView::Filter { input, .. } => has_physical_form(*input),
        LogicalPlanView::Projection { input, .. } => has_physical_form(*input),
        LogicalPlanView::Sort { input, .. } => has_physical_form(*input),
        LogicalPlanView::Limit { input, .. } => has_physical_form(*input),
        _ => true,
    }
}

/// The physical plan of a logical plan.
pub open spec fn physical_of(p: LogicalPlanView) -> PhysicalPlanView
    decreases p,
{
    match p {
        LogicalPlanView::CreateIndex { name, table, .. } =>
            PhysicalPlanView::TableScan { table: table + "_"@ + name },
        LogicalPlanView::Transaction { .. } => PhysicalPlanView::TableScan { table: "transaction"@ },
        LogicalPlanView::Scan { table, .. } => PhysicalPlanView::TableScan { table },
        LogicalPlanView::Filter { input, predicate } =>
            PhysicalPlanView::Filter { input: Box::new(physical_of(*input)), predicate },
        LogicalPlanView::Projection { input, expressions } => PhysicalPlanView::Project {
            input: Box::new(physical_of(*input)),
            expressions: expressions.map_values(|e: (ExprView, Option<Seq<char>>)| e.0),
            aliases: expressions.map_values(|e: (ExprView, Option<Seq<char>>)| e.1),
        },
        LogicalPlanView::Sort { input, order_by } => PhysicalPlanView::Sort { input: Box::new(physical_of(*input)), order_by },
        LogicalPlanView::Limit { input, limit, offset } => PhysicalPlanView::Limit {
            input: Box::new(physical_of(*input)),
            limit,
            offset: match offset { Some(o) => o, None => 0 },
        },
        LogicalPlanView::Insert { table, columns, values } => PhysicalPlanView::Insert { table, columns, values },
        LogicalPlanView::Update { table, assignments, filter } => PhysicalPlanView::Update { table, assignments, filter },
        LogicalPlanView::Delete { table, filter } => PhysicalPlanView::Delete { table, filter },
        LogicalPlanView::CreateTable { table, .. } => PhysicalPlanView::TableScan { table },
    }
}

/// Splits projections into their expressions and their aliases.
pub(crate) fn unzip_projections(expressions: Vec<ProjectionExpr>) -> (r: (Vec<Expr>, Vec<Option<String>>))
    ensures
        r.0@.map_values(|e: Expr| expr_view(e)) == projections_view(expressions@).map_values(|e: (ExprView, Option<Seq<char>>)| e.0),
        r.1@.map_values(|a: Option<String>| opt_str_view(a)) == projections_view(expressions@).map_values(|e: (ExprView, Option<Seq<char>>)| e.1),
{
    let mut exprs: Vec<Expr> = Vec::new();
    let mut aliases: Vec<Option<String>> = Vec::new();
    let mut rest = expressions;
    let ghost all = rest@;
    let ghost n = all.len();
    while rest.len() > 0
        invariant
            n == all.len(),
            exprs@.len() + rest@.len() == n,
            aliases@.len() == exprs@.len(),
            rest@ == all.subrange(exprs@.len() as int, n as int),
            forall|i: int| 0 <= i < exprs@.len() ==> expr_view(#[trigger] exprs@[i]) == expr_view(all[i].expr),
            forall|i: int| 0 <= i < aliases@.len() ==> opt_str_view(#[trigger] aliases@[i]) == opt_str_view(all[i].alias),
        decreases rest.len(),
    {
        let pe = rest.remove(0);
        exprs.push(pe.expr);
        aliases.push(pe.alias);
    }
    assert(exprs@.map_values(|e: Expr| expr_view(e)) =~= projections_view(all).map_values(|e: (ExprView, Option<Seq<char>>)| e.0));
    assert(aliases@.map_values(|a: Option<String>| opt_str_view(a)) =~= projections_view(all).map_values(|e: (ExprView, Option<Seq<char>>)| e.1));
    (exprs, aliases)
}

/// How a physical plan reads as text: one line per operator, each input on
/// the next line after two spaces.
pub open spec fn physical_text(p: PhysicalPlanView) -> Seq<char>
    decreases p,
{
    match p {
        PhysicalPlanView::TableScan { table } => "TableScan("@ + table + ")"@,
        PhysicalPlanView::IndexScan { table, index } => "IndexScan("@ + table + "."@ + index + ")"@,
        PhysicalPlanView::Filter { input, .. } => "Filter\n  "@ + physical_text(*input),
        PhysicalPlanView::Project { input, expressions, .. } =>
            "Project("@ + decimal(expressions.len()) + " columns)\n  "@ + physical_text(*input),
        PhysicalPlanView::Sort { input, order_by } =>
            "Sort("@ + decimal(order_by.len()) + " keys)\n  "@ + physical_text(*input),
        PhysicalPlanView::Limit { input, limit, offset } => if offset > 0 {
            "Limit("@ + decimal(limit as nat) + " OFFSET "@ + decimal(offset as nat) + ")\n  "@ + physical_text(*input)
        } else {
            "Limit("@ + decimal(limit as nat) + ")\n  "@ + physical_text(*input)
        },
        PhysicalPlanView::Insert { table, .. } => "Insert("@ + table + ")"@,
        PhysicalPlanView::Update { table, .. } => "Update("@ + table + ")"@,
        PhysicalPlanView::Delete { table, .. } => "Delete("@ + table + ")"@,
    }
}

impl PhysicalPlan {
    /// The plan as text, one operator per line
    pub fn to_string(&self) -> (r: String)
        ensures
            r@ == physical_text(self@),
        decreases self,
    {
        let mut out = String::new();
        match self {
            PhysicalPlan::TableScan { table } => {
                push_str(&mut out, "TableScan(");
                push_str(&mut out, table.as_str());
                push_str(&mut out, ")");
            },
            PhysicalPlan::IndexScan { table, index } => {
                push_str(&mut out, "IndexScan(");
                push_str(&mut out, table.as_str());
                push_str(&mut out, ".");
                push_str(&mut out, index.as_str());
                push_str(&mut out, ")");
            },
            PhysicalPlan::Filter { input, .. } => {
                push_str(&mut out, "Filter\n  ");
                let inner = input.to_string();
                push_str(&mut out, inner.as_str());
            },
            PhysicalPlan::Project { input, expressions, .. } => {
                push_str(&mut out, "Project(");
                let n = u64_to_decimal(expressions.len() as u64);
                push_str(&mut out, n.as_str());
                push_str(&mut out, " columns)\n  ");
                let inner = input.to_string();
                push_str(&mut out, inner.as_str());
            },
            PhysicalPlan::Sort { input, order_by } => {
                push_str(&mut out, "Sort(");
                let n = u64_to_decimal(order_by.len() as u64);
                push_str(&mut out, n.as_str());
                push_str(&mut out, " keys)\n  ");
                let inner = input.to_string();
                push_str(&mut out, inner.as_str());
            },
            PhysicalPlan::Limit { input, limit, offset } => {
                push_str(&mut out, "Limit(");
                let n = u64_to_decimal(*limit as u64);
                push_str(&mut out, n.as_str());
                if *offset > 0 {
                    push_str(&mut out, " OFFSET ");
                    let m = u64_to_decimal(*offset as u64);
                    push_str(&mut out, m.as_str());
                }
                push_str(&mut out, ")\n  ");
                let inner = input.to_string();
                push_str(&mut out, inner.as_str());
            },
            PhysicalPlan::Insert { table, .. } => {
                push_str(&mut out, "Insert(");
                push_str(&mut out, table.as_str());
                push_str(&mut out, ")");
            },
            PhysicalPlan::Update { table, .. } => {
                push_str(&mut out, "Update(");
                push_str(&mut out, table.as_str());
                push_str(&mut out, ")");
            },
            PhysicalPlan::Delete { table, .. } => {
                push_str(&mut out, "Delete(");
                push_str(&mut out, table.as_str());
                push_str(&mut out, ")");
            },
        }
        out
    }

    /// Convert logical plan to physical plan
    pub fn from_logical(logical: LogicalPlan) -> (r: Self)
        requires
            has_physical_form(logical@),
        ensures
            r@ == physical_of(logical@),
        decreases logical,
    {
        match logical {
            LogicalPlan::CreateIndex { name, table, .. } => {
                let mut t = table;
                push_str(&mut t, "_");
                push_str(&mut t, name.as_str());
                PhysicalPlan::TableScan { table: t }
            },
            LogicalPlan::Transaction { .. } => {
                PhysicalPlan::TableScan { table: crate::text::string_of("transaction") }
            },
            LogicalPlan::Scan { table, .. } => PhysicalPlan::TableScan { table },
            LogicalPlan::Filter { input, predicate } => {
                PhysicalPlan::Filter { input: Box::new(PhysicalPlan::from_logical(*input)), predicate }
            },
            LogicalPlan::Projection { input, expressions } => {
                let (exprs, aliases) = unzip_projections(expressions);
                PhysicalPlan::Project {
                    input: Box::new(PhysicalPlan::from_logical(*input)),
                    expressions: exprs,
                    aliases,
                }
            },
            LogicalPlan::Sort { input, order_by } => {
                PhysicalPlan::Sort { input: Box::new(PhysicalPlan::from_logical(*input)), order_by }
            },
            LogicalPlan::Limit { input, limit, offset } => {
                let off: usize = match offset { Some(o) => o, None => 0 };
                PhysicalPlan::Limit { input: Box::new(PhysicalPlan::from_logical(*input)), limit, offset: off }
            },
            LogicalPlan::Insert { table, columns, values } => PhysicalPlan::Insert { table, columns, values },
            LogicalPlan::Update { table, assignments, filter } => PhysicalPlan::Update { table, assignments, filter },
            LogicalPlan::Delete { table, filter } => PhysicalPlan::Delete { table, filter },
            LogicalPlan::CreateTable { .. } => {
                proof { assert(false); }
                PhysicalPlan::TableScan { table: String::new() }
            },
        }
    }
}

} // verus!
