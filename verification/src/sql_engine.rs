//! The SQL pipeline: text to tokens, statement, logical plan, optimized
//! plan, physical plan and VM program; CREATE TABLE is carried out at
//! once through the catalog.
use vstd::prelude::*;
use crate::catalog::manager::{CatalogManager, no_such_table, quoted_message, table_exists, table_matches};
use crate::catalog::schema::has_table;
use crate::error::{Error, ErrorView, Result};
use crate::planner::builder::{PlanBuilder, column_spec_of, select_plan, statement_plan};
use crate::planner::compiler::{CompilerState, VMCompiler, compile_spec, patched};
use crate::planner::logical::{LogicalPlan, LogicalPlanView, projections_view};
use crate::planner::optimizer::{Optimizer, optimized};
use crate::planner::physical::{PhysicalPlan, PhysicalPlanView};
use crate::sql::ast::{ColumnDefView, CreateTableStatement, Expr, ExprView, InsertStatement, SelectStatement, Statement, StatementView, expr_view, opt_str_view};
use crate::sql::grammar::sp_statement;
use crate::sql::lexer::{Lexer, spec_tokenize, law_tokenize_ends_with_eof, token_view};
use crate::sql::parser::Parser;
use crate::sql::tokens::Token;
use crate::storage::pager::Pager;
use crate::text::{decimal, push_str, string_of, u64_to_decimal};
use crate::vm::executor::QueryResult;
use crate::vm::opcode::{OpcodeView, Program, ops_view};

verus! {

/// SQL execution engine
pub struct SqlEngine {
    /// Catalog manager for schema metadata
    catalog: CatalogManager,
    /// Storage pager
    pager: Pager,
    /// Query optimizer
    optimizer: Optimizer,
}

/// What preparing a statement gives: a finished result, or a program for
/// the VM to run
#[derive(Debug)]
pub enum Prepared {
    /// The statement is carried out
    Done(QueryResult),
    /// The program that carries the statement out
    Program(Program),
}

/// The physical plan of a logical plan, as the engine makes it: CREATE
/// TABLE has none.
pub open spec fn to_physical(p: LogicalPlanView) -> core::result::Result<PhysicalPlanView, ErrorView>
    decreases p,
{
    match p {
        LogicalPlanView::Scan { table, .. } => Ok(PhysicalPlanView::TableScan { table }),
        LogicalPlanView::Filter { input, predicate } => match to_physical(*input) {
            Ok(i) => Ok(PhysicalPlanView::Filter { input: Box::new(i), predicate }),
            Err(e) => Err(e),
        },
        LogicalPlanView::Projection { input, expressions } => match to_physical(*input) {
            Ok(i) => Ok(PhysicalPlanView::Project {
                input: Box::new(i),
                expressions: expressions.map_values(|e: (ExprView, Option<Seq<char>>)| e.0),
                aliases: expressions.map_values(|e: (ExprView, Option<Seq<char>>)| e.1),
            }),
            Err(e) => Err(e),
        },
        LogicalPlanView::Sort { input, order_by } => match to_physical(*input) {
            Ok(i) => Ok(PhysicalPlanView::Sort { input: Box::new(i), order_by }),
            Err(e) => Err(e),
        },
        LogicalPlanView::Limit { input, limit, offset } => match to_physical(*input) {
            Ok(i) => Ok(PhysicalPlanView::Limit {
                input: Box::new(i),
                limit,
                offset: match offset { Some(o) => o, None => 0 },
            }),
            Err(e) => Err(e),
        },
        LogicalPlanView::Insert { table, columns, values } => Ok(PhysicalPlanView::Insert { table, columns, values }),
        LogicalPlanView::Update { table, assignments, filter } => Ok(PhysicalPlanView::Update { table, assignments, filter }),
        LogicalPlanView::Delete { table, filter } => Ok(PhysicalPlanView::Delete { table, filter }),
        LogicalPlanView::CreateTable { .. } => Err(ErrorView::Internal("CREATE TABLE execution not yet implemented"@)),
        LogicalPlanView::CreateIndex { name, table, .. } => Ok(PhysicalPlanView::TableScan { table: table + "_"@ + name }),
        LogicalPlanView::Transaction { .. } => Ok(PhysicalPlanView::TableScan { table: "transaction"@ }),
    }
}

/// The state of a new compiler.
pub open spec fn fresh_compiler() -> CompilerState {
    CompilerState { ops: Seq::empty(), next_cursor: 0, next_register: 0, cursor: None, table: None }
}

/// The instructions a physical plan compiles to, ending in a halt.
pub open spec fn program_of(p: PhysicalPlanView) -> core::result::Result<Seq<OpcodeView>, ErrorView> {
    match compile_spec(Seq::empty(), fresh_compiler(), p) {
        Ok(s) => Ok(patched(s.ops.push(OpcodeView::Halt), s.ops.len() as usize)),
        Err(e) => Err(e),
    }
}

/// The program of a logical plan.
pub open spec fn plan_program(p: LogicalPlanView) -> core::result::Result<Seq<OpcodeView>, ErrorView> {
    match to_physical(p) {
        Ok(pp) => program_of(pp),
        Err(e) => Err(e),
    }
}

/// The statement that SQL text parses to.
pub open spec fn parsed_statement(sql: Seq<char>) -> core::result::Result<(StatementView, nat), ErrorView> {
    sp_statement(spec_tokenize(sql, (0nat, 1nat, 1nat)).map_values(|t: (crate::sql::tokens::TokenTypeView, nat, nat)| t.0), 0)
}

/// The message for a column list whose length differs from a row's.
pub open spec fn listed_mismatch(columns: nat, values: nat) -> Seq<char> {
    "Column count mismatch: "@ + decimal(columns) + " columns specified but "@ + decimal(values) + " values provided"@
}

/// The message for a row whose length differs from the table's.
pub open spec fn table_mismatch(columns: nat, values: nat) -> Seq<char> {
    "Column count mismatch: table has "@ + decimal(columns) + " columns but "@ + decimal(values) + " values provided"@
}

/// Whether a result is the program `prog`, or its error.
pub open spec fn gives_program(r: Result<Prepared>, prog: core::result::Result<Seq<OpcodeView>, ErrorView>) -> bool {
    match prog {
        Ok(ops) => r matches Ok(Prepared::Program(p)) && ops_view(p.opcodes@) == ops,
        Err(e) => r matches Err(x) && x@ == e,
    }
}


/// The table of a name among tables of distinct names.
pub open spec fn named_table(ts: Seq<crate::catalog::schema::TableSchema>, name: Seq<char>) -> crate::catalog::schema::TableSchema {
    ts[choose|i: int| 0 <= i < ts.len() && ts[i].name@ == name]
}

/// What preparing a SELECT gives: the program of its optimized plan.
pub open spec fn select_outcome(r: Result<Prepared>, sel: crate::sql::ast::SelectView, idx: Set<(Seq<char>, Seq<char>)>) -> bool {
    match sel.from {
        None => r matches Err(e) && e@ == ErrorView::Internal("SELECT must have FROM clause"@),
        Some(t) => gives_program(r, plan_program(optimized(select_plan(sel, t), idx))),
    }
}

/// What preparing an INSERT gives: the table must exist, the first row
/// must have as many values as the listed columns, or as the table has
/// columns; then the program of the insertion.
pub open spec fn insert_outcome(r: Result<Prepared>, ins: crate::sql::ast::InsertView, c: CatalogManager) -> bool {
    let ts = c.spec_catalog().tables@;
    if !has_table(ts, ins.table) {
        r matches Err(e) && e@ == ErrorView::Internal(no_such_table(ins.table))
    } else if ins.values.len() == 0 {
        r matches Err(e) && e@ == ErrorView::Internal("INSERT has no rows"@)
    } else {
        let n = ins.values[0].len();
        match ins.columns {
            Some(cols) => if cols.len() != n {
                r matches Err(e) && e@ == ErrorView::Internal(listed_mismatch(cols.len(), n))
            } else {
                gives_program(r, plan_program(LogicalPlanView::Insert { table: ins.table, columns: ins.columns, values: ins.values }))
            },
            None => {
                let k = named_table(ts, ins.table).columns@.len();
                if k != n {
                    r matches Err(e) && e@ == ErrorView::Internal(table_mismatch(k, n))
                } else {
                    gives_program(r, plan_program(LogicalPlanView::Insert { table: ins.table, columns: ins.columns, values: ins.values }))
                }
            },
        }
    }
}

/// What CREATE TABLE does to the engine: refused for an existing table or
/// a pager that cannot grow; otherwise, once the root page is written,
/// the catalog holds the new table.
pub open spec fn create_outcome(
    r: Result<Prepared>,
    ct: crate::sql::ast::CreateTableView,
    c0: CatalogManager,
    c1: CatalogManager,
    p0: Pager,
    p1: Pager,
) -> bool {
    let cols = ct.columns.map_values(|d: ColumnDefView| column_spec_of(d));
    &&& c1.wf()
    &&& p1.wf()
    &&& p1.psize() == p0.psize()
    &&& p1.in_txn() == p0.in_txn()
    &&& c1.spec_catalog().indexes@ == c0.spec_catalog().indexes@
    &&& if has_table(c0.spec_catalog().tables@, ct.table) {
        &&& r matches Err(e) && e@ == ErrorView::Internal(table_exists(ct.table))
        &&& c1.spec_catalog() == c0.spec_catalog()
        &&& p1 == p0
    } else if !(p0.psize() >= 64 && p0.can_grow()) {
        &&& r matches Err(e) && e@ == ErrorView::Internal("Database is full"@)
        &&& c1 == c0
        &&& p1 == p0
    } else {
        &&& !p0.in_txn() ==> r is Ok
        &&& r is Ok ==> {
            &&& r matches Ok(Prepared::Done(q)) && q.rows@.len() == 0 && q.rows_affected == 0
            &&& !c1.is_dirty()
            &&& p1.hdr().page_count == p0.hdr().page_count + 1
            &&& c1.spec_catalog().tables@.drop_last() == c0.spec_catalog().tables@
            &&& c1.spec_catalog().tables@.len() == c0.spec_catalog().tables@.len() + 1
            &&& table_matches(c1.spec_catalog().tables@.last(), ct.table, (p0.hdr().page_count + 1) as u32, cols)
        }
        &&& r is Err ==> c1.spec_catalog() == c0.spec_catalog()
    }
}

impl SqlEngine {
    /// The engine's catalog.
    pub closed spec fn catalog_state(&self) -> CatalogManager {
        self.catalog
    }

    /// The engine's pager.
    pub closed spec fn pager_state(&self) -> Pager {
        self.pager
    }

    /// The indexes the optimizer knows.
    pub closed spec fn indexes(&self) -> Set<(Seq<char>, Seq<char>)> {
        self.optimizer.indexes()
    }

    /// Well-formedness: the catalog and the pager are well formed.
    pub closed spec fn wf(&self) -> bool {
        self.catalog.wf() && self.pager.wf()
    }

    /// Create a new SQL engine over a pager, with an empty catalog
    pub fn new(pager: Pager) -> (e: Self)
        requires
            pager.wf(),
        ensures
            e.wf(),
            e.pager_state() == pager,
            e.catalog_state().spec_catalog().tables@.len() == 0,
            e.indexes() == Set::<(Seq<char>, Seq<char>)>::empty(),
    {
        SqlEngine { catalog: CatalogManager::new(), pager, optimizer: Optimizer::new() }
    }

    /// Load the catalog from the database
    pub fn load_catalog(&mut self) -> (r: Result<()>)
        requires
            old(self).wf(),
        ensures
            r is Ok,
            final(self).wf(),
            final(self).catalog_state().spec_catalog().tables@.len() == 0,
            final(self).pager_state() == old(self).pager_state(),
            final(self).indexes() == old(self).indexes(),
    {
        self.catalog.load(&mut self.pager)
    }

    /// Convert a logical plan to a physical plan
    fn logical_to_physical(&self, logical: LogicalPlan) -> (r: Result<PhysicalPlan>)
        ensures
            match (r, to_physical(logical@)) {
                (Ok(p), Ok(q)) => p@ == q,
                (Err(e), Err(x)) => e@ == x,
                _ => false,
            },
        decreases logical,
    {
        proof { reveal_with_fuel(crate::planner::logical::plan_view, 2); }
        match logical {
            LogicalPlan::Scan { table, .. } => Ok(PhysicalPlan::TableScan { table }),
            LogicalPlan::Filter { input, predicate } => {
                let i = match self.logical_to_physical(*input) {
                    Ok(p) => p,
                    Err(e) => { return Err(e); },
                };
                Ok(PhysicalPlan::Filter { input: Box::new(i), predicate })
            },
            LogicalPlan::Projection { input, expressions } => {
                let i = match self.logical_to_physical(*input) {
                    Ok(p) => p,
                    Err(e) => { return Err(e); },
                };
                let (exprs, aliases) = crate::planner::physical::unzip_projections(expressions);
                Ok(PhysicalPlan::Project { input: Box::new(i), expressions: exprs, aliases })
            },
            LogicalPlan::Sort { input, order_by } => {
                let i = match self.logical_to_physical(*input) {
                    Ok(p) => p,
                    Err(e) => { return Err(e); },
                };
                Ok(PhysicalPlan::Sort { input: Box::new(i), order_by })
            },
            LogicalPlan::Limit { input, limit, offset } => {
                let i = match self.logical_to_physical(*input) {
                    Ok(p) => p,
                    Err(e) => { return Err(e); },
                };
                let off: usize = match offset { Some(o) => o, None => 0 };
                Ok(PhysicalPlan::Limit { input: Box::new(i), limit, offset: off })
            },
            LogicalPlan::Insert { table, columns, values } => Ok(PhysicalPlan::Insert { table, columns, values }),
            LogicalPlan::Update { table, assignments, filter } => Ok(PhysicalPlan::Update { table, assignments, filter }),
            LogicalPlan::Delete { table, filter } => Ok(PhysicalPlan::Delete { table, filter }),
            LogicalPlan::CreateTable { .. } => {
                Err(Error::Internal(string_of("CREATE TABLE execution not yet implemented")))
            },
            LogicalPlan::CreateIndex { name, table, .. } => {
                let mut t = table;
                push_str(&mut t, "_");
                push_str(&mut t, name.as_str());
                Ok(PhysicalPlan::TableScan { table: t })
            },
            LogicalPlan::Transaction { .. } => Ok(PhysicalPlan::TableScan { table: string_of("transaction") }),
        }
    }

    /// Compile a physical plan with a new compiler
    fn compile_to_vm(&self, physical: &PhysicalPlan) -> (r: Result<Program>)
        ensures
            match (r, program_of(physical@)) {
                (Ok(p), Ok(ops)) => ops_view(p.opcodes@) == ops,
                (Err(e), Err(x)) => e@ == x,
                _ => false,
            },
    {
        let mut compiler = VMCompiler::new();
        compiler.compile(physical)
    }

    /// The program of a logical plan
    fn plan_to_program(&self, plan: LogicalPlan) -> (r: Result<Prepared>)
        ensures
            gives_program(r, plan_program(plan@)),
    {
        let physical = match self.logical_to_physical(plan) {
            Ok(p) => p,
            Err(e) => { return Err(e); },
        };
        match self.compile_to_vm(&physical) {
            Ok(p) => Ok(Prepared::Program(p)),
            Err(e) => Err(e),
        }
    }

    /// Prepare a SELECT: build, optimize, convert and compile its plan
    fn prepare_select(&self, select: SelectStatement) -> (r: Result<Prepared>)
        ensures
            select_outcome(r, select@, self.indexes()),
    {
        let plan = match PlanBuilder::new().build(Statement::Select(select)) {
            Ok(p) => p,
            Err(e) => { return Err(e); },
        };
        let optimized_plan = self.optimizer.optimize(plan);
        self.plan_to_program(optimized_plan)
    }

    /// Prepare an INSERT, after checking its table and its first row
    fn prepare_insert(&self, insert: InsertStatement) -> (r: Result<Prepared>)
        requires
            self.wf(),
        ensures
            insert_outcome(r, insert@, self.catalog_state()),
    {
        let ghost ts = self.catalog.spec_catalog().tables@;
        let table_schema = match self.catalog.get_table(insert.table.as_str()) {
            Some(t) => t,
            None => { return Err(Error::Internal(quoted_message(insert.table.as_str(), "' does not exist"))); },
        };
        proof {
            self.catalog.lemma_wf_catalog();
            let i = choose|i: int| 0 <= i < ts.len() && ts[i] == *table_schema && table_schema.name@ == insert.table@;
            assert(has_table(ts, insert.table@));
            let k = choose|k: int| 0 <= k < ts.len() && ts[k].name@ == insert.table@;
            assert(k == i);
        }
        if insert.values.len() == 0 {
            return Err(Error::Internal(string_of("INSERT has no rows")));
        }
        let n = insert.values[0].len();
        assert(insert@.values[0].len() == n) by {
            crate::planner::compiler::lemma_exprs_view_index(insert.values@[0]@);
        }
        match &insert.columns {
            Some(cols) => {
                if cols.len() != n {
                    let mut m = string_of("Column count mismatch: ");
                    push_str(&mut m, u64_to_decimal(cols.len() as u64).as_str());
                    push_str(&mut m, " columns specified but ");
                    push_str(&mut m, u64_to_decimal(n as u64).as_str());
                    push_str(&mut m, " values provided");
                    return Err(Error::Internal(m));
                }
            },
            None => {
                let k = table_schema.columns.len();
                if k != n {
                    let mut m = string_of("Column count mismatch: table has ");
                    push_str(&mut m, u64_to_decimal(k as u64).as_str());
                    push_str(&mut m, " columns but ");
                    push_str(&mut m, u64_to_decimal(n as u64).as_str());
                    push_str(&mut m, " values provided");
                    return Err(Error::Internal(m));
                }
            },
        }
        let plan = match PlanBuilder::new().build(Statement::Insert(insert)) {
            Ok(p) => p,
            Err(e) => { return Err(e); },
        };
        self.plan_to_program(plan)
    }

    /// Whether the pager can take one more page.
    fn pager_can_grow(&self) -> (b: bool)
        ensures
            b == (self.pager.psize() >= 64 && self.pager.can_grow()),
    {
        let count = self.pager.page_count();
        let size = self.pager.page_size();
        proof {
            assert((count as u128 + 3) * (size as u128) <= 0x1_0000_0002u128 * 0xffff_ffff_ffff_ffffu128) by (nonlinear_arith)
                requires
                    count <= 0xffff_ffffu32,
                    size as int <= 0xffff_ffff_ffff_ffffu64 as int,
            ;
        }
        size >= 64 && count < u32::MAX && (count as u128 + 3) * (size as u128) <= usize::MAX as u128
    }

    /// Execute CREATE TABLE through the catalog
    fn execute_create_table(&mut self, create: CreateTableStatement) -> (r: Result<Prepared>)
        requires
            old(self).wf(),
        ensures
            final(self).wf(),
            final(self).indexes() == old(self).indexes(),
            create_outcome(r, create@, old(self).catalog_state(), final(self).catalog_state(),
                old(self).pager_state(), final(self).pager_state()),
    {
        let name = create.table.clone();
        let plan = match PlanBuilder::new().build(Statement::CreateTable(create)) {
            Ok(p) => p,
            Err(e) => { return Err(e); },
        };
        match self.catalog.get_table(name.as_str()) {
            Some(_) => { return Err(Error::Internal(quoted_message(name.as_str(), "' already exists"))); },
            None => {},
        }
        if !self.pager_can_grow() {
            return Err(Error::Internal(string_of("Database is full")));
        }
        match self.catalog.create_table(&plan, &mut self.pager) {
            Ok(()) => Ok(Prepared::Done(QueryResult::with_affected(0))),
            Err(e) => Err(e),
        }
    }


    /// Execute a SQL statement as far as this engine goes: CREATE TABLE is
    /// carried out; SELECT and INSERT are compiled into a program for the
    /// VM; UPDATE and DELETE are refused
    pub fn execute(&mut self, sql: &str) -> (r: Result<Prepared>)
        requires
            old(self).wf(),
            sql@.len() < usize::MAX,
        ensures
            final(self).wf(),
            final(self).indexes() == old(self).indexes(),
            match parsed_statement(sql@) {
                Err(e) => r matches Err(x) && x@ == e && *final(self) == *old(self),
                Ok((stmt, _)) => match stmt {
                    StatementView::Select(sel) => select_outcome(r, sel, old(self).indexes()) && *final(self) == *old(self),
                    StatementView::Insert(ins) => insert_outcome(r, ins, old(self).catalog_state()) && *final(self) == *old(self),
                    StatementView::Update(_) => (r matches Err(e) && e@ == ErrorView::Internal("UPDATE not yet implemented"@))
                        && *final(self) == *old(self),
                    StatementView::Delete(_) => (r matches Err(e) && e@ == ErrorView::Internal("DELETE not yet implemented"@))
                        && *final(self) == *old(self),
                    StatementView::CreateTable(ct) => create_outcome(r, ct, old(self).catalog_state(), final(self).catalog_state(),
                        old(self).pager_state(), final(self).pager_state()),
                    _ => (r matches Err(e) && e@ == ErrorView::Internal("Statement not supported by the SQL engine"@))
                        && *final(self) == *old(self),
                },
            },
    {
        let mut lexer = Lexer::new(sql);
        let tokens = lexer.tokenize();
        proof {
            law_tokenize_ends_with_eof(sql@, (0nat, 1nat, 1nat));
            let tv = tokens@.map_values(|t: Token| token_view(t));
            assert(tokens@.map_values(|t: Token| t.token_type@)
                =~= spec_tokenize(sql@, (0nat, 1nat, 1nat)).map_values(|t: (crate::sql::tokens::TokenTypeView, nat, nat)| t.0)) by {
                assert forall|i: int| 0 <= i < tokens@.len() implies #[trigger] tokens@[i].token_type@ == tv[i].0 by {}
            }
        }
        let mut parser = Parser::new(tokens);
        let statement = match parser.parse_statement() {
            Ok(s) => s,
            Err(e) => { return Err(e); },
        };
        match statement {
            Statement::Select(select) => self.prepare_select(select),
            Statement::Insert(insert) => self.prepare_insert(insert),
            Statement::Update(_) => Err(Error::Internal(string_of("UPDATE not yet implemented"))),
            Statement::Delete(_) => Err(Error::Internal(string_of("DELETE not yet implemented"))),
            Statement::CreateTable(create) => self.execute_create_table(create),
            _ => Err(Error::Internal(string_of("Statement not supported by the SQL engine"))),
        }
    }

}

} // verus!
