//! Compilation of physical plans into VM instruction sequences.
//!
//! Jumps whose target is not yet known are emitted with a placeholder of
//! at least 1000 and patched once the whole plan has been compiled.
use vstd::prelude::*;
use crate::catalog::schema::{ColumnSchema, TableSchema};
use crate::error::{Error, ErrorView, Result};
use crate::planner::logical::{order_view, rows_view, assignments_view};
use crate::planner::physical::{PhysicalPlan, PhysicalPlanView};
use crate::sql::ast::{Expr, ExprView, OrderBy, exprs_view, expr_view, lemma_exprs_view_push, strings_view};
use crate::text::{str_eq, string_of};
use crate::vm::opcode::{Opcode, OpcodeView, Program, ops_view, updates_view};

verus! {

/// The placeholder for a jump target that is patched later.
pub const PLACEHOLDER: usize = 9999;

/// VM Compiler: turns physical plans into instruction sequences
pub struct VMCompiler {
    /// Generated opcodes
    pub opcodes: Vec<Opcode>,
    /// Next cursor ID to allocate
    next_cursor: usize,
    /// Next register to allocate
    next_register: usize,
    /// Current cursor ID (for the active scan)
    current_cursor: Option<usize>,
    /// Current table name (for column resolution)
    current_table: Option<String>,
    /// Table schemas for column lookup, by table name
    table_schemas: Vec<(String, TableSchema)>,
}

/// The compiler's state as the specifications see it.
pub struct CompilerState {
    pub ops: Seq<OpcodeView>,
    pub next_cursor: usize,
    pub next_register: usize,
    pub cursor: Option<usize>,
    pub table: Option<Seq<char>>,
}

// ---------------------------------------------------------------------
// Lookups
// ---------------------------------------------------------------------

/// Whether `i` is the first position of `x` in `s`.
pub open spec fn is_first_at(s: Seq<Seq<char>>, x: Seq<char>, i: int) -> bool {
    &&& 0 <= i < s.len()
    &&& s[i] == x
    &&& forall|j: int| 0 <= j < i ==> s[j] != x
}

/// The first position of `x` in `s`.
pub open spec fn first_index(s: Seq<Seq<char>>, x: Seq<char>) -> Option<int> {
    if exists|i: int| is_first_at(s, x, i) {
        Some(choose|i: int| is_first_at(s, x, i))
    } else {
        None
    }
}

pub proof fn lemma_first_index(s: Seq<Seq<char>>, x: Seq<char>, i: int)
    requires
        is_first_at(s, x, i),
    ensures
        first_index(s, x) == Some(i),
{
    let k = choose|k: int| is_first_at(s, x, k);
    if k < i {
        assert(s[k] == x);
    } else if k > i {
        assert(s[i] == x);
    }
}

pub proof fn lemma_first_index_some(s: Seq<Seq<char>>, x: Seq<char>, j: int)
    requires
        0 <= j < s.len(),
        s[j] == x,
    ensures
        first_index(s, x) is Some,
    decreases j,
{
    if exists|k: int| 0 <= k < j && s[k] == x {
        let k = choose|k: int| 0 <= k < j && s[k] == x;
        lemma_first_index_some(s, x, k);
    } else {
        assert(is_first_at(s, x, j));
    }
}

pub proof fn lemma_first_index_none(s: Seq<Seq<char>>, x: Seq<char>)
    requires
        forall|j: int| 0 <= j < s.len() ==> s[j] != x,
    ensures
        first_index(s, x) is None,
{
}

/// The names of a table's columns.
pub open spec fn column_names(t: TableSchema) -> Seq<Seq<char>> {
    t.columns@.map_values(|c: ColumnSchema| c.name@)
}

/// The column names of the table registered under a name, if any.
pub open spec fn schema_columns(sch: Seq<(Seq<char>, Seq<Seq<char>>)>, t: Seq<char>) -> Option<Seq<Seq<char>>> {
    match first_index(sch.map_values(|p: (Seq<char>, Seq<Seq<char>>)| p.0), t) {
        Some(i) => Some(sch[i].1),
        None => None,
    }
}

/// The distinct column names that an expression reads, added to `acc` in
/// the order of their first occurrence.
pub open spec fn collect_cols(acc: Seq<Seq<char>>, e: ExprView) -> Seq<Seq<char>>
    decreases e,
{
    match e {
        ExprView::Column { name, .. } => if acc.contains(name) { acc } else { acc.push(name) },
        ExprView::BinaryOp { left, right, .. } => collect_cols(collect_cols(acc, *left), *right),
        ExprView::UnaryOp { expr, .. } => collect_cols(acc, *expr),
        ExprView::Function { args, .. } => collect_cols_seq(acc, args),
        ExprView::Literal(_) => acc,
    }
}

pub open spec fn collect_cols_seq(acc: Seq<Seq<char>>, args: Seq<ExprView>) -> Seq<Seq<char>>
    decreases args,
{
    if args.len() == 0 {
        acc
    } else {
        collect_cols(collect_cols_seq(acc, args.drop_last()), args.last())
    }
}

/// The distinct columns that a WHERE predicate reads.
pub open spec fn where_columns(e: ExprView) -> Seq<Seq<char>> {
    collect_cols(Seq::empty(), e)
}

/// Instructions that load the named columns found in `cols`, into
/// consecutive registers from `reg0`.
pub open spec fn column_loads(names: Seq<Seq<char>>, cols: Seq<Seq<char>>, cursor: usize, reg0: int) -> Seq<OpcodeView>
    decreases names.len(),
{
    if names.len() == 0 {
        Seq::empty()
    } else {
        let prev = column_loads(names.drop_last(), cols, cursor, reg0);
        match first_index(cols, names.last()) {
            Some(k) => prev.push(OpcodeView::Column {
                cursor_id: cursor,
                column_index: k as usize,
                register: (reg0 + prev.len()) as usize,
            }),
            None => prev,
        }
    }
}

pub proof fn lemma_column_loads_len(names: Seq<Seq<char>>, cols: Seq<Seq<char>>, cursor: usize, reg0: int)
    ensures
        column_loads(names, cols, cursor, reg0).len() <= names.len(),
    decreases names.len(),
{
    if names.len() > 0 {
        lemma_column_loads_len(names.drop_last(), cols, cursor, reg0);
    }
}

/// An instruction that consumes a row: emitting, updating or deleting it.
pub open spec fn is_row_sink(o: OpcodeView) -> bool {
    o is ResultRow || o is Update || o is Delete
}

pub open spec fn is_result_row(o: OpcodeView) -> bool {
    o is ResultRow
}

/// Kind 0 asks for a row-consuming instruction, kind 1 for a row emission.
pub open spec fn op_matches(o: OpcodeView, kind: int) -> bool {
    if kind == 0 { is_row_sink(o) } else { is_result_row(o) }
}

/// Whether `i` is the last position at or after `start` whose instruction
/// is of the kind.
pub open spec fn is_last_at(ops: Seq<OpcodeView>, start: int, kind: int, i: int) -> bool {
    &&& start <= i < ops.len()
    &&& op_matches(ops[i], kind)
    &&& forall|j: int| i < j < ops.len() ==> !op_matches(#[trigger] ops[j], kind)
}

/// The last position at or after `start` whose instruction is of the kind.
pub open spec fn last_where(ops: Seq<OpcodeView>, start: int, kind: int) -> Option<int> {
    if exists|i: int| is_last_at(ops, start, kind, i) {
        Some(choose|i: int| is_last_at(ops, start, kind, i))
    } else {
        None
    }
}

pub proof fn lemma_last_where(ops: Seq<OpcodeView>, start: int, kind: int, i: int)
    requires
        is_last_at(ops, start, kind, i),
    ensures
        last_where(ops, start, kind) == Some(i),
{
    let k = choose|k: int| is_last_at(ops, start, kind, k);
    if k < i {
        assert(op_matches(ops[i], kind));
    } else if k > i {
        assert(op_matches(ops[k], kind));
    }
}


// ---------------------------------------------------------------------
// What each plan node compiles to
// ---------------------------------------------------------------------

pub open spec fn internal(m: Seq<char>) -> ErrorView {
    ErrorView::Internal(m)
}

/// The loop that scans a table with cursor `c`, emitted at position `base`:
/// open, rewind, emit a row, advance, jump back to the row.
pub open spec fn scan_block(table: Seq<char>, c: usize, base: int) -> Seq<OpcodeView> {
    seq![
        OpcodeView::TableScan { table, cursor_id: c },
        OpcodeView::Rewind { cursor_id: c, jump_if_empty: PLACEHOLDER },
        OpcodeView::ResultRow { register_start: 0, register_count: 1 },
        OpcodeView::Next { cursor_id: c, jump_if_done: PLACEHOLDER },
        OpcodeView::Goto { target: (base + 2) as usize },
    ]
}

pub open spec fn scan_step(st: CompilerState, table: Seq<char>) -> core::result::Result<CompilerState, ErrorView> {
    if st.next_cursor == usize::MAX {
        Err(internal("Too many cursors"@))
    } else {
        Ok(CompilerState {
            ops: st.ops + scan_block(table, st.next_cursor, st.ops.len() as int),
            next_cursor: (st.next_cursor + 1) as usize,
            cursor: Some(st.next_cursor),
            table: Some(table),
            ..st
        })
    }
}

/// Loads of the WHERE columns for the current scan, when its table has a
/// schema.
pub open spec fn filter_loads(sch: Seq<(Seq<char>, Seq<Seq<char>>)>, st: CompilerState, wc: Seq<Seq<char>>) -> Seq<OpcodeView> {
    match (st.table, st.cursor) {
        (Some(t), Some(c)) => match schema_columns(sch, t) {
            Some(cols) => column_loads(wc, cols, c, st.next_register as int),
            None => Seq::empty(),
        },
        _ => Seq::empty(),
    }
}

/// A filter: before the last row-consuming instruction of its input, the
/// loads of the columns the predicate reads, then the filter itself,
/// placed as many positions after the loads' start as there are WHERE
/// columns.
pub open spec fn filter_step(
    sch: Seq<(Seq<char>, Seq<Seq<char>>)>,
    st: CompilerState,
    start: int,
    pred: ExprView,
) -> core::result::Result<CompilerState, ErrorView> {
    match last_where(st.ops, start, 0) {
        None => Ok(st),
        Some(idx) => {
            let wc = where_columns(pred);
            if wc.len() >= usize::MAX - st.next_register {
                Err(internal("Too many registers"@))
            } else {
                let loads = filter_loads(sch, st, wc);
                let ops2 = st.ops.take(idx) + loads + st.ops.skip(idx);
                let fidx = idx + wc.len();
                if fidx > ops2.len() {
                    Err(internal("Filter position out of range"@))
                } else {
                    Ok(CompilerState {
                        ops: ops2.insert(fidx, OpcodeView::Filter { condition: pred, jump_target: PLACEHOLDER }),
                        next_register: (st.next_register + loads.len()) as usize,
                        ..st
                    })
                }
            }
        },
    }
}

/// The column a projected column reads: its position in the current
/// table's schema, or else its own position in the projection.
pub open spec fn projected_index(sch: Seq<(Seq<char>, Seq<Seq<char>>)>, st: CompilerState, name: Seq<char>, i: int) -> int {
    match st.table {
        Some(t) => match schema_columns(sch, t) {
            Some(cols) => match first_index(cols, name) {
                Some(k) => k,
                None => i,
            },
            None => i,
        },
        None => i,
    }
}

/// The instructions that compute projected expressions into registers
/// 0, 1, ...: column loads for columns, evaluations for the rest.
pub open spec fn project_ops(sch: Seq<(Seq<char>, Seq<Seq<char>>)>, st: CompilerState, exprs: Seq<ExprView>) -> Seq<OpcodeView>
    decreases exprs.len(),
{
    if exprs.len() == 0 {
        Seq::empty()
    } else {
        let prev = project_ops(sch, st, exprs.drop_last());
        let i = exprs.len() - 1;
        match exprs.last() {
            ExprView::Column { name, .. } => match st.cursor {
                Some(c) => prev.push(OpcodeView::Column {
                    cursor_id: c,
                    column_index: projected_index(sch, st, name, i) as usize,
                    register: i as usize,
                }),
                None => prev,
            },
            e => prev.push(OpcodeView::Eval { expr: e, register: i as usize }),
        }
    }
}

/// A projection: before the last row emission of its input, the
/// instructions that compute the projected expressions; the emission then
/// covers as many registers.
pub open spec fn project_step(
    sch: Seq<(Seq<char>, Seq<Seq<char>>)>,
    st: CompilerState,
    start: int,
    exprs: Seq<ExprView>,
) -> core::result::Result<CompilerState, ErrorView> {
    match last_where(st.ops, start, 1) {
        None => Ok(st),
        Some(idx) => {
            let ops2 = st.ops.take(idx) + project_ops(sch, st, exprs) + st.ops.skip(idx);
            let ri = idx + exprs.len();
            if ri >= ops2.len() {
                Err(internal("Result row position out of range"@))
            } else {
                Ok(CompilerState {
                    ops: ops2.update(ri, OpcodeView::ResultRow { register_start: 0, register_count: exprs.len() as usize }),
                    ..st
                })
            }
        },
    }
}

/// The evaluations of one inserted row into registers 0, 1, ..., then the
/// insertion.
pub open spec fn row_ops(c: usize, row: Seq<ExprView>) -> Seq<OpcodeView> {
    Seq::new(row.len(), |i: int| OpcodeView::Eval { expr: row[i], register: i as usize })
        .push(OpcodeView::Insert { cursor_id: c, register_start: 0, register_count: row.len() as usize })
}

pub open spec fn rows_ops(c: usize, rows: Seq<Seq<ExprView>>) -> Seq<OpcodeView>
    decreases rows.len(),
{
    if rows.len() == 0 { Seq::empty() } else { rows_ops(c, rows.drop_last()) + row_ops(c, rows.last()) }
}

pub open spec fn insert_step(st: CompilerState, table: Seq<char>, rows: Seq<Seq<ExprView>>) -> core::result::Result<CompilerState, ErrorView> {
    if st.next_cursor == usize::MAX {
        Err(internal("Too many cursors"@))
    } else {
        Ok(CompilerState {
            ops: st.ops.push(OpcodeView::TableScan { table, cursor_id: st.next_cursor }) + rows_ops(st.next_cursor, rows),
            next_cursor: (st.next_cursor + 1) as usize,
            ..st
        })
    }
}

/// The (column position, expression) pairs of an UPDATE: positions from
/// the table's schema (0 for an unknown column), or else the assignments'
/// own positions.
pub open spec fn update_list(cols: Option<Seq<Seq<char>>>, a: Seq<(Seq<char>, ExprView)>) -> Seq<(usize, ExprView)> {
    match cols {
        Some(cs) => Seq::new(a.len(), |i: int| (
            match first_index(cs, a[i].0) { Some(k) => k as usize, None => 0usize },
            a[i].1,
        )),
        None => Seq::new(a.len(), |i: int| (i as usize, a[i].1)),
    }
}

/// The scan loop of an UPDATE (with its updates) or a DELETE (without):
/// open, rewind, then per row the WHERE column loads and filter, the body,
/// advance and jump back.
pub open spec fn modify_step(
    sch: Seq<(Seq<char>, Seq<Seq<char>>)>,
    st: CompilerState,
    table: Seq<char>,
    filter: Option<ExprView>,
    updates: Option<Seq<(usize, ExprView)>>,
) -> core::result::Result<CompilerState, ErrorView> {
    if st.next_cursor == usize::MAX {
        Err(internal("Too many cursors"@))
    } else {
        let c = st.next_cursor;
        let ops1 = st.ops.push(OpcodeView::TableScan { table, cursor_id: c })
            .push(OpcodeView::Rewind { cursor_id: c, jump_if_empty: PLACEHOLDER });
        let loop_start = ops1.len();
        match filter {
            Some(pred) if where_columns(pred).len() >= usize::MAX - st.next_register => Err(internal("Too many registers"@)),
            _ => {
                let loads = match filter {
                    Some(pred) => match schema_columns(sch, table) {
                        Some(cols) => column_loads(where_columns(pred), cols, c, st.next_register as int),
                        None => Seq::empty(),
                    },
                    None => Seq::empty(),
                };
                let ops2 = match filter {
                    Some(pred) => ops1 + loads.push(OpcodeView::Filter { condition: pred, jump_target: PLACEHOLDER }),
                    None => ops1,
                };
                let body = match updates {
                    Some(u) => OpcodeView::Update { cursor_id: c, updates: u },
                    None => OpcodeView::Delete { cursor_id: c },
                };
                Ok(CompilerState {
                    ops: ops2.push(body)
                        .push(OpcodeView::Next { cursor_id: c, jump_if_done: PLACEHOLDER })
                        .push(OpcodeView::Goto { target: loop_start as usize }),
                    next_cursor: (c + 1) as usize,
                    next_register: (st.next_register + loads.len()) as usize,
                    cursor: Some(c),
                    table: Some(table),
                })
            },
        }
    }
}

/// What compiling a plan does to the compiler's state.
pub open spec fn compile_spec(
    sch: Seq<(Seq<char>, Seq<Seq<char>>)>,
    st: CompilerState,
    p: PhysicalPlanView,
) -> core::result::Result<CompilerState, ErrorView>
    decreases p,
{
    match p {
        PhysicalPlanView::TableScan { table } => scan_step(st, table),
        PhysicalPlanView::IndexScan { .. } => Err(internal("Index scan compilation not yet implemented"@)),
        PhysicalPlanView::Filter { input, predicate } => match compile_spec(sch, st, *input) {
            Ok(s1) => filter_step(sch, s1, st.ops.len() as int, predicate),
            Err(e) => Err(e),
        },
        PhysicalPlanView::Project { input, expressions, .. } => match compile_spec(sch, st, *input) {
            Ok(s1) => project_step(sch, s1, st.ops.len() as int, expressions),
            Err(e) => Err(e),
        },
        PhysicalPlanView::Sort { input, order_by } => match compile_spec(sch, st, *input) {
            Ok(s1) => Ok(CompilerState { ops: s1.ops.push(OpcodeView::Sort { order_by }), ..s1 }),
            Err(e) => Err(e),
        },
        PhysicalPlanView::Limit { input, limit, offset } => match compile_spec(sch, st, *input) {
            Ok(s1) => if s1.next_register == usize::MAX {
                Err(internal("Too many registers"@))
            } else {
                Ok(CompilerState {
                    ops: s1.ops.push(OpcodeView::Limit { limit, offset, counter_register: s1.next_register }),
                    next_register: (s1.next_register + 1) as usize,
                    ..s1
                })
            },
            Err(e) => Err(e),
        },
        PhysicalPlanView::Insert { table, values, .. } => insert_step(st, table, values),
        PhysicalPlanView::Update { table, assignments, filter } =>
            modify_step(sch, st, table, filter, Some(update_list(schema_columns(sch, table), assignments))),
        PhysicalPlanView::Delete { table, filter } => modify_step(sch, st, table, filter, None),
    }
}

/// The first `Next` after position `i`.
pub open spec fn next_after(ops: Seq<OpcodeView>, i: int) -> Option<int> {
    if exists|j: int| i < j < ops.len() && ops[j] is Next && forall|k: int| i < k < j ==> !(ops[k] is Next) {
        Some(choose|j: int| i < j < ops.len() && ops[j] is Next && forall|k: int| i < k < j ==> !(ops[k] is Next))
    } else {
        None
    }
}

/// Instruction `i` with its placeholder jump patched: a rewind or an
/// advance jumps to the halt; a filter jumps to the next advance.
pub open spec fn patch_op(ops: Seq<OpcodeView>, i: int, halt: usize) -> OpcodeView {
    match ops[i] {
        OpcodeView::Rewind { cursor_id, jump_if_empty } =>
            if jump_if_empty >= 1000 { OpcodeView::Rewind { cursor_id, jump_if_empty: halt } } else { ops[i] },
        OpcodeView::Next { cursor_id, jump_if_done } =>
            if jump_if_done >= 1000 { OpcodeView::Next { cursor_id, jump_if_done: halt } } else { ops[i] },
        OpcodeView::Filter { condition, jump_target } => if jump_target >= 1000 {
            match next_after(ops, i) {
                Some(j) => OpcodeView::Filter { condition, jump_target: j as usize },
                None => ops[i],
            }
        } else {
            ops[i]
        },
        _ => ops[i],
    }
}

pub open spec fn patched(ops: Seq<OpcodeView>, halt: usize) -> Seq<OpcodeView> {
    Seq::new(ops.len(), |i: int| patch_op(ops, i, halt))
}

// ---------------------------------------------------------------------
// Exec helpers
// ---------------------------------------------------------------------

pub open spec fn schemas_of(v: Seq<(String, TableSchema)>) -> Seq<(Seq<char>, Seq<Seq<char>>)> {
    v.map_values(|p: (String, TableSchema)| (p.0@, column_names(p.1)))
}


pub proof fn lemma_exprs_view_index(es: Seq<Expr>)
    ensures
        exprs_view(es).len() == es.len(),
        forall|i: int| 0 <= i < es.len() ==> #[trigger] exprs_view(es)[i] == expr_view(es[i]),
    decreases es.len(),
{
    if es.len() > 0 {
        lemma_exprs_view_index(es.drop_last());
        lemma_exprs_view_push(es.drop_last(), es.last());
        assert(es.drop_last().push(es.last()) =~= es);
    }
}

/// The last position at or after `start` of an instruction of the kind.
fn find_last(ops: &Vec<Opcode>, start: usize, kind: u8) -> (r: Option<usize>)
    requires
        start <= ops.len(),
        kind < 2,
    ensures
        match (r, last_where(ops_view(ops@), start as int, kind as int)) {
            (Some(a), Some(b)) => a == b,
            (None, None) => true,
            _ => false,
        },
{
    let ghost v = ops_view(ops@);
    let mut i: usize = ops.len();
    while i > start
        invariant
            start <= i <= ops.len(),
            v == ops_view(ops@),
            kind < 2,
            forall|j: int| i <= j < ops.len() ==> !op_matches(#[trigger] v[j], kind as int),
        decreases i,
    {
        i = i - 1;
        let m = match &ops[i] {
            Opcode::ResultRow { .. } => true,
            Opcode::Update { .. } => kind == 0,
            Opcode::Delete { .. } => kind == 0,
            _ => false,
        };
        assert(v[i as int] == ops@[i as int]@);
        if m {
            proof { lemma_last_where(v, start as int, kind as int, i as int); }
            return Some(i);
        }
    }
    None
}

/// Loads of the named columns of a table, into registers from `reg0`.
fn load_columns(schema: &TableSchema, names: &Vec<String>, cursor: usize, reg0: usize) -> (r: Vec<Opcode>)
    requires
        names.len() < usize::MAX - reg0,
    ensures
        ops_view(r@) == column_loads(strings_view(names@), column_names(*schema), cursor, reg0 as int),
{
    let mut out: Vec<Opcode> = Vec::new();
    let mut k: usize = 0;
    while k < names.len()
        invariant
            k <= names.len(),
            names.len() < usize::MAX - reg0,
            ops_view(out@) == column_loads(strings_view(names@).take(k as int), column_names(*schema), cursor, reg0 as int),
        decreases names.len() - k,
    {
        proof {
            lemma_column_loads_len(strings_view(names@).take(k as int), column_names(*schema), cursor, reg0 as int);
            assert(strings_view(names@).take(k + 1).drop_last() =~= strings_view(names@).take(k as int));
        }
        let pos = column_position(schema, names[k].as_str());
        match pos {
            Some(ci) => {
                let op = Opcode::Column { cursor_id: cursor, column_index: ci, register: reg0 + out.len() };
                let ghost prev = out@;
                out.push(op);
                assert(ops_view(out@) =~= ops_view(prev).push(op@));
            },
            None => {},
        }
        k = k + 1;
    }
    assert(strings_view(names@).take(names.len() as int) =~= strings_view(names@));
    out
}

/// The schema registered under a table name, if any.
fn find_schema<'a>(schemas: &'a Vec<(String, TableSchema)>, table: &str) -> (r: Option<&'a TableSchema>)
    ensures
        match (r, schema_columns(schemas_of(schemas@), table@)) {
            (Some(t), Some(c)) => column_names(*t) == c,
            (None, None) => true,
            _ => false,
        },
{
    let ghost keys = schemas_of(schemas@).map_values(|p: (Seq<char>, Seq<Seq<char>>)| p.0);
    let mut i: usize = 0;
    while i < schemas.len()
        invariant
            i <= schemas.len(),
            keys == schemas_of(schemas@).map_values(|p: (Seq<char>, Seq<Seq<char>>)| p.0),
            keys.len() == schemas@.len(),
            forall|j: int| 0 <= j < i ==> keys[j] != table@,
        decreases schemas.len() - i,
    {
        assert(keys[i as int] == schemas@[i as int].0@);
        if str_eq(schemas[i].0.as_str(), table) {
            proof { lemma_first_index(keys, table@, i as int); }
            return Some(&schemas[i].1);
        }
        i = i + 1;
    }
    proof { lemma_first_index_none(keys, table@); }
    None
}

/// The position of a named column in a table.
fn column_position(schema: &TableSchema, name: &str) -> (r: Option<usize>)
    ensures
        match (r, first_index(column_names(*schema), name@)) {
            (Some(a), Some(b)) => a == b,
            (None, None) => true,
            _ => false,
        },
{
    let ghost names = column_names(*schema);
    let mut i: usize = 0;
    while i < schema.columns.len()
        invariant
            i <= schema.columns.len(),
            names == column_names(*schema),
            names.len() == schema.columns@.len(),
            forall|j: int| 0 <= j < i ==> names[j] != name@,
        decreases schema.columns.len() - i,
    {
        assert(names[i as int] == schema.columns@[i as int].name@);
        if str_eq(schema.columns[i].name.as_str(), name) {
            proof { lemma_first_index(names, name@, i as int); }
            return Some(i);
        }
        i = i + 1;
    }
    proof { lemma_first_index_none(names, name@); }
    None
}

/// Whether a list of names holds a name.
fn holds_name(v: &Vec<String>, name: &str) -> (b: bool)
    ensures
        b == strings_view(v@).contains(name@),
{
    let mut i: usize = 0;
    while i < v.len()
        invariant
            i <= v.len(),
            forall|j: int| 0 <= j < i ==> v@[j]@ != name@,
        decreases v.len() - i,
    {
        if str_eq(v[i].as_str(), name) {
            assert(strings_view(v@)[i as int] == name@);
            return true;
        }
        i = i + 1;
    }
    assert forall|x: Seq<char>| strings_view(v@).contains(x) implies x != name@ by {
        let j = choose|j: int| 0 <= j < strings_view(v@).len() && strings_view(v@)[j] == x;
        assert(strings_view(v@)[j] == v@[j]@);
    }
    false
}

/// Adds the distinct columns an expression reads to `columns`.
fn collect_columns(expr: &Expr, columns: &mut Vec<String>)
    ensures
        strings_view(final(columns)@) == collect_cols(strings_view(old(columns)@), expr@),
    decreases expr,
{
    match expr {
        Expr::Column { name, .. } => {
            if !holds_name(columns, name.as_str()) {
                columns.push(name.clone());
                assert(strings_view(columns@) =~= strings_view(old(columns)@).push(name@));
            }
        },
        Expr::BinaryOp { left, right, .. } => {
            collect_columns(&**left, columns);
            collect_columns(&**right, columns);
        },
        Expr::UnaryOp { expr: inner, .. } => {
            collect_columns(&**inner, columns);
        },
        Expr::Function { name, args } => {
            let ghost acc0 = strings_view(columns@);
            let mut i: usize = 0;
            while i < args.len()
                invariant
                    i <= args.len(),
                    acc0 == strings_view(old(columns)@),
                    *expr == (Expr::Function { name: *name, args: *args }),
                    strings_view(columns@) == collect_cols_seq(acc0, exprs_view(args@.subrange(0, i as int))),
                decreases args.len() - i,
            {
                proof {
                    let ghost me = *expr;
                    assert(decreases_to!(me => me->Function_args));
                    assert(decreases_to!(me->Function_args => me->Function_args@));
                    assert(decreases_to!(me->Function_args@ => me->Function_args@[i as int]));
                    assert(decreases_to!(*expr => args@[i as int]));
                    lemma_exprs_view_push(args@.subrange(0, i as int), args@[i as int]);
                    assert(args@.subrange(0, i as int).push(args@[i as int]) =~= args@.subrange(0, i + 1));
                    let s1 = exprs_view(args@.subrange(0, i + 1));
                    assert(s1.drop_last() =~= exprs_view(args@.subrange(0, i as int)));
                }
                collect_columns(&args[i], columns);
                i = i + 1;
            }
            assert(args@.subrange(0, args.len() as int) =~= args@);
        },
        Expr::Literal(_) => {},
    }
}


pub proof fn lemma_next_after(ops: Seq<OpcodeView>, i: int, j: int)
    requires
        i < j < ops.len(),
        ops[j] is Next,
        forall|k: int| i < k < j ==> !(ops[k] is Next),
    ensures
        next_after(ops, i) == Some(j),
{
    let c = choose|c: int| i < c < ops.len() && ops[c] is Next && forall|k: int| i < k < c ==> !(ops[k] is Next);
    if c < j {
        assert(ops[c] is Next);
    } else if c > j {
        assert(ops[j] is Next);
    }
}

/// The first position after `i` flagged as an advance.
fn next_index(flags: &Vec<bool>, i: usize, Ghost(v): Ghost<Seq<OpcodeView>>) -> (r: Option<usize>)
    requires
        flags@.len() == v.len(),
        forall|j: int| 0 <= j < v.len() ==> flags@[j] == (v[j] is Next),
    ensures
        match (r, next_after(v, i as int)) {
            (Some(a), Some(b)) => a == b,
            (None, None) => true,
            _ => false,
        },
{
    if i >= flags.len() {
        return None;
    }
    let mut j: usize = i + 1;
    while j < flags.len()
        invariant
            i < j <= flags@.len(),
            flags@.len() == v.len(),
            forall|k: int| 0 <= k < v.len() ==> flags@[k] == (v[k] is Next),
            forall|k: int| i < k < j ==> !(v[k] is Next),
        decreases flags.len() - j,
    {
        if flags[j] {
            proof { lemma_next_after(v, i as int, j as int); }
            return Some(j);
        }
        j = j + 1;
    }
    None
}

/// Inserts `items` at position `idx`, in order.
fn insert_all(ops: &mut Vec<Opcode>, idx: usize, items: Vec<Opcode>)
    requires
        idx <= old(ops).len(),
    ensures
        ops_view(final(ops)@) == ops_view(old(ops)@).take(idx as int) + ops_view(items@) + ops_view(old(ops)@).skip(idx as int),
{
    let ghost pre = ops_view(ops@);
    let ghost all = items@;
    let ghost n = all.len();
    let mut rest = items;
    let total: usize = rest.len();
    let mut k: usize = 0;
    while rest.len() > 0
        invariant
            n == all.len(),
            n == total,
            k + rest@.len() == n,
            rest@ == all.subrange(k as int, n as int),
            idx <= pre.len(),
            ops@.len() == pre.len() + k,
            ops_view(ops@) == pre.take(idx as int) + ops_view(all.take(k as int)) + pre.skip(idx as int),
        decreases rest.len(),
    {
        let item = rest.remove(0);
        let ghost before = ops@;
        let len = ops.len();
        ops.insert(idx + k, item);
        proof {
            assert(ops_view(ops@) =~= ops_view(before).insert(idx + k, item@));
            assert(all.take(k + 1) =~= all.take(k as int).push(item));
            assert(ops_view(all.take(k + 1)) =~= ops_view(all.take(k as int)).push(item@));
            assert(ops_view(ops@) =~= pre.take(idx as int) + ops_view(all.take(k + 1)) + pre.skip(idx as int));
        }
        k = k + 1;
    }
    assert(all.take(n as int) =~= all);
}

/// A copy of an ORDER BY list.
fn clone_order_by(v: &Vec<OrderBy>) -> (r: Vec<OrderBy>)
    ensures
        order_view(r@) == order_view(v@),
{
    let mut out: Vec<OrderBy> = Vec::new();
    let mut i: usize = 0;
    while i < v.len()
        invariant
            i <= v.len(),
            out@.len() == i,
            forall|j: int| 0 <= j < i ==> expr_view((#[trigger] out@[j]).expr) == expr_view(v@[j].expr)
                && out@[j].direction == v@[j].direction,
        decreases v.len() - i,
    {
        out.push(OrderBy { expr: v[i].expr.clone(), direction: v[i].direction });
        i = i + 1;
    }
    assert(order_view(out@) =~= order_view(v@));
    out
}

/// Whether compiling ended as specified: with the expected state on
/// success, and with the expected error otherwise.
pub open spec fn step_ok(r: Result<()>, after: CompilerState, expect: core::result::Result<CompilerState, ErrorView>) -> bool {
    match expect {
        Ok(s) => r is Ok && after == s,
        Err(e) => r matches Err(x) && x@ == e,
    }
}

impl VMCompiler {
    /// The compiler's state.
    pub closed spec fn state(&self) -> CompilerState {
        CompilerState {
            ops: ops_view(self.opcodes@),
            next_cursor: self.next_cursor,
            next_register: self.next_register,
            cursor: self.current_cursor,
            table: crate::sql::ast::opt_str_view(self.current_table),
        }
    }

    /// The registered table schemas: each table's name and column names.
    pub closed spec fn schemas(&self) -> Seq<(Seq<char>, Seq<Seq<char>>)> {
        schemas_of(self.table_schemas@)
    }

    /// Create a new VM compiler
    pub fn new() -> (c: Self)
        ensures
            c.state() == (CompilerState { ops: Seq::empty(), next_cursor: 0, next_register: 0, cursor: None, table: None }),
            c.schemas() == Seq::<(Seq<char>, Seq<Seq<char>>)>::empty(),
    {
        let c = VMCompiler {
            opcodes: Vec::new(),
            next_cursor: 0,
            next_register: 0,
            current_cursor: None,
            current_table: None,
            table_schemas: Vec::new(),
        };
        assert(c.state().ops =~= Seq::<OpcodeView>::empty());
        assert(c.schemas() =~= Seq::<(Seq<char>, Seq<Seq<char>>)>::empty());
        c
    }

    /// Set table schemas for column resolution, by table name
    pub fn set_table_schemas(&mut self, schemas: Vec<(String, TableSchema)>)
        ensures
            final(self).schemas() == schemas_of(schemas@),
            final(self).state() == old(self).state(),
    {
        self.table_schemas = schemas;
    }

    fn push_op(&mut self, op: Opcode)
        ensures
            final(self).state() == (CompilerState { ops: old(self).state().ops.push(op@), ..old(self).state() }),
            final(self).schemas() == old(self).schemas(),
    {
        self.opcodes.push(op);
        assert(ops_view(self.opcodes@) =~= ops_view(old(self).opcodes@).push(op@));
    }

    /// Compile table scan
    fn compile_table_scan(&mut self, table: &str) -> (r: Result<()>)
        ensures
            step_ok(r, final(self).state(), scan_step(old(self).state(), table@)),
            final(self).schemas() == old(self).schemas(),
    {
        if self.next_cursor == usize::MAX {
            return Err(Error::Internal(string_of("Too many cursors")));
        }
        let cursor_id = self.next_cursor;
        self.next_cursor = cursor_id + 1;
        self.current_cursor = Some(cursor_id);
        self.current_table = Some(string_of(table));
        let ghost base = self.state().ops;
        self.push_op(Opcode::TableScan { table: string_of(table), cursor_id });
        self.push_op(Opcode::Rewind { cursor_id, jump_if_empty: PLACEHOLDER });
        let loop_start = self.opcodes.len();
        self.push_op(Opcode::ResultRow { register_start: 0, register_count: 1 });
        self.push_op(Opcode::Next { cursor_id, jump_if_done: PLACEHOLDER });
        self.push_op(Opcode::Goto { target: loop_start });
        assert(self.state().ops =~= base + scan_block(table@, cursor_id, base.len() as int));
        Ok(())
    }

    /// The instructions that compute projected expressions.
    fn project_instructions(&self, expressions: &Vec<Expr>) -> (r: Vec<Opcode>)
        ensures
            ops_view(r@) == project_ops(self.schemas(), self.state(), expressions@.map_values(|e: Expr| expr_view(e))),
    {
        let ghost ev = expressions@.map_values(|e: Expr| expr_view(e));
        let mut out: Vec<Opcode> = Vec::new();
        let mut i: usize = 0;
        while i < expressions.len()
            invariant
                i <= expressions.len(),
                ev == expressions@.map_values(|e: Expr| expr_view(e)),
                ops_view(out@) == project_ops(self.schemas(), self.state(), ev.take(i as int)),
            decreases expressions.len() - i,
        {
            proof {
                assert(ev.take(i + 1).drop_last() =~= ev.take(i as int));
                assert(ev.take(i + 1).last() == expr_view(expressions@[i as int]));
            }
            let ghost prev = out@;
            match &expressions[i] {
                Expr::Column { name, .. } => {
                    let column_index: usize = match &self.current_table {
                        Some(t) => match find_schema(&self.table_schemas, t.as_str()) {
                            Some(schema) => match column_position(schema, name.as_str()) {
                                Some(k) => k,
                                None => i,
                            },
                            None => i,
                        },
                        None => i,
                    };
                    match self.current_cursor {
                        Some(cursor_id) => {
                            let op = Opcode::Column { cursor_id, column_index, register: i };
                            out.push(op);
                            assert(ops_view(out@) =~= ops_view(prev).push(op@));
                        },
                        None => {},
                    }
                },
                e => {
                    let op = Opcode::Eval { expr: e.clone(), register: i };
                    out.push(op);
                    assert(ops_view(out@) =~= ops_view(prev).push(op@));
                },
            }
            i = i + 1;
        }
        assert(ev.take(expressions.len() as int) =~= ev);
        out
    }

    /// Compile a filter (WHERE clause) over the input compiled from
    /// position `start`: the columns the predicate reads are loaded into
    /// registers, then the filter is placed before the row is consumed.
    fn compile_filter(&mut self, start: usize, predicate: &Expr) -> (r: Result<()>)
        requires
            start <= old(self).state().ops.len(),
        ensures
            step_ok(r, final(self).state(), filter_step(old(self).schemas(), old(self).state(), start as int, predicate@)),
            final(self).schemas() == old(self).schemas(),
    {
        let idx = match find_last(&self.opcodes, start, 0) {
            Some(i) => i,
            None => { return Ok(()); },
        };
        let mut wc: Vec<String> = Vec::new();
        assert(strings_view(wc@) =~= Seq::<Seq<char>>::empty());
        collect_columns(predicate, &mut wc);
        if wc.len() >= usize::MAX - self.next_register {
            return Err(Error::Internal(string_of("Too many registers")));
        }
        let ghost st = self.state();
        let loads: Vec<Opcode> = match (&self.current_table, self.current_cursor) {
            (Some(t), Some(c)) => match find_schema(&self.table_schemas, t.as_str()) {
                Some(schema) => load_columns(schema, &wc, c, self.next_register),
                None => Vec::new(),
            },
            _ => Vec::new(),
        };
        proof {
            assert(ops_view(loads@) =~= filter_loads(self.schemas(), st, strings_view(wc@)));
            match (st.table, st.cursor) {
                (Some(t), Some(c)) => match schema_columns(self.schemas(), t) {
                    Some(cols) => lemma_column_loads_len(strings_view(wc@), cols, c, st.next_register as int),
                    None => {},
                },
                _ => {},
            }
        }
        self.next_register = self.next_register + loads.len();
        insert_all(&mut self.opcodes, idx, loads);
        if wc.len() > self.opcodes.len() - idx {
            return Err(Error::Internal(string_of("Filter position out of range")));
        }
        let filter_idx = idx + wc.len();
        let op = Opcode::Filter { condition: predicate.clone(), jump_target: PLACEHOLDER };
        let ghost before = self.opcodes@;
        self.opcodes.insert(filter_idx, op);
        assert(ops_view(self.opcodes@) =~= ops_view(before).insert(filter_idx as int, op@));
        Ok(())
    }

    /// Compile a projection over the input compiled from position `start`
    fn compile_project(&mut self, start: usize, expressions: &Vec<Expr>) -> (r: Result<()>)
        requires
            start <= old(self).state().ops.len(),
        ensures
            step_ok(r, final(self).state(), project_step(old(self).schemas(), old(self).state(), start as int,
                expressions@.map_values(|e: Expr| expr_view(e)))),
            final(self).schemas() == old(self).schemas(),
    {
        let idx = match find_last(&self.opcodes, start, 1) {
            Some(i) => i,
            None => { return Ok(()); },
        };
        let ops = self.project_instructions(expressions);
        insert_all(&mut self.opcodes, idx, ops);
        let n = expressions.len();
        if n >= self.opcodes.len() - idx {
            return Err(Error::Internal(string_of("Result row position out of range")));
        }
        let ri = idx + n;
        let op = Opcode::ResultRow { register_start: 0, register_count: n };
        let ghost before = self.opcodes@;
        self.opcodes.set(ri, op);
        assert(ops_view(self.opcodes@) =~= ops_view(before).update(ri as int, op@));
        Ok(())
    }

    /// Compile a sort (ORDER BY) after its input
    fn compile_sort(&mut self, order_by: &Vec<OrderBy>)
        ensures
            final(self).state() == (CompilerState {
                ops: old(self).state().ops.push(OpcodeView::Sort { order_by: order_view(order_by@) }),
                ..old(self).state()
            }),
            final(self).schemas() == old(self).schemas(),
    {
        self.push_op(Opcode::Sort { order_by: clone_order_by(order_by) });
    }

    /// Compile a limit (LIMIT/OFFSET) after its input
    fn compile_limit(&mut self, limit: usize, offset: usize) -> (r: Result<()>)
        ensures
            old(self).state().next_register == usize::MAX ==> (r matches Err(e) && e@ == internal("Too many registers"@)),
            old(self).state().next_register < usize::MAX ==> r is Ok && final(self).state() == (CompilerState {
                ops: old(self).state().ops.push(OpcodeView::Limit { limit, offset, counter_register: old(self).state().next_register }),
                next_register: (old(self).state().next_register + 1) as usize,
                ..old(self).state()
            }),
            final(self).schemas() == old(self).schemas(),
    {
        if self.next_register == usize::MAX {
            return Err(Error::Internal(string_of("Too many registers")));
        }
        let counter_register = self.next_register;
        self.next_register = counter_register + 1;
        self.push_op(Opcode::Limit { limit, offset, counter_register });
        Ok(())
    }

    /// Compile INSERT
    fn compile_insert(&mut self, table: &str, values: &Vec<Vec<Expr>>) -> (r: Result<()>)
        ensures
            step_ok(r, final(self).state(), insert_step(old(self).state(), table@, rows_view(values@))),
            final(self).schemas() == old(self).schemas(),
    {
        if self.next_cursor == usize::MAX {
            return Err(Error::Internal(string_of("Too many cursors")));
        }
        let cursor_id = self.next_cursor;
        self.next_cursor = cursor_id + 1;
        self.push_op(Opcode::TableScan { table: string_of(table), cursor_id });
        let ghost base = self.state();
        let ghost rv = rows_view(values@);
        let mut r: usize = 0;
        while r < values.len()
            invariant
                r <= values.len(),
                rv == rows_view(values@),
                self.schemas() == old(self).schemas(),
                self.state() == (CompilerState { ops: base.ops + rows_ops(cursor_id, rv.take(r as int)), ..base }),
            decreases values.len() - r,
        {
            let row = &values[r];
            proof { lemma_exprs_view_index(row@); }
            let ghost row_v = exprs_view(row@);
            let ghost mid = self.state().ops;
            let mut i: usize = 0;
            while i < row.len()
                invariant
                    i <= row.len(),
                    row_v == exprs_view(row@),
                    row_v.len() == row@.len(),
                    forall|k: int| 0 <= k < row@.len() ==> #[trigger] row_v[k] == expr_view(row@[k]),
                    self.schemas() == old(self).schemas(),
                    self.state() == (CompilerState {
                        ops: mid + Seq::new(i as nat, |k: int| OpcodeView::Eval { expr: row_v[k], register: k as usize }),
                        ..base
                    }),
                decreases row.len() - i,
            {
                self.push_op(Opcode::Eval { expr: row[i].clone(), register: i });
                assert(self.state().ops =~= mid + Seq::new((i + 1) as nat, |k: int| OpcodeView::Eval { expr: row_v[k], register: k as usize }));
                i = i + 1;
            }
            self.push_op(Opcode::Insert { cursor_id, register_start: 0, register_count: row.len() });
            proof {
                assert(rv.take(r + 1).drop_last() =~= rv.take(r as int));
                assert(rv[r as int] == row_v);
                assert(self.state().ops =~= base.ops + rows_ops(cursor_id, rv.take(r + 1)));
            }
            r = r + 1;
        }
        assert(rv.take(values.len() as int) =~= rv);
        Ok(())
    }

    /// The (column position, expression) pairs of an UPDATE's assignments.
    fn build_updates(schema: Option<&TableSchema>, assignments: &Vec<(String, Expr)>) -> (r: Vec<(usize, Expr)>)
        ensures
            updates_view(r@) == update_list(
                match schema { Some(t) => Some(column_names(*t)), None => None },
                assignments_view(assignments@),
            ),
    {
        let ghost cols = match schema { Some(t) => Some(column_names(*t)), None => None };
        let ghost av = assignments_view(assignments@);
        let ghost target = update_list(cols, av);
        let mut out: Vec<(usize, Expr)> = Vec::new();
        let mut i: usize = 0;
        while i < assignments.len()
            invariant
                i <= assignments.len(),
                cols == (match schema { Some(t) => Some(column_names(*t)), None => None }),
                av == assignments_view(assignments@),
                target == update_list(cols, av),
                out@.len() == i,
                forall|j: int| 0 <= j < i ==> (#[trigger] out@[j]).0 == target[j].0 && expr_view(out@[j].1) == target[j].1,
            decreases assignments.len() - i,
        {
            let position: usize = match schema {
                Some(t) => match column_position(t, assignments[i].0.as_str()) {
                    Some(k) => k,
                    None => 0,
                },
                None => i,
            };
            out.push((position, assignments[i].1.clone()));
            i = i + 1;
        }
        assert(updates_view(out@) =~= target);
        out
    }

    /// Compile the scan loop of an UPDATE (with assignments) or a DELETE
    fn compile_modify(&mut self, table: &str, filter: &Option<Expr>, assignments: Option<&Vec<(String, Expr)>>) -> (r: Result<()>)
        ensures
            step_ok(r, final(self).state(), modify_step(old(self).schemas(), old(self).state(), table@,
                crate::sql::ast::opt_expr_view(*filter),
                match assignments {
                    Some(a) => Some(update_list(schema_columns(old(self).schemas(), table@), assignments_view(a@))),
                    None => None,
                })),
            final(self).schemas() == old(self).schemas(),
    {
        if self.next_cursor == usize::MAX {
            return Err(Error::Internal(string_of("Too many cursors")));
        }
        let mut wc: Vec<String> = Vec::new();
        assert(strings_view(wc@) =~= Seq::<Seq<char>>::empty());
        match filter {
            Some(pred) => {
                collect_columns(pred, &mut wc);
                if wc.len() >= usize::MAX - self.next_register {
                    return Err(Error::Internal(string_of("Too many registers")));
                }
            },
            None => {},
        }
        let ghost st = self.state();
        let cursor_id = self.next_cursor;
        self.next_cursor = cursor_id + 1;
        self.current_cursor = Some(cursor_id);
        self.current_table = Some(string_of(table));
        self.push_op(Opcode::TableScan { table: string_of(table), cursor_id });
        self.push_op(Opcode::Rewind { cursor_id, jump_if_empty: PLACEHOLDER });
        let loop_start = self.opcodes.len();
        let ghost ops1 = self.state().ops;
        let schema = find_schema(&self.table_schemas, table);
        assert(match schema { Some(t) => Some(column_names(*t)), None => None } == schema_columns(self.schemas(), table@));
        let body = match assignments {
            Some(a) => Opcode::Update { cursor_id, updates: Self::build_updates(schema, a) },
            None => Opcode::Delete { cursor_id },
        };
        let loads: Vec<Opcode> = match (filter, schema) {
            (Some(_), Some(t)) => load_columns(t, &wc, cursor_id, self.next_register),
            _ => Vec::new(),
        };
        match filter {
            Some(pred) => {
                proof {
                    match schema_columns(self.schemas(), table@) {
                        Some(cols) => lemma_column_loads_len(strings_view(wc@), cols, cursor_id, st.next_register as int),
                        None => { assert(ops_view(loads@) =~= Seq::<OpcodeView>::empty()); },
                    }
                }
                self.next_register = self.next_register + loads.len();
                let end = self.opcodes.len();
                let ghost pre = ops_view(self.opcodes@);
                let ghost lv = ops_view(loads@);
                insert_all(&mut self.opcodes, end, loads);
                assert(pre.skip(end as int) =~= Seq::<OpcodeView>::empty());
                assert(pre.take(end as int) =~= pre);
                assert(ops_view(self.opcodes@) =~= pre + lv);
                self.push_op(Opcode::Filter { condition: pred.clone(), jump_target: PLACEHOLDER });
                assert(self.state().ops =~= ops1 + lv.push(OpcodeView::Filter { condition: pred@, jump_target: PLACEHOLDER }));
            },
            None => {},
        }
        self.push_op(body);
        self.push_op(Opcode::Next { cursor_id, jump_if_done: PLACEHOLDER });
        self.push_op(Opcode::Goto { target: loop_start });
        Ok(())
    }


    /// Compile a physical plan node
    fn compile_plan(&mut self, plan: &PhysicalPlan) -> (r: Result<()>)
        ensures
            step_ok(r, final(self).state(), compile_spec(old(self).schemas(), old(self).state(), plan@)),
            final(self).schemas() == old(self).schemas(),
            r is Ok ==> final(self).state().ops.len() >= old(self).state().ops.len(),
        decreases plan,
    {
        proof { reveal_with_fuel(crate::planner::physical::physical_view, 2); }
        match plan {
            PhysicalPlan::TableScan { table } => self.compile_table_scan(table.as_str()),
            PhysicalPlan::IndexScan { .. } => {
                Err(Error::Internal(string_of("Index scan compilation not yet implemented")))
            },
            PhysicalPlan::Filter { input, predicate } => {
                let start = self.opcodes.len();
                match self.compile_plan(&**input) {
                    Err(e) => { return Err(e); },
                    Ok(_) => {},
                }
                self.compile_filter(start, predicate)
            },
            PhysicalPlan::Project { input, expressions, .. } => {
                let start = self.opcodes.len();
                match self.compile_plan(&**input) {
                    Err(e) => { return Err(e); },
                    Ok(_) => {},
                }
                self.compile_project(start, expressions)
            },
            PhysicalPlan::Sort { input, order_by } => {
                match self.compile_plan(&**input) {
                    Err(e) => { return Err(e); },
                    Ok(_) => {},
                }
                self.compile_sort(order_by);
                Ok(())
            },
            PhysicalPlan::Limit { input, limit, offset } => {
                match self.compile_plan(&**input) {
                    Err(e) => { return Err(e); },
                    Ok(_) => {},
                }
                self.compile_limit(*limit, *offset)
            },
            PhysicalPlan::Insert { table, values, .. } => self.compile_insert(table.as_str(), values),
            PhysicalPlan::Update { table, assignments, filter } => self.compile_modify(table.as_str(), filter, Some(assignments)),
            PhysicalPlan::Delete { table, filter } => self.compile_modify(table.as_str(), filter, None),
        }
    }

    /// Patch placeholder jump targets: rewinds and advances jump to the
    /// halt, filters to the first advance after them
    fn patch_jump_targets(&mut self, halt_position: usize)
        ensures
            final(self).state() == (CompilerState { ops: patched(old(self).state().ops, halt_position), ..old(self).state() }),
            final(self).schemas() == old(self).schemas(),
    {
        let ghost v = ops_view(self.opcodes@);
        let mut flags: Vec<bool> = Vec::new();
        let mut i: usize = 0;
        while i < self.opcodes.len()
            invariant
                i <= self.opcodes@.len(),
                v == ops_view(self.opcodes@),
                flags@.len() == i,
                forall|k: int| 0 <= k < i ==> flags@[k] == (v[k] is Next),
            decreases self.opcodes.len() - i,
        {
            let is_next = match &self.opcodes[i] {
                Opcode::Next { .. } => true,
                _ => false,
            };
            flags.push(is_next);
            i = i + 1;
        }
        let mut rest: Vec<Opcode> = Vec::new();
        core::mem::swap(&mut rest, &mut self.opcodes);
        let ghost all = rest@;
        let ghost n = all.len();
        let ghost target = patched(v, halt_position);
        let total: usize = rest.len();
        let mut k: usize = 0;
        while rest.len() > 0
            invariant
                n == all.len(),
                n == total,
                v == ops_view(all),
                target == patched(v, halt_position),
                flags@.len() == n,
                forall|j: int| 0 <= j < n ==> flags@[j] == (v[j] is Next),
                k + rest@.len() == n,
                rest@ == all.subrange(k as int, n as int),
                self.opcodes@.len() == k,
                forall|j: int| 0 <= j < k ==> (#[trigger] self.opcodes@[j])@ == target[j],
                self.next_cursor == old(self).next_cursor,
                self.next_register == old(self).next_register,
                self.current_cursor == old(self).current_cursor,
                self.current_table == old(self).current_table,
                self.table_schemas == old(self).table_schemas,
            decreases rest.len(),
        {
            let op = rest.remove(0);
            assert(v[k as int] == op@);
            let new_op = match op {
                Opcode::Rewind { cursor_id, jump_if_empty } => {
                    if jump_if_empty >= 1000 {
                        Opcode::Rewind { cursor_id, jump_if_empty: halt_position }
                    } else {
                        Opcode::Rewind { cursor_id, jump_if_empty }
                    }
                },
                Opcode::Next { cursor_id, jump_if_done } => {
                    if jump_if_done >= 1000 {
                        Opcode::Next { cursor_id, jump_if_done: halt_position }
                    } else {
                        Opcode::Next { cursor_id, jump_if_done }
                    }
                },
                Opcode::Filter { condition, jump_target } => {
                    if jump_target >= 1000 {
                        match next_index(&flags, k, Ghost(v)) {
                            Some(j) => Opcode::Filter { condition, jump_target: j },
                            None => Opcode::Filter { condition, jump_target },
                        }
                    } else {
                        Opcode::Filter { condition, jump_target }
                    }
                },
                other => other,
            };
            self.opcodes.push(new_op);
            k = k + 1;
        }
        assert(ops_view(self.opcodes@) =~= target);
    }

    /// Compile a physical plan to a VM program ending in a halt
    pub fn compile(&mut self, plan: &PhysicalPlan) -> (r: Result<Program>)
        ensures
            final(self).schemas() == old(self).schemas(),
            match compile_spec(old(self).schemas(), old(self).state(), plan@) {
                Ok(s) => r matches Ok(p)
                    && ops_view(p.opcodes@) == patched(s.ops.push(OpcodeView::Halt), s.ops.len() as usize)
                    && final(self).state() == (CompilerState { ops: Seq::empty(), ..s }),
                Err(e) => r matches Err(x) && x@ == e,
            },
    {
        match self.compile_plan(plan) {
            Err(e) => { return Err(e); },
            Ok(_) => {},
        }
        let halt_position = self.opcodes.len();
        self.push_op(Opcode::Halt);
        self.patch_jump_targets(halt_position);
        let mut opcodes: Vec<Opcode> = Vec::new();
        core::mem::swap(&mut opcodes, &mut self.opcodes);
        assert(self.state().ops =~= Seq::<OpcodeView>::empty());
        Ok(Program { opcodes })
    }

}

impl Default for VMCompiler {
    fn default() -> (c: Self)
        ensures
            c.state() == (CompilerState { ops: Seq::empty(), next_cursor: 0, next_register: 0, cursor: None, table: None }),
    {
        Self::new()
    }
}

} // verus!
