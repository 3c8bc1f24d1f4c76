//! VM instructions, as the compiler emits them, and programs.
use vstd::prelude::*;
use crate::sql::ast::{Expr, ExprView, OrderBy, OrderDirection, expr_view};
use crate::planner::logical::order_view;

verus! {

/// One VM instruction
#[derive(Debug, PartialEq)]
pub enum Opcode {
    /// Open a cursor on a table
    TableScan { table: String, cursor_id: usize },
    /// Move a cursor to its first row, or jump when the table is empty
    Rewind { cursor_id: usize, jump_if_empty: usize },
    /// Move a cursor to its next row, or jump when it is done
    Next { cursor_id: usize, jump_if_done: usize },
    /// Jump
    Goto { target: usize },
    /// Load a column of the current row into a register
    Column { cursor_id: usize, column_index: usize, register: usize },
    /// Evaluate an expression into a register
    Eval { expr: Expr, register: usize },
    /// Jump unless a condition holds
    Filter { condition: Expr, jump_target: usize },
    /// Emit a row from a range of registers
    ResultRow { register_start: usize, register_count: usize },
    /// Sort the result rows
    Sort { order_by: Vec<OrderBy> },
    /// Limit the result rows
    Limit { limit: usize, offset: usize, counter_register: usize },
    /// Insert a row from a range of registers
    Insert { cursor_id: usize, register_start: usize, register_count: usize },
    /// Update columns of the current row
    Update { cursor_id: usize, updates: Vec<(usize, Expr)> },
    /// Delete the current row
    Delete { cursor_id: usize },
    /// Stop
    Halt,
}

/// A compiled program
#[derive(Debug)]
pub struct Program {
    /// The instructions
    pub opcodes: Vec<Opcode>,
}

/// The mathematical content of an instruction.
pub enum OpcodeView {
    TableScan { table: Seq<char>, cursor_id: usize },
    Rewind { cursor_id: usize, jump_if_empty: usize },
    Next { cursor_id: usize, jump_if_done: usize },
    Goto { target: usize },
    Column { cursor_id: usize, column_index: usize, register: usize },
    Eval { expr: ExprView, register: usize },
    Filter { condition: ExprView, jump_target: usize },
    ResultRow { register_start: usize, register_count: usize },
    Sort { order_by: Seq<(ExprView, OrderDirection)> },
    Limit { limit: usize, offset: usize, counter_register: usize },
    Insert { cursor_id: usize, register_start: usize, register_count: usize },
    Update { cursor_id: usize, updates: Seq<(usize, ExprView)> },
    Delete { cursor_id: usize },
    Halt,
}

pub open spec fn updates_view(u: Seq<(usize, Expr)>) -> Seq<(usize, ExprView)> {
    u.map_values(|p: (usize, Expr)| (p.0, expr_view(p.1)))
}

impl View for Opcode {
    type V = OpcodeView;

    open spec fn view(&self) -> OpcodeView {
        match self {
            Opcode::TableScan { table, cursor_id } => OpcodeView::TableScan { table: table@, cursor_id: *cursor_id },
            Opcode::Rewind { cursor_id, jump_if_empty } =>
                OpcodeView::Rewind { cursor_id: *cursor_id, jump_if_empty: *jump_if_empty },
            Opcode::Next { cursor_id, jump_if_done } => OpcodeView::Next { cursor_id: *cursor_id, jump_if_done: *jump_if_done },
            Opcode::Goto { target } => OpcodeView::Goto { target: *target },
            Opcode::Column { cursor_id, column_index, register } =>
                OpcodeView::Column { cursor_id: *cursor_id, column_index: *column_index, register: *register },
            Opcode::Eval { expr, register } => OpcodeView::Eval { expr: expr_view(*expr), register: *register },
            Opcode::Filter { condition, jump_target } =>
                OpcodeView::Filter { condition: expr_view(*condition), jump_target: *jump_target },
            Opcode::ResultRow { register_start, register_count } =>
                OpcodeView::ResultRow { register_start: *register_start, register_count: *register_count },
            Opcode::Sort { order_by } => OpcodeView::Sort { order_by: order_view(order_by@) },
            Opcode::Limit { limit, offset, counter_register } =>
                OpcodeView::Limit { limit: *limit, offset: *offset, counter_register: *counter_register },
            Opcode::Insert { cursor_id, register_start, register_count } => OpcodeView::Insert {
                cursor_id: *cursor_id,
                register_start: *register_start,
                register_count: *register_count,
            },
            Opcode::Update { cursor_id, updates } => OpcodeView::Update { cursor_id: *cursor_id, updates: updates_view(updates@) },
            Opcode::Delete { cursor_id } => OpcodeView::Delete { cursor_id: *cursor_id },
            Opcode::Halt => OpcodeView::Halt,
        }
    }
}

/// The views of a sequence of instructions.
pub open spec fn ops_view(ops: Seq<Opcode>) -> Seq<OpcodeView> {
    ops.map_values(|o: Opcode| o@)
}

} // verus!
