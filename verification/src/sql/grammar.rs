//! The SQL grammar that the parser follows, as spec functions over the
//! sequence of token types.
//!
//! Each function reads from a position and gives what it read with the
//! position after it, or the error the parser reports.  Reading past a token
//! moves to the next one, except at the last token, where the position
//! stays.
use vstd::prelude::*;
use crate::error::ErrorView;
use crate::sql::ast::{
    BinaryOperator, ColumnConstraintView, ColumnDefView, CreateTableView, DataType, DeleteView,
    ExprView, InsertView, LiteralView, OrderDirection, SelectColumnView, SelectView, StatementView,
    UnaryOperator, UpdateView,
};
use crate::sql::lexer::{char_at, operator_at};
use crate::sql::tokens::{TokenType, TokenTypeView, upper_case};
use crate::text::{push_str, spec_parse_i64, string_of};

verus! {

/// The text that `{:?}` gives for a string: the string in double quotes,
/// with its special characters escaped.
pub uninterp spec fn str_debug(s: Seq<char>) -> Seq<char>;

/// The `{:?}` text of a string (the `Debug` of `str`), as `format!` writes
/// it.  It is a function of the string alone, named `str_debug`; the
/// escaping rules are not restated.
#[verifier::external_body]
fn string_debug(s: &str) -> (r: String)
    ensures
        r@ == str_debug(s@),
{
    format!("{:?}", s)
}

/// The `{:?}` text of a token type: its variant's name, and for a token
/// with text, that text's `{:?}` in parentheses.
pub open spec fn token_debug(t: TokenTypeView) -> Seq<char> {
    match t {
        TokenTypeView::Select => "Select"@,
        TokenTypeView::From => "From"@,
        TokenTypeView::Where => "Where"@,
        TokenTypeView::Insert => "Insert"@,
        TokenTypeView::Into => "Into"@,
        TokenTypeView::Values => "Values"@,
        TokenTypeView::Update => "Update"@,
        TokenTypeView::SetKeyword => "SetKeyword"@,
        TokenTypeView::Delete => "Delete"@,
        TokenTypeView::Create => "Create"@,
        TokenTypeView::Table => "Table"@,
        TokenTypeView::Order => "Order"@,
        TokenTypeView::By => "By"@,
        TokenTypeView::GroupBy => "GroupBy"@,
        TokenTypeView::Group => "Group"@,
        TokenTypeView::Having => "Having"@,
        TokenTypeView::Limit => "Limit"@,
        TokenTypeView::Offset => "Offset"@,
        TokenTypeView::And => "And"@,
        TokenTypeView::Or => "Or"@,
        TokenTypeView::Not => "Not"@,
        TokenTypeView::As => "As"@,
        TokenTypeView::Distinct => "Distinct"@,
        TokenTypeView::Join => "Join"@,
        TokenTypeView::Inner => "Inner"@,
        TokenTypeView::Left => "Left"@,
        TokenTypeView::Right => "Right"@,
        TokenTypeView::On => "On"@,
        TokenTypeView::Integer => "Integer"@,
        TokenTypeView::Real => "Real"@,
        TokenTypeView::Text => "Text"@,
        TokenTypeView::Blob => "Blob"@,
        TokenTypeView::Number(s) => "Number("@ + str_debug(s) + ")"@,
        TokenTypeView::String(s) => "String("@ + str_debug(s) + ")"@,
        TokenTypeView::Null => "Null"@,
        TokenTypeView::True => "True"@,
        TokenTypeView::False => "False"@,
        TokenTypeView::Identifier(s) => "Identifier("@ + str_debug(s) + ")"@,
        TokenTypeView::Equal => "Equal"@,
        TokenTypeView::NotEqual => "NotEqual"@,
        TokenTypeView::Less => "Less"@,
        TokenTypeView::LessEqual => "LessEqual"@,
        TokenTypeView::Greater => "Greater"@,
        TokenTypeView::GreaterEqual => "GreaterEqual"@,
        TokenTypeView::Plus => "Plus"@,
        TokenTypeView::Minus => "Minus"@,
        TokenTypeView::Star => "Star"@,
        TokenTypeView::Slash => "Slash"@,
        TokenTypeView::Percent => "Percent"@,
        TokenTypeView::LeftParen => "LeftParen"@,
        TokenTypeView::RightParen => "RightParen"@,
        TokenTypeView::Comma => "Comma"@,
        TokenTypeView::Semicolon => "Semicolon"@,
        TokenTypeView::Dot => "Dot"@,
        TokenTypeView::Eof => "Eof"@,
        TokenTypeView::Invalid(s) => "Invalid("@ + str_debug(s) + ")"@,
    }
}

/// The `{:?}` text of a token type.
pub(crate) fn debug_text(t: &TokenType) -> (s: String)
    ensures
        s@ == token_debug(t@),
{
    match t {
            TokenType::Select => string_of("Select"),
            TokenType::From => string_of("From"),
            TokenType::Where => string_of("Where"),
            TokenType::Insert => string_of("Insert"),
            TokenType::Into => string_of("Into"),
            TokenType::Values => string_of("Values"),
            TokenType::Update => string_of("Update"),
            TokenType::SetKeyword => string_of("SetKeyword"),
            TokenType::Delete => string_of("Delete"),
            TokenType::Create => string_of("Create"),
            TokenType::Table => string_of("Table"),
            TokenType::Order => string_of("Order"),
            TokenType::By => string_of("By"),
            TokenType::GroupBy => string_of("GroupBy"),
            TokenType::Group => string_of("Group"),
            TokenType::Having => string_of("Having"),
            TokenType::Limit => string_of("Limit"),
            TokenType::Offset => string_of("Offset"),
            TokenType::And => string_of("And"),
            TokenType::Or => string_of("Or"),
            TokenType::Not => string_of("Not"),
            TokenType::As => string_of("As"),
            TokenType::Distinct => string_of("Distinct"),
            TokenType::Join => string_of("Join"),
            TokenType::Inner => string_of("Inner"),
            TokenType::Left => string_of("Left"),
            TokenType::Right => string_of("Right"),
            TokenType::On => string_of("On"),
            TokenType::Integer => string_of("Integer"),
            TokenType::Real => string_of("Real"),
            TokenType::Text => string_of("Text"),
            TokenType::Blob => string_of("Blob"),
            TokenType::Number(s) => {
                let mut out = string_of("Number(");
                let d = string_debug(s.as_str());
                push_str(&mut out, d.as_str());
                push_str(&mut out, ")");
                out
            },
            TokenType::String(s) => {
                let mut out = string_of("String(");
                let d = string_debug(s.as_str());
                push_str(&mut out, d.as_str());
                push_str(&mut out, ")");
                out
            },
            TokenType::Null => string_of("Null"),
            TokenType::True => string_of("True"),
            TokenType::False => string_of("False"),
            TokenType::Identifier(s) => {
                let mut out = string_of("Identifier(");
                let d = string_debug(s.as_str());
                push_str(&mut out, d.as_str());
                push_str(&mut out, ")");
                out
            },
            TokenType::Equal => string_of("Equal"),
            TokenType::NotEqual => string_of("NotEqual"),
            TokenType::Less => string_of("Less"),
            TokenType::LessEqual => string_of("LessEqual"),
            TokenType::Greater => string_of("Greater"),
            TokenType::GreaterEqual => string_of("GreaterEqual"),
            TokenType::Plus => string_of("Plus"),
            TokenType::Minus => string_of("Minus"),
            TokenType::Star => string_of("Star"),
            TokenType::Slash => string_of("Slash"),
            TokenType::Percent => string_of("Percent"),
            TokenType::LeftParen => string_of("LeftParen"),
            TokenType::RightParen => string_of("RightParen"),
            TokenType::Comma => string_of("Comma"),
            TokenType::Semicolon => string_of("Semicolon"),
            TokenType::Dot => string_of("Dot"),
            TokenType::Eof => string_of("Eof"),
            TokenType::Invalid(s) => {
                let mut out = string_of("Invalid(");
                let d = string_debug(s.as_str());
                push_str(&mut out, d.as_str());
                push_str(&mut out, ")");
                out
            },
    }
}

/// Which variant a token type is, regardless of its text.
pub open spec fn kind_code(t: TokenTypeView) -> u8 {
    match t {
        TokenTypeView::Select => 0,
        TokenTypeView::From => 1,
        TokenTypeView::Where => 2,
        TokenTypeView::Insert => 3,
        TokenTypeView::Into => 4,
        TokenTypeView::Values => 5,
        TokenTypeView::Update => 6,
        TokenTypeView::SetKeyword => 7,
        TokenTypeView::Delete => 8,
        TokenTypeView::Create => 9,
        TokenTypeView::Table => 10,
        TokenTypeView::Order => 11,
        TokenTypeView::By => 12,
        TokenTypeView::GroupBy => 13,
        TokenTypeView::Group => 14,
        TokenTypeView::Having => 15,
        TokenTypeView::Limit => 16,
        TokenTypeView::Offset => 17,
        TokenTypeView::And => 18,
        TokenTypeView::Or => 19,
        TokenTypeView::Not => 20,
        TokenTypeView::As => 21,
        TokenTypeView::Distinct => 22,
        TokenTypeView::Join => 23,
        TokenTypeView::Inner => 24,
        TokenTypeView::Left => 25,
        TokenTypeView::Right => 26,
        TokenTypeView::On => 27,
        TokenTypeView::Integer => 28,
        TokenTypeView::Real => 29,
        TokenTypeView::Text => 30,
        TokenTypeView::Blob => 31,
        TokenTypeView::Number(_) => 32,
        TokenTypeView::String(_) => 33,
        TokenTypeView::Null => 34,
        TokenTypeView::True => 35,
        TokenTypeView::False => 36,
        TokenTypeView::Identifier(_) => 37,
        TokenTypeView::Equal => 38,
        TokenTypeView::NotEqual => 39,
        TokenTypeView::Less => 40,
        TokenTypeView::LessEqual => 41,
        TokenTypeView::Greater => 42,
        TokenTypeView::GreaterEqual => 43,
        TokenTypeView::Plus => 44,
        TokenTypeView::Minus => 45,
        TokenTypeView::Star => 46,
        TokenTypeView::Slash => 47,
        TokenTypeView::Percent => 48,
        TokenTypeView::LeftParen => 49,
        TokenTypeView::RightParen => 50,
        TokenTypeView::Comma => 51,
        TokenTypeView::Semicolon => 52,
        TokenTypeView::Dot => 53,
        TokenTypeView::Eof => 54,
        TokenTypeView::Invalid(_) => 55,
    }
}

/// A token sequence the parser can run on: it is not empty and ends with
/// `Eof`.
pub open spec fn tokens_ok(ts: Seq<TokenTypeView>) -> bool {
    ts.len() > 0 && ts.last() is Eof
}

/// The position after the token at `p`.
pub open spec fn adv(ts: Seq<TokenTypeView>, p: nat) -> nat {
    if p + 1 < ts.len() { p + 1 } else { p }
}

/// Whether the token at `p` is the same variant as `k`.
pub open spec fn at(ts: Seq<TokenTypeView>, p: nat, k: TokenTypeView) -> bool {
    p < ts.len() && kind_code(ts[p as int]) == kind_code(k)
}

/// Whether the token at `p` is an identifier equal to `w` up to case.
pub open spec fn at_word(ts: Seq<TokenTypeView>, p: nat, w: Seq<char>) -> bool {
    &&& p < ts.len()
    &&& ts[p as int] is Identifier
    &&& upper_case(ts[p as int]->Identifier_0) == upper_case(w)
}

pub open spec fn internal(m: Seq<char>) -> ErrorView {
    ErrorView::Internal(m)
}

/// Reading the token `k` at `p`.
pub open spec fn sp_expect(ts: Seq<TokenTypeView>, p: nat, k: TokenTypeView) -> Result<nat, ErrorView> {
    if at(ts, p, k) {
        Ok(adv(ts, p))
    } else {
        Err(internal("Expected "@ + token_debug(k) + ", got "@ + token_debug(ts[p as int])))
    }
}

/// Reading an identifier at `p`.
pub open spec fn sp_ident(ts: Seq<TokenTypeView>, p: nat) -> Result<(Seq<char>, nat), ErrorView> {
    match ts[p as int] {
        TokenTypeView::Identifier(name) => Ok((name, adv(ts, p))),
        _ => Err(internal("Expected identifier, got "@ + token_debug(ts[p as int]))),
    }
}

/// Reading an integer number at `p`.
pub open spec fn sp_number(ts: Seq<TokenTypeView>, p: nat) -> Result<(i64, nat), ErrorView> {
    match ts[p as int] {
        TokenTypeView::Number(n) => match spec_parse_i64(n) {
            Some(v) => Ok((v as i64, adv(ts, p))),
            None => Err(internal("Invalid number"@)),
        },
        _ => Err(internal("Expected number, got "@ + token_debug(ts[p as int]))),
    }
}

/// The operator that joins operands at a precedence level, if the token is
/// one: OR, AND, equality, comparison, addition, multiplication.
pub open spec fn level_op(level: nat, t: TokenTypeView) -> Option<BinaryOperator> {
    if level == 0 {
        if t is Or { Some(BinaryOperator::Or) } else { None }
    } else if level == 1 {
        if t is And { Some(BinaryOperator::And) } else { None }
    } else if level == 2 {
        if t is Equal { Some(BinaryOperator::Equal) }
        else if t is NotEqual { Some(BinaryOperator::NotEqual) }
        else { None }
    } else if level == 3 {
        if t is Less { Some(BinaryOperator::Less) }
        else if t is LessEqual { Some(BinaryOperator::LessEqual) }
        else if t is Greater { Some(BinaryOperator::Greater) }
        else if t is GreaterEqual { Some(BinaryOperator::GreaterEqual) }
        else { None }
    } else if level == 4 {
        if t is Plus { Some(BinaryOperator::Add) }
        else if t is Minus { Some(BinaryOperator::Subtract) }
        else { None }
    } else if level == 5 {
        if t is Star { Some(BinaryOperator::Multiply) }
        else if t is Slash { Some(BinaryOperator::Divide) }
        else if t is Percent { Some(BinaryOperator::Modulo) }
        else { None }
    } else {
        None
    }
}

/// An expression whose operators are at `level` or tighter, read at `p`:
/// left-associative chains of operands of the next level.
pub open spec fn sp_level(ts: Seq<TokenTypeView>, p: nat, level: nat) -> Result<(ExprView, nat), ErrorView>
    decreases ts.len() - p, 20 - 3 * level,
{
    if level > 5 || p >= ts.len() {
        Err(internal(Seq::empty()))
    } else {
        let operand = if level == 5 { sp_unary(ts, p) } else { sp_level(ts, p, level + 1) };
        match operand {
            Err(e) => Err(e),
            Ok((e, q)) => if p <= q < ts.len() {
                sp_level_tail(ts, e, q, level)
            } else {
                Ok((e, q))
            },
        }
    }
}

/// The rest of a chain at `level`, with `acc` read so far.
pub open spec fn sp_level_tail(ts: Seq<TokenTypeView>, acc: ExprView, p: nat, level: nat) -> Result<(ExprView, nat), ErrorView>
    decreases ts.len() - p, 19 - 3 * level,
{
    if level > 5 || p >= ts.len() {
        Ok((acc, p))
    } else {
        match level_op(level, ts[p as int]) {
            None => Ok((acc, p)),
            Some(op) => {
                let p1 = adv(ts, p);
                let operand = if level == 5 { sp_unary(ts, p1) } else { sp_level(ts, p1, level + 1) };
                match operand {
                    Err(e) => Err(e),
                    Ok((r, q)) => {
                        let e = ExprView::BinaryOp { left: Box::new(acc), op, right: Box::new(r) };
                        if p < q < ts.len() {
                            sp_level_tail(ts, e, q, level)
                        } else {
                            Ok((e, q))
                        }
                    },
                }
            },
        }
    }
}

/// A unary expression: NOT or minus applied to a unary expression, or a
/// primary expression.
pub open spec fn sp_unary(ts: Seq<TokenTypeView>, p: nat) -> Result<(ExprView, nat), ErrorView>
    decreases ts.len() - p, 2int,
{
    if p >= ts.len() {
        Err(internal(Seq::empty()))
    } else if ts[p as int] is Not || ts[p as int] is Minus {
        let op = if ts[p as int] is Not { UnaryOperator::Not } else { UnaryOperator::Minus };
        let p1 = adv(ts, p);
        if p < p1 {
            match sp_unary(ts, p1) {
                Err(e) => Err(e),
                Ok((e, q)) => Ok((ExprView::UnaryOp { op, expr: Box::new(e) }, q)),
            }
        } else {
            Err(internal(Seq::empty()))
        }
    } else {
        sp_primary(ts, p)
    }
}

/// A primary expression: a literal, a column (optionally qualified), a
/// function call, or an expression in parentheses.
pub open spec fn sp_primary(ts: Seq<TokenTypeView>, p: nat) -> Result<(ExprView, nat), ErrorView>
    decreases ts.len() - p, 1int,
{
    if p >= ts.len() {
        Err(internal(Seq::empty()))
    } else {
        let p1 = adv(ts, p);
        match ts[p as int] {
            TokenTypeView::Number(n) => if n.contains('.') {
                Ok((ExprView::Literal(LiteralView::Real(n)), p1))
            } else {
                match spec_parse_i64(n) {
                    Some(v) => Ok((ExprView::Literal(LiteralView::Integer(v as i64)), p1)),
                    None => Err(internal("Invalid number"@)),
                }
            },
            TokenTypeView::String(s) => Ok((ExprView::Literal(LiteralView::String(s)), p1)),
            TokenTypeView::Null => Ok((ExprView::Literal(LiteralView::Null), p1)),
            TokenTypeView::True => Ok((ExprView::Literal(LiteralView::Boolean(true)), p1)),
            TokenTypeView::False => Ok((ExprView::Literal(LiteralView::Boolean(false)), p1)),
            TokenTypeView::Identifier(name) => if at(ts, p1, TokenTypeView::Dot) {
                match sp_ident(ts, adv(ts, p1)) {
                    Err(e) => Err(e),
                    Ok((column, q)) => Ok((ExprView::Column { table: Some(name), name: column }, q)),
                }
            } else if at(ts, p1, TokenTypeView::LeftParen) {
                let p2 = adv(ts, p1);
                let args = if at(ts, p2, TokenTypeView::RightParen) {
                    Ok((Seq::<ExprView>::empty(), p2))
                } else if at(ts, p2, TokenTypeView::Star) && upper_case(name) == "COUNT"@ {
                    Ok((Seq::<ExprView>::empty(), adv(ts, p2)))
                } else if p < p2 {
                    sp_expr_list(ts, p2, Seq::empty())
                } else {
                    Err(internal(Seq::empty()))
                };
                match args {
                    Err(e) => Err(e),
                    Ok((args, q)) => match sp_expect(ts, q, TokenTypeView::RightParen) {
                        Err(e) => Err(e),
                        Ok(q2) => Ok((ExprView::Function { name, args }, q2)),
                    },
                }
            } else {
                Ok((ExprView::Column { table: None, name }, p1))
            },
            TokenTypeView::LeftParen => if p < p1 {
                match sp_level(ts, p1, 0) {
                    Err(e) => Err(e),
                    Ok((e, q)) => match sp_expect(ts, q, TokenTypeView::RightParen) {
                        Err(err) => Err(err),
                        Ok(q2) => Ok((e, q2)),
                    },
                }
            } else {
                Err(internal(Seq::empty()))
            },
            _ => Err(internal("Unexpected token in expression: "@ + token_debug(ts[p as int]))),
        }
    }
}

/// A comma-separated list of expressions, with `acc` read so far.
pub open spec fn sp_expr_list(ts: Seq<TokenTypeView>, p: nat, acc: Seq<ExprView>) -> Result<(Seq<ExprView>, nat), ErrorView>
    decreases ts.len() - p, 21int,
{
    if p >= ts.len() {
        Err(internal(Seq::empty()))
    } else {
        match sp_level(ts, p, 0) {
            Err(e) => Err(e),
            Ok((e, q)) => {
                let acc2 = acc.push(e);
                if at(ts, q, TokenTypeView::Comma) {
                    let q1 = adv(ts, q);
                    if p < q1 <= ts.len() {
                        sp_expr_list(ts, q1, acc2)
                    } else {
                        Ok((acc2, q1))
                    }
                } else {
                    Ok((acc2, q))
                }
            },
        }
    }
}

/// A whole expression.
pub open spec fn sp_expr(ts: Seq<TokenTypeView>, p: nat) -> Result<(ExprView, nat), ErrorView> {
    sp_level(ts, p, 0)
}

/// The items of a SELECT list, with `acc` read so far.
pub open spec fn sp_select_items(ts: Seq<TokenTypeView>, p: nat, acc: Seq<SelectColumnView>) -> Result<(Seq<SelectColumnView>, nat), ErrorView>
    decreases ts.len() - p,
{
    match sp_expr(ts, p) {
        Err(e) => Err(e),
        Ok((e, q)) => {
            let alias = if at(ts, q, TokenTypeView::As) {
                match sp_ident(ts, adv(ts, q)) {
                    Err(err) => Err(err),
                    Ok((a, q2)) => Ok((Some(a), q2)),
                }
            } else {
                Ok((None, q))
            };
            match alias {
                Err(err) => Err(err),
                Ok((alias, q2)) => {
                    let acc2 = acc.push(SelectColumnView::Expr { expr: e, alias });
                    if at(ts, q2, TokenTypeView::Comma) {
                        let q3 = adv(ts, q2);
                        if p < q3 <= ts.len() {
                            sp_select_items(ts, q3, acc2)
                        } else {
                            Ok((acc2, q3))
                        }
                    } else {
                        Ok((acc2, q2))
                    }
                },
            }
        },
    }
}

/// The direction after an ORDER BY expression, and the position after it.
pub open spec fn sp_direction(ts: Seq<TokenTypeView>, p: nat) -> (OrderDirection, nat) {
    if at_word(ts, p, "DESC"@) {
        (OrderDirection::Desc, adv(ts, p))
    } else if at_word(ts, p, "ASC"@) {
        (OrderDirection::Asc, adv(ts, p))
    } else {
        (OrderDirection::Asc, p)
    }
}

/// The items of an ORDER BY list, with `acc` read so far.
pub open spec fn sp_order_items(ts: Seq<TokenTypeView>, p: nat, acc: Seq<(ExprView, OrderDirection)>) -> Result<(Seq<(ExprView, OrderDirection)>, nat), ErrorView>
    decreases ts.len() - p,
{
    match sp_expr(ts, p) {
        Err(e) => Err(e),
        Ok((e, q)) => {
            let d = sp_direction(ts, q);
            let acc2 = acc.push((e, d.0));
            if at(ts, d.1, TokenTypeView::Comma) {
                let q3 = adv(ts, d.1);
                if p < q3 <= ts.len() {
                    sp_order_items(ts, q3, acc2)
                } else {
                    Ok((acc2, q3))
                }
            } else {
                Ok((acc2, d.1))
            }
        },
    }
}

/// The clauses of a SELECT after its column list: FROM, WHERE, ORDER BY,
/// LIMIT and OFFSET, each optional, in that order.
pub open spec fn sp_select_from(ts: Seq<TokenTypeView>, p: nat, sv: SelectView) -> Result<(SelectView, nat), ErrorView> {
    if at(ts, p, TokenTypeView::From) {
        match sp_ident(ts, adv(ts, p)) {
            Err(e) => Err(e),
            Ok((t, q)) => sp_select_where(ts, q, SelectView { from: Some(t), ..sv }),
        }
    } else {
        sp_select_where(ts, p, sv)
    }
}

pub open spec fn sp_select_where(ts: Seq<TokenTypeView>, p: nat, sv: SelectView) -> Result<(SelectView, nat), ErrorView> {
    if at(ts, p, TokenTypeView::Where) {
        match sp_expr(ts, adv(ts, p)) {
            Err(e) => Err(e),
            Ok((w, q)) => sp_select_order(ts, q, SelectView { where_clause: Some(w), ..sv }),
        }
    } else {
        sp_select_order(ts, p, sv)
    }
}

pub open spec fn sp_select_order(ts: Seq<TokenTypeView>, p: nat, sv: SelectView) -> Result<(SelectView, nat), ErrorView> {
    if at(ts, p, TokenTypeView::Order) {
        let p1 = adv(ts, p);
        let p2 = if at(ts, p1, TokenTypeView::By) { adv(ts, p1) } else { p1 };
        match sp_order_items(ts, p2, Seq::empty()) {
            Err(e) => Err(e),
            Ok((items, q)) => sp_select_limit(ts, q, SelectView { order_by: items, ..sv }),
        }
    } else {
        sp_select_limit(ts, p, sv)
    }
}

pub open spec fn sp_select_limit(ts: Seq<TokenTypeView>, p: nat, sv: SelectView) -> Result<(SelectView, nat), ErrorView> {
    if at(ts, p, TokenTypeView::Limit) {
        match sp_number(ts, adv(ts, p)) {
            Err(e) => Err(e),
            Ok((n, q)) => sp_select_offset(ts, q, SelectView { limit: Some(n as usize), ..sv }),
        }
    } else {
        sp_select_offset(ts, p, sv)
    }
}

pub open spec fn sp_select_offset(ts: Seq<TokenTypeView>, p: nat, sv: SelectView) -> Result<(SelectView, nat), ErrorView> {
    if at(ts, p, TokenTypeView::Offset) {
        match sp_number(ts, adv(ts, p)) {
            Err(e) => Err(e),
            Ok((n, q)) => Ok((SelectView { offset: Some(n as usize), ..sv }, q)),
        }
    } else {
        Ok((sv, p))
    }
}

/// A SELECT statement at `p`.
pub open spec fn sp_select(ts: Seq<TokenTypeView>, p: nat) -> Result<(SelectView, nat), ErrorView> {
    match sp_expect(ts, p, TokenTypeView::Select) {
        Err(e) => Err(e),
        Ok(p1) => {
            let distinct = at(ts, p1, TokenTypeView::Distinct);
            let p2 = if distinct { adv(ts, p1) } else { p1 };
            let cols = if at(ts, p2, TokenTypeView::Star) {
                Ok((seq![SelectColumnView::Star], adv(ts, p2)))
            } else {
                sp_select_items(ts, p2, Seq::empty())
            };
            match cols {
                Err(e) => Err(e),
                Ok((columns, p3)) => sp_select_from(
                    ts,
                    p3,
                    SelectView {
                        distinct,
                        columns,
                        from: None,
                        where_clause: None,
                        order_by: Seq::empty(),
                        limit: None,
                        offset: None,
                    },
                ),
            }
        },
    }
}

/// A comma-separated list of identifiers, with `acc` read so far.
pub open spec fn sp_ident_list(ts: Seq<TokenTypeView>, p: nat, acc: Seq<Seq<char>>) -> Result<(Seq<Seq<char>>, nat), ErrorView>
    decreases ts.len() - p,
{
    match sp_ident(ts, p) {
        Err(e) => Err(e),
        Ok((n, q)) => {
            let acc2 = acc.push(n);
            if at(ts, q, TokenTypeView::Comma) {
                let q1 = adv(ts, q);
                if p < q1 <= ts.len() {
                    sp_ident_list(ts, q1, acc2)
                } else {
                    Ok((acc2, q1))
                }
            } else {
                Ok((acc2, q))
            }
        },
    }
}

/// The rows of a VALUES clause, with `acc` read so far.
pub open spec fn sp_rows(ts: Seq<TokenTypeView>, p: nat, acc: Seq<Seq<ExprView>>) -> Result<(Seq<Seq<ExprView>>, nat), ErrorView>
    decreases ts.len() - p,
{
    match sp_expect(ts, p, TokenTypeView::LeftParen) {
        Err(e) => Err(e),
        Ok(p1) => match sp_expr_list(ts, p1, Seq::empty()) {
            Err(e) => Err(e),
            Ok((vals, p2)) => match sp_expect(ts, p2, TokenTypeView::RightParen) {
                Err(e) => Err(e),
                Ok(p3) => {
                    let acc2 = acc.push(vals);
                    if at(ts, p3, TokenTypeView::Comma) {
                        let p4 = adv(ts, p3);
                        if p < p4 <= ts.len() {
                            sp_rows(ts, p4, acc2)
                        } else {
                            Ok((acc2, p4))
                        }
                    } else {
                        Ok((acc2, p3))
                    }
                },
            },
        },
    }
}

/// An INSERT statement at `p`.
pub open spec fn sp_insert(ts: Seq<TokenTypeView>, p: nat) -> Result<(InsertView, nat), ErrorView> {
    match sp_expect(ts, p, TokenTypeView::Insert) {
        Err(e) => Err(e),
        Ok(p1) => match sp_expect(ts, p1, TokenTypeView::Into) {
            Err(e) => Err(e),
            Ok(p2) => match sp_ident(ts, p2) {
                Err(e) => Err(e),
                Ok((table, p3)) => {
                    let cols = if at(ts, p3, TokenTypeView::LeftParen) {
                        match sp_ident_list(ts, adv(ts, p3), Seq::empty()) {
                            Err(e) => Err(e),
                            Ok((names, p4)) => match sp_expect(ts, p4, TokenTypeView::RightParen) {
                                Err(e) => Err(e),
                                Ok(p5) => Ok((Some(names), p5)),
                            },
                        }
                    } else {
                        Ok((None, p3))
                    };
                    match cols {
                        Err(e) => Err(e),
                        Ok((columns, p5)) => match sp_expect(ts, p5, TokenTypeView::Values) {
                            Err(e) => Err(e),
                            Ok(p6) => match sp_rows(ts, p6, Seq::empty()) {
                                Err(e) => Err(e),
                                Ok((values, p7)) => Ok((InsertView { table, columns, values }, p7)),
                            },
                        },
                    }
                },
            },
        },
    }
}

/// The assignments of an UPDATE, with `acc` read so far.
pub open spec fn sp_assignments(ts: Seq<TokenTypeView>, p: nat, acc: Seq<(Seq<char>, ExprView)>) -> Result<(Seq<(Seq<char>, ExprView)>, nat), ErrorView>
    decreases ts.len() - p,
{
    match sp_ident(ts, p) {
        Err(e) => Err(e),
        Ok((column, q1)) => match sp_expect(ts, q1, TokenTypeView::Equal) {
            Err(e) => Err(e),
            Ok(q2) => match sp_expr(ts, q2) {
                Err(e) => Err(e),
                Ok((value, q3)) => {
                    let acc2 = acc.push((column, value));
                    if at(ts, q3, TokenTypeView::Comma) {
                        let q4 = adv(ts, q3);
                        if p < q4 <= ts.len() {
                            sp_assignments(ts, q4, acc2)
                        } else {
                            Ok((acc2, q4))
                        }
                    } else {
                        Ok((acc2, q3))
                    }
                },
            },
        },
    }
}

/// An optional WHERE clause at `p`.
pub open spec fn sp_opt_where(ts: Seq<TokenTypeView>, p: nat) -> Result<(Option<ExprView>, nat), ErrorView> {
    if at(ts, p, TokenTypeView::Where) {
        match sp_expr(ts, adv(ts, p)) {
            Err(e) => Err(e),
            Ok((w, q)) => Ok((Some(w), q)),
        }
    } else {
        Ok((None, p))
    }
}

/// An UPDATE statement at `p`.
pub open spec fn sp_update(ts: Seq<TokenTypeView>, p: nat) -> Result<(UpdateView, nat), ErrorView> {
    match sp_expect(ts, p, TokenTypeView::Update) {
        Err(e) => Err(e),
        Ok(p1) => match sp_ident(ts, p1) {
            Err(e) => Err(e),
            Ok((table, p2)) => match sp_expect(ts, p2, TokenTypeView::SetKeyword) {
                Err(e) => Err(e),
                Ok(p3) => match sp_assignments(ts, p3, Seq::empty()) {
                    Err(e) => Err(e),
                    Ok((assignments, p4)) => match sp_opt_where(ts, p4) {
                        Err(e) => Err(e),
                        Ok((where_clause, p5)) => Ok((UpdateView { table, assignments, where_clause }, p5)),
                    },
                },
            },
        },
    }
}

/// A DELETE statement at `p`.
pub open spec fn sp_delete(ts: Seq<TokenTypeView>, p: nat) -> Result<(DeleteView, nat), ErrorView> {
    match sp_expect(ts, p, TokenTypeView::Delete) {
        Err(e) => Err(e),
        Ok(p1) => match sp_expect(ts, p1, TokenTypeView::From) {
            Err(e) => Err(e),
            Ok(p2) => match sp_ident(ts, p2) {
                Err(e) => Err(e),
                Ok((table, p3)) => match sp_opt_where(ts, p3) {
                    Err(e) => Err(e),
                    Ok((where_clause, p4)) => Ok((DeleteView { table, where_clause }, p4)),
                },
            },
        },
    }
}

/// A column's data type at `p`.
pub open spec fn sp_data_type(ts: Seq<TokenTypeView>, p: nat) -> Result<(DataType, nat), ErrorView> {
    let p1 = adv(ts, p);
    match ts[p as int] {
        TokenTypeView::Integer => Ok((DataType::Integer, p1)),
        TokenTypeView::Real => Ok((DataType::Real, p1)),
        TokenTypeView::Text => Ok((DataType::Text, p1)),
        TokenTypeView::Blob => Ok((DataType::Blob, p1)),
        TokenTypeView::Identifier(name) => {
            let u = upper_case(name);
            if u == "INT"@ {
                Ok((DataType::Integer, p1))
            } else if u == "FLOAT"@ || u == "DOUBLE"@ {
                Ok((DataType::Real, p1))
            } else if u == "VARCHAR"@ || u == "CHAR"@ {
                Ok((DataType::Text, p1))
            } else {
                Err(internal("Unknown data type: "@ + name))
            }
        },
        _ => Err(internal("Expected data type, got: "@ + token_debug(ts[p as int]))),
    }
}

/// The constraints after a column's type, with `acc` read so far: NOT NULL,
/// PRIMARY KEY and UNIQUE, until a comma, a closing parenthesis or anything
/// else.
pub open spec fn sp_constraints(ts: Seq<TokenTypeView>, p: nat, acc: Seq<ColumnConstraintView>) -> (Seq<ColumnConstraintView>, nat)
    decreases ts.len() - p,
{
    if p >= ts.len() || at(ts, p, TokenTypeView::Comma) || at(ts, p, TokenTypeView::RightParen) {
        (acc, p)
    } else {
        let p1 = adv(ts, p);
        let (acc2, q) = if at(ts, p, TokenTypeView::Not) {
            if at(ts, p1, TokenTypeView::Null) {
                (acc.push(ColumnConstraintView::NotNull), adv(ts, p1))
            } else {
                (acc, p1)
            }
        } else if at_word(ts, p, "PRIMARY"@) {
            if at_word(ts, p1, "KEY"@) {
                (acc.push(ColumnConstraintView::PrimaryKey), adv(ts, p1))
            } else {
                (acc, p1)
            }
        } else if at_word(ts, p, "UNIQUE"@) {
            (acc.push(ColumnConstraintView::Unique), p1)
        } else {
            (acc, p)
        };
        if p < q <= ts.len() {
            sp_constraints(ts, q, acc2)
        } else {
            (acc2, q)
        }
    }
}

/// The column definitions of a CREATE TABLE, with `acc` read so far.
pub open spec fn sp_column_defs(ts: Seq<TokenTypeView>, p: nat, acc: Seq<ColumnDefView>) -> Result<(Seq<ColumnDefView>, nat), ErrorView>
    decreases ts.len() - p,
{
    match sp_ident(ts, p) {
        Err(e) => Err(e),
        Ok((name, q1)) => match sp_data_type(ts, q1) {
            Err(e) => Err(e),
            Ok((data_type, q2)) => {
                let c = sp_constraints(ts, q2, Seq::empty());
                let acc2 = acc.push(ColumnDefView { name, data_type, constraints: c.0 });
                if at(ts, c.1, TokenTypeView::Comma) {
                    let q4 = adv(ts, c.1);
                    if p < q4 <= ts.len() {
                        sp_column_defs(ts, q4, acc2)
                    } else {
                        Ok((acc2, q4))
                    }
                } else {
                    Ok((acc2, c.1))
                }
            },
        },
    }
}

/// A CREATE TABLE statement at `p`.
pub open spec fn sp_create_table(ts: Seq<TokenTypeView>, p: nat) -> Result<(CreateTableView, nat), ErrorView> {
    match sp_expect(ts, p, TokenTypeView::Create) {
        Err(e) => Err(e),
        Ok(p1) => match sp_expect(ts, p1, TokenTypeView::Table) {
            Err(e) => Err(e),
            Ok(p2) => match sp_ident(ts, p2) {
                Err(e) => Err(e),
                Ok((table, p3)) => match sp_expect(ts, p3, TokenTypeView::LeftParen) {
                    Err(e) => Err(e),
                    Ok(p4) => match sp_column_defs(ts, p4, Seq::empty()) {
                        Err(e) => Err(e),
                        Ok((columns, p5)) => match sp_expect(ts, p5, TokenTypeView::RightParen) {
                            Err(e) => Err(e),
                            Ok(p6) => Ok((CreateTableView { table, columns }, p6)),
                        },
                    },
                },
            },
        },
    }
}

/// A statement at `p`, chosen by its first token.
pub open spec fn sp_statement(ts: Seq<TokenTypeView>, p: nat) -> Result<(StatementView, nat), ErrorView> {
    let t = ts[p as int];
    if t is Select {
        match sp_select(ts, p) {
            Err(e) => Err(e),
            Ok((s, q)) => Ok((StatementView::Select(s), q)),
        }
    } else if t is Insert {
        match sp_insert(ts, p) {
            Err(e) => Err(e),
            Ok((s, q)) => Ok((StatementView::Insert(s), q)),
        }
    } else if t is Update {
        match sp_update(ts, p) {
            Err(e) => Err(e),
            Ok((s, q)) => Ok((StatementView::Update(s), q)),
        }
    } else if t is Delete {
        match sp_delete(ts, p) {
            Err(e) => Err(e),
            Ok((s, q)) => Ok((StatementView::Delete(s), q)),
        }
    } else if t is Create {
        match sp_create_table(ts, p) {
            Err(e) => Err(e),
            Ok((s, q)) => Ok((StatementView::CreateTable(s), q)),
        }
    } else {
        Err(internal("Unexpected token: "@ + token_debug(t)))
    }
}

/// How SQL spells the symbolic binary operators (`!=` for `NotEqual`, which
/// also reads as `<>`); AND and OR are words, not symbols.
pub open spec fn operator_spelling(op: BinaryOperator) -> Seq<char> {
    match op {
        BinaryOperator::Equal => seq!['='],
        BinaryOperator::NotEqual => seq!['!', '='],
        BinaryOperator::Less => seq!['<'],
        BinaryOperator::LessEqual => seq!['<', '='],
        BinaryOperator::Greater => seq!['>'],
        BinaryOperator::GreaterEqual => seq!['>', '='],
        BinaryOperator::Add => seq!['+'],
        BinaryOperator::Subtract => seq!['-'],
        BinaryOperator::Multiply => seq!['*'],
        BinaryOperator::Divide => seq!['/'],
        BinaryOperator::Modulo => seq!['%'],
        BinaryOperator::And => Seq::empty(),
        BinaryOperator::Or => Seq::empty(),
    }
}

/// The precedence level at which an operator joins operands: OR, AND,
/// equality, comparison, addition, multiplication.
pub open spec fn operator_level(op: BinaryOperator) -> nat {
    match op {
        BinaryOperator::Or => 0,
        BinaryOperator::And => 1,
        BinaryOperator::Equal | BinaryOperator::NotEqual => 2,
        BinaryOperator::Less | BinaryOperator::LessEqual | BinaryOperator::Greater | BinaryOperator::GreaterEqual => 3,
        BinaryOperator::Add | BinaryOperator::Subtract => 4,
        BinaryOperator::Multiply | BinaryOperator::Divide | BinaryOperator::Modulo => 5,
    }
}

/// The parser joins operands with the operator that the token names: for
/// every symbolic operator, the token the lexer reads from its spelling
/// (all of it) is one the parser turns back into that same operator, at
/// that operator's level, and `<>` into `NotEqual` too; and whatever
/// operator the parser takes a token for, that token is what the lexer
/// reads from the operator's spelling.
pub proof fn law_operator_tokens(op: BinaryOperator, level: nat, t: TokenTypeView)
    ensures
        op != BinaryOperator::And && op != BinaryOperator::Or ==> {
            let read = operator_at(operator_spelling(op), 0);
            &&& read.1 == operator_spelling(op).len()
            &&& level_op(operator_level(op), read.0) == Some(op)
        },
        level_op(2, operator_at(seq!['<', '>'], 0).0) == Some(BinaryOperator::NotEqual),
        operator_at(seq!['<', '>'], 0).1 == 2,
        level_op(level, t) == Some(op) && op != BinaryOperator::And && op != BinaryOperator::Or
            ==> t == operator_at(operator_spelling(op), 0).0 && level == operator_level(op),
{
    assert(char_at(seq!['<', '>'], 1) == '>');
    let sp = operator_spelling(op);
    if sp.len() == 2 {
        assert(char_at(sp, 1) == sp[1]);
    } else if sp.len() == 1 {
        assert(char_at(sp, 1) == '\0');
    }
}

} // verus!
