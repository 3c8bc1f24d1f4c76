//! SQL parser: turns a token sequence into a statement.
//!
//! The parser follows the grammar of `grammar.rs` exactly: each parsing
//! function is proved to give what the matching spec function gives.
use vstd::prelude::*;
use crate::error::{Error, ErrorView, Result};
use crate::sql::ast::{
    Assignment, BinaryOperator, ColumnConstraint, ColumnDef, CreateTableStatement, DataType,
    DeleteStatement, Expr, InsertStatement, Literal, OrderBy, OrderDirection, SelectColumn,
    SelectStatement, Statement, UnaryOperator, UpdateStatement, exprs_view, expr_view,
    lemma_exprs_view_push, strings_view, ColumnDefView, ColumnConstraintView, SelectColumnView,
    ExprView,
};
use crate::sql::grammar::{
    adv, at, at_word, debug_text, kind_code, level_op, sp_assignments, sp_column_defs,
    sp_constraints, sp_create_table, sp_data_type, sp_delete, sp_direction, sp_expect, sp_expr,
    sp_expr_list, sp_ident, sp_ident_list, sp_insert, sp_level, sp_level_tail, sp_number,
    sp_opt_where, sp_order_items, sp_primary, sp_rows, sp_select, sp_select_from, sp_select_items,
    sp_select_limit, sp_select_offset, sp_select_order, sp_select_where, sp_statement, sp_unary,
    sp_update, token_debug, tokens_ok,
};
use crate::sql::tokens::{Token, TokenType, TokenTypeView, to_uppercase};
use crate::text::{chars_of, parse_i64, push_str, str_eq, string_of, spec_parse_i64};

verus! {

/// A parse result matches what the grammar gives: the same value and the
/// position after it, or the same error.
pub open spec fn res_matches<T: View>(r: Result<T>, s: std::result::Result<(T::V, nat), ErrorView>, pos: nat) -> bool {
    match s {
        Ok((v, q)) => r is Ok && r->Ok_0@ == v && pos == q,
        Err(e) => r is Err && r->Err_0@ == e,
    }
}

/// The variant number of a token type.
fn kind_code_of(t: &TokenType) -> (c: u8)
    ensures
        c == kind_code(t@),
{
    match t {
        TokenType::Select => 0,
        TokenType::From => 1,
        TokenType::Where => 2,
        TokenType::Insert => 3,
        TokenType::Into => 4,
        TokenType::Values => 5,
        TokenType::Update => 6,
        TokenType::SetKeyword => 7,
        TokenType::Delete => 8,
        TokenType::Create => 9,
        TokenType::Table => 10,
        TokenType::Order => 11,
        TokenType::By => 12,
        TokenType::GroupBy => 13,
        TokenType::Group => 14,
        TokenType::Having => 15,
        TokenType::Limit => 16,
        TokenType::Offset => 17,
        TokenType::And => 18,
        TokenType::Or => 19,
        TokenType::Not => 20,
        TokenType::As => 21,
        TokenType::Distinct => 22,
        TokenType::Join => 23,
        TokenType::Inner => 24,
        TokenType::Left => 25,
        TokenType::Right => 26,
        TokenType::On => 27,
        TokenType::Integer => 28,
        TokenType::Real => 29,
        TokenType::Text => 30,
        TokenType::Blob => 31,
        TokenType::Number(_) => 32,
        TokenType::String(_) => 33,
        TokenType::Null => 34,
        TokenType::True => 35,
        TokenType::False => 36,
        TokenType::Identifier(_) => 37,
        TokenType::Equal => 38,
        TokenType::NotEqual => 39,
        TokenType::Less => 40,
        TokenType::LessEqual => 41,
        TokenType::Greater => 42,
        TokenType::GreaterEqual => 43,
        TokenType::Plus => 44,
        TokenType::Minus => 45,
        TokenType::Star => 46,
        TokenType::Slash => 47,
        TokenType::Percent => 48,
        TokenType::LeftParen => 49,
        TokenType::RightParen => 50,
        TokenType::Comma => 51,
        TokenType::Semicolon => 52,
        TokenType::Dot => 53,
        TokenType::Eof => 54,
        TokenType::Invalid(_) => 55,
    }
}

/// Two strings joined.
fn joined(a: &str, b: &str) -> (r: String)
    ensures
        r@ == a@ + b@,
{
    let mut r = string_of(a);
    push_str(&mut r, b);
    r
}

/// Whether a string holds a character.
fn has_char(s: &str, c: char) -> (b: bool)
    ensures
        b == s@.contains(c),
{
    let v = chars_of(s);
    let mut i: usize = 0;
    while i < v.len()
        invariant
            v@ == s@,
            i <= v.len(),
            forall|j: int| 0 <= j < i ==> v@[j] != c,
        decreases v.len() - i,
    {
        if v[i] == c {
            assert(s@[i as int] == c);
            return true;
        }
        i = i + 1;
    }
    false
}

/// SQL Parser - converts tokens to AST
pub struct Parser {
    tokens: Vec<Token>,
    position: usize,
}

impl Parser {
    /// The types of the tokens being parsed.
    pub closed spec fn kinds(&self) -> Seq<TokenTypeView> {
        self.tokens@.map_values(|t: Token| t.token_type@)
    }

    /// The current position.
    pub closed spec fn pos(&self) -> nat {
        self.position as nat
    }

    /// The parser can run: the tokens end with `Eof` and the position is
    /// on one of them.
    pub closed spec fn wf(&self) -> bool {
        tokens_ok(self.kinds()) && self.position < self.tokens.len()
    }

    /// Create a new parser from tokens
    pub fn new(tokens: Vec<Token>) -> (p: Self)
        ensures
            p.kinds() == tokens@.map_values(|t: Token| t.token_type@),
            p.pos() == 0,
            p.wf() == tokens_ok(tokens@.map_values(|t: Token| t.token_type@)),
    {
        Parser { tokens, position: 0 }
    }

    /// Parse a SQL statement
    pub fn parse_statement(&mut self) -> (r: Result<Statement>)
        requires
            old(self).wf(),
        ensures
            final(self).wf(),
            final(self).kinds() == old(self).kinds(),
            res_matches(r, sp_statement(old(self).kinds(), old(self).pos()), final(self).pos()),
    {
        let ghost ts = self.kinds();
        let ghost p0 = self.pos();
        let code = kind_code_of(&self.tokens[self.position].token_type);
        if code == 0 {
            match self.parse_select() {
                Ok(s) => Ok(Statement::Select(s)),
                Err(e) => Err(e),
            }
        } else if code == 3 {
            match self.parse_insert() {
                Ok(s) => Ok(Statement::Insert(s)),
                Err(e) => Err(e),
            }
        } else if code == 6 {
            match self.parse_update() {
                Ok(s) => Ok(Statement::Update(s)),
                Err(e) => Err(e),
            }
        } else if code == 8 {
            match self.parse_delete() {
                Ok(s) => Ok(Statement::Delete(s)),
                Err(e) => Err(e),
            }
        } else if code == 9 {
            match self.parse_create_table() {
                Ok(s) => Ok(Statement::CreateTable(s)),
                Err(e) => Err(e),
            }
        } else {
            let d = debug_text(&self.tokens[self.position].token_type);
            Err(Error::Internal(joined("Unexpected token: ", d.as_str())))
        }
    }

    // -----------------------------------------------------------------
    // Helpers
    // -----------------------------------------------------------------

    proof fn lemma_kind_at(&self, i: int)
        requires
            0 <= i < self.tokens.len(),
        ensures
            self.kinds()[i] == self.tokens@[i].token_type@,
            self.kinds().len() == self.tokens.len(),
    {
    }

    /// Whether the current token is the same variant as `token_type`.
    fn check(&self, token_type: &TokenType) -> (b: bool)
        requires
            self.wf(),
        ensures
            b == at(self.kinds(), self.pos(), token_type@),
    {
        proof { self.lemma_kind_at(self.position as int); }
        kind_code_of(&self.tokens[self.position].token_type) == kind_code_of(token_type)
    }

    fn advance(&mut self)
        requires
            old(self).wf(),
        ensures
            final(self).wf(),
            final(self).kinds() == old(self).kinds(),
            final(self).pos() == adv(old(self).kinds(), old(self).pos()),
            !(old(self).kinds()[old(self).pos() as int] is Eof) ==> final(self).pos() == old(self).pos() + 1,
    {
        proof { self.lemma_kind_at(self.position as int); }
        if self.position < self.tokens.len() - 1 {
            self.position = self.position + 1;
        }
    }

    fn expect(&mut self, token_type: TokenType) -> (r: Result<()>)
        requires
            old(self).wf(),
        ensures
            final(self).wf(),
            final(self).kinds() == old(self).kinds(),
            match sp_expect(old(self).kinds(), old(self).pos(), token_type@) {
                Ok(q) => r is Ok && final(self).pos() == q,
                Err(e) => r is Err && r->Err_0@ == e,
            },
            r is Ok ==> old(self).kinds()[old(self).pos() as int] == token_type@ || kind_code(old(self).kinds()[old(self).pos() as int]) == kind_code(token_type@),
    {
        proof { self.lemma_kind_at(self.position as int); }
        if self.check(&token_type) {
            self.advance();
            Ok(())
        } else {
            let expected = debug_text(&token_type);
            let got = debug_text(&self.tokens[self.position].token_type);
            let mut m = joined("Expected ", expected.as_str());
            push_str(&mut m, ", got ");
            push_str(&mut m, got.as_str());
            Err(Error::Internal(m))
        }
    }

    fn expect_identifier(&mut self) -> (r: Result<String>)
        requires
            old(self).wf(),
        ensures
            final(self).wf(),
            final(self).kinds() == old(self).kinds(),
            res_matches(r, sp_ident(old(self).kinds(), old(self).pos()), final(self).pos()),
            r is Ok ==> old(self).pos() < final(self).pos(),
    {
        proof { self.lemma_kind_at(self.position as int); }
        match &self.tokens[self.position].token_type {
            TokenType::Identifier(name) => {
                let name = name.clone();
                self.advance();
                Ok(name)
            },
            _ => {
                let d = debug_text(&self.tokens[self.position].token_type);
                Err(Error::Internal(joined("Expected identifier, got ", d.as_str())))
            },
        }
    }

    fn expect_number(&mut self) -> (r: Result<i64>)
        requires
            old(self).wf(),
        ensures
            final(self).wf(),
            final(self).kinds() == old(self).kinds(),
            match sp_number(old(self).kinds(), old(self).pos()) {
                Ok((v, q)) => r == Ok::<i64, Error>(v) && final(self).pos() == q,
                Err(e) => r is Err && r->Err_0@ == e,
            },
            r is Ok ==> old(self).pos() < final(self).pos(),
    {
        proof { self.lemma_kind_at(self.position as int); }
        match &self.tokens[self.position].token_type {
            TokenType::Number(n) => {
                let digits = chars_of(n.as_str());
                match parse_i64(&digits) {
                    Some(v) => {
                        self.advance();
                        Ok(v)
                    },
                    None => Err(Error::Internal(string_of("Invalid number"))),
                }
            },
            _ => {
                let d = debug_text(&self.tokens[self.position].token_type);
                Err(Error::Internal(joined("Expected number, got ", d.as_str())))
            },
        }
    }

    fn current_matches_identifier(&self, name: &str) -> (b: bool)
        requires
            self.wf(),
        ensures
            b == at_word(self.kinds(), self.pos(), name@),
    {
        proof { self.lemma_kind_at(self.position as int); }
        match &self.tokens[self.position].token_type {
            TokenType::Identifier(id) => {
                let a = to_uppercase(id.as_str());
                let b = to_uppercase(name);
                str_eq(a.as_str(), b.as_str())
            },
            _ => false,
        }
    }


    // -----------------------------------------------------------------
    // Statements
    // -----------------------------------------------------------------

    /// Parse SELECT statement
    #[verifier::rlimit(60)]
    fn parse_select(&mut self) -> (r: Result<SelectStatement>)
        requires
            old(self).wf(),
        ensures
            final(self).wf(),
            final(self).kinds() == old(self).kinds(),
            res_matches(r, sp_select(old(self).kinds(), old(self).pos()), final(self).pos()),
    {
        let ghost ts = self.kinds();
        let ghost p0 = self.pos();
        match self.expect(TokenType::Select) {
            Err(e) => {
                return Err(e);
            },
            Ok(()) => {},
        }
        let mut distinct = false;
        if self.check(&TokenType::Distinct) {
            self.advance();
            distinct = true;
        }
        let columns: Vec<SelectColumn> = if self.check(&TokenType::Star) {
            self.advance();
            let mut columns: Vec<SelectColumn> = Vec::new();
            columns.push(SelectColumn::Star);
            assert(columns@.map_values(|c: SelectColumn| c@) =~= seq![SelectColumnView::Star]);
            columns
        } else {
            match self.parse_select_items() {
                Err(e) => {
                    return Err(e);
                },
                Ok(c) => c,
            }
        };
        let stmt = SelectStatement {
            distinct,
            columns,
            from: None,
            where_clause: None,
            order_by: Vec::new(),
            limit: None,
            offset: None,
        };
        assert(stmt@.order_by =~= Seq::<(ExprView, OrderDirection)>::empty());
        self.parse_select_from(stmt)
    }

    /// The FROM clause of a SELECT and the clauses after it.
    fn parse_select_from(&mut self, stmt: SelectStatement) -> (r: Result<SelectStatement>)
        requires
            old(self).wf(),
        ensures
            final(self).wf(),
            final(self).kinds() == old(self).kinds(),
            res_matches(r, sp_select_from(old(self).kinds(), old(self).pos(), stmt@), final(self).pos()),
    {
        let mut stmt = stmt;
        if self.check(&TokenType::From) {
            self.advance();
            match self.expect_identifier() {
                Err(e) => {
                    return Err(e);
                },
                Ok(t) => {
                    stmt.from = Some(t);
                },
            }
        }
        self.parse_select_where(stmt)
    }

    /// The WHERE clause of a SELECT and the clauses after it.
    fn parse_select_where(&mut self, stmt: SelectStatement) -> (r: Result<SelectStatement>)
        requires
            old(self).wf(),
        ensures
            final(self).wf(),
            final(self).kinds() == old(self).kinds(),
            res_matches(r, sp_select_where(old(self).kinds(), old(self).pos(), stmt@), final(self).pos()),
    {
        let mut stmt = stmt;
        if self.check(&TokenType::Where) {
            self.advance();
            match self.parse_expression() {
                Err(e) => {
                    return Err(e);
                },
                Ok(w) => {
                    stmt.where_clause = Some(w);
                },
            }
        }
        self.parse_select_order(stmt)
    }

    /// The ORDER BY clause of a SELECT and the clauses after it.
    fn parse_select_order(&mut self, stmt: SelectStatement) -> (r: Result<SelectStatement>)
        requires
            old(self).wf(),
        ensures
            final(self).wf(),
            final(self).kinds() == old(self).kinds(),
            res_matches(r, sp_select_order(old(self).kinds(), old(self).pos(), stmt@), final(self).pos()),
    {
        let mut stmt = stmt;
        if self.check(&TokenType::Order) {
            self.advance();
            if self.check(&TokenType::By) {
                self.advance();
            }
            match self.parse_order_items() {
                Err(e) => {
                    return Err(e);
                },
                Ok(o) => {
                    stmt.order_by = o;
                },
            }
        }
        self.parse_select_limit(stmt)
    }

    /// The LIMIT and OFFSET clauses of a SELECT.
    fn parse_select_limit(&mut self, stmt0: SelectStatement) -> (r: Result<SelectStatement>)
        requires
            old(self).wf(),
        ensures
            final(self).wf(),
            final(self).kinds() == old(self).kinds(),
            res_matches(r, sp_select_limit(old(self).kinds(), old(self).pos(), stmt0@), final(self).pos()),
    {
        let ghost ts = self.kinds();
        let ghost p0 = self.pos();
        let ghost v0 = stmt0@;
        let mut stmt = stmt0;
        if self.check(&TokenType::Limit) {
            self.advance();
            match self.expect_number() {
                Err(e) => {
                    return Err(e);
                },
                Ok(n) => {
                    stmt.limit = Some(n as usize);
                },
            }
        }
        let ghost mid = self.pos();
        assert(sp_select_limit(ts, p0, v0) == sp_select_offset(ts, mid, stmt@)) by {
            assert(stmt@ =~= (crate::sql::ast::SelectView { limit: stmt.limit, ..v0 }));
        }
        if self.check(&TokenType::Offset) {
            self.advance();
            match self.expect_number() {
                Err(e) => {
                    return Err(e);
                },
                Ok(n) => {
                    stmt.offset = Some(n as usize);
                },
            }
        }
        Ok(stmt)
    }

    /// The items of a SELECT list.
    fn parse_select_items(&mut self) -> (r: Result<Vec<SelectColumn>>)
        requires
            old(self).wf(),
        ensures
            final(self).wf(),
            final(self).kinds() == old(self).kinds(),
            match sp_select_items(old(self).kinds(), old(self).pos(), Seq::empty()) {
                Ok((v, q)) => r is Ok && r->Ok_0@.map_values(|c: SelectColumn| c@) == v && final(self).pos() == q,
                Err(e) => r is Err && r->Err_0@ == e,
            },
    {
        let ghost ts = self.kinds();
        let ghost p0 = self.pos();
        let mut columns: Vec<SelectColumn> = Vec::new();
        assert(columns@.map_values(|c: SelectColumn| c@) =~= Seq::<SelectColumnView>::empty());
        loop
            invariant_except_break
                self.wf(),
                self.kinds() == ts,
                ts == old(self).kinds(),
                p0 == old(self).pos(),
                p0 <= self.pos(),
                sp_select_items(ts, self.pos(), columns@.map_values(|c: SelectColumn| c@))
                    == sp_select_items(ts, p0, Seq::empty()),
            ensures
                self.wf(),
                self.kinds() == ts,
                sp_select_items(ts, p0, Seq::empty()) == Ok::<(Seq<SelectColumnView>, nat), ErrorView>(
                    (columns@.map_values(|c: SelectColumn| c@), self.pos()),
                ),
            decreases ts.len() - self.pos(),
        {
            let ghost acc = columns@.map_values(|c: SelectColumn| c@);
            let expr = match self.parse_expression() {
                Err(e) => {
                    return Err(e);
                },
                Ok(e) => e,
            };
            let alias = if self.check(&TokenType::As) {
                self.advance();
                match self.expect_identifier() {
                    Err(e) => {
                        return Err(e);
                    },
                    Ok(a) => Some(a),
                }
            } else {
                None
            };
            let c = SelectColumn::Expr { expr, alias };
            columns.push(c);
            assert(columns@.map_values(|c: SelectColumn| c@) =~= acc.push(c@));
            if !self.check(&TokenType::Comma) {
                break;
            }
            self.advance();
        }
        Ok(columns)
    }

    /// The items of an ORDER BY list.
    fn parse_order_items(&mut self) -> (r: Result<Vec<OrderBy>>)
        requires
            old(self).wf(),
        ensures
            final(self).wf(),
            final(self).kinds() == old(self).kinds(),
            match sp_order_items(old(self).kinds(), old(self).pos(), Seq::empty()) {
                Ok((v, q)) => r is Ok && r->Ok_0@.map_values(|o: OrderBy| (expr_view(o.expr), o.direction)) == v
                    && final(self).pos() == q,
                Err(e) => r is Err && r->Err_0@ == e,
            },
    {
        let ghost ts = self.kinds();
        let ghost p0 = self.pos();
        let mut order_by: Vec<OrderBy> = Vec::new();
        assert(order_by@.map_values(|o: OrderBy| (expr_view(o.expr), o.direction)) =~= Seq::<(ExprView, OrderDirection)>::empty());
        loop
            invariant_except_break
                self.wf(),
                self.kinds() == ts,
                ts == old(self).kinds(),
                p0 == old(self).pos(),
                p0 <= self.pos(),
                sp_order_items(ts, self.pos(), order_by@.map_values(|o: OrderBy| (expr_view(o.expr), o.direction)))
                    == sp_order_items(ts, p0, Seq::empty()),
            ensures
                self.wf(),
                self.kinds() == ts,
                sp_order_items(ts, p0, Seq::empty()) == Ok::<(Seq<(ExprView, OrderDirection)>, nat), ErrorView>(
                    (order_by@.map_values(|o: OrderBy| (expr_view(o.expr), o.direction)), self.pos()),
                ),
            decreases ts.len() - self.pos(),
        {
            let ghost acc = order_by@.map_values(|o: OrderBy| (expr_view(o.expr), o.direction));
            let expr = match self.parse_expression() {
                Err(e) => {
                    return Err(e);
                },
                Ok(e) => e,
            };
            let direction = if self.current_matches_identifier("DESC") {
                self.advance();
                OrderDirection::Desc
            } else if self.current_matches_identifier("ASC") {
                self.advance();
                OrderDirection::Asc
            } else {
                OrderDirection::Asc
            };
            let o = OrderBy { expr, direction };
            order_by.push(o);
            assert(order_by@.map_values(|o: OrderBy| (expr_view(o.expr), o.direction)) =~= acc.push(
                (expr_view(o.expr), o.direction),
            ));
            if !self.check(&TokenType::Comma) {
                break;
            }
            self.advance();
        }
        Ok(order_by)
    }

    /// Parse INSERT statement
    fn parse_insert(&mut self) -> (r: Result<InsertStatement>)
        requires
            old(self).wf(),
        ensures
            final(self).wf(),
            final(self).kinds() == old(self).kinds(),
            res_matches(r, sp_insert(old(self).kinds(), old(self).pos()), final(self).pos()),
    {
        match self.expect(TokenType::Insert) {
            Err(e) => {
                return Err(e);
            },
            Ok(()) => {},
        }
        match self.expect(TokenType::Into) {
            Err(e) => {
                return Err(e);
            },
            Ok(()) => {},
        }
        let table = match self.expect_identifier() {
            Err(e) => {
                return Err(e);
            },
            Ok(t) => t,
        };
        let mut columns: Option<Vec<String>> = None;
        if self.check(&TokenType::LeftParen) {
            self.advance();
            let names = match self.parse_ident_list() {
                Err(e) => {
                    return Err(e);
                },
                Ok(n) => n,
            };
            match self.expect(TokenType::RightParen) {
                Err(e) => {
                    return Err(e);
                },
                Ok(()) => {},
            }
            columns = Some(names);
        }
        match self.expect(TokenType::Values) {
            Err(e) => {
                return Err(e);
            },
            Ok(()) => {},
        }
        let values = match self.parse_rows() {
            Err(e) => {
                return Err(e);
            },
            Ok(v) => v,
        };
        Ok(InsertStatement { table, columns, values })
    }

    /// A comma-separated list of identifiers.
    fn parse_ident_list(&mut self) -> (r: Result<Vec<String>>)
        requires
            old(self).wf(),
        ensures
            final(self).wf(),
            final(self).kinds() == old(self).kinds(),
            match sp_ident_list(old(self).kinds(), old(self).pos(), Seq::empty()) {
                Ok((v, q)) => r is Ok && strings_view(r->Ok_0@) == v && final(self).pos() == q,
                Err(e) => r is Err && r->Err_0@ == e,
            },
    {
        let ghost ts = self.kinds();
        let ghost p0 = self.pos();
        let mut names: Vec<String> = Vec::new();
        assert(strings_view(names@) =~= Seq::<Seq<char>>::empty());
        loop
            invariant_except_break
                self.wf(),
                self.kinds() == ts,
                ts == old(self).kinds(),
                p0 == old(self).pos(),
                p0 <= self.pos(),
                sp_ident_list(ts, self.pos(), strings_view(names@)) == sp_ident_list(ts, p0, Seq::empty()),
            ensures
                self.wf(),
                self.kinds() == ts,
                sp_ident_list(ts, p0, Seq::empty()) == Ok::<(Seq<Seq<char>>, nat), ErrorView>(
                    (strings_view(names@), self.pos()),
                ),
            decreases ts.len() - self.pos(),
        {
            let ghost acc = strings_view(names@);
            let n = match self.expect_identifier() {
                Err(e) => {
                    return Err(e);
                },
                Ok(n) => n,
            };
            let ghost nv = n@;
            names.push(n);
            assert(strings_view(names@) =~= acc.push(nv));
            if !self.check(&TokenType::Comma) {
                break;
            }
            self.advance();
        }
        Ok(names)
    }

    /// The rows of a VALUES clause.
    fn parse_rows(&mut self) -> (r: Result<Vec<Vec<Expr>>>)
        requires
            old(self).wf(),
        ensures
            final(self).wf(),
            final(self).kinds() == old(self).kinds(),
            match sp_rows(old(self).kinds(), old(self).pos(), Seq::empty()) {
                Ok((v, q)) => r is Ok && r->Ok_0@.map_values(|row: Vec<Expr>| exprs_view(row@)) == v
                    && final(self).pos() == q,
                Err(e) => r is Err && r->Err_0@ == e,
            },
    {
        let ghost ts = self.kinds();
        let ghost p0 = self.pos();
        let mut values: Vec<Vec<Expr>> = Vec::new();
        assert(values@.map_values(|row: Vec<Expr>| exprs_view(row@)) =~= Seq::<Seq<ExprView>>::empty());
        loop
            invariant_except_break
                self.wf(),
                self.kinds() == ts,
                ts == old(self).kinds(),
                p0 == old(self).pos(),
                p0 <= self.pos(),
                sp_rows(ts, self.pos(), values@.map_values(|row: Vec<Expr>| exprs_view(row@)))
                    == sp_rows(ts, p0, Seq::empty()),
            ensures
                self.wf(),
                self.kinds() == ts,
                sp_rows(ts, p0, Seq::empty()) == Ok::<(Seq<Seq<ExprView>>, nat), ErrorView>(
                    (values@.map_values(|row: Vec<Expr>| exprs_view(row@)), self.pos()),
                ),
            decreases ts.len() - self.pos(),
        {
            let ghost acc = values@.map_values(|row: Vec<Expr>| exprs_view(row@));
            match self.expect(TokenType::LeftParen) {
                Err(e) => {
                    return Err(e);
                },
                Ok(()) => {},
            }
            let row = match self.parse_expr_list() {
                Err(e) => {
                    return Err(e);
                },
                Ok(row) => row,
            };
            match self.expect(TokenType::RightParen) {
                Err(e) => {
                    return Err(e);
                },
                Ok(()) => {},
            }
            let ghost rv = exprs_view(row@);
            values.push(row);
            assert(values@.map_values(|row: Vec<Expr>| exprs_view(row@)) =~= acc.push(rv));
            if !self.check(&TokenType::Comma) {
                break;
            }
            self.advance();
        }
        Ok(values)
    }

    /// Parse UPDATE statement
    fn parse_update(&mut self) -> (r: Result<UpdateStatement>)
        requires
            old(self).wf(),
        ensures
            final(self).wf(),
            final(self).kinds() == old(self).kinds(),
            res_matches(r, sp_update(old(self).kinds(), old(self).pos()), final(self).pos()),
    {
        match self.expect(TokenType::Update) {
            Err(e) => {
                return Err(e);
            },
            Ok(()) => {},
        }
        let table = match self.expect_identifier() {
            Err(e) => {
                return Err(e);
            },
            Ok(t) => t,
        };
        match self.expect(TokenType::SetKeyword) {
            Err(e) => {
                return Err(e);
            },
            Ok(()) => {},
        }
        let assignments = match self.parse_assignments() {
            Err(e) => {
                return Err(e);
            },
            Ok(a) => a,
        };
        let where_clause = match self.parse_opt_where() {
            Err(e) => {
                return Err(e);
            },
            Ok(w) => w,
        };
        Ok(UpdateStatement { table, assignments, where_clause })
    }

    /// The assignments of an UPDATE.
    fn parse_assignments(&mut self) -> (r: Result<Vec<Assignment>>)
        requires
            old(self).wf(),
        ensures
            final(self).wf(),
            final(self).kinds() == old(self).kinds(),
            match sp_assignments(old(self).kinds(), old(self).pos(), Seq::empty()) {
                Ok((v, q)) => r is Ok && r->Ok_0@.map_values(|a: Assignment| (a.column@, expr_view(a.value))) == v
                    && final(self).pos() == q,
                Err(e) => r is Err && r->Err_0@ == e,
            },
    {
        let ghost ts = self.kinds();
        let ghost p0 = self.pos();
        let mut assignments: Vec<Assignment> = Vec::new();
        assert(assignments@.map_values(|a: Assignment| (a.column@, expr_view(a.value))) =~= Seq::<(Seq<char>, ExprView)>::empty());
        loop
            invariant_except_break
                self.wf(),
                self.kinds() == ts,
                ts == old(self).kinds(),
                p0 == old(self).pos(),
                p0 <= self.pos(),
                sp_assignments(ts, self.pos(), assignments@.map_values(|a: Assignment| (a.column@, expr_view(a.value))))
                    == sp_assignments(ts, p0, Seq::empty()),
            ensures
                self.wf(),
                self.kinds() == ts,
                sp_assignments(ts, p0, Seq::empty()) == Ok::<(Seq<(Seq<char>, ExprView)>, nat), ErrorView>(
                    (assignments@.map_values(|a: Assignment| (a.column@, expr_view(a.value))), self.pos()),
                ),
            decreases ts.len() - self.pos(),
        {
            let ghost acc = assignments@.map_values(|a: Assignment| (a.column@, expr_view(a.value)));
            let column = match self.expect_identifier() {
                Err(e) => {
                    return Err(e);
                },
                Ok(c) => c,
            };
            match self.expect(TokenType::Equal) {
                Err(e) => {
                    return Err(e);
                },
                Ok(()) => {},
            }
            let value = match self.parse_expression() {
                Err(e) => {
                    return Err(e);
                },
                Ok(v) => v,
            };
            let a = Assignment { column, value };
            assignments.push(a);
            assert(assignments@.map_values(|a: Assignment| (a.column@, expr_view(a.value))) =~= acc.push(
                (a.column@, expr_view(a.value)),
            ));
            if !self.check(&TokenType::Comma) {
                break;
            }
            self.advance();
        }
        Ok(assignments)
    }

    /// An optional WHERE clause.
    fn parse_opt_where(&mut self) -> (r: Result<Option<Expr>>)
        requires
            old(self).wf(),
        ensures
            final(self).wf(),
            final(self).kinds() == old(self).kinds(),
            match sp_opt_where(old(self).kinds(), old(self).pos()) {
                Ok((w, q)) => r is Ok && crate::sql::ast::opt_expr_view(r->Ok_0) == w && final(self).pos() == q,
                Err(e) => r is Err && r->Err_0@ == e,
            },
    {
        if self.check(&TokenType::Where) {
            self.advance();
            match self.parse_expression() {
                Err(e) => Err(e),
                Ok(w) => Ok(Some(w)),
            }
        } else {
            Ok(None)
        }
    }

    /// Parse DELETE statement
    fn parse_delete(&mut self) -> (r: Result<DeleteStatement>)
        requires
            old(self).wf(),
        ensures
            final(self).wf(),
            final(self).kinds() == old(self).kinds(),
            res_matches(r, sp_delete(old(self).kinds(), old(self).pos()), final(self).pos()),
    {
        match self.expect(TokenType::Delete) {
            Err(e) => {
                return Err(e);
            },
            Ok(()) => {},
        }
        match self.expect(TokenType::From) {
            Err(e) => {
                return Err(e);
            },
            Ok(()) => {},
        }
        let table = match self.expect_identifier() {
            Err(e) => {
                return Err(e);
            },
            Ok(t) => t,
        };
        let where_clause = match self.parse_opt_where() {
            Err(e) => {
                return Err(e);
            },
            Ok(w) => w,
        };
        Ok(DeleteStatement { table, where_clause })
    }

    /// Parse CREATE TABLE statement
    fn parse_create_table(&mut self) -> (r: Result<CreateTableStatement>)
        requires
            old(self).wf(),
        ensures
            final(self).wf(),
            final(self).kinds() == old(self).kinds(),
            res_matches(r, sp_create_table(old(self).kinds(), old(self).pos()), final(self).pos()),
    {
        match self.expect(TokenType::Create) {
            Err(e) => {
                return Err(e);
            },
            Ok(()) => {},
        }
        match self.expect(TokenType::Table) {
            Err(e) => {
                return Err(e);
            },
            Ok(()) => {},
        }
        let table = match self.expect_identifier() {
            Err(e) => {
                return Err(e);
            },
            Ok(t) => t,
        };
        match self.expect(TokenType::LeftParen) {
            Err(e) => {
                return Err(e);
            },
            Ok(()) => {},
        }
        let columns = match self.parse_column_defs() {
            Err(e) => {
                return Err(e);
            },
            Ok(c) => c,
        };
        match self.expect(TokenType::RightParen) {
            Err(e) => {
                return Err(e);
            },
            Ok(()) => {},
        }
        Ok(CreateTableStatement { table, columns })
    }

    /// The column definitions of a CREATE TABLE.
    fn parse_column_defs(&mut self) -> (r: Result<Vec<ColumnDef>>)
        requires
            old(self).wf(),
        ensures
            final(self).wf(),
            final(self).kinds() == old(self).kinds(),
            match sp_column_defs(old(self).kinds(), old(self).pos(), Seq::empty()) {
                Ok((v, q)) => r is Ok && r->Ok_0@.map_values(|c: ColumnDef| c@) == v && final(self).pos() == q,
                Err(e) => r is Err && r->Err_0@ == e,
            },
    {
        let ghost ts = self.kinds();
        let ghost p0 = self.pos();
        let mut columns: Vec<ColumnDef> = Vec::new();
        assert(columns@.map_values(|c: ColumnDef| c@) =~= Seq::<ColumnDefView>::empty());
        loop
            invariant_except_break
                self.wf(),
                self.kinds() == ts,
                ts == old(self).kinds(),
                p0 == old(self).pos(),
                p0 <= self.pos(),
                sp_column_defs(ts, self.pos(), columns@.map_values(|c: ColumnDef| c@))
                    == sp_column_defs(ts, p0, Seq::empty()),
            ensures
                self.wf(),
                self.kinds() == ts,
                sp_column_defs(ts, p0, Seq::empty()) == Ok::<(Seq<ColumnDefView>, nat), ErrorView>(
                    (columns@.map_values(|c: ColumnDef| c@), self.pos()),
                ),
            decreases ts.len() - self.pos(),
        {
            let ghost p = self.pos();
            let ghost acc = columns@.map_values(|c: ColumnDef| c@);
            let column_name = match self.expect_identifier() {
                Err(e) => {
                    return Err(e);
                },
                Ok(n) => n,
            };
            let data_type = match self.parse_data_type() {
                Err(e) => {
                    return Err(e);
                },
                Ok(d) => d,
            };
            let constraints = self.parse_constraints();
            let c = ColumnDef { name: column_name, data_type, constraints };
            columns.push(c);
            assert(columns@.map_values(|c: ColumnDef| c@) =~= acc.push(c@));
            if !self.check(&TokenType::Comma) {
                break;
            }
            self.advance();
        }
        Ok(columns)
    }

    /// The constraints after a column's type.
    fn parse_constraints(&mut self) -> (r: Vec<ColumnConstraint>)
        requires
            old(self).wf(),
        ensures
            final(self).wf(),
            final(self).kinds() == old(self).kinds(),
            sp_constraints(old(self).kinds(), old(self).pos(), Seq::empty()) == (
                r@.map_values(|c: ColumnConstraint| c@),
                final(self).pos(),
            ),
            old(self).pos() <= final(self).pos(),
    {
        let ghost ts = self.kinds();
        let ghost p0 = self.pos();
        let mut constraints: Vec<ColumnConstraint> = Vec::new();
        assert(constraints@.map_values(|c: ColumnConstraint| c@) =~= Seq::<ColumnConstraintView>::empty());
        while !self.check(&TokenType::Comma) && !self.check(&TokenType::RightParen)
            invariant_except_break
                self.wf(),
                self.kinds() == ts,
                p0 == old(self).pos(),
                p0 <= self.pos(),
                sp_constraints(ts, self.pos(), constraints@.map_values(|c: ColumnConstraint| c@))
                    == sp_constraints(ts, p0, Seq::empty()),
            ensures
                self.wf(),
                self.kinds() == ts,
                p0 <= self.pos(),
                sp_constraints(ts, p0, Seq::empty()) == (
                    constraints@.map_values(|c: ColumnConstraint| c@),
                    self.pos(),
                ),
            decreases ts.len() - self.pos(),
        {
            let ghost acc = constraints@.map_values(|c: ColumnConstraint| c@);
            proof { self.lemma_kind_at(self.position as int); }
            if self.check(&TokenType::Not) {
                self.advance();
                if self.check(&TokenType::Null) {
                    self.advance();
                    constraints.push(ColumnConstraint::NotNull);
                    assert(constraints@.map_values(|c: ColumnConstraint| c@) =~= acc.push(ColumnConstraintView::NotNull));
                }
            } else if self.current_matches_identifier("PRIMARY") {
                self.advance();
                if self.current_matches_identifier("KEY") {
                    self.advance();
                    constraints.push(ColumnConstraint::PrimaryKey);
                    assert(constraints@.map_values(|c: ColumnConstraint| c@) =~= acc.push(ColumnConstraintView::PrimaryKey));
                }
            } else if self.current_matches_identifier("UNIQUE") {
                self.advance();
                constraints.push(ColumnConstraint::Unique);
                assert(constraints@.map_values(|c: ColumnConstraint| c@) =~= acc.push(ColumnConstraintView::Unique));
            } else {
                break;
            }
        }
        constraints
    }

    /// Parse data type
    fn parse_data_type(&mut self) -> (r: Result<DataType>)
        requires
            old(self).wf(),
        ensures
            final(self).wf(),
            final(self).kinds() == old(self).kinds(),
            match sp_data_type(old(self).kinds(), old(self).pos()) {
                Ok((d, q)) => r == Ok::<DataType, Error>(d) && final(self).pos() == q,
                Err(e) => r is Err && r->Err_0@ == e,
            },
            old(self).pos() <= final(self).pos(),
    {
        proof { self.lemma_kind_at(self.position as int); }
        let data_type = match &self.tokens[self.position].token_type {
            TokenType::Integer => DataType::Integer,
            TokenType::Real => DataType::Real,
            TokenType::Text => DataType::Text,
            TokenType::Blob => DataType::Blob,
            TokenType::Identifier(name) => {
                let u = to_uppercase(name.as_str());
                if str_eq(u.as_str(), "INT") {
                    DataType::Integer
                } else if str_eq(u.as_str(), "FLOAT") || str_eq(u.as_str(), "DOUBLE") {
                    DataType::Real
                } else if str_eq(u.as_str(), "VARCHAR") || str_eq(u.as_str(), "CHAR") {
                    DataType::Text
                } else {
                    return Err(Error::Internal(joined("Unknown data type: ", name.as_str())));
                }
            },
            _ => {
                let d = debug_text(&self.tokens[self.position].token_type);
                return Err(Error::Internal(joined("Expected data type, got: ", d.as_str())));
            },
        };
        self.advance();
        Ok(data_type)
    }

    // -----------------------------------------------------------------
    // Expressions
    // -----------------------------------------------------------------

    /// Parse expression with operator precedence
    fn parse_expression(&mut self) -> (r: Result<Expr>)
        requires
            old(self).wf(),
        ensures
            final(self).wf(),
            final(self).kinds() == old(self).kinds(),
            res_matches(r, sp_expr(old(self).kinds(), old(self).pos()), final(self).pos()),
            r is Ok ==> old(self).pos() < final(self).pos(),
        decreases old(self).kinds().len() - old(self).pos(), 22nat,
    {
        self.parse_or()
    }

    fn parse_or(&mut self) -> (r: Result<Expr>)
        requires
            old(self).wf(),
        ensures
            final(self).wf(),
            final(self).kinds() == old(self).kinds(),
            res_matches(r, sp_level(old(self).kinds(), old(self).pos(), 0), final(self).pos()),
            r is Ok ==> old(self).pos() < final(self).pos(),
        decreases old(self).kinds().len() - old(self).pos(), 21nat,
    {
        self.parse_level(0)
    }

    /// The operator at the current token for a precedence level.
    fn level_operator(&self, level: usize) -> (r: Option<BinaryOperator>)
        requires
            self.wf(),
        ensures
            r == level_op(level as nat, self.kinds()[self.pos() as int]),
    {
        proof { self.lemma_kind_at(self.position as int); }
        let t = &self.tokens[self.position].token_type;
        if level == 0 {
            if matches!(t, TokenType::Or) { Some(BinaryOperator::Or) } else { None }
        } else if level == 1 {
            if matches!(t, TokenType::And) { Some(BinaryOperator::And) } else { None }
        } else if level == 2 {
            match t {
                TokenType::Equal => Some(BinaryOperator::Equal),
                TokenType::NotEqual => Some(BinaryOperator::NotEqual),
                _ => None,
            }
        } else if level == 3 {
            match t {
                TokenType::Less => Some(BinaryOperator::Less),
                TokenType::LessEqual => Some(BinaryOperator::LessEqual),
                TokenType::Greater => Some(BinaryOperator::Greater),
                TokenType::GreaterEqual => Some(BinaryOperator::GreaterEqual),
                _ => None,
            }
        } else if level == 4 {
            match t {
                TokenType::Plus => Some(BinaryOperator::Add),
                TokenType::Minus => Some(BinaryOperator::Subtract),
                _ => None,
            }
        } else if level == 5 {
            match t {
                TokenType::Star => Some(BinaryOperator::Multiply),
                TokenType::Slash => Some(BinaryOperator::Divide),
                TokenType::Percent => Some(BinaryOperator::Modulo),
                _ => None,
            }
        } else {
            None
        }
    }

    /// An expression at a precedence level: OR (0), AND (1), equality (2),
    /// comparison (3), addition (4), multiplication (5).
    fn parse_level(&mut self, level: usize) -> (r: Result<Expr>)
        requires
            old(self).wf(),
            level <= 5,
        ensures
            final(self).wf(),
            final(self).kinds() == old(self).kinds(),
            res_matches(r, sp_level(old(self).kinds(), old(self).pos(), level as nat), final(self).pos()),
            r is Ok ==> old(self).pos() < final(self).pos(),
        decreases old(self).kinds().len() - old(self).pos(), 20 - 3 * level,
    {
        let operand = if level == 5 {
            self.parse_unary()
        } else {
            self.parse_level(level + 1)
        };
        match operand {
            Err(e) => Err(e),
            Ok(e) => self.parse_level_tail(e, level),
        }
    }

    /// The rest of a left-associative chain at a precedence level.
    fn parse_level_tail(&mut self, acc: Expr, level: usize) -> (r: Result<Expr>)
        requires
            old(self).wf(),
            level <= 5,
        ensures
            final(self).wf(),
            final(self).kinds() == old(self).kinds(),
            res_matches(r, sp_level_tail(old(self).kinds(), acc@, old(self).pos(), level as nat), final(self).pos()),
            r is Ok ==> old(self).pos() <= final(self).pos(),
        decreases old(self).kinds().len() - old(self).pos(), 19 - 3 * level,
    {
        match self.level_operator(level) {
            None => Ok(acc),
            Some(op) => {
                proof { self.lemma_kind_at(self.position as int); }
                self.advance();
                let operand = if level == 5 {
                    self.parse_unary()
                } else {
                    self.parse_level(level + 1)
                };
                match operand {
                    Err(e) => Err(e),
                    Ok(right) => {
                        let e = Expr::BinaryOp { left: Box::new(acc), op, right: Box::new(right) };
                        self.parse_level_tail(e, level)
                    },
                }
            },
        }
    }

    fn parse_unary(&mut self) -> (r: Result<Expr>)
        requires
            old(self).wf(),
        ensures
            final(self).wf(),
            final(self).kinds() == old(self).kinds(),
            res_matches(r, sp_unary(old(self).kinds(), old(self).pos()), final(self).pos()),
            r is Ok ==> old(self).pos() < final(self).pos(),
        decreases old(self).kinds().len() - old(self).pos(), 2nat,
    {
        proof { self.lemma_kind_at(self.position as int); }
        let t = &self.tokens[self.position].token_type;
        if matches!(t, TokenType::Not | TokenType::Minus) {
            let op = if matches!(t, TokenType::Not) { UnaryOperator::Not } else { UnaryOperator::Minus };
            self.advance();
            match self.parse_unary() {
                Err(e) => Err(e),
                Ok(e) => Ok(Expr::UnaryOp { op, expr: Box::new(e) }),
            }
        } else {
            self.parse_primary()
        }
    }

    fn parse_primary(&mut self) -> (r: Result<Expr>)
        requires
            old(self).wf(),
        ensures
            final(self).wf(),
            final(self).kinds() == old(self).kinds(),
            res_matches(r, sp_primary(old(self).kinds(), old(self).pos()), final(self).pos()),
            r is Ok ==> old(self).pos() < final(self).pos(),
        decreases old(self).kinds().len() - old(self).pos(), 1nat,
    {
        proof { self.lemma_kind_at(self.position as int); }
        let ghost ts = self.kinds();
        let ghost p0 = self.pos();
        let t = &self.tokens[self.position].token_type;
        match t {
            TokenType::Number(n) => {
                let text = n.clone();
                self.advance();
                if has_char(text.as_str(), '.') {
                    Ok(Expr::Literal(Literal::Real(text)))
                } else {
                    let digits = chars_of(text.as_str());
                    match parse_i64(&digits) {
                        Some(v) => Ok(Expr::Literal(Literal::Integer(v))),
                        None => Err(Error::Internal(string_of("Invalid number"))),
                    }
                }
            },
            TokenType::String(s) => {
                let s = s.clone();
                self.advance();
                Ok(Expr::Literal(Literal::String(s)))
            },
            TokenType::Null => {
                self.advance();
                Ok(Expr::Literal(Literal::Null))
            },
            TokenType::True => {
                self.advance();
                Ok(Expr::Literal(Literal::Boolean(true)))
            },
            TokenType::False => {
                self.advance();
                Ok(Expr::Literal(Literal::Boolean(false)))
            },
            TokenType::Identifier(name) => {
                let name = name.clone();
                self.advance();
                if self.check(&TokenType::Dot) {
                    self.advance();
                    match self.expect_identifier() {
                        Err(e) => Err(e),
                        Ok(column) => Ok(Expr::Column { table: Some(name), name: column }),
                    }
                } else if self.check(&TokenType::LeftParen) {
                    self.advance();
                    let ghost p2 = self.pos();
                    let mut args: Vec<Expr> = Vec::new();
                    assert(exprs_view(args@) =~= Seq::<ExprView>::empty());
                    if !self.check(&TokenType::RightParen) {
                        let upper = to_uppercase(name.as_str());
                        if self.check(&TokenType::Star) && str_eq(upper.as_str(), "COUNT") {
                            self.advance();
                        } else {
                            match self.parse_expr_list() {
                                Err(e) => {
                                    return Err(e);
                                },
                                Ok(a) => {
                                    args = a;
                                },
                            }
                        }
                    }
                    match self.expect(TokenType::RightParen) {
                        Err(e) => Err(e),
                        Ok(()) => Ok(Expr::Function { name, args }),
                    }
                } else {
                    Ok(Expr::Column { table: None, name })
                }
            },
            TokenType::LeftParen => {
                self.advance();
                match self.parse_expression() {
                    Err(e) => Err(e),
                    Ok(e) => match self.expect(TokenType::RightParen) {
                        Err(err) => Err(err),
                        Ok(()) => Ok(e),
                    },
                }
            },
            _ => {
                let d = debug_text(t);
                Err(Error::Internal(joined("Unexpected token in expression: ", d.as_str())))
            },
        }
    }

    /// A comma-separated list of expressions.
    fn parse_expr_list(&mut self) -> (r: Result<Vec<Expr>>)
        requires
            old(self).wf(),
        ensures
            final(self).wf(),
            final(self).kinds() == old(self).kinds(),
            match sp_expr_list(old(self).kinds(), old(self).pos(), Seq::empty()) {
                Ok((v, q)) => r is Ok && exprs_view(r->Ok_0@) == v && final(self).pos() == q,
                Err(e) => r is Err && r->Err_0@ == e,
            },
            r is Ok ==> old(self).pos() < final(self).pos(),
        decreases old(self).kinds().len() - old(self).pos(), 23nat,
    {
        let ghost ts = self.kinds();
        let ghost p0 = self.pos();
        let mut items: Vec<Expr> = Vec::new();
        loop
            invariant_except_break
                self.wf(),
                self.kinds() == ts,
                ts == old(self).kinds(),
                p0 == old(self).pos(),
                p0 <= self.pos(),
                items@.len() > 0 ==> p0 < self.pos(),
                sp_expr_list(ts, self.pos(), exprs_view(items@)) == sp_expr_list(ts, p0, Seq::empty()),
            ensures
                self.wf(),
                self.kinds() == ts,
                p0 < self.pos(),
                sp_expr_list(ts, p0, Seq::empty()) == Ok::<(Seq<ExprView>, nat), ErrorView>((exprs_view(items@), self.pos())),
            decreases ts.len() - self.pos(),
        {
            let ghost p = self.pos();
            let ghost acc = exprs_view(items@);
            match self.parse_expression() {
                Err(e) => {
                    return Err(e);
                },
                Ok(e) => {
                    proof { lemma_exprs_view_push(items@, e); }
                    items.push(e);
                },
            }
            if !self.check(&TokenType::Comma) {
                break;
            }
            self.advance();
        }
        Ok(items)
    }
}

} // verus!
