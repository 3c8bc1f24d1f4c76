//! Rule-based rewriting of logical plans: constant folding, algebraic
//! simplification, filter merging, predicate pushdown and the index and
//! limit rules.
use vstd::prelude::*;
use crate::planner::logical::{LogicalPlan, LogicalPlanView, ProjectionExpr, plan_view, projections_view};
use crate::sql::ast::{
    BinaryOperator, Expr, ExprView, Literal, LiteralView, UnaryOperator, expr_view, literal_view, opt_str_view,
};
use crate::text::{push_char, str_eq};

verus! {

/// Query optimizer
pub struct Optimizer {
    /// Available indexes as (table, column), each at most once
    available_indexes: Vec<(String, String)>,
}

// ---------------------------------------------------------------------
// Expressions
// ---------------------------------------------------------------------

/// The text of a real number with its sign flipped.
pub open spec fn negated_text(s: Seq<char>) -> Seq<char> {
    if s.len() > 0 && s[0] == '-' { s.drop_first() } else { seq!['-'] + s }
}

/// An integer result, when it fits in 64 bits.
pub open spec fn int_literal(v: int) -> Option<LiteralView> {
    if i64::MIN <= v <= i64::MAX { Some(LiteralView::Integer(v as i64)) } else { None }
}

/// The value of a binary operation on two literals, where it is folded:
/// integer `+ - *` whose result fits, and boolean AND and OR.
pub open spec fn eval_binop(l: LiteralView, op: BinaryOperator, r: LiteralView) -> Option<LiteralView> {
    match (l, op, r) {
        (LiteralView::Integer(a), BinaryOperator::Add, LiteralView::Integer(b)) => int_literal(a + b),
        (LiteralView::Integer(a), BinaryOperator::Subtract, LiteralView::Integer(b)) => int_literal(a - b),
        (LiteralView::Integer(a), BinaryOperator::Multiply, LiteralView::Integer(b)) => int_literal(a * b),
        (LiteralView::Boolean(a), BinaryOperator::And, LiteralView::Boolean(b)) => Some(LiteralView::Boolean(a && b)),
        (LiteralView::Boolean(a), BinaryOperator::Or, LiteralView::Boolean(b)) => Some(LiteralView::Boolean(a || b)),
        _ => None,
    }
}

/// The value of a unary operation on a literal, where it is folded.
pub open spec fn eval_unary(op: UnaryOperator, l: LiteralView) -> Option<LiteralView> {
    match (op, l) {
        (UnaryOperator::Minus, LiteralView::Integer(i)) => int_literal(-i),
        (UnaryOperator::Minus, LiteralView::Real(s)) => Some(LiteralView::Real(negated_text(s))),
        (UnaryOperator::Not, LiteralView::Boolean(b)) => Some(LiteralView::Boolean(!b)),
        _ => None,
    }
}

/// An expression with its constant binary and unary operations evaluated,
/// innermost first.
pub open spec fn fold_expr(e: ExprView) -> ExprView
    decreases e,
{
    match e {
        ExprView::BinaryOp { left, op, right } => {
            let l = fold_expr(*left);
            let r = fold_expr(*right);
            match (l, r) {
                (ExprView::Literal(a), ExprView::Literal(b)) => match eval_binop(a, op, b) {
                    Some(v) => ExprView::Literal(v),
                    None => ExprView::BinaryOp { left: Box::new(l), op, right: Box::new(r) },
                },
                _ => ExprView::BinaryOp { left: Box::new(l), op, right: Box::new(r) },
            }
        },
        ExprView::UnaryOp { op, expr } => {
            let f = fold_expr(*expr);
            match f {
                ExprView::Literal(a) => match eval_unary(op, a) {
                    Some(v) => ExprView::Literal(v),
                    None => ExprView::UnaryOp { op, expr: Box::new(f) },
                },
                _ => ExprView::UnaryOp { op, expr: Box::new(f) },
            }
        },
        _ => e,
    }
}

pub open spec fn is_int_lit(e: ExprView, v: i64) -> bool {
    e == ExprView::Literal(LiteralView::Integer(v))
}

/// An expression with `x + 0`, `0 + x`, `x * 1` and `1 * x` reduced to `x`
/// and `x * 0` to `0`, in binary operations, innermost first.
pub open spec fn simplify_expr(e: ExprView) -> ExprView
    decreases e,
{
    match e {
        ExprView::BinaryOp { left, op, right } => {
            let l = simplify_expr(*left);
            let r = simplify_expr(*right);
            if op == BinaryOperator::Add && is_int_lit(r, 0) {
                l
            } else if op == BinaryOperator::Add && is_int_lit(l, 0) {
                r
            } else if op == BinaryOperator::Multiply && is_int_lit(r, 1) {
                l
            } else if op == BinaryOperator::Multiply && is_int_lit(l, 1) {
                r
            } else if op == BinaryOperator::Multiply && is_int_lit(r, 0) {
                ExprView::Literal(LiteralView::Integer(0))
            } else {
                ExprView::BinaryOp { left: Box::new(l), op, right: Box::new(r) }
            }
        },
        _ => e,
    }
}

pub open spec fn map_projection_exprs(
    es: Seq<(ExprView, Option<Seq<char>>)>,
    f: spec_fn(ExprView) -> ExprView,
) -> Seq<(ExprView, Option<Seq<char>>)> {
    es.map_values(|p: (ExprView, Option<Seq<char>>)| (f(p.0), p.1))
}

// ---------------------------------------------------------------------
// Plan rules
// ---------------------------------------------------------------------

pub open spec fn fold_plan(p: LogicalPlanView) -> LogicalPlanView
    decreases p,
{
    match p {
        LogicalPlanView::Filter { input, predicate } =>
            LogicalPlanView::Filter { input: Box::new(fold_plan(*input)), predicate: fold_expr(predicate) },
        LogicalPlanView::Projection { input, expressions } => LogicalPlanView::Projection {
            input: Box::new(fold_plan(*input)),
            expressions: map_projection_exprs(expressions, |e: ExprView| fold_expr(e)),
        },
        LogicalPlanView::Sort { input, order_by } => LogicalPlanView::Sort { input: Box::new(fold_plan(*input)), order_by },
        LogicalPlanView::Limit { input, limit, offset } =>
            LogicalPlanView::Limit { input: Box::new(fold_plan(*input)), limit, offset },
        _ => p,
    }
}

pub open spec fn simplify_plan(p: LogicalPlanView) -> LogicalPlanView
    decreases p,
{
    match p {
        LogicalPlanView::Filter { input, predicate } =>
            LogicalPlanView::Filter { input: Box::new(simplify_plan(*input)), predicate: simplify_expr(predicate) },
        LogicalPlanView::Projection { input, expressions } => LogicalPlanView::Projection {
            input: Box::new(simplify_plan(*input)),
            expressions: map_projection_exprs(expressions, |e: ExprView| simplify_expr(e)),
        },
        _ => p,
    }
}

/// Two directly nested filters become one, whose predicate is the inner
/// predicate AND the outer one.
pub open spec fn merge_filters(p: LogicalPlanView) -> LogicalPlanView
    decreases p,
{
    match p {
        LogicalPlanView::Filter { input, predicate } => {
            let oi = merge_filters(*input);
            match oi {
                LogicalPlanView::Filter { input: ii, predicate: ip } => LogicalPlanView::Filter {
                    input: ii,
                    predicate: ExprView::BinaryOp { left: Box::new(ip), op: BinaryOperator::And, right: Box::new(predicate) },
                },
                _ => LogicalPlanView::Filter { input: Box::new(oi), predicate },
            }
        },
        _ => p,
    }
}

/// A filter over a projection moves below it.
pub open spec fn push_predicates(p: LogicalPlanView) -> LogicalPlanView
    decreases p,
{
    match p {
        LogicalPlanView::Filter { input, predicate } => {
            let oi = push_predicates(*input);
            match oi {
                LogicalPlanView::Projection { input: pi, expressions } => LogicalPlanView::Projection {
                    input: Box::new(LogicalPlanView::Filter { input: pi, predicate }),
                    expressions,
                },
                _ => LogicalPlanView::Filter { input: Box::new(oi), predicate },
            }
        },
        LogicalPlanView::Projection { input, expressions } =>
            LogicalPlanView::Projection { input: Box::new(push_predicates(*input)), expressions },
        LogicalPlanView::Sort { input, order_by } =>
            LogicalPlanView::Sort { input: Box::new(push_predicates(*input)), order_by },
        LogicalPlanView::Limit { input, limit, offset } =>
            LogicalPlanView::Limit { input: Box::new(push_predicates(*input)), limit, offset },
        _ => p,
    }
}

/// The column of an equality predicate `column = literal` on an integer,
/// real or string literal.
pub open spec fn index_candidate(e: ExprView) -> Option<Seq<char>> {
    match e {
        ExprView::BinaryOp { left, op, right } => {
            if op == BinaryOperator::Equal {
                match (*left, *right) {
                    (ExprView::Column { name, .. }, ExprView::Literal(LiteralView::Integer(_))) => Some(name),
                    (ExprView::Column { name, .. }, ExprView::Literal(LiteralView::Real(_))) => Some(name),
                    (ExprView::Column { name, .. }, ExprView::Literal(LiteralView::String(_))) => Some(name),
                    _ => None,
                }
            } else {
                None
            }
        },
        _ => None,
    }
}

/// The index rule: a filter directly over a scan of a table with an index
/// on the filtered column stays a filtered scan; other filters have the
/// rule applied below them.
pub open spec fn select_indexes(p: LogicalPlanView, idx: Set<(Seq<char>, Seq<char>)>) -> LogicalPlanView
    decreases p,
{
    match p {
        LogicalPlanView::Filter { input, predicate } => {
            let indexed = match (*input, index_candidate(predicate)) {
                (LogicalPlanView::Scan { table, .. }, Some(c)) => idx.contains((table, c)),
                _ => false,
            };
            if indexed {
                p
            } else {
                LogicalPlanView::Filter { input: Box::new(select_indexes(*input, idx)), predicate }
            }
        },
        _ => p,
    }
}

/// The limit rule: a limit over a sort stays as it is; other limits have
/// the rule applied below them.
pub open spec fn push_limits(p: LogicalPlanView) -> LogicalPlanView
    decreases p,
{
    match p {
        LogicalPlanView::Limit { input, limit, offset } => match *input {
            LogicalPlanView::Sort { .. } => p,
            _ => LogicalPlanView::Limit { input: Box::new(push_limits(*input)), limit, offset },
        },
        _ => p,
    }
}

/// All rules, in the order the optimizer applies them.
pub open spec fn optimized(p: LogicalPlanView, idx: Set<(Seq<char>, Seq<char>)>) -> LogicalPlanView {
    push_limits(select_indexes(push_predicates(merge_filters(simplify_plan(fold_plan(p)))), idx))
}

// ---------------------------------------------------------------------
// Executable rules
// ---------------------------------------------------------------------

fn eval_constant_binop(left: &Literal, op: BinaryOperator, right: &Literal) -> (r: Option<Literal>)
    ensures
        match (r, eval_binop(literal_view(*left), op, literal_view(*right))) {
            (Some(a), Some(b)) => literal_view(a) == b,
            (None, None) => true,
            _ => false,
        },
{
    match (left, op, right) {
        (Literal::Integer(a), BinaryOperator::Add, Literal::Integer(b)) => match a.checked_add(*b) {
            Some(v) => Some(Literal::Integer(v)),
            None => None,
        },
        (Literal::Integer(a), BinaryOperator::Subtract, Literal::Integer(b)) => match a.checked_sub(*b) {
            Some(v) => Some(Literal::Integer(v)),
            None => None,
        },
        (Literal::Integer(a), BinaryOperator::Multiply, Literal::Integer(b)) => match a.checked_mul(*b) {
            Some(v) => Some(Literal::Integer(v)),
            None => None,
        },
        (Literal::Boolean(a), BinaryOperator::And, Literal::Boolean(b)) => Some(Literal::Boolean(*a && *b)),
        (Literal::Boolean(a), BinaryOperator::Or, Literal::Boolean(b)) => Some(Literal::Boolean(*a || *b)),
        _ => None,
    }
}

fn negate_text(s: &String) -> (r: String)
    ensures
        r@ == negated_text(s@),
{
    let cs = crate::text::chars_of(s.as_str());
    let mut out = String::new();
    let mut i: usize = 0;
    if cs.len() > 0 && cs[0] == '-' {
        i = 1;
    } else {
        push_char(&mut out, '-');
    }
    let ghost start = i;
    let ghost prefix = out@;
    while i < cs.len()
        invariant
            start <= i <= cs@.len(),
            cs@ == s@,
            out@ == prefix + cs@.subrange(start as int, i as int),
        decreases cs.len() - i,
    {
        push_char(&mut out, cs[i]);
        assert(cs@.subrange(start as int, i + 1) =~= cs@.subrange(start as int, i as int).push(cs@[i as int]));
        i = i + 1;
    }
    assert(cs@.subrange(start as int, cs@.len() as int) =~= if start == 1 { s@.drop_first() } else { s@ });
    assert(prefix =~= if start == 1 { Seq::<char>::empty() } else { seq!['-'] });
    out
}

fn eval_constant_unaryop(op: UnaryOperator, operand: &Literal) -> (r: Option<Literal>)
    ensures
        match (r, eval_unary(op, literal_view(*operand))) {
            (Some(a), Some(b)) => literal_view(a) == b,
            (None, None) => true,
            _ => false,
        },
{
    match (op, operand) {
        (UnaryOperator::Minus, Literal::Integer(i)) => {
            if *i == i64::MIN { None } else { Some(Literal::Integer(-*i)) }
        },
        (UnaryOperator::Minus, Literal::Real(s)) => Some(Literal::Real(negate_text(s))),
        (UnaryOperator::Not, Literal::Boolean(b)) => Some(Literal::Boolean(!*b)),
        _ => None,
    }
}

fn fold_expression(expr: Expr) -> (r: Expr)
    ensures
        r@ == fold_expr(expr@),
    decreases expr,
{
    match expr {
        Expr::BinaryOp { left, op, right } => {
            let l = fold_expression(*left);
            let r = fold_expression(*right);
            let folded = match (&l, &r) {
                (Expr::Literal(a), Expr::Literal(b)) => eval_constant_binop(a, op, b),
                _ => None,
            };
            match folded {
                Some(v) => Expr::Literal(v),
                None => Expr::BinaryOp { left: Box::new(l), op, right: Box::new(r) },
            }
        },
        Expr::UnaryOp { op, expr: inner } => {
            let f = fold_expression(*inner);
            let folded = match &f {
                Expr::Literal(a) => eval_constant_unaryop(op, a),
                _ => None,
            };
            match folded {
                Some(v) => Expr::Literal(v),
                None => Expr::UnaryOp { op, expr: Box::new(f) },
            }
        },
        _ => expr,
    }
}

fn is_int_literal(e: &Expr, v: i64) -> (b: bool)
    ensures
        b == is_int_lit(e@, v),
{
    match e {
        Expr::Literal(Literal::Integer(i)) => *i == v,
        _ => false,
    }
}

fn simplify_tree(expr: Expr) -> (r: Expr)
    ensures
        r@ == simplify_expr(expr@),
    decreases expr,
{
    match expr {
        Expr::BinaryOp { left, op, right } => {
            let l = simplify_tree(*left);
            let r = simplify_tree(*right);
            let is_add = match op { BinaryOperator::Add => true, _ => false };
            let is_mul = match op { BinaryOperator::Multiply => true, _ => false };
            if is_add && is_int_literal(&r, 0) {
                l
            } else if is_add && is_int_literal(&l, 0) {
                r
            } else if is_mul && is_int_literal(&r, 1) {
                l
            } else if is_mul && is_int_literal(&l, 1) {
                r
            } else if is_mul && is_int_literal(&r, 0) {
                Expr::Literal(Literal::Integer(0))
            } else {
                Expr::BinaryOp { left: Box::new(l), op, right: Box::new(r) }
            }
        },
        _ => expr,
    }
}

/// Rewrites the expression of each projection with one of the two
/// expression rules.
fn map_projections(expressions: Vec<ProjectionExpr>, fold: bool) -> (r: Vec<ProjectionExpr>)
    ensures
        projections_view(r@) == map_projection_exprs(
            projections_view(expressions@),
            if fold { |e: ExprView| fold_expr(e) } else { |e: ExprView| simplify_expr(e) },
        ),
{
    let ghost all = expressions@;
    let ghost n = all.len();
    let ghost f = if fold { |e: ExprView| fold_expr(e) } else { |e: ExprView| simplify_expr(e) };
    let mut rest = expressions;
    let mut out: Vec<ProjectionExpr> = Vec::new();
    while rest.len() > 0
        invariant
            n == all.len(),
            f == (if fold { |e: ExprView| fold_expr(e) } else { |e: ExprView| simplify_expr(e) }),
            out@.len() + rest@.len() == n,
            rest@ == all.subrange(out@.len() as int, n as int),
            forall|i: int| 0 <= i < out@.len() ==>
                expr_view((#[trigger] out@[i]).expr) == f(expr_view(all[i].expr))
                && opt_str_view(out@[i].alias) == opt_str_view(all[i].alias),
        decreases rest.len(),
    {
        let p = rest.remove(0);
        let e = if fold { fold_expression(p.expr) } else { simplify_tree(p.expr) };
        out.push(ProjectionExpr { expr: e, alias: p.alias });
    }
    assert(projections_view(out@) =~= map_projection_exprs(projections_view(all), f));
    out
}

/// A (table, column) pair as text.
pub open spec fn pair_view(p: (String, String)) -> (Seq<char>, Seq<char>) {
    (p.0@, p.1@)
}

impl Optimizer {
    /// The indexes registered, as (table, column) pairs.
    pub closed spec fn indexes(&self) -> Set<(Seq<char>, Seq<char>)> {
        Set::new(|p: (Seq<char>, Seq<char>)|
            exists|i: int| 0 <= i < self.available_indexes@.len()
                && #[trigger] pair_view(self.available_indexes@[i]) == p)
    }

    /// Create a new optimizer
    pub fn new() -> (o: Self)
        ensures
            o.indexes() == Set::<(Seq<char>, Seq<char>)>::empty(),
    {
        let o = Optimizer { available_indexes: Vec::new() };
        assert(o.indexes() =~= Set::<(Seq<char>, Seq<char>)>::empty());
        o
    }

    /// Register an available index
    pub fn register_index(&mut self, table: String, column: String)
        ensures
            final(self).indexes() == old(self).indexes().insert((table@, column@)),
    {
        let mut i: usize = 0;
        while i < self.available_indexes.len()
            invariant
                i <= self.available_indexes@.len(),
                forall|j: int| 0 <= j < i ==> #[trigger] pair_view(self.available_indexes@[j]) != (table@, column@),
            decreases self.available_indexes.len() - i,
        {
            if str_eq(self.available_indexes[i].0.as_str(), table.as_str())
                && str_eq(self.available_indexes[i].1.as_str(), column.as_str())
            {
                assert(self.indexes() =~= self.indexes().insert((table@, column@))) by {
                    assert(pair_view(self.available_indexes@[i as int]) == (table@, column@));
                }
                return;
            }
            i = i + 1;
        }
        let ghost before = self.indexes();
        let ghost tv = table@;
        let ghost cv = column@;
        let ghost old_v = self.available_indexes@;
        self.available_indexes.push((table, column));
        assert(self.indexes() =~= before.insert((tv, cv))) by {
            assert(pair_view(self.available_indexes@[old_v.len() as int]) == (tv, cv));
            assert forall|p: (Seq<char>, Seq<char>)| before.contains(p) implies self.indexes().contains(p) by {
                let j = choose|j: int| 0 <= j < old_v.len() && pair_view(old_v[j]) == p;
                assert(self.available_indexes@[j] == old_v[j]);
            }
            assert forall|p: (Seq<char>, Seq<char>)| self.indexes().contains(p) implies before.insert((tv, cv)).contains(p) by {
                let j = choose|j: int| 0 <= j < self.available_indexes@.len()
                    && pair_view(self.available_indexes@[j]) == p;
                if j < old_v.len() {
                    assert(self.available_indexes@[j] == old_v[j]);
                }
            }
        }
    }

    fn has_index(&self, table: &String, column: &String) -> (b: bool)
        ensures
            b == self.indexes().contains((table@, column@)),
    {
        let mut i: usize = 0;
        while i < self.available_indexes.len()
            invariant
                i <= self.available_indexes@.len(),
                forall|j: int| 0 <= j < i ==> #[trigger] pair_view(self.available_indexes@[j]) != (table@, column@),
            decreases self.available_indexes.len() - i,
        {
            if str_eq(self.available_indexes[i].0.as_str(), table.as_str())
                && str_eq(self.available_indexes[i].1.as_str(), column.as_str())
            {
                assert(pair_view(self.available_indexes@[i as int]) == (table@, column@));
                return true;
            }
            i = i + 1;
        }
        false
    }

    /// Fold the constant operations of an expression
    pub fn fold_constants(&self, expr: Expr) -> (r: Expr)
        ensures
            r@ == fold_expr(expr@),
    {
        fold_expression(expr)
    }

    /// Simplify an expression algebraically
    pub fn simplify_expression(&self, expr: Expr) -> (r: Expr)
        ensures
            r@ == simplify_expr(expr@),
    {
        simplify_tree(expr)
    }

    /// Optimize a logical plan
    pub fn optimize(&self, plan: LogicalPlan) -> (r: LogicalPlan)
        ensures
            r@ == optimized(plan@, self.indexes()),
    {
        let mut plan = self.apply_constant_folding(plan);
        plan = self.apply_expression_simplification(plan);
        plan = self.apply_filter_merging(plan);
        plan = self.apply_predicate_pushdown(plan);
        plan = self.apply_projection_pushdown(plan);
        plan = self.apply_index_selection(plan);
        plan = self.apply_limit_pushdown(plan);
        plan
    }

    /// Projection pushdown: rebuilds projections and filters around their
    /// inputs; no column is dropped, so the plan stays as it was
    fn apply_projection_pushdown(&self, plan: LogicalPlan) -> (r: LogicalPlan)
        ensures
            r == plan,
        decreases plan,
    {
        match plan {
            LogicalPlan::Projection { input, expressions } =>
                LogicalPlan::Projection { input: Box::new(self.apply_projection_pushdown(*input)), expressions },
            LogicalPlan::Filter { input, predicate } =>
                LogicalPlan::Filter { input: Box::new(self.apply_projection_pushdown(*input)), predicate },
            _ => plan,
        }
    }

    fn apply_constant_folding(&self, plan: LogicalPlan) -> (r: LogicalPlan)
        ensures
            r@ == fold_plan(plan@),
        decreases plan,
    {
        match plan {
            LogicalPlan::Filter { input, predicate } => {
                let p = fold_expression(predicate);
                LogicalPlan::Filter { input: Box::new(self.apply_constant_folding(*input)), predicate: p }
            },
            LogicalPlan::Projection { input, expressions } => {
                let e = map_projections(expressions, true);
                LogicalPlan::Projection { input: Box::new(self.apply_constant_folding(*input)), expressions: e }
            },
            LogicalPlan::Sort { input, order_by } =>
                LogicalPlan::Sort { input: Box::new(self.apply_constant_folding(*input)), order_by },
            LogicalPlan::Limit { input, limit, offset } =>
                LogicalPlan::Limit { input: Box::new(self.apply_constant_folding(*input)), limit, offset },
            _ => plan,
        }
    }

    fn apply_expression_simplification(&self, plan: LogicalPlan) -> (r: LogicalPlan)
        ensures
            r@ == simplify_plan(plan@),
        decreases plan,
    {
        match plan {
            LogicalPlan::Filter { input, predicate } => {
                let p = simplify_tree(predicate);
                LogicalPlan::Filter { input: Box::new(self.apply_expression_simplification(*input)), predicate: p }
            },
            LogicalPlan::Projection { input, expressions } => {
                let e = map_projections(expressions, false);
                LogicalPlan::Projection { input: Box::new(self.apply_expression_simplification(*input)), expressions: e }
            },
            _ => plan,
        }
    }

    fn apply_filter_merging(&self, plan: LogicalPlan) -> (r: LogicalPlan)
        ensures
            r@ == merge_filters(plan@),
        decreases plan,
    {
        match plan {
            LogicalPlan::Filter { input, predicate } => {
                let oi = self.apply_filter_merging(*input);
                match oi {
                    LogicalPlan::Filter { input: inner_input, predicate: inner_predicate } => LogicalPlan::Filter {
                        input: inner_input,
                        predicate: Expr::BinaryOp {
                            left: Box::new(inner_predicate),
                            op: BinaryOperator::And,
                            right: Box::new(predicate),
                        },
                    },
                    _ => LogicalPlan::Filter { input: Box::new(oi), predicate },
                }
            },
            _ => plan,
        }
    }

    fn apply_predicate_pushdown(&self, plan: LogicalPlan) -> (r: LogicalPlan)
        ensures
            r@ == push_predicates(plan@),
        decreases plan,
    {
        proof { reveal_with_fuel(plan_view, 2); }
        match plan {
            LogicalPlan::Filter { input, predicate } => {
                let oi = self.apply_predicate_pushdown(*input);
                match oi {
                    LogicalPlan::Projection { input: proj_input, expressions } => LogicalPlan::Projection {
                        input: Box::new(LogicalPlan::Filter { input: proj_input, predicate }),
                        expressions,
                    },
                    _ => LogicalPlan::Filter { input: Box::new(oi), predicate },
                }
            },
            LogicalPlan::Projection { input, expressions } =>
                LogicalPlan::Projection { input: Box::new(self.apply_predicate_pushdown(*input)), expressions },
            LogicalPlan::Sort { input, order_by } =>
                LogicalPlan::Sort { input: Box::new(self.apply_predicate_pushdown(*input)), order_by },
            LogicalPlan::Limit { input, limit, offset } =>
                LogicalPlan::Limit { input: Box::new(self.apply_predicate_pushdown(*input)), limit, offset },
            _ => plan,
        }
    }

    /// The column of an equality predicate against a literal that an index
    /// could serve.
    fn extract_index_candidate(&self, expr: &Expr) -> (r: Option<String>)
        ensures
            opt_str_view(r) == index_candidate(expr@),
    {
        proof { reveal_with_fuel(expr_view, 2); }
        match expr {
            Expr::BinaryOp { left, op: BinaryOperator::Equal, right } => match (&**left, &**right) {
                (Expr::Column { name, .. }, Expr::Literal(Literal::Integer(_))) => Some(name.clone()),
                (Expr::Column { name, .. }, Expr::Literal(Literal::Real(_))) => Some(name.clone()),
                (Expr::Column { name, .. }, Expr::Literal(Literal::String(_))) => Some(name.clone()),
                _ => None,
            },
            _ => None,
        }
    }

    fn apply_index_selection(&self, plan: LogicalPlan) -> (r: LogicalPlan)
        ensures
            r@ == select_indexes(plan@, self.indexes()),
        decreases plan,
    {
        proof { reveal_with_fuel(plan_view, 2); }
        match plan {
            LogicalPlan::Filter { input, predicate } => {
                let indexed = match (&*input, self.extract_index_candidate(&predicate)) {
                    (LogicalPlan::Scan { table, .. }, Some(column)) => self.has_index(table, &column),
                    _ => false,
                };
                if indexed {
                    LogicalPlan::Filter { input, predicate }
                } else {
                    LogicalPlan::Filter { input: Box::new(self.apply_index_selection(*input)), predicate }
                }
            },
            _ => plan,
        }
    }

    fn apply_limit_pushdown(&self, plan: LogicalPlan) -> (r: LogicalPlan)
        ensures
            r@ == push_limits(plan@),
        decreases plan,
    {
        proof { reveal_with_fuel(plan_view, 2); }
        match plan {
            LogicalPlan::Limit { input, limit, offset } => {
                let is_sort = match &*input { LogicalPlan::Sort { .. } => true, _ => false };
                if is_sort {
                    LogicalPlan::Limit { input, limit, offset }
                } else {
                    LogicalPlan::Limit { input: Box::new(self.apply_limit_pushdown(*input)), limit, offset }
                }
            },
            _ => plan,
        }
    }
}

impl Default for Optimizer {
    fn default() -> (o: Self)
        ensures
            o.indexes() == Set::<(Seq<char>, Seq<char>)>::empty(),
    {
        Self::new()
    }
}

/// The integer an expression stands for, when it is built from integer
/// literals with `+`, `-`, `*` and unary minus, computed without bounds.
pub open spec fn int_value(e: ExprView) -> Option<int>
    decreases e,
{
    match e {
        ExprView::Literal(LiteralView::Integer(i)) => Some(i as int),
        ExprView::BinaryOp { left, op, right } => match (int_value(*left), int_value(*right)) {
            (Some(a), Some(b)) => if op == BinaryOperator::Add {
                Some(a + b)
            } else if op == BinaryOperator::Subtract {
                Some(a - b)
            } else if op == BinaryOperator::Multiply {
                Some(a * b)
            } else {
                None
            },
            _ => None,
        },
        ExprView::UnaryOp { op: UnaryOperator::Minus, expr } => match int_value(*expr) {
            Some(a) => Some(-a),
            None => None,
        },
        _ => None,
    }
}

/// The truth value an expression stands for, when it is built from boolean
/// literals with AND, OR and NOT.
pub open spec fn bool_value(e: ExprView) -> Option<bool>
    decreases e,
{
    match e {
        ExprView::Literal(LiteralView::Boolean(b)) => Some(b),
        ExprView::BinaryOp { left, op, right } => match (bool_value(*left), bool_value(*right)) {
            (Some(a), Some(b)) => if op == BinaryOperator::And {
                Some(a && b)
            } else if op == BinaryOperator::Or {
                Some(a || b)
            } else {
                None
            },
            _ => None,
        },
        ExprView::UnaryOp { op: UnaryOperator::Not, expr } => match bool_value(*expr) {
            Some(a) => Some(!a),
            None => None,
        },
        _ => None,
    }
}

/// Constant folding keeps the value of an expression: an expression built
/// from integer literals with `+ - *` and unary minus stands for the same
/// integer after folding (so `5 - 3` folds to `2`, never `-2`), and one
/// built from boolean literals with AND, OR and NOT for the same truth
/// value.
pub proof fn law_fold_keeps_value(e: ExprView)
    ensures
        int_value(fold_expr(e)) == int_value(e),
        bool_value(fold_expr(e)) == bool_value(e),
    decreases e,
{
    match e {
        ExprView::BinaryOp { left, op, right } => {
            law_fold_keeps_value(*left);
            law_fold_keeps_value(*right);
        },
        ExprView::UnaryOp { op, expr } => {
            law_fold_keeps_value(*expr);
        },
        _ => {},
    }
}

/// Folding evaluates `+ - *` on two integer literals whenever the result
/// fits in 64 bits, into the literal of that result.
pub proof fn law_fold_integer_literals(a: i64, op: BinaryOperator, b: i64)
    requires
        op == BinaryOperator::Add || op == BinaryOperator::Subtract || op == BinaryOperator::Multiply,
        ({
            let v: int = if op == BinaryOperator::Add { a + b } else if op == BinaryOperator::Subtract { a - b } else { a * b };
            i64::MIN <= v <= i64::MAX
        }),
    ensures
        fold_expr(ExprView::BinaryOp {
            left: Box::new(ExprView::Literal(LiteralView::Integer(a))),
            op,
            right: Box::new(ExprView::Literal(LiteralView::Integer(b))),
        }) == ExprView::Literal(LiteralView::Integer(
            (if op == BinaryOperator::Add { a + b } else if op == BinaryOperator::Subtract { a - b } else { a * b }) as i64,
        )),
{
    let l = ExprView::Literal(LiteralView::Integer(a));
    let r = ExprView::Literal(LiteralView::Integer(b));
    assert(fold_expr(l) == l);
    assert(fold_expr(r) == r);
}

/// Algebraic simplification keeps the value of an integer expression:
/// dropping `+ 0`, `0 +`, `* 1` and `1 *`, and turning `* 0` into `0`,
/// leaves an expression built from integer literals standing for the same
/// integer.
pub proof fn law_simplify_keeps_value(e: ExprView)
    ensures
        int_value(e) is Some ==> int_value(simplify_expr(e)) == int_value(e),
    decreases e,
{
    match e {
        ExprView::BinaryOp { left, op, right } => {
            law_simplify_keeps_value(*left);
            law_simplify_keeps_value(*right);
            if int_value(e) is Some {
                let a = int_value(*left)->Some_0;
                let b = int_value(*right)->Some_0;
                assert(a * 1 == a && 1 * b == b && a * 0 == 0) by (nonlinear_arith);
            }
        },
        _ => {},
    }
}

} // verus!
