//! The abstract syntax tree of SQL statements, and its mathematical view.
use vstd::prelude::*;

verus! {

/// SQL statement types
#[derive(Debug, Clone, PartialEq)]
pub enum Statement {
    /// SELECT query
    Select(SelectStatement),
    /// INSERT statement
    Insert(InsertStatement),
    /// UPDATE statement
    Update(UpdateStatement),
    /// DELETE statement
    Delete(DeleteStatement),
    /// CREATE TABLE statement
    CreateTable(CreateTableStatement),
    /// CREATE INDEX statement
    CreateIndex(CreateIndexStatement),
    /// BEGIN TRANSACTION
    Begin,
    /// COMMIT
    Commit,
    /// ROLLBACK
    Rollback,
}

/// Expression types
#[derive(Debug, PartialEq)]
pub enum Expr {
    /// A literal value
    Literal(Literal),
    /// A column reference, optionally qualified by its table
    Column { table: Option<String>, name: String },
    /// A binary operation
    BinaryOp { left: Box<Expr>, op: BinaryOperator, right: Box<Expr> },
    /// A unary operation
    UnaryOp { op: UnaryOperator, expr: Box<Expr> },
    /// A function call; `COUNT(*)` has no arguments
    Function { name: String, args: Vec<Expr> },
}

/// Literal values.  A real number is kept as the decimal text it was
/// written with.
#[derive(Debug, PartialEq)]
pub enum Literal {
    /// Integer literal
    Integer(i64),
    /// Real literal, as written
    Real(String),
    /// String literal
    String(String),
    /// NULL
    Null,
    /// TRUE or FALSE
    Boolean(bool),
}

/// Binary operators
#[derive(Debug, Clone, Copy, PartialEq, Eq, Structural)]
pub enum BinaryOperator {
    /// `=`
    Equal,
    /// `!=` or `<>`
    NotEqual,
    /// `<`
    Less,
    /// `<=`
    LessEqual,
    /// `>`
    Greater,
    /// `>=`
    GreaterEqual,
    /// AND
    And,
    /// OR
    Or,
    /// `+`
    Add,
    /// `-`
    Subtract,
    /// `*`
    Multiply,
    /// `/`
    Divide,
    /// `%`
    Modulo,
}

/// Unary operators
#[derive(Debug, Clone, Copy, PartialEq, Eq, Structural)]
pub enum UnaryOperator {
    /// NOT
    Not,
    /// `-`
    Minus,
}

/// Order direction for ORDER BY
#[derive(Debug, Clone, Copy, PartialEq, Eq, Structural)]
pub enum OrderDirection {
    /// Ascending
    Asc,
    /// Descending
    Desc,
}

/// ORDER BY clause item
#[derive(Debug, Clone, PartialEq)]
pub struct OrderBy {
    /// The expression sorted on
    pub expr: Expr,
    /// The direction
    pub direction: OrderDirection,
}

/// SELECT statement
#[derive(Debug, Clone, PartialEq)]
pub struct SelectStatement {
    /// DISTINCT flag
    pub distinct: bool,
    /// Selected columns
    pub columns: Vec<SelectColumn>,
    /// FROM table
    pub from: Option<String>,
    /// WHERE clause
    pub where_clause: Option<Expr>,
    /// ORDER BY clause
    pub order_by: Vec<OrderBy>,
    /// LIMIT
    pub limit: Option<usize>,
    /// OFFSET
    pub offset: Option<usize>,
}

/// A selected column
#[derive(Debug, Clone, PartialEq)]
pub enum SelectColumn {
    /// `*`
    Star,
    /// An expression with an optional alias
    Expr { expr: Expr, alias: Option<String> },
}

/// INSERT statement
#[derive(Debug, Clone, PartialEq)]
pub struct InsertStatement {
    /// Target table
    pub table: String,
    /// Column names, if listed
    pub columns: Option<Vec<String>>,
    /// Rows of values
    pub values: Vec<Vec<Expr>>,
}

/// UPDATE statement
#[derive(Debug, Clone, PartialEq)]
pub struct UpdateStatement {
    /// Target table
    pub table: String,
    /// SET assignments
    pub assignments: Vec<Assignment>,
    /// WHERE clause
    pub where_clause: Option<Expr>,
}

/// Column assignment in UPDATE
#[derive(Debug, Clone, PartialEq)]
pub struct Assignment {
    /// Column name
    pub column: String,
    /// New value
    pub value: Expr,
}

/// DELETE statement
#[derive(Debug, Clone, PartialEq)]
pub struct DeleteStatement {
    /// Target table
    pub table: String,
    /// WHERE clause
    pub where_clause: Option<Expr>,
}

/// CREATE TABLE statement
#[derive(Debug, Clone, PartialEq)]
pub struct CreateTableStatement {
    /// Table name
    pub table: String,
    /// Column definitions
    pub columns: Vec<ColumnDef>,
}

/// Column definition
#[derive(Debug, Clone, PartialEq)]
pub struct ColumnDef {
    /// Column name
    pub name: String,
    /// Data type
    pub data_type: DataType,
    /// Constraints
    pub constraints: Vec<ColumnConstraint>,
}

/// SQL data types
#[derive(Debug, Clone, Copy, PartialEq, Eq, Structural)]
pub enum DataType {
    /// INTEGER
    Integer,
    /// REAL
    Real,
    /// TEXT
    Text,
    /// BLOB
    Blob,
}

/// Column constraints
#[derive(Debug, Clone, PartialEq)]
pub enum ColumnConstraint {
    /// NOT NULL
    NotNull,
    /// PRIMARY KEY
    PrimaryKey,
    /// UNIQUE
    Unique,
    /// DEFAULT value
    Default(String),
}

/// CREATE INDEX statement
#[derive(Debug, Clone, PartialEq)]
pub struct CreateIndexStatement {
    /// Index name
    pub name: String,
    /// Table name
    pub table: String,
    /// Indexed columns
    pub columns: Vec<String>,
    /// UNIQUE flag
    pub unique: bool,
}

// ---------------------------------------------------------------------
// Views
// ---------------------------------------------------------------------

/// The mathematical content of a literal.
pub enum LiteralView {
    Integer(i64),
    Real(Seq<char>),
    String(Seq<char>),
    Null,
    Boolean(bool),
}

/// The mathematical content of an expression.
pub enum ExprView {
    Literal(LiteralView),
    Column { table: Option<Seq<char>>, name: Seq<char> },
    BinaryOp { left: Box<ExprView>, op: BinaryOperator, right: Box<ExprView> },
    UnaryOp { op: UnaryOperator, expr: Box<ExprView> },
    Function { name: Seq<char>, args: Seq<ExprView> },
}

pub open spec fn opt_str_view(o: Option<String>) -> Option<Seq<char>> {
    match o {
        Some(s) => Some(s@),
        None => None,
    }
}

pub open spec fn literal_view(l: Literal) -> LiteralView {
    match l {
        Literal::Integer(i) => LiteralView::Integer(i),
        Literal::Real(s) => LiteralView::Real(s@),
        Literal::String(s) => LiteralView::String(s@),
        Literal::Null => LiteralView::Null,
        Literal::Boolean(b) => LiteralView::Boolean(b),
    }
}

/// The view of an expression.
pub open spec fn expr_view(e: Expr) -> ExprView
    decreases e,
{
    match e {
        Expr::Literal(l) => ExprView::Literal(literal_view(l)),
        Expr::Column { table, name } => ExprView::Column { table: opt_str_view(table), name: name@ },
        Expr::BinaryOp { left, op, right } => ExprView::BinaryOp {
            left: Box::new(expr_view(*left)),
            op,
            right: Box::new(expr_view(*right)),
        },
        Expr::UnaryOp { op, expr } => ExprView::UnaryOp { op, expr: Box::new(expr_view(*expr)) },
        Expr::Function { name, args } => ExprView::Function { name: name@, args: exprs_view(args@) },
    }
}

/// The views of a sequence of expressions.
pub open spec fn exprs_view(es: Seq<Expr>) -> Seq<ExprView>
    decreases es,
{
    if es.len() == 0 {
        Seq::empty()
    } else {
        exprs_view(es.drop_last()).push(expr_view(es.last()))
    }
}

pub proof fn lemma_exprs_view_push(es: Seq<Expr>, e: Expr)
    ensures
        exprs_view(es.push(e)) == exprs_view(es).push(expr_view(e)),
{
    assert(es.push(e).drop_last() =~= es);
}

impl View for Expr {
    type V = ExprView;

    open spec fn view(&self) -> ExprView {
        expr_view(*self)
    }
}

pub open spec fn opt_expr_view(o: Option<Expr>) -> Option<ExprView> {
    match o {
        Some(e) => Some(expr_view(e)),
        None => None,
    }
}

/// The mathematical content of a selected column.
pub enum SelectColumnView {
    Star,
    Expr { expr: ExprView, alias: Option<Seq<char>> },
}

impl View for SelectColumn {
    type V = SelectColumnView;

    open spec fn view(&self) -> SelectColumnView {
        match self {
            SelectColumn::Star => SelectColumnView::Star,
            SelectColumn::Expr { expr, alias } => SelectColumnView::Expr {
                expr: expr_view(*expr),
                alias: opt_str_view(*alias),
            },
        }
    }
}

/// The mathematical content of a SELECT statement.
pub struct SelectView {
    pub distinct: bool,
    pub columns: Seq<SelectColumnView>,
    pub from: Option<Seq<char>>,
    pub where_clause: Option<ExprView>,
    pub order_by: Seq<(ExprView, OrderDirection)>,
    pub limit: Option<usize>,
    pub offset: Option<usize>,
}

impl View for SelectStatement {
    type V = SelectView;

    open spec fn view(&self) -> SelectView {
        SelectView {
            distinct: self.distinct,
            columns: self.columns@.map_values(|c: SelectColumn| c@),
            from: opt_str_view(self.from),
            where_clause: opt_expr_view(self.where_clause),
            order_by: self.order_by@.map_values(|o: OrderBy| (expr_view(o.expr), o.direction)),
            limit: self.limit,
            offset: self.offset,
        }
    }
}

/// The mathematical content of an INSERT statement.
pub struct InsertView {
    pub table: Seq<char>,
    pub columns: Option<Seq<Seq<char>>>,
    pub values: Seq<Seq<ExprView>>,
}

pub open spec fn strings_view(v: Seq<String>) -> Seq<Seq<char>> {
    v.map_values(|s: String| s@)
}

impl View for InsertStatement {
    type V = InsertView;

    open spec fn view(&self) -> InsertView {
        InsertView {
            table: self.table@,
            columns: match self.columns {
                Some(c) => Some(strings_view(c@)),
                None => None,
            },
            values: self.values@.map_values(|row: Vec<Expr>| exprs_view(row@)),
        }
    }
}

/// The mathematical content of an UPDATE statement.
pub struct UpdateView {
    pub table: Seq<char>,
    pub assignments: Seq<(Seq<char>, ExprView)>,
    pub where_clause: Option<ExprView>,
}

impl View for UpdateStatement {
    type V = UpdateView;

    open spec fn view(&self) -> UpdateView {
        UpdateView {
            table: self.table@,
            assignments: self.assignments@.map_values(|a: Assignment| (a.column@, expr_view(a.value))),
            where_clause: opt_expr_view(self.where_clause),
        }
    }
}

/// The mathematical content of a DELETE statement.
pub struct DeleteView {
    pub table: Seq<char>,
    pub where_clause: Option<ExprView>,
}

impl View for DeleteStatement {
    type V = DeleteView;

    open spec fn view(&self) -> DeleteView {
        DeleteView { table: self.table@, where_clause: opt_expr_view(self.where_clause) }
    }
}

/// The mathematical content of a column constraint.
pub enum ColumnConstraintView {
    NotNull,
    PrimaryKey,
    Unique,
    Default(Seq<char>),
}

impl View for ColumnConstraint {
    type V = ColumnConstraintView;

    open spec fn view(&self) -> ColumnConstraintView {
        match self {
            ColumnConstraint::NotNull => ColumnConstraintView::NotNull,
            ColumnConstraint::PrimaryKey => ColumnConstraintView::PrimaryKey,
            ColumnConstraint::Unique => ColumnConstraintView::Unique,
            ColumnConstraint::Default(s) => ColumnConstraintView::Default(s@),
        }
    }
}

/// The mathematical content of a column definition.
pub struct ColumnDefView {
    pub name: Seq<char>,
    pub data_type: DataType,
    pub constraints: Seq<ColumnConstraintView>,
}

impl View for ColumnDef {
    type V = ColumnDefView;

    open spec fn view(&self) -> ColumnDefView {
        ColumnDefView {
            name: self.name@,
            data_type: self.data_type,
            constraints: self.constraints@.map_values(|c: ColumnConstraint| c@),
        }
    }
}

/// The mathematical content of a CREATE TABLE statement.
pub struct CreateTableView {
    pub table: Seq<char>,
    pub columns: Seq<ColumnDefView>,
}

impl View for CreateTableStatement {
    type V = CreateTableView;

    open spec fn view(&self) -> CreateTableView {
        CreateTableView { table: self.table@, columns: self.columns@.map_values(|c: ColumnDef| c@) }
    }
}

/// The mathematical content of a CREATE INDEX statement.
pub struct CreateIndexView {
    pub name: Seq<char>,
    pub table: Seq<char>,
    pub columns: Seq<Seq<char>>,
    pub unique: bool,
}

impl View for CreateIndexStatement {
    type V = CreateIndexView;

    open spec fn view(&self) -> CreateIndexView {
        CreateIndexView {
            name: self.name@,
            table: self.table@,
            columns: strings_view(self.columns@),
            unique: self.unique,
        }
    }
}

/// The mathematical content of a statement.
pub enum StatementView {
    Select(SelectView),
    Insert(InsertView),
    Update(UpdateView),
    Delete(DeleteView),
    CreateTable(CreateTableView),
    CreateIndex(CreateIndexView),
    Begin,
    Commit,
    Rollback,
}

impl View for Statement {
    type V = StatementView;

    open spec fn view(&self) -> StatementView {
        match self {
            Statement::Select(s) => StatementView::Select(s@),
            Statement::Insert(s) => StatementView::Insert(s@),
            Statement::Update(s) => StatementView::Update(s@),
            Statement::Delete(s) => StatementView::Delete(s@),
            Statement::CreateTable(s) => StatementView::CreateTable(s@),
            Statement::CreateIndex(s) => StatementView::CreateIndex(s@),
            Statement::Begin => StatementView::Begin,
            Statement::Commit => StatementView::Commit,
            Statement::Rollback => StatementView::Rollback,
        }
    }
}

impl Clone for Literal {
    fn clone(&self) -> (r: Self)
        ensures
            r == *self,
    {
        match self {
            Literal::Integer(i) => Literal::Integer(*i),
            Literal::Real(s) => Literal::Real(s.clone()),
            Literal::String(s) => Literal::String(s.clone()),
            Literal::Null => Literal::Null,
            Literal::Boolean(b) => Literal::Boolean(*b),
        }
    }
}

impl Clone for Expr {
    fn clone(&self) -> (r: Self)
        ensures
            r@ == self@,
        decreases self,
    {
        match self {
            Expr::Literal(l) => Expr::Literal(l.clone()),
            Expr::Column { table, name } => Expr::Column { table: table.clone(), name: name.clone() },
            Expr::BinaryOp { left, op, right } => {
                let l: Expr = (**left).clone();
                let r: Expr = (**right).clone();
                Expr::BinaryOp { left: Box::new(l), op: *op, right: Box::new(r) }
            },
            Expr::UnaryOp { op, expr } => {
                let e: Expr = (**expr).clone();
                Expr::UnaryOp { op: *op, expr: Box::new(e) }
            },
            Expr::Function { name, args } => {
                let mut out: Vec<Expr> = Vec::new();
                let mut i: usize = 0;
                while i < args.len()
                    invariant
                        i <= args.len(),
                        *self == (Expr::Function { name: *name, args: *args }),
                        exprs_view(out@) == exprs_view(args@.subrange(0, i as int)),
                    decreases args.len() - i,
                {
                    proof {
                        let ghost me = *self;
                        assert(decreases_to!(me => me->Function_args));
                        assert(decreases_to!(me->Function_args => me->Function_args@));
                        assert(decreases_to!(me->Function_args@ => me->Function_args@[i as int]));
                        assert(decreases_to!(*self => args@[i as int]));
                    }
                    let a: Expr = args[i].clone();
                    proof {
                        lemma_exprs_view_push(out@, a);
                        lemma_exprs_view_push(args@.subrange(0, i as int), args@[i as int]);
                        assert(args@.subrange(0, i as int).push(args@[i as int]) =~= args@.subrange(0, i + 1));
                    }
                    out.push(a);
                    i = i + 1;
                }
                assert(args@.subrange(0, args.len() as int) =~= args@);
                Expr::Function { name: name.clone(), args: out }
            },
        }
    }
}

// ---------------------------------------------------------------------
// Constructors
// ---------------------------------------------------------------------

impl SelectStatement {
    /// Create a new empty SELECT statement
    pub fn new() -> (s: Self)
        ensures
            s@ == (SelectView {
                distinct: false,
                columns: Seq::empty(),
                from: None,
                where_clause: None,
                order_by: Seq::empty(),
                limit: None,
                offset: None,
            }),
    {
        let s = SelectStatement {
            distinct: false,
            columns: Vec::new(),
            from: None,
            where_clause: None,
            order_by: Vec::new(),
            limit: None,
            offset: None,
        };
        assert(s@.columns =~= Seq::<SelectColumnView>::empty());
        assert(s@.order_by =~= Seq::<(ExprView, OrderDirection)>::empty());
        s
    }
}

impl Default for SelectStatement {
    fn default() -> (s: Self)
        ensures
            s@ == (SelectView {
                distinct: false,
                columns: Seq::empty(),
                from: None,
                where_clause: None,
                order_by: Seq::empty(),
                limit: None,
                offset: None,
            }),
    {
        Self::new()
    }
}

impl InsertStatement {
    /// Create a new INSERT statement into a table, with no columns and no rows
    pub fn new(table: String) -> (s: Self)
        ensures
            s@ == (InsertView { table: table@, columns: None, values: Seq::empty() }),
    {
        let s = InsertStatement { table, columns: None, values: Vec::new() };
        assert(s@.values =~= Seq::<Seq<ExprView>>::empty());
        s
    }
}

impl UpdateStatement {
    /// Create a new UPDATE statement on a table, with no assignments
    pub fn new(table: String) -> (s: Self)
        ensures
            s@ == (UpdateView { table: table@, assignments: Seq::empty(), where_clause: None }),
    {
        let s = UpdateStatement { table, assignments: Vec::new(), where_clause: None };
        assert(s@.assignments =~= Seq::<(Seq<char>, ExprView)>::empty());
        s
    }
}

impl DeleteStatement {
    /// Create a new DELETE statement on a table
    pub fn new(table: String) -> (s: Self)
        ensures
            s@ == (DeleteView { table: table@, where_clause: None }),
    {
        DeleteStatement { table, where_clause: None }
    }
}

impl CreateTableStatement {
    /// Create a new CREATE TABLE statement with no columns
    pub fn new(table: String) -> (s: Self)
        ensures
            s@ == (CreateTableView { table: table@, columns: Seq::empty() }),
    {
        let s = CreateTableStatement { table, columns: Vec::new() };
        assert(s@.columns =~= Seq::<ColumnDefView>::empty());
        s
    }
}

impl ColumnDef {
    /// Create a new column definition without constraints
    pub fn new(name: String, data_type: DataType) -> (c: Self)
        ensures
            c@ == (ColumnDefView { name: name@, data_type, constraints: Seq::empty() }),
    {
        let c = ColumnDef { name, data_type, constraints: Vec::new() };
        assert(c@.constraints =~= Seq::<ColumnConstraintView>::empty());
        c
    }
}

impl CreateIndexStatement {
    /// Create a new CREATE INDEX statement, not unique
    pub fn new(name: String, table: String, columns: Vec<String>) -> (s: Self)
        ensures
            s@ == (CreateIndexView { name: name@, table: table@, columns: strings_view(columns@), unique: false }),
    {
        CreateIndexStatement { name, table, columns, unique: false }
    }

    /// Make this a UNIQUE index
    pub fn with_unique(self) -> (s: Self)
        ensures
            s@ == (CreateIndexView { unique: true, ..self@ }),
    {
        let mut s = self;
        s.unique = true;
        s
    }
}

} // verus!
