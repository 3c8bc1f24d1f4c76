//! Error types shared by every part of the database.
use vstd::prelude::*;
use crate::text::{decimal, push_str, string_of, u64_to_decimal};

verus! {

/// Everything that can go wrong in DeepSQL.
#[derive(Debug, Clone, PartialEq)]
pub enum Error {
    /// I/O error
    Io(String),
    /// Corruption detected
    Corruption(String),
    /// Invalid page
    InvalidPage(String),
    /// Record error
    RecordError(String),
    /// B+Tree error
    BTreeError(String),
    /// WAL error
    WalError(String),
    /// Lock error
    LockError(String),
    /// Transaction error
    TransactionError(String),
    /// SQL parsing error with its position
    ParseError { message: String, line: usize, column: usize },
    /// SQL execution error
    ExecutionError(String),
    /// Type error
    TypeError(String),
    /// Schema error
    SchemaError(String),
    /// Constraint violation
    ConstraintViolation(String),
    /// Table not found
    TableNotFound(String),
    /// Column not found
    ColumnNotFound(String),
    /// Internal error
    Internal(String),
    /// Invalid argument
    InvalidArgument(String),
    /// Record not found
    NotFound,
}

/// The mathematical content of an error: its kind and its text.
pub enum ErrorView {
    Io(Seq<char>),
    Corruption(Seq<char>),
    InvalidPage(Seq<char>),
    RecordError(Seq<char>),
    BTreeError(Seq<char>),
    WalError(Seq<char>),
    LockError(Seq<char>),
    TransactionError(Seq<char>),
    ParseError { message: Seq<char>, line: usize, column: usize },
    ExecutionError(Seq<char>),
    TypeError(Seq<char>),
    SchemaError(Seq<char>),
    ConstraintViolation(Seq<char>),
    TableNotFound(Seq<char>),
    ColumnNotFound(Seq<char>),
    Internal(Seq<char>),
    InvalidArgument(Seq<char>),
    NotFound,
}

impl View for Error {
    type V = ErrorView;

    open spec fn view(&self) -> ErrorView {
        match self {
            Error::Io(m) => ErrorView::Io(m@),
            Error::Corruption(m) => ErrorView::Corruption(m@),
            Error::InvalidPage(m) => ErrorView::InvalidPage(m@),
            Error::RecordError(m) => ErrorView::RecordError(m@),
            Error::BTreeError(m) => ErrorView::BTreeError(m@),
            Error::WalError(m) => ErrorView::WalError(m@),
            Error::LockError(m) => ErrorView::LockError(m@),
            Error::TransactionError(m) => ErrorView::TransactionError(m@),
            Error::ParseError { message, line, column } =>
                ErrorView::ParseError { message: message@, line: *line, column: *column },
            Error::ExecutionError(m) => ErrorView::ExecutionError(m@),
            Error::TypeError(m) => ErrorView::TypeError(m@),
            Error::SchemaError(m) => ErrorView::SchemaError(m@),
            Error::ConstraintViolation(m) => ErrorView::ConstraintViolation(m@),
            Error::TableNotFound(m) => ErrorView::TableNotFound(m@),
            Error::ColumnNotFound(m) => ErrorView::ColumnNotFound(m@),
            Error::Internal(m) => ErrorView::Internal(m@),
            Error::InvalidArgument(m) => ErrorView::InvalidArgument(m@),
            Error::NotFound => ErrorView::NotFound,
        }
    }
}

/// Result type used throughout the crate.
pub type Result<T> = core::result::Result<T, Error>;

/// The text shown for an error.
pub open spec fn error_text(e: Error) -> Seq<char> {
    match e {
        Error::Io(m) => "I/O error: "@ + m@,
        Error::Corruption(m) => "Database corruption: "@ + m@,
        Error::InvalidPage(m) => "Invalid page: "@ + m@,
        Error::RecordError(m) => "Record error: "@ + m@,
        Error::BTreeError(m) => "B+Tree error: "@ + m@,
        Error::WalError(m) => "WAL error: "@ + m@,
        Error::LockError(m) => "Lock error: "@ + m@,
        Error::TransactionError(m) => "Transaction error: "@ + m@,
        Error::ParseError { message, line, column } =>
            "Parse error at line "@ + decimal(line as nat) + ", column "@ + decimal(column as nat)
                + ": "@ + message@,
        Error::ExecutionError(m) => "Execution error: "@ + m@,
        Error::TypeError(m) => "Type error: "@ + m@,
        Error::SchemaError(m) => "Schema error: "@ + m@,
        Error::ConstraintViolation(m) => "Constraint violation: "@ + m@,
        Error::TableNotFound(m) => "Table not found: "@ + m@,
        Error::ColumnNotFound(m) => "Column not found: "@ + m@,
        Error::Internal(m) => "Internal error: "@ + m@,
        Error::InvalidArgument(m) => "Invalid argument: "@ + m@,
        Error::NotFound => "Record not found"@,
    }
}

fn prefixed(prefix: &str, m: &String) -> (r: String)
    ensures
        r@ == prefix@ + m@,
{
    let mut r = string_of(prefix);
    push_str(&mut r, m.as_str());
    r
}

impl Error {
    /// Create a parse error with position
    pub fn parse_error(message: String, line: usize, column: usize) -> (e: Self)
        ensures
            e == (Error::ParseError { message, line, column }),
    {
        Error::ParseError { message, line, column }
    }

    /// The human-readable text of this error.
    pub fn message(&self) -> (r: String)
        ensures
            r@ == error_text(*self),
    {
        match self {
            Error::Io(m) => prefixed("I/O error: ", m),
            Error::Corruption(m) => prefixed("Database corruption: ", m),
            Error::InvalidPage(m) => prefixed("Invalid page: ", m),
            Error::RecordError(m) => prefixed("Record error: ", m),
            Error::BTreeError(m) => prefixed("B+Tree error: ", m),
            Error::WalError(m) => prefixed("WAL error: ", m),
            Error::LockError(m) => prefixed("Lock error: ", m),
            Error::TransactionError(m) => prefixed("Transaction error: ", m),
            Error::ParseError { message, line, column } => {
                let mut r = string_of("Parse error at line ");
                let l = u64_to_decimal(*line as u64);
                push_str(&mut r, l.as_str());
                push_str(&mut r, ", column ");
                let c = u64_to_decimal(*column as u64);
                push_str(&mut r, c.as_str());
                push_str(&mut r, ": ");
                push_str(&mut r, message.as_str());
                r
            },
            Error::ExecutionError(m) => prefixed("Execution error: ", m),
            Error::TypeError(m) => prefixed("Type error: ", m),
            Error::SchemaError(m) => prefixed("Schema error: ", m),
            Error::ConstraintViolation(m) => prefixed("Constraint violation: ", m),
            Error::TableNotFound(m) => prefixed("Table not found: ", m),
            Error::ColumnNotFound(m) => prefixed("Column not found: ", m),
            Error::Internal(m) => prefixed("Internal error: ", m),
            Error::InvalidArgument(m) => prefixed("Invalid argument: ", m),
            Error::NotFound => string_of("Record not found"),
        }
    }

    /// Check if this is a not-found error
    pub fn is_not_found(&self) -> (b: bool)
        ensures
            b == (self is NotFound || self is TableNotFound || self is ColumnNotFound),
    {
        match self {
            Error::NotFound | Error::TableNotFound(_) | Error::ColumnNotFound(_) => true,
            _ => false,
        }
    }

    /// Check if this is a constraint violation
    pub fn is_constraint_violation(&self) -> (b: bool)
        ensures
            b == (self is ConstraintViolation),
    {
        match self {
            Error::ConstraintViolation(_) => true,
            _ => false,
        }
    }
}

} // verus!
