//! The text of query results: what the shell prints around the result
//! table, and each value's text but a REAL's.
use vstd::prelude::*;
use crate::storage::record::{Value, ValueView};
use crate::text::{decimal, push_str, string_of, u64_to_decimal};
use crate::vm::executor::QueryResult;

verus! {

/// The decimal text of a signed integer.
pub open spec fn signed_decimal(v: int) -> Seq<char> {
    if v < 0 { "-"@ + decimal((-v) as nat) } else { decimal(v as nat) }
}

/// What is shown for a result without rows: how many rows changed, or that
/// none came back; nothing for a result with rows, which shows as a table.
pub open spec fn summary_text(rows: nat, affected: nat) -> Option<Seq<char>> {
    if rows > 0 {
        None
    } else if affected > 0 {
        Some(decimal(affected) + " row(s) affected."@)
    } else {
        Some("No rows returned."@)
    }
}

/// The text of a value in a result table; a REAL has none here, as its
/// text is a floating-point rendering.
pub open spec fn value_text(v: ValueView) -> Option<Seq<char>> {
    match v {
        ValueView::Null => Some("NULL"@),
        ValueView::Integer(i) => Some(signed_decimal(i as int)),
        ValueView::Real(_) => None,
        ValueView::Text(s) => Some(s),
        ValueView::Blob(b) => Some("<BLOB "@ + decimal(b.len()) + " bytes>"@),
    }
}

/// The line shown for a result without rows, or nothing when it has rows.
pub fn result_summary(result: &QueryResult) -> (r: Option<String>)
    ensures
        match (r, summary_text(result.rows@.len(), result.rows_affected as nat)) {
            (Some(s), Some(t)) => s@ == t,
            (None, None) => true,
            _ => false,
        },
{
    if result.rows.len() > 0 {
        None
    } else if result.rows_affected > 0 {
        let mut s = u64_to_decimal(result.rows_affected as u64);
        push_str(&mut s, " row(s) affected.");
        Some(s)
    } else {
        Some(string_of("No rows returned."))
    }
}

/// The line under a result table.
pub fn rows_returned(n: usize) -> (s: String)
    ensures
        s@ == decimal(n as nat) + " row(s) returned."@,
{
    let mut s = u64_to_decimal(n as u64);
    push_str(&mut s, " row(s) returned.");
    s
}

/// The text of a value in a result table, but for a REAL.
pub fn format_value(value: &Value) -> (r: Option<String>)
    ensures
        match (r, value_text(value@)) {
            (Some(s), Some(t)) => s@ == t,
            (None, None) => true,
            _ => false,
        },
{
    match value {
        Value::Null => Some(string_of("NULL")),
        Value::Integer(i) => {
            if *i < 0 {
                let m: u64 = (0i128 - (*i as i128)) as u64;
                let mut s = string_of("-");
                let d = u64_to_decimal(m);
                push_str(&mut s, d.as_str());
                Some(s)
            } else {
                Some(u64_to_decimal(*i as u64))
            }
        },
        Value::Real(_) => None,
        Value::Text(s) => Some(s.clone()),
        Value::Blob(b) => {
            let mut s = string_of("<BLOB ");
            let d = u64_to_decimal(b.len() as u64);
            push_str(&mut s, d.as_str());
            push_str(&mut s, " bytes>");
            Some(s)
        },
    }
}

/// The text of an error message.
pub fn format_error(error: &str) -> (s: String)
    ensures
        s@ == "Error: "@ + error@,
{
    let mut s = string_of("Error: ");
    push_str(&mut s, error);
    s
}

} // verus!
