//! ORDER BY: a stable sort of rows on one column.
use vstd::prelude::*;
use crate::error::Result;
use crate::sql::ast::{OrderBy, OrderDirection};
use crate::storage::btree::keys::{bytes_eq, bytes_lt, key_lt, lemma_key_lt_asymmetric};
use crate::storage::record::{Value, ValueView};

verus! {

/// ORDER BY executor
pub struct OrderByExecutor;

/// The order of two values: -1, 0 or 1.  Integers compare by value, texts
/// by their UTF-8 bytes, blobs by their bytes; two NULLs are equal, and
/// any other pair counts as equal.
pub open spec fn value_order(a: ValueView, b: ValueView) -> int {
    match (a, b) {
        (ValueView::Integer(x), ValueView::Integer(y)) => if x < y { -1 } else if x > y { 1 } else { 0 },
        (ValueView::Text(x), ValueView::Text(y)) => {
            let (bx, by) = (vstd::utf8::encode_utf8(x), vstd::utf8::encode_utf8(y));
            if key_lt(bx, by) { -1 } else if key_lt(by, bx) { 1 } else { 0 }
        },
        (ValueView::Blob(x), ValueView::Blob(y)) => if key_lt(x, y) { -1 } else if key_lt(y, x) { 1 } else { 0 },
        _ => 0,
    }
}

pub open spec fn row_view(r: Vec<Value>) -> Seq<ValueView> {
    r@.map_values(|v: Value| v@)
}

/// The order of two rows on a column in a direction; rows too short to
/// have the column count as equal.
pub open spec fn row_order(a: Seq<ValueView>, b: Seq<ValueView>, col: usize, dir: OrderDirection) -> int {
    if col >= a.len() || col >= b.len() {
        0
    } else {
        let o = value_order(a[col as int], b[col as int]);
        if dir == OrderDirection::Desc { -o } else { o }
    }
}

/// Where a row goes in sorted rows: after every row that does not come
/// after it.
pub open spec fn insert_pos(sorted: Seq<Seq<ValueView>>, row: Seq<ValueView>, col: usize, dir: OrderDirection) -> nat
    decreases sorted.len(),
{
    if sorted.len() == 0 {
        0
    } else if row_order(sorted.last(), row, col, dir) > 0 {
        insert_pos(sorted.drop_last(), row, col, dir)
    } else {
        sorted.len()
    }
}

/// The rows stably sorted on a column: each row in turn is placed after
/// the rows before it that do not come after it.
pub open spec fn sorted_rows(rows: Seq<Seq<ValueView>>, col: usize, dir: OrderDirection) -> Seq<Seq<ValueView>>
    decreases rows.len(),
{
    if rows.len() == 0 {
        Seq::empty()
    } else {
        let s = sorted_rows(rows.drop_last(), col, dir);
        s.insert(insert_pos(s, rows.last(), col, dir) as int, rows.last())
    }
}

pub proof fn lemma_insert_pos_bound(sorted: Seq<Seq<ValueView>>, row: Seq<ValueView>, col: usize, dir: OrderDirection)
    ensures
        insert_pos(sorted, row, col, dir) <= sorted.len(),
    decreases sorted.len(),
{
    if sorted.len() > 0 {
        lemma_insert_pos_bound(sorted.drop_last(), row, col, dir);
    }
}

pub proof fn lemma_sorted_len(rows: Seq<Seq<ValueView>>, col: usize, dir: OrderDirection)
    ensures
        sorted_rows(rows, col, dir).len() == rows.len(),
    decreases rows.len(),
{
    if rows.len() > 0 {
        lemma_sorted_len(rows.drop_last(), col, dir);
        lemma_insert_pos_bound(sorted_rows(rows.drop_last(), col, dir), rows.last(), col, dir);
    }
}

fn compare_values(a: &Value, b: &Value) -> (r: i8)
    ensures
        r as int == value_order(a@, b@),
{
    match (a, b) {
        (Value::Integer(x), Value::Integer(y)) => if *x < *y { -1 } else if *x > *y { 1 } else { 0 },
        (Value::Text(x), Value::Text(y)) => {
            let bx = x.as_str().as_bytes();
            let by = y.as_str().as_bytes();
            if bytes_lt(bx, by) { -1 } else if bytes_lt(by, bx) { 1 } else { 0 }
        },
        (Value::Blob(x), Value::Blob(y)) => {
            if bytes_lt(x.as_slice(), y.as_slice()) { -1 } else if bytes_lt(y.as_slice(), x.as_slice()) { 1 } else { 0 }
        },
        _ => 0,
    }
}

fn compare_rows(a: &Vec<Value>, b: &Vec<Value>, col: usize, dir: OrderDirection) -> (r: i8)
    ensures
        r as int == row_order(row_view(*a), row_view(*b), col, dir),
{
    if col >= a.len() || col >= b.len() {
        return 0;
    }
    let o = compare_values(&a[col], &b[col]);
    match dir {
        OrderDirection::Desc => -o,
        OrderDirection::Asc => o,
    }
}

impl OrderByExecutor {
    /// Sort rows by an ORDER BY list: rows are left as they are
    pub fn sort(_rows: &mut Vec<Vec<Value>>, _order_by: &Vec<OrderBy>) -> (r: Result<()>)
        ensures
            r is Ok,
            *final(_rows) == *old(_rows),
    {
        Ok(())
    }

    /// Sort rows stably on one column, ascending or descending
    pub fn sort_by_column(rows: &mut Vec<Vec<Value>>, column_index: usize, direction: OrderDirection) -> (r: Result<()>)
        ensures
            r is Ok,
            final(rows)@.map_values(|x: Vec<Value>| row_view(x))
                == sorted_rows(old(rows)@.map_values(|x: Vec<Value>| row_view(x)), column_index, direction),
    {
        let mut input: Vec<Vec<Value>> = Vec::new();
        core::mem::swap(&mut input, rows);
        let ghost all = input@.map_values(|x: Vec<Value>| row_view(x));
        let ghost n = all.len();
        let total: usize = input.len();
        let mut out: Vec<Vec<Value>> = Vec::new();
        let mut k: usize = 0;
        while input.len() > 0
            invariant
                n == all.len(),
                n == total,
                k + input@.len() == n,
                input@.map_values(|x: Vec<Value>| row_view(x)) == all.skip(k as int),
                out@.map_values(|x: Vec<Value>| row_view(x)) == sorted_rows(all.take(k as int), column_index, direction),
            decreases input.len(),
        {
            let ghost pre = input@;
            let row = input.remove(0);
            let ghost sv = out@.map_values(|x: Vec<Value>| row_view(x));
            proof {
                assert(input@ =~= pre.drop_first());
                assert(pre.map_values(|x: Vec<Value>| row_view(x)) == all.skip(k as int));
                assert(pre.map_values(|x: Vec<Value>| row_view(x))[0] == row_view(pre[0]));
                assert(all.skip(k as int)[0] == row_view(row));
                assert forall|i: int| 0 <= i < input@.len() implies row_view(#[trigger] input@[i]) == all.skip(k + 1)[i] by {
                    assert(input@[i] == pre[i + 1]);
                    assert(pre.map_values(|x: Vec<Value>| row_view(x))[i + 1] == row_view(pre[i + 1]));
                    assert(all.skip(k as int)[i + 1] == all.skip(k + 1)[i]);
                }
                assert(input@.map_values(|x: Vec<Value>| row_view(x)) =~= all.skip(k + 1));
                assert(all.take(k + 1).drop_last() =~= all.take(k as int));
                assert(all.take(k + 1).last() == row_view(row));
            }
            assert(sv.take(out@.len() as int) =~= sv);
            let mut j: usize = out.len();
            while j > 0 && compare_rows(&out[j - 1], &row, column_index, direction) > 0
                invariant
                    j <= out@.len(),
                    sv == out@.map_values(|x: Vec<Value>| row_view(x)),
                    insert_pos(sv, row_view(row), column_index, direction) == insert_pos(sv.take(j as int), row_view(row), column_index, direction),
                decreases j,
            {
                proof {
                    assert(sv.take(j as int).last() == sv[j - 1]);
                    assert(sv.take(j as int).drop_last() =~= sv.take(j - 1));
                }
                j = j - 1;
            }
            proof {
                if j > 0 {
                    assert(sv.take(j as int).last() == sv[j - 1]);
                }
                assert(sv.take(out@.len() as int) =~= sv);
            }
            let ghost before = out@;
            out.insert(j, row);
            assert(out@.map_values(|x: Vec<Value>| row_view(x)) =~= sv.insert(j as int, row_view(row)));
            k = k + 1;
        }
        assert(all.take(n as int) =~= all);
        *rows = out;
        Ok(())
    }
}

/// Whether two values, the first before the second, are in order in a
/// direction: ascending, two integers with the first at most the second as
/// signed integers, two texts whose UTF-8 bytes, or two blobs whose bytes,
/// have the second not below the first; descending, the other way round.
/// Values of different kinds, and NULLs, are in order either way.
pub open spec fn values_in_order(x: ValueView, y: ValueView, dir: OrderDirection) -> bool {
    let (a, b) = if dir == OrderDirection::Desc { (y, x) } else { (x, y) };
    match (a, b) {
        (ValueView::Integer(i), ValueView::Integer(j)) => i <= j,
        (ValueView::Text(s), ValueView::Text(t)) => !key_lt(vstd::utf8::encode_utf8(t), vstd::utf8::encode_utf8(s)),
        (ValueView::Blob(s), ValueView::Blob(t)) => !key_lt(t, s),
        _ => true,
    }
}

/// Whether two rows, the first before the second, are in order on the
/// column (see `values_in_order`); rows without the column are.
pub open spec fn rows_in_order(a: Seq<ValueView>, b: Seq<ValueView>, col: usize, dir: OrderDirection) -> bool {
    col < a.len() && col < b.len() ==> values_in_order(a[col as int], b[col as int], dir)
}

/// Where `insert_pos` puts a row: after a row that does not come after it,
/// and before one that does.
proof fn lemma_insert_pos_neighbours(sorted: Seq<Seq<ValueView>>, row: Seq<ValueView>, col: usize, dir: OrderDirection)
    ensures
        insert_pos(sorted, row, col, dir) <= sorted.len(),
        insert_pos(sorted, row, col, dir) > 0
            ==> row_order(sorted[insert_pos(sorted, row, col, dir) - 1], row, col, dir) <= 0,
        insert_pos(sorted, row, col, dir) < sorted.len()
            ==> row_order(sorted[insert_pos(sorted, row, col, dir) as int], row, col, dir) > 0,
    decreases sorted.len(),
{
    if sorted.len() > 0 && row_order(sorted.last(), row, col, dir) > 0 {
        let d = sorted.drop_last();
        lemma_insert_pos_neighbours(d, row, col, dir);
        let p = insert_pos(d, row, col, dir);
        if p > 0 {
            assert(sorted[p - 1] == d[p - 1]);
        }
        if p < d.len() {
            assert(sorted[p as int] == d[p as int]);
        }
    }
}

/// A row that does not come after another, in the order of a column, is in
/// order with it; one that comes after is too, the other way round.
proof fn lemma_order_in_order(a: Seq<ValueView>, b: Seq<ValueView>, col: usize, dir: OrderDirection)
    ensures
        row_order(a, b, col, dir) <= 0 ==> rows_in_order(a, b, col, dir),
        row_order(b, a, col, dir) > 0 ==> rows_in_order(a, b, col, dir),
{
    if col < a.len() && col < b.len() {
        match (a[col as int], b[col as int]) {
            (ValueView::Text(s), ValueView::Text(t)) => {
                let (bs, bt) = (vstd::utf8::encode_utf8(s), vstd::utf8::encode_utf8(t));
                if key_lt(bs, bt) { lemma_key_lt_asymmetric(bs, bt); }
                if key_lt(bt, bs) { lemma_key_lt_asymmetric(bt, bs); }
            },
            (ValueView::Blob(s), ValueView::Blob(t)) => {
                if key_lt(s, t) { lemma_key_lt_asymmetric(s, t); }
                if key_lt(t, s) { lemma_key_lt_asymmetric(t, s); }
            },
            _ => {},
        }
    }
}

/// ORDER BY on one column puts values in order: in the rows
/// `sort_by_column` gives, any two neighbours whose column holds two
/// integers are in ascending order of their signed values, two texts or two
/// blobs in ascending byte order (descending, for a descending sort).
pub proof fn law_sorted_rows_in_order(rows: Seq<Seq<ValueView>>, col: usize, dir: OrderDirection)
    ensures
        forall|i: int| 0 <= i < sorted_rows(rows, col, dir).len() - 1 ==> rows_in_order(
            #[trigger] sorted_rows(rows, col, dir)[i], sorted_rows(rows, col, dir)[i + 1], col, dir),
    decreases rows.len(),
{
    lemma_sorted_len(rows, col, dir);
    if rows.len() > 0 {
        let s = sorted_rows(rows.drop_last(), col, dir);
        let r = rows.last();
        let p = insert_pos(s, r, col, dir) as int;
        let t = sorted_rows(rows, col, dir);
        law_sorted_rows_in_order(rows.drop_last(), col, dir);
        lemma_insert_pos_neighbours(s, r, col, dir);
        assert(t == s.insert(p, r));
        assert forall|i: int| 0 <= i < t.len() - 1 implies rows_in_order(#[trigger] t[i], t[i + 1], col, dir) by {
            if i + 1 < p {
                assert(t[i] == s[i] && t[i + 1] == s[i + 1]);
            } else if i + 1 == p {
                assert(t[i] == s[p - 1] && t[i + 1] == r);
                lemma_order_in_order(s[p - 1], r, col, dir);
            } else if i == p {
                assert(t[i] == r && t[i + 1] == s[p]);
                lemma_order_in_order(r, s[p], col, dir);
            } else {
                assert(t[i] == s[i - 1] && t[i + 1] == s[i]);
                assert(s[i - 1] == s[(i - 1)] && s[i] == s[(i - 1) + 1]);
            }
        }
    }
}

} // verus!
