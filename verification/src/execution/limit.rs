//! LIMIT and OFFSET.
use vstd::prelude::*;
use crate::error::{Error, Result};
use crate::storage::record::Value;

verus! {

/// LIMIT/OFFSET executor
pub struct LimitExecutor;

/// The rows after skipping `offset` of them and keeping at most `limit`.
pub open spec fn limited<T>(rows: Seq<T>, limit: Option<usize>, offset: Option<usize>) -> Seq<T> {
    let skipped = match offset {
        Some(o) => if o >= rows.len() { Seq::empty() } else { rows.skip(o as int) },
        None => rows,
    };
    match limit {
        Some(l) => if skipped.len() > l { skipped.take(l as int) } else { skipped },
        None => skipped,
    }
}

impl LimitExecutor {
    /// Apply LIMIT and OFFSET to rows
    pub fn apply(rows: Vec<Vec<Value>>, limit: Option<usize>, offset: Option<usize>) -> (r: Result<Vec<Vec<Value>>>)
        ensures
            r matches Ok(v) && v@ == limited(rows@, limit, offset),
    {
        let mut result = rows;
        match offset {
            Some(offset_val) => {
                if offset_val > 0 {
                    if offset_val >= result.len() {
                        result.clear();
                    } else {
                        let ghost before = result@;
                        let mut k: usize = 0;
                        while k < offset_val
                            invariant
                                k <= offset_val < before.len(),
                                result@ == before.skip(k as int),
                            decreases offset_val - k,
                        {
                            result.remove(0);
                            k = k + 1;
                            assert(result@ =~= before.skip(k as int));
                        }
                    }
                } else {
                    assert(result@.skip(0) =~= result@);
                }
            },
            None => {},
        }
        match limit {
            Some(limit_val) => {
                if result.len() > limit_val {
                    result.truncate(limit_val);
                }
            },
            None => {},
        }
        Ok(result)
    }
}

/// LIMIT and OFFSET keep a window of the rows: the rows from the offset on
/// (none past the end), in order, as many as there are but at most the
/// limit.  So with an offset below the row count and no limit, exactly the
/// rows after the offset are kept.
pub proof fn law_limit_window<T>(rows: Seq<T>, limit: Option<usize>, offset: Option<usize>)
    ensures
        ({
            let o: int = match offset {
                Some(o) => o as int,
                None => 0,
            };
            let avail: int = if rows.len() > o { rows.len() - o } else { 0 };
            let out = limited(rows, limit, offset);
            &&& out.len() == match limit {
                Some(l) => if avail > l { l as int } else { avail },
                None => avail,
            }
            &&& forall|i: int| 0 <= i < out.len() ==> #[trigger] out[i] == rows[o + i]
        }),
{
}

} // verus!
