//! What splitting a full leaf gives: the records of the leaf and the new
//! one, in key order, shared between two leaves at the middle.
use vstd::prelude::*;
use crate::error::ErrorView;
use crate::storage::btree::bulk_load::{cells_room, keys_strictly_ascending, leaf_holds, lemma_one_leaf_step, record_for};
use crate::storage::btree::keys::{key_lt, lemma_key_lt_asymmetric, lemma_key_lt_irreflexive, lemma_key_lt_transitive};
use crate::storage::btree::leaf::{leaf_wf, lemma_insert_bytes, lemma_leaf_lookup_cases};
use crate::storage::btree::node::{after_insert_cell, cell_key_at, cell_keys, header_of, leaf_cell_at, lower_bound_ok};
use crate::storage::btree::search::leaf_lookup;
use crate::storage::pager::Pager;
use crate::storage::record::{RecordView, record_bytes, record_encodable};

verus! {

/// The records a leaf's cells hold, in order.
pub open spec fn leaf_records(d: Seq<u8>) -> Seq<RecordView> {
    Seq::new(header_of(d).cell_count as nat, |i: int| leaf_cell_at(d, i)->Ok_0)
}

/// What looking `k` up gives once record `r` joins a leaf: `r` for its
/// key, else what the leaf gives.
pub open spec fn lookup_with(d: Seq<u8>, r: RecordView, k: Seq<u8>) -> core::result::Result<RecordView, ErrorView> {
    if k == r.key { Ok(r) } else { leaf_lookup(d, k) }
}

/// How many of a leaf's `count` records and the new one go to the upper
/// half when it splits; the lower half has no more.
pub open spec fn split_half(count: nat) -> nat {
    (count + 1 - (count + 1) / 2) as nat
}

/// When a full leaf can be split to take a record with a new key: it is
/// well formed and fills a page of at most 65535 bytes, its records and the
/// new one can be encoded, and a half's worth of cells as large as any of
/// them fits in a page with its header and a few bytes to spare; the pager
/// can grow by a page outside a transaction.
pub open spec fn leaf_split_fits(p: Pager, d: Seq<u8>, r: RecordView) -> bool {
    let count = header_of(d).cell_count;
    let half = split_half(count as nat);
    &&& leaf_wf(d)
    &&& d.len() == p.psize()
    &&& p.psize() <= 65535
    &&& record_encodable(r)
    &&& forall|j: int| 0 <= j < count ==> #[trigger] cell_keys(d, true)[j] != r.key
    &&& half * (record_bytes(r).len() + 2) + 16 <= p.psize()
    &&& forall|j: int| 0 <= j < count ==> {
        &&& record_encodable(#[trigger] leaf_records(d)[j])
        &&& half * (record_bytes(leaf_records(d)[j]).len() + 2) + 16 <= p.psize()
    }
    &&& !p.in_txn()
    &&& p.can_grow()
}

/// A well-formed leaf holds its records, in strictly ascending key order.
pub proof fn lemma_leaf_holds_records(d: Seq<u8>)
    requires
        leaf_wf(d),
    ensures
        leaf_holds(d, leaf_records(d)),
        keys_strictly_ascending(leaf_records(d)),
        forall|j: int| 0 <= j < header_of(d).cell_count ==> #[trigger] leaf_records(d)[j].key == cell_keys(d, true)[j],
{
    let rs = leaf_records(d);
    assert forall|j: int| 0 <= j < header_of(d).cell_count implies #[trigger] leaf_cell_at(d, j)
        == Ok::<RecordView, ErrorView>(rs[j]) && rs[j].key == cell_keys(d, true)[j] by {
        assert(cell_key_at(d, true, j) is Ok);
    }
    assert forall|i: int, j: int| 0 <= i < j < rs.len() implies key_lt(#[trigger] rs[i].key, #[trigger] rs[j].key) by {
        assert(rs[i].key == cell_keys(d, true)[i]);
        assert(rs[j].key == cell_keys(d, true)[j]);
    }
}

/// Looking a key up in a leaf that holds strictly ascending records finds
/// the record with that key, or nothing.
pub proof fn lemma_lookup_holds(d: Seq<u8>, rs: Seq<RecordView>, k: Seq<u8>)
    requires
        leaf_holds(d, rs),
        keys_strictly_ascending(rs),
    ensures
        leaf_lookup(d, k) == record_for(rs, k),
{
    lemma_leaf_lookup_cases(d, k);
    if exists|j: int| 0 <= j < rs.len() && #[trigger] rs[j].key == k {
        let j = choose|j: int| 0 <= j < rs.len() && #[trigger] rs[j].key == k;
        assert(cell_key_at(d, true, j) is Ok);
        assert(cell_keys(d, true)[j] == k);
    } else {
        assert forall|j: int| 0 <= j < header_of(d).cell_count implies #[trigger] cell_keys(d, true)[j] != k by {
            assert(cell_key_at(d, true, j) is Ok);
            assert(rs[j].key != k);
        }
    }
}

/// Among strictly ascending records, the one with a key is the one at the
/// only index with that key.
pub proof fn lemma_record_for_at(rs: Seq<RecordView>, j: int)
    requires
        keys_strictly_ascending(rs),
        0 <= j < rs.len(),
    ensures
        record_for(rs, rs[j].key) == Ok::<RecordView, ErrorView>(rs[j]),
{
    let k = rs[j].key;
    let i = choose|i: int| 0 <= i < rs.len() && #[trigger] rs[i].key == k;
    if i < j {
        assert(key_lt(rs[i].key, rs[j].key));
        lemma_key_lt_irreflexive(k);
    } else if i > j {
        assert(key_lt(rs[j].key, rs[i].key));
        lemma_key_lt_irreflexive(k);
    }
}

/// A part of strictly ascending records that holds every record with some
/// key gives the same record for it.
pub proof fn lemma_record_for_part(rs: Seq<RecordView>, lo: int, hi: int, k: Seq<u8>)
    requires
        keys_strictly_ascending(rs),
        0 <= lo <= hi <= rs.len(),
        forall|j: int| 0 <= j < rs.len() && #[trigger] rs[j].key == k ==> lo <= j < hi,
    ensures
        record_for(rs.subrange(lo, hi), k) == record_for(rs, k),
        keys_strictly_ascending(rs.subrange(lo, hi)),
{
    let part = rs.subrange(lo, hi);
    assert(keys_strictly_ascending(part)) by {
        assert forall|i: int, j: int| 0 <= i < j < part.len() implies key_lt(#[trigger] part[i].key, #[trigger] part[j].key) by {
            assert(part[i] == rs[lo + i]);
            assert(part[j] == rs[lo + j]);
        }
    }
    if exists|j: int| 0 <= j < rs.len() && #[trigger] rs[j].key == k {
        let j = choose|j: int| 0 <= j < rs.len() && #[trigger] rs[j].key == k;
        lemma_record_for_at(rs, j);
        assert(part[j - lo] == rs[j]);
        lemma_record_for_at(part, j - lo);
    } else {
        assert forall|j: int| 0 <= j < part.len() implies #[trigger] part[j].key != k by {
            assert(part[j] == rs[lo + j]);
        }
    }
}

/// Adding a record with a new key at its place among strictly ascending
/// records: looking its key up gives it, any other key what it gave.
pub proof fn lemma_record_for_insert(rs: Seq<RecordView>, pos: int, r: RecordView, k: Seq<u8>)
    requires
        keys_strictly_ascending(rs.insert(pos, r)),
        0 <= pos <= rs.len(),
    ensures
        record_for(rs.insert(pos, r), k) == if k == r.key { Ok::<RecordView, ErrorView>(r) } else { record_for(rs, k) },
{
    let all = rs.insert(pos, r);
    assert(all[pos] == r);
    if k == r.key {
        lemma_record_for_at(all, pos);
    } else {
        assert(keys_strictly_ascending(rs)) by {
            assert forall|i: int, j: int| 0 <= i < j < rs.len() implies key_lt(#[trigger] rs[i].key, #[trigger] rs[j].key) by {
                let a = if i < pos { i } else { i + 1 };
                let b = if j < pos { j } else { j + 1 };
                assert(all[a] == rs[i]);
                assert(all[b] == rs[j]);
            }
        }
        if exists|j: int| 0 <= j < rs.len() && #[trigger] rs[j].key == k {
            let j = choose|j: int| 0 <= j < rs.len() && #[trigger] rs[j].key == k;
            lemma_record_for_at(rs, j);
            let a = if j < pos { j } else { j + 1 };
            assert(all[a] == rs[j]);
            lemma_record_for_at(all, a);
        } else {
            assert forall|j: int| 0 <= j < all.len() implies #[trigger] all[j].key != k by {
                if j < pos {
                    assert(all[j] == rs[j]);
                } else if j > pos {
                    assert(all[j] == rs[j - 1]);
                }
            }
        }
    }
}

/// Records each of whose cells, `h` times over, fits in a page with its
/// header, and that are no more than `h`, all fit in a page.
pub proof fn lemma_room_bound(s: Seq<RecordView>, h: nat, ps: int)
    requires
        12 <= ps,
        1 <= h,
        s.len() <= h,
        forall|i: int| 0 <= i < s.len() ==> h * (record_bytes(#[trigger] s[i]).len() + 2) + 12 <= ps,
    ensures
        cells_room(s) + 12 <= ps,
{
    lemma_room_scaled(s, h, ps);
    let c = cells_room(s) as int;
    let n = s.len() as int;
    assert(c + 12 <= ps) by (nonlinear_arith)
        requires
            h * c <= n * (ps - 12),
            n <= h,
            1 <= h,
            ps >= 12,
            c >= 0,
    ;
}

/// `h` times the room of records is at most their number times the room
/// a page has past its header, when each cell `h` times over fits.
proof fn lemma_room_scaled(s: Seq<RecordView>, h: nat, ps: int)
    requires
        12 <= ps,
        1 <= h,
        s.len() <= h,
        forall|i: int| 0 <= i < s.len() ==> h * (record_bytes(#[trigger] s[i]).len() + 2) + 12 <= ps,
    ensures
        h * cells_room(s) <= s.len() * (ps - 12),
    decreases s.len(),
{
    if s.len() == 0 {
        assert(h * cells_room(s) == 0) by (nonlinear_arith)
            requires
                cells_room(s) == 0,
        ;
    } else {
        let t = s.drop_last();
        assert forall|i: int| 0 <= i < t.len() implies h * (record_bytes(#[trigger] t[i]).len() + 2) + 12 <= ps by {
            assert(t[i] == s[i]);
        }
        lemma_room_scaled(t, h, ps);
        let c0 = cells_room(t) as int;
        let e = (record_bytes(s.last()).len() + 2) as int;
        let n = s.len() as int;
        assert(h * (c0 + e) <= n * (ps - 12)) by (nonlinear_arith)
            requires
                h * c0 <= (n - 1) * (ps - 12),
                h * e + 12 <= ps,
        ;
    }
}

/// The next cell of a half still fits: the room of the half's records up to
/// and including record `i` leaves room for the page header.
pub proof fn lemma_split_step_room(rs: Seq<RecordView>, lo: int, i: int, half: nat, ps: int)
    requires
        0 <= lo <= i < rs.len(),
        i + 1 - lo <= half,
        1 <= half,
        12 <= ps,
        forall|j: int| 0 <= j < rs.len() ==> half * (record_bytes(#[trigger] rs[j]).len() + 2) + 12 <= ps,
    ensures
        cells_room(rs.subrange(lo, i + 1)) + 12 <= ps,
        cells_room(rs.subrange(lo, i + 1)) == cells_room(rs.subrange(lo, i)) + record_bytes(rs[i]).len() + 2,
{
    let s = rs.subrange(lo, i + 1);
    assert forall|j: int| 0 <= j < s.len() implies half * (record_bytes(#[trigger] s[j]).len() + 2) + 12 <= ps by {
        assert(s[j] == rs[lo + j]);
    }
    lemma_room_bound(s, half, ps);
    assert(s.drop_last() =~= rs.subrange(lo, i));
    assert(s.last() == rs[i]);
}

/// Putting the next of strictly ascending records into a leaf that holds
/// the ones before it, at the place its key's lower bound gives, appends it:
/// the leaf then holds one more, and its content starts that cell earlier.
pub proof fn lemma_split_step(before: Seq<u8>, after: Seq<u8>, rs: Seq<RecordView>, i: int, idx: int)
    requires
        leaf_holds(before, rs.take(i)),
        keys_strictly_ascending(rs),
        0 <= i < rs.len(),
        record_encodable(rs[i]),
        header_of(before).cell_count < 65535,
        12 + 2 * (header_of(before).cell_count + 1) + record_bytes(rs[i]).len() <= header_of(before).cell_content_offset,
        0 <= idx <= header_of(before).cell_count,
        after == after_insert_cell(before, idx, record_bytes(rs[i])),
        lower_bound_ok(cell_keys(before, true), rs[i].key, idx),
    ensures
        leaf_holds(after, rs.take(i + 1)),
        header_of(after).cell_content_offset == header_of(before).cell_content_offset - record_bytes(rs[i]).len(),
        after.len() == before.len(),
{
    let ks = cell_keys(before, true);
    if idx < i {
        assert(leaf_cell_at(before, idx) == Ok::<RecordView, ErrorView>(rs.take(i)[idx]));
        assert(cell_key_at(before, true, idx) is Ok);
        assert(ks[idx] == rs[idx].key);
        assert(key_lt(rs[idx].key, rs[i].key));
    }
    assert(idx == i);
    lemma_one_leaf_step(before, rs, i);
    lemma_insert_bytes(before, i, record_bytes(rs[i]));
}

/// After a split of a leaf's records with a new one added at its place,
/// at index `mid`: the lower leaf looks every key below the first upper key
/// up as the leaf with the record would, and the upper leaf every other key.
pub proof fn lemma_split_lookups(d: Seq<u8>, rv: RecordView, pos: int, rs: Seq<RecordView>, mid: int, left: Seq<u8>, right: Seq<u8>)
    requires
        leaf_wf(d),
        0 <= pos <= header_of(d).cell_count,
        rs == leaf_records(d).insert(pos, rv),
        keys_strictly_ascending(rs),
        0 <= mid < rs.len(),
        leaf_holds(left, rs.take(mid)),
        leaf_holds(right, rs.skip(mid)),
    ensures
        forall|k: Seq<u8>| key_lt(k, rs[mid].key) ==> #[trigger] leaf_lookup(left, k) == lookup_with(d, rv, k),
        forall|k: Seq<u8>| !key_lt(k, rs[mid].key) ==> #[trigger] leaf_lookup(right, k) == lookup_with(d, rv, k),
{
    lemma_leaf_holds_records(d);
    assert(rs.take(mid) =~= rs.subrange(0, mid));
    assert(rs.skip(mid) =~= rs.subrange(mid, rs.len() as int));
    assert forall|k: Seq<u8>| key_lt(k, rs[mid].key) implies #[trigger] leaf_lookup(left, k) == lookup_with(d, rv, k) by {
        lemma_record_for_insert(leaf_records(d), pos, rv, k);
        lemma_lookup_holds(d, leaf_records(d), k);
        assert forall|j: int| 0 <= j < rs.len() && #[trigger] rs[j].key == k implies 0 <= j < mid by {
            if j == mid {
                lemma_key_lt_irreflexive(k);
            } else if j > mid {
                assert(key_lt(rs[mid].key, rs[j].key));
                lemma_key_lt_asymmetric(k, rs[mid].key);
            }
        }
        lemma_record_for_part(rs, 0, mid, k);
        lemma_lookup_holds(left, rs.take(mid), k);
    }
    assert forall|k: Seq<u8>| !key_lt(k, rs[mid].key) implies #[trigger] leaf_lookup(right, k) == lookup_with(d, rv, k) by {
        lemma_record_for_insert(leaf_records(d), pos, rv, k);
        lemma_lookup_holds(d, leaf_records(d), k);
        assert forall|j: int| 0 <= j < rs.len() && #[trigger] rs[j].key == k implies mid <= j < rs.len() by {
            if j < mid {
                assert(key_lt(rs[j].key, rs[mid].key));
            }
        }
        lemma_record_for_part(rs, mid, rs.len() as int, k);
        lemma_lookup_holds(right, rs.skip(mid), k);
    }
}

} // verus!
