//! What inserting into a leaf does to its cells, and what a lookup then
//! finds.
use vstd::prelude::*;
use crate::error::ErrorView;
use crate::storage::btree::keys::{key_lt, lemma_key_lt_asymmetric, lemma_key_lt_irreflexive, lemma_key_lt_total, lemma_key_lt_transitive};
use crate::storage::btree::node::{
    after_delete_cell, after_insert_cell, cell_key_at, cell_keys, cell_start, cells_readable, free_space, header_of, keys_sorted,
    leaf_cell_at, lower_bound_ok, pointer_at, shift_down, shift_up,
};
use crate::storage::btree::search::{leaf_lookup, leaf_scan};
use crate::storage::codec::{be16_at, be16_bytes, lemma_be16_roundtrip};
use crate::storage::page::{PageHeader, PageType, lemma_page_header_roundtrip, overwrite, page_header_bytes, spec_page_header};
use crate::storage::record::{RecordView, lemma_record_roundtrip, record_bytes, record_encodable, spec_record_parse};

verus! {

/// A well-formed leaf: its header reads as a leaf's, the pointer array
/// ends below the cell content, every cell lies in the content area and
/// reads as a record, and the keys ascend strictly.
pub open spec fn leaf_wf(d: Seq<u8>) -> bool {
    let h = header_of(d);
    &&& spec_page_header(d) is Ok
    &&& h.page_type == PageType::Leaf
    &&& 12 + 2 * h.cell_count <= h.cell_content_offset <= d.len()
    &&& forall|i: int| 0 <= i < h.cell_count ==> h.cell_content_offset <= #[trigger] pointer_at(d, i) < d.len()
    &&& cells_readable(d, true)
    &&& keys_sorted(cell_keys(d, true))
}

/// The bytes of a page after inserting a cell, position by position.
pub proof fn lemma_insert_bytes(d: Seq<u8>, index: int, cell: Seq<u8>)
    requires
        spec_page_header(d) is Ok,
        0 <= index <= header_of(d).cell_count,
        cell.len() <= header_of(d).cell_content_offset,
        12 + 2 * (header_of(d).cell_count + 1) <= header_of(d).cell_content_offset - cell.len(),
        header_of(d).cell_content_offset <= d.len(),
        header_of(d).cell_count < 65535,
    ensures
        ({
            let h = header_of(d);
            let off = h.cell_content_offset as int;
            let new_off = off - cell.len();
            let e = after_insert_cell(d, index, cell);
            &&& e.len() == d.len()
            &&& spec_page_header(e) == Ok::<PageHeader, Seq<char>>(PageHeader {
                cell_count: (h.cell_count + 1) as u16,
                cell_content_offset: new_off as u16,
                ..h
            })
            &&& forall|j: int| 0 <= j < index ==> #[trigger] pointer_at(e, j) == pointer_at(d, j)
            &&& pointer_at(e, index) == new_off
            &&& forall|j: int| index < j <= h.cell_count ==> #[trigger] pointer_at(e, j) == pointer_at(d, j - 1)
            &&& forall|k: int| off <= k < d.len() ==> #[trigger] e[k] == d[k]
            &&& e.subrange(new_off, e.len() as int) == cell + d.subrange(off, d.len() as int)
        }),
{
    let h = header_of(d);
    let off = h.cell_content_offset as int;
    let new_off = (h.cell_content_offset - cell.len()) as u16;
    let count = h.cell_count as int;
    let d1 = overwrite(d, new_off as int, cell);
    let d2 = shift_up(d1, index, count);
    let d3 = overwrite(d2, 12 + 2 * index, be16_bytes(new_off));
    let h2 = PageHeader { cell_count: (h.cell_count + 1) as u16, cell_content_offset: new_off, ..h };
    let e = overwrite(d3, 0, page_header_bytes(h2));
    assert(e == after_insert_cell(d, index, cell));
    assert(d1.len() == d.len());
    assert(forall|k: int| 0 <= k < d.len() ==> #[trigger] d1[k] == if new_off <= k < off { cell[k - new_off] } else { d[k] });
    assert(forall|k: int| 11 <= k < e.len() ==> #[trigger] e[k] == d3[k]);
    assert(forall|k: int| 0 <= k < d3.len() ==> #[trigger] d3[k] == if 12 + 2 * index <= k < 14 + 2 * index {
        be16_bytes(new_off)[k - 12 - 2 * index]
    } else {
        d2[k]
    });
    assert(e.subrange(0, 11) =~= page_header_bytes(h2));
    lemma_page_header_roundtrip(h2, e);
    assert forall|j: int| 0 <= j < index implies #[trigger] pointer_at(e, j) == pointer_at(d, j) by {
        assert(e[12 + 2 * j] == d[12 + 2 * j]);
        assert(e[13 + 2 * j] == d[13 + 2 * j]);
    }
    assert(e[12 + 2 * index] == be16_bytes(new_off)[0]);
    assert(e[13 + 2 * index] == be16_bytes(new_off)[1]);
    lemma_be16_roundtrip(new_off, e, 12 + 2 * index);
    assert forall|j: int| index < j <= count implies #[trigger] pointer_at(e, j) == pointer_at(d, j - 1) by {
        assert(e[12 + 2 * j] == d[12 + 2 * j - 2]);
        assert(e[13 + 2 * j] == d[13 + 2 * j - 2]);
    }
    assert(e.subrange(new_off as int, e.len() as int) =~= cell + d.subrange(off, d.len() as int));
}

/// The bytes of a page after deleting a cell, position by position.
pub proof fn lemma_delete_bytes(d: Seq<u8>, index: int)
    requires
        spec_page_header(d) is Ok,
        0 <= index < header_of(d).cell_count,
        12 + 2 * header_of(d).cell_count <= d.len(),
    ensures
        ({
            let h = header_of(d);
            let e = after_delete_cell(d, index);
            &&& e.len() == d.len()
            &&& spec_page_header(e) == Ok::<PageHeader, Seq<char>>(PageHeader { cell_count: (h.cell_count - 1) as u16, ..h })
            &&& forall|j: int| 0 <= j < index ==> #[trigger] pointer_at(e, j) == pointer_at(d, j)
            &&& forall|j: int| index <= j < h.cell_count - 1 ==> #[trigger] pointer_at(e, j) == pointer_at(d, j + 1)
            &&& forall|k: int| 12 + 2 * h.cell_count <= k < d.len() ==> #[trigger] e[k] == d[k]
        }),
{
    let h = header_of(d);
    let count = h.cell_count as int;
    let d1 = shift_down(d, index, count);
    let h2 = PageHeader { cell_count: (h.cell_count - 1) as u16, ..h };
    let e = overwrite(d1, 0, page_header_bytes(h2));
    assert(e == after_delete_cell(d, index));
    assert(forall|k: int| 11 <= k < e.len() ==> #[trigger] e[k] == d1[k]);
    assert(e.subrange(0, 11) =~= page_header_bytes(h2));
    lemma_page_header_roundtrip(h2, e);
    assert forall|j: int| 0 <= j < index implies #[trigger] pointer_at(e, j) == pointer_at(d, j) by {
        assert(e[12 + 2 * j] == d[12 + 2 * j]);
        assert(e[13 + 2 * j] == d[13 + 2 * j]);
    }
    assert forall|j: int| index <= j < count - 1 implies #[trigger] pointer_at(e, j) == pointer_at(d, j + 1) by {
        assert(e[12 + 2 * j] == d[12 + 2 * j + 2]);
        assert(e[13 + 2 * j] == d[13 + 2 * j + 2]);
    }
}

/// Cells that start at or after a position read the same in two pages
/// that agree from that position on.
proof fn lemma_cell_same(d: Seq<u8>, e: Seq<u8>, i: int, j: int, from: int)
    requires
        d.len() == e.len(),
        12 + 2 * i + 2 <= d.len(),
        12 + 2 * j + 2 <= e.len(),
        pointer_at(e, j) == pointer_at(d, i),
        from <= pointer_at(d, i) < d.len(),
        forall|k: int| from <= k < d.len() ==> #[trigger] e[k] == d[k],
    ensures
        leaf_cell_at(e, j) == leaf_cell_at(d, i),
{
    let p = pointer_at(d, i);
    assert(e.subrange(p, e.len() as int) =~= d.subrange(p, d.len() as int));
}

/// Deleting a cell of a well-formed leaf leaves a well-formed leaf whose
/// keys lack the deleted one.
#[verifier::spinoff_prover]
#[verifier::rlimit(40)]
pub proof fn lemma_leaf_delete(d: Seq<u8>, index: int)
    requires
        leaf_wf(d),
        0 <= index < header_of(d).cell_count,
    ensures
        leaf_wf(after_delete_cell(d, index)),
        header_of(after_delete_cell(d, index)).cell_content_offset == header_of(d).cell_content_offset,
        header_of(after_delete_cell(d, index)).cell_count == header_of(d).cell_count - 1,
        after_delete_cell(d, index).len() == d.len(),
        cell_keys(after_delete_cell(d, index), true) == cell_keys(d, true).remove(index),
        forall|j: int| 0 <= j < header_of(d).cell_count - 1 ==> #[trigger] leaf_cell_at(after_delete_cell(d, index), j)
            == leaf_cell_at(d, if j < index { j } else { j + 1 }),
{
    let h = header_of(d);
    let count = h.cell_count as int;
    let off = h.cell_content_offset as int;
    let e = after_delete_cell(d, index);
    lemma_delete_bytes(d, index);
    let ks = cell_keys(d, true);
    assert forall|j: int| 0 <= j < count - 1 implies #[trigger] leaf_cell_at(e, j) == leaf_cell_at(d, if j < index { j } else { j + 1 }) by {
        let i = if j < index { j } else { j + 1 };
        assert(off <= pointer_at(d, i) < d.len());
        lemma_cell_same(d, e, i, j, off);
    }
    assert forall|j: int| 0 <= j < count - 1 implies #[trigger] cell_key_at(e, true, j) is Ok by {
        let i = if j < index { j } else { j + 1 };
        assert(leaf_cell_at(e, j) == leaf_cell_at(d, i));
        assert(cell_key_at(d, true, i) is Ok);
    }
    assert(cell_keys(e, true) =~= ks.remove(index)) by {
        assert forall|j: int| 0 <= j < count - 1 implies #[trigger] cell_keys(e, true)[j] == ks.remove(index)[j] by {
            let i = if j < index { j } else { j + 1 };
            assert(leaf_cell_at(e, j) == leaf_cell_at(d, i));
        }
    }
    assert forall|i: int, j: int| 0 <= i < j < count - 1 implies key_lt(#[trigger] cell_keys(e, true)[i], #[trigger] cell_keys(e, true)[j]) by {
        let a = if i < index { i } else { i + 1 };
        let b = if j < index { j } else { j + 1 };
        assert(key_lt(ks[a], ks[b]));
    }
    assert forall|j: int| 0 <= j < count - 1 implies off <= #[trigger] pointer_at(e, j) < e.len() by {
        let i = if j < index { j } else { j + 1 };
        assert(off <= pointer_at(d, i) < d.len());
    }
}

/// Keys stay strictly ascending when a key goes in between the smaller and
/// the larger ones.
proof fn lemma_sorted_insert(ks: Seq<Seq<u8>>, index: int, key: Seq<u8>)
    requires
        keys_sorted(ks),
        lower_bound_ok(ks, key, index),
        index < ks.len() ==> key_lt(key, ks[index]),
    ensures
        keys_sorted(ks.insert(index, key)),
{
    let ks2 = ks.insert(index, key);
    assert forall|i: int, j: int| 0 <= i < j < ks2.len() implies key_lt(#[trigger] ks2[i], #[trigger] ks2[j]) by {
        if i < index && j < index {
            assert(key_lt(ks[i], ks[j]));
        } else if i < index && j == index {
            assert(key_lt(ks[i], key));
        } else if i < index && j > index {
            assert(key_lt(ks[i], ks[j - 1]));
        } else if i == index {
            if j - 1 == index {
                assert(key_lt(key, ks[index]));
            } else {
                assert(key_lt(key, ks[index]));
                assert(key_lt(ks[index], ks[j - 1]));
                lemma_key_lt_transitive(key, ks[index], ks[j - 1]);
            }
        } else {
            assert(key_lt(ks[i - 1], ks[j - 1]));
        }
    }
}

/// The cells of a leaf after a record's cell goes in at `index`: the
/// record there, the old cells around it.
#[verifier::rlimit(40)]
pub proof fn lemma_insert_cells(d: Seq<u8>, index: int, r: RecordView)
    requires
        leaf_wf(d),
        record_encodable(r),
        0 <= index <= header_of(d).cell_count,
        header_of(d).cell_count < 65535,
        12 + 2 * (header_of(d).cell_count + 1) + record_bytes(r).len() <= header_of(d).cell_content_offset,
    ensures
        ({
            let e = after_insert_cell(d, index, record_bytes(r));
            let h = header_of(d);
            &&& e.len() == d.len()
            &&& spec_page_header(e) == Ok::<PageHeader, Seq<char>>(PageHeader {
                cell_count: (h.cell_count + 1) as u16,
                cell_content_offset: (h.cell_content_offset - record_bytes(r).len()) as u16,
                ..h
            })
            &&& leaf_cell_at(e, index) == Ok::<RecordView, ErrorView>(r)
            &&& forall|j: int| 0 <= j <= h.cell_count && j != index ==>
                #[trigger] leaf_cell_at(e, j) == leaf_cell_at(d, if j < index { j } else { j - 1 })
            &&& forall|j: int| 0 <= j <= h.cell_count ==>
                h.cell_content_offset - record_bytes(r).len() <= #[trigger] pointer_at(e, j) < e.len()
        }),
{
    let h = header_of(d);
    let count = h.cell_count as int;
    let off = h.cell_content_offset as int;
    let cb = record_bytes(r);
    let new_off = off - cb.len();
    let e = after_insert_cell(d, index, cb);
    lemma_insert_bytes(d, index, cb);
    lemma_record_roundtrip(r, d.subrange(off, d.len() as int));
    crate::storage::varint::lemma_varint_bytes_props(r.key.len());
    assert(leaf_cell_at(e, index) == Ok::<RecordView, ErrorView>(r));
    assert forall|j: int| 0 <= j <= count && j != index implies #[trigger] leaf_cell_at(e, j) == leaf_cell_at(d, if j < index { j } else { j - 1 }) by {
        let i = if j < index { j } else { j - 1 };
        assert(off <= pointer_at(d, i) < d.len());
        lemma_cell_same(d, e, i, j, off);
    }
    assert forall|j: int| 0 <= j <= count implies new_off <= #[trigger] pointer_at(e, j) < e.len() by {
        if j != index {
            let i = if j < index { j } else { j - 1 };
            assert(off <= pointer_at(d, i) < d.len());
        }
    }
}

/// The keys of a page whose cells are another page's with a record's cell
/// put in at `index`.
#[verifier::spinoff_prover]
#[verifier::rlimit(40)]
proof fn lemma_keys_shift(d: Seq<u8>, e: Seq<u8>, index: int, r: RecordView)
    requires
        spec_page_header(d) is Ok,
        spec_page_header(e) is Ok,
        header_of(e).cell_count == header_of(d).cell_count + 1,
        0 <= index <= header_of(d).cell_count,
        cells_readable(d, true),
        leaf_cell_at(e, index) == Ok::<RecordView, ErrorView>(r),
        forall|j: int| 0 <= j <= header_of(d).cell_count && j != index ==>
            #[trigger] leaf_cell_at(e, j) == leaf_cell_at(d, if j < index { j } else { j - 1 }),
    ensures
        cells_readable(e, true),
        cell_keys(e, true) == cell_keys(d, true).insert(index, r.key),
{
    let count = header_of(d).cell_count as int;
    let ks = cell_keys(d, true);
    let ks2 = ks.insert(index, r.key);
    assert forall|j: int| 0 <= j <= count implies #[trigger] cell_key_at(e, true, j) is Ok by {
        if j != index {
            let i = if j < index { j } else { j - 1 };
            assert(cell_key_at(d, true, i) is Ok);
            assert(leaf_cell_at(e, j) == leaf_cell_at(d, i));
        }
    }
    assert(cell_keys(e, true) =~= ks2) by {
        assert forall|j: int| 0 <= j <= count implies #[trigger] cell_keys(e, true)[j] == ks2[j] by {
            if j != index {
                let i = if j < index { j } else { j - 1 };
                assert(leaf_cell_at(e, j) == leaf_cell_at(d, i));
            }
        }
    }
}

/// Inserting a record's cell into a well-formed leaf at the position of
/// its key, between smaller and larger keys, leaves a well-formed leaf
/// whose keys gain that key there, and whose cell there is the record.
pub proof fn lemma_leaf_insert(d: Seq<u8>, index: int, r: RecordView)
    requires
        leaf_wf(d),
        record_encodable(r),
        0 <= index <= header_of(d).cell_count,
        header_of(d).cell_count < 65535,
        12 + 2 * (header_of(d).cell_count + 1) + record_bytes(r).len() <= header_of(d).cell_content_offset,
        lower_bound_ok(cell_keys(d, true), r.key, index),
        index < header_of(d).cell_count ==> key_lt(r.key, cell_keys(d, true)[index]),
    ensures
        ({
            let e = after_insert_cell(d, index, record_bytes(r));
            &&& leaf_wf(e)
            &&& e.len() == d.len()
            &&& cell_keys(e, true) == cell_keys(d, true).insert(index, r.key)
            &&& leaf_cell_at(e, index) == Ok::<RecordView, ErrorView>(r)
        }),
{
    let e = after_insert_cell(d, index, record_bytes(r));
    lemma_insert_cells(d, index, r);
    lemma_keys_shift(d, e, index, r);
    lemma_sorted_insert(cell_keys(d, true), index, r.key);
}

/// Scanning a well-formed leaf for the key of its cell at `index`, from
/// any cell up to that one, finds that cell's record.
proof fn lemma_leaf_scan_from(d: Seq<u8>, index: int, r: RecordView, i: int)
    requires
        leaf_wf(d),
        0 <= i <= index < header_of(d).cell_count,
        leaf_cell_at(d, index) == Ok::<RecordView, ErrorView>(r),
    ensures
        leaf_scan(d, r.key, i as nat, header_of(d).cell_count as nat) == Ok::<RecordView, ErrorView>(r),
    decreases index - i,
{
    let ks = cell_keys(d, true);
    if i < index {
        lemma_leaf_scan_from(d, index, r, i + 1);
        assert(cell_key_at(d, true, i) is Ok);
        assert(cell_key_at(d, true, index) is Ok);
        assert(ks[index] == r.key);
        assert(key_lt(ks[i], ks[index]));
        lemma_key_lt_irreflexive(r.key);
        lemma_key_lt_asymmetric(ks[i], r.key);
    }
}

/// Looking a key up in a well-formed leaf whose cell at `index` holds it
/// finds that cell's record.
pub proof fn lemma_leaf_lookup(d: Seq<u8>, index: int, r: RecordView)
    requires
        leaf_wf(d),
        0 <= index < header_of(d).cell_count,
        leaf_cell_at(d, index) == Ok::<RecordView, ErrorView>(r),
    ensures
        leaf_lookup(d, r.key) == Ok::<RecordView, ErrorView>(r),
{
    lemma_leaf_scan_from(d, index, r, 0);
}

/// `index` is where a record goes in a well-formed leaf with room for its
/// cell: the keys before it are smaller, those from it on larger.
pub open spec fn leaf_slot(d: Seq<u8>, index: int, r: RecordView) -> bool {
    let ks = cell_keys(d, true);
    &&& leaf_wf(d)
    &&& record_encodable(r)
    &&& lower_bound_ok(ks, r.key, index)
    &&& (index < ks.len() ==> ks[index] != r.key)
    &&& 12 + 2 * (header_of(d).cell_count + 1) + record_bytes(r).len() <= header_of(d).cell_content_offset
}

/// Removing the cell that holds a record's key leaves its slot free for the
/// record.
#[verifier::spinoff_prover]
pub proof fn lemma_leaf_replace(d: Seq<u8>, index: int, r: RecordView)
    requires
        leaf_wf(d),
        record_encodable(r),
        lower_bound_ok(cell_keys(d, true), r.key, index),
        index < header_of(d).cell_count,
        cell_keys(d, true)[index] == r.key,
        12 + 2 * (header_of(d).cell_count + 1) + record_bytes(r).len() <= header_of(d).cell_content_offset,
    ensures
        leaf_slot(after_delete_cell(d, index), index, r),
        lookups_kept_but(d, after_delete_cell(d, index), r.key),
{
    let ks = cell_keys(d, true);
    lemma_leaf_delete(d, index);
    let d1 = after_delete_cell(d, index);
    let ks1 = cell_keys(d1, true);
    assert forall|j: int| 0 <= j < index implies key_lt(#[trigger] ks1[j], r.key) by {
        assert(ks1[j] == ks[j]);
    }
    assert forall|j: int| index <= j < ks1.len() implies !key_lt(#[trigger] ks1[j], r.key) by {
        assert(ks1[j] == ks[j + 1]);
        assert(key_lt(ks[index], ks[j + 1]));
        lemma_key_lt_asymmetric(r.key, ks[j + 1]);
    }
    if index < ks1.len() {
        assert(ks1[index] == ks[index + 1]);
        assert(key_lt(ks[index], ks[index + 1]));
        lemma_key_lt_irreflexive(r.key);
    }
    lemma_lookups_kept(d, d1, r.key, index, false);
}

/// Putting a record's cell into its slot of a leaf leaves a well-formed leaf
/// in which looking up the record's key finds the record.
#[verifier::spinoff_prover]
#[verifier::rlimit(40)]
pub proof fn lemma_leaf_place(d: Seq<u8>, index: int, r: RecordView)
    requires
        leaf_slot(d, index, r),
        header_of(d).cell_count < 65535,
    ensures
        leaf_wf(after_insert_cell(d, index, record_bytes(r))),
        leaf_lookup(after_insert_cell(d, index, record_bytes(r)), r.key) == Ok::<RecordView, ErrorView>(r),
        lookups_kept_but(d, after_insert_cell(d, index, record_bytes(r)), r.key),
{
    let ks = cell_keys(d, true);
    if index < ks.len() {
        lemma_key_lt_total(ks[index], r.key);
    }
    lemma_leaf_insert(d, index, r);
    lemma_leaf_lookup(after_insert_cell(d, index, record_bytes(r)), index, r);
    lemma_insert_cells(d, index, r);
    lemma_lookups_kept(d, after_insert_cell(d, index, record_bytes(r)), r.key, index, true);
}

/// A leaf has room for a record's cell and its pointer.
pub open spec fn leaf_room(d: Seq<u8>, r: RecordView) -> bool {
    free_space(header_of(d)) >= 2 + record_bytes(r).len()
}

/// Scanning a well-formed leaf none of whose keys is `key` finds nothing.
pub proof fn lemma_leaf_scan_absent(d: Seq<u8>, key: Seq<u8>, i: nat)
    requires
        leaf_wf(d),
        i <= header_of(d).cell_count,
        forall|j: int| 0 <= j < header_of(d).cell_count ==> #[trigger] cell_keys(d, true)[j] != key,
    ensures
        leaf_scan(d, key, i, header_of(d).cell_count as nat) == Err::<RecordView, ErrorView>(ErrorView::NotFound),
    decreases header_of(d).cell_count - i,
{
    if i < header_of(d).cell_count {
        assert(cell_key_at(d, true, i as int) is Ok);
        assert(cell_keys(d, true)[i as int] != key);
        lemma_leaf_scan_absent(d, key, i + 1);
    }
}


/// Looking a key up in a well-formed leaf finds the cell that holds it, or
/// nothing when no cell does.
pub proof fn lemma_leaf_lookup_cases(d: Seq<u8>, key: Seq<u8>)
    requires
        leaf_wf(d),
    ensures
        forall|j: int| 0 <= j < header_of(d).cell_count && #[trigger] cell_keys(d, true)[j] == key
            ==> leaf_lookup(d, key) == leaf_cell_at(d, j),
        (forall|j: int| 0 <= j < header_of(d).cell_count ==> #[trigger] cell_keys(d, true)[j] != key)
            ==> leaf_lookup(d, key) == Err::<RecordView, ErrorView>(ErrorView::NotFound),
{
    assert forall|j: int| 0 <= j < header_of(d).cell_count && #[trigger] cell_keys(d, true)[j] == key
        implies leaf_lookup(d, key) == leaf_cell_at(d, j) by {
        assert(cell_key_at(d, true, j) is Ok);
        lemma_leaf_lookup(d, j, leaf_cell_at(d, j)->Ok_0);
    }
    if forall|j: int| 0 <= j < header_of(d).cell_count ==> #[trigger] cell_keys(d, true)[j] != key {
        lemma_leaf_scan_absent(d, key, 0);
    }
}

/// Looking up any key but `key` gives the same in two leaves.
#[verifier::opaque]
pub open spec fn lookups_kept_but(d: Seq<u8>, e: Seq<u8>, key: Seq<u8>) -> bool {
    forall|k: Seq<u8>| k != key ==> #[trigger] leaf_lookup(e, k) == leaf_lookup(d, k)
}

/// A leaf whose cells are another's, less or more one cell for `key`, in
/// the same order, looks every other key up the same.
pub proof fn lemma_lookups_kept(d: Seq<u8>, e: Seq<u8>, key: Seq<u8>, index: int, grows: bool)
    requires
        leaf_wf(d),
        leaf_wf(e),
        0 <= index,
        grows ==> {
            &&& index <= header_of(d).cell_count
            &&& header_of(e).cell_count == header_of(d).cell_count + 1
            &&& cell_keys(e, true) == cell_keys(d, true).insert(index, key)
            &&& forall|j: int| 0 <= j <= header_of(d).cell_count && j != index
                ==> #[trigger] leaf_cell_at(e, j) == leaf_cell_at(d, if j < index { j } else { j - 1 })
        },
        !grows ==> {
            &&& index < header_of(d).cell_count
            &&& header_of(e).cell_count == header_of(d).cell_count - 1
            &&& cell_keys(d, true)[index] == key
            &&& cell_keys(e, true) == cell_keys(d, true).remove(index)
            &&& forall|j: int| 0 <= j < header_of(d).cell_count - 1
                ==> #[trigger] leaf_cell_at(e, j) == leaf_cell_at(d, if j < index { j } else { j + 1 })
        },
    ensures
        lookups_kept_but(d, e, key),
{
    reveal(lookups_kept_but);
    let ks = cell_keys(d, true);
    let ke = cell_keys(e, true);
    let nd = header_of(d).cell_count as int;
    let ne = header_of(e).cell_count as int;
    assert forall|k: Seq<u8>| k != key implies #[trigger] leaf_lookup(e, k) == leaf_lookup(d, k) by {
        lemma_leaf_lookup_cases(d, k);
        lemma_leaf_lookup_cases(e, k);
        if exists|j: int| 0 <= j < nd && #[trigger] ks[j] == k {
            let j = choose|j: int| 0 <= j < nd && #[trigger] ks[j] == k;
            let je = if grows { if j < index { j } else { j + 1 } } else { if j < index { j } else { j - 1 } };
            if !grows {
                assert(j != index);
            }
            assert(ke[je] == ks[j]);
            assert(leaf_cell_at(e, je) == leaf_cell_at(d, j));
        } else {
            assert forall|j: int| 0 <= j < ne implies #[trigger] ke[j] != k by {
                if grows {
                    if j != index {
                        let jd = if j < index { j } else { j - 1 };
                        assert(ke[j] == ks[jd]);
                    }
                } else {
                    let jd = if j < index { j } else { j + 1 };
                    assert(ke[j] == ks[jd]);
                }
            }
        }
    }
}

/// Keeping every other key's lookup twice keeps it.
pub proof fn lemma_lookups_kept_trans(d: Seq<u8>, e: Seq<u8>, f: Seq<u8>, key: Seq<u8>)
    requires
        lookups_kept_but(d, e, key),
        lookups_kept_but(e, f, key),
    ensures
        lookups_kept_but(d, f, key),
{
    reveal(lookups_kept_but);
    assert forall|k: Seq<u8>| k != key implies #[trigger] leaf_lookup(f, k) == leaf_lookup(d, k) by {
        assert(leaf_lookup(e, k) == leaf_lookup(d, k));
    }
}

} // verus!

