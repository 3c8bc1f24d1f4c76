//! What inserting or deleting a cell does to the cells a page reads, cell by
//! cell rather than byte by byte.
use vstd::prelude::*;
use crate::error::ErrorView;
use crate::storage::btree::leaf::{lemma_delete_bytes, lemma_insert_bytes};
use crate::storage::btree::node::{
    after_delete_cell, after_insert_cell, header_of, interior_cell_at, interior_cell_bytes, leaf_cell_at,
    lemma_interior_cell_roundtrip, pointer_at,
};
use crate::storage::page::{PageHeader, overwrite, page_header_bytes, spec_page_header};
use crate::storage::record::{RecordView, lemma_record_roundtrip, record_bytes, record_encodable, spec_record_parse};

verus! {

/// The pointers of a page's first `count` cells lie in `[from, d.len())`.
pub open spec fn pointers_within(d: Seq<u8>, count: int, from: int) -> bool {
    forall|j: int| 0 <= j < count ==> from <= #[trigger] pointer_at(d, j) < d.len()
}

/// A cell that two pages point at, where they agree from before it on,
/// reads the same in both, as a leaf cell and as an interior cell.
proof fn lemma_same_cell(d: Seq<u8>, e: Seq<u8>, i: int, j: int, from: int)
    requires
        d.len() == e.len(),
        12 + 2 * i + 2 <= d.len(),
        12 + 2 * j + 2 <= e.len(),
        pointer_at(e, j) == pointer_at(d, i),
        from <= pointer_at(d, i) < d.len(),
        forall|k: int| from <= k < d.len() ==> #[trigger] e[k] == d[k],
    ensures
        interior_cell_at(e, j) == interior_cell_at(d, i),
        leaf_cell_at(e, j) == leaf_cell_at(d, i),
{
    let p = pointer_at(d, i);
    assert(e.subrange(p, e.len() as int) =~= d.subrange(p, d.len() as int));
}

/// Inserting an interior cell at `index` into a page whose cells lie in its
/// content area: the new cell reads at `index`, the cells before it read as
/// before, those after it read as the ones one place earlier did, and all
/// cells still lie in the (grown) content area.
pub proof fn law_interior_insert(d: Seq<u8>, index: int, key: Seq<u8>, left_child: u32)
    requires
        spec_page_header(d) is Ok,
        0 <= index <= header_of(d).cell_count,
        header_of(d).cell_count < 65535,
        12 + 2 * (header_of(d).cell_count + 1) + interior_cell_bytes(key, left_child).len()
            <= header_of(d).cell_content_offset,
        header_of(d).cell_content_offset <= d.len(),
        pointers_within(d, header_of(d).cell_count as int, header_of(d).cell_content_offset as int),
        key.len() <= u64::MAX,
    ensures
        ({
            let h = header_of(d);
            let c = interior_cell_bytes(key, left_child);
            let e = after_insert_cell(d, index, c);
            &&& e.len() == d.len()
            &&& spec_page_header(e) == Ok::<PageHeader, Seq<char>>(PageHeader {
                cell_count: (h.cell_count + 1) as u16,
                cell_content_offset: (h.cell_content_offset - c.len()) as u16,
                ..h
            })
            &&& pointers_within(e, h.cell_count + 1, h.cell_content_offset - c.len())
            &&& interior_cell_at(e, index) == Ok::<(Seq<u8>, u32), ErrorView>((key, left_child))
            &&& forall|j: int| 0 <= j < index ==> #[trigger] interior_cell_at(e, j) == interior_cell_at(d, j)
            &&& forall|j: int| index < j <= h.cell_count ==> #[trigger] interior_cell_at(e, j) == interior_cell_at(d, j - 1)
        }),
{
    let h = header_of(d);
    let count = h.cell_count as int;
    let off = h.cell_content_offset as int;
    let c = interior_cell_bytes(key, left_child);
    let new_off = off - c.len();
    let e = after_insert_cell(d, index, c);
    lemma_insert_bytes(d, index, c);
    assert forall|j: int| 0 <= j < index implies #[trigger] interior_cell_at(e, j) == interior_cell_at(d, j) by {
        lemma_same_cell(d, e, j, j, off);
    }
    assert forall|j: int| index < j <= count implies #[trigger] interior_cell_at(e, j) == interior_cell_at(d, j - 1) by {
        lemma_same_cell(d, e, j - 1, j, off);
    }
    lemma_interior_cell_roundtrip(key, left_child, d.subrange(off, d.len() as int));
    assert(pointer_at(e, index) == new_off);
    assert(interior_cell_at(e, index) == spec_interior_parse_at(e, new_off));
    assert forall|j: int| 0 <= j < count + 1 implies new_off <= #[trigger] pointer_at(e, j) < e.len() by {
        if j < index {
            assert(off <= pointer_at(d, j) < d.len());
        } else if j > index {
            assert(off <= pointer_at(d, j - 1) < d.len());
        }
    }
}

/// What an interior cell starting at `p` decodes to.
spec fn spec_interior_parse_at(d: Seq<u8>, p: int) -> core::result::Result<(Seq<u8>, u32), ErrorView> {
    crate::storage::btree::node::spec_interior_parse(d.subrange(p, d.len() as int))
}

/// Deleting the cell at `index` of a page whose cells lie past its pointer
/// array: the cells before it read as before and those after it move one
/// place down, as leaf cells and as interior cells alike.
pub proof fn law_delete_cells(d: Seq<u8>, index: int)
    requires
        spec_page_header(d) is Ok,
        0 <= index < header_of(d).cell_count,
        12 + 2 * header_of(d).cell_count <= d.len(),
        pointers_within(d, header_of(d).cell_count as int, 12 + 2 * header_of(d).cell_count),
    ensures
        ({
            let h = header_of(d);
            let e = after_delete_cell(d, index);
            &&& e.len() == d.len()
            &&& spec_page_header(e) == Ok::<PageHeader, Seq<char>>(PageHeader { cell_count: (h.cell_count - 1) as u16, ..h })
            &&& pointers_within(e, h.cell_count - 1, 12 + 2 * (h.cell_count - 1))
            &&& forall|j: int| 0 <= j < h.cell_count - 1 ==> #[trigger] interior_cell_at(e, j)
                == interior_cell_at(d, if j < index { j } else { j + 1 })
            &&& forall|j: int| 0 <= j < h.cell_count - 1 ==> #[trigger] leaf_cell_at(e, j)
                == leaf_cell_at(d, if j < index { j } else { j + 1 })
        }),
{
    let h = header_of(d);
    let count = h.cell_count as int;
    let e = after_delete_cell(d, index);
    lemma_delete_bytes(d, index);
    assert forall|j: int| 0 <= j < count - 1 implies {
        &&& #[trigger] interior_cell_at(e, j) == interior_cell_at(d, if j < index { j } else { j + 1 })
        &&& leaf_cell_at(e, j) == leaf_cell_at(d, if j < index { j } else { j + 1 })
        &&& 12 + 2 * (count - 1) <= pointer_at(e, j) < e.len()
    } by {
        let i = if j < index { j } else { j + 1 };
        assert(12 + 2 * count <= pointer_at(d, i) < d.len());
        lemma_same_cell(d, e, i, j, 12 + 2 * count);
    }
    assert forall|j: int| 0 <= j < count - 1 implies #[trigger] leaf_cell_at(e, j)
        == leaf_cell_at(d, if j < index { j } else { j + 1 }) by {
        assert(interior_cell_at(e, j) == interior_cell_at(d, if j < index { j } else { j + 1 }));
    }
}

/// Rewriting a page's header keeps where its cells lie and what they read.
pub proof fn lemma_header_keeps_cells(d: Seq<u8>, h: PageHeader, count: int)
    requires
        d.len() >= 12,
        12 + 2 * count <= d.len(),
        pointers_within(d, count, 12),
    ensures
        pointers_within(overwrite(d, 0, page_header_bytes(h)), count, 12),
        forall|j: int| 0 <= j < count ==> #[trigger] interior_cell_at(overwrite(d, 0, page_header_bytes(h)), j)
            == interior_cell_at(d, j),
        forall|j: int| 0 <= j < count ==> #[trigger] pointer_at(overwrite(d, 0, page_header_bytes(h)), j)
            == pointer_at(d, j),
{
    let e = overwrite(d, 0, page_header_bytes(h));
    assert(page_header_bytes(h).len() == 11);
    assert(forall|k: int| 11 <= k < d.len() ==> #[trigger] e[k] == d[k]);
    assert forall|j: int| 0 <= j < count implies #[trigger] pointer_at(e, j) == pointer_at(d, j) by {
        assert(e[12 + 2 * j] == d[12 + 2 * j]);
        assert(e[13 + 2 * j] == d[13 + 2 * j]);
    }
    assert forall|j: int| 0 <= j < count implies #[trigger] interior_cell_at(e, j) == interior_cell_at(d, j) by {
        lemma_same_cell(d, e, j, j, 11);
    }
}

/// Inserting a record's cell at `index` into a page whose cells lie in its
/// content area: the record reads at `index` as a leaf cell, the cells
/// before it read as before, those after it as the ones one place earlier
/// did, and all cells still lie in the (grown) content area.
pub proof fn law_leaf_insert(d: Seq<u8>, index: int, r: RecordView)
    requires
        spec_page_header(d) is Ok,
        0 <= index <= header_of(d).cell_count,
        header_of(d).cell_count < 65535,
        12 + 2 * (header_of(d).cell_count + 1) + record_bytes(r).len() <= header_of(d).cell_content_offset,
        header_of(d).cell_content_offset <= d.len(),
        pointers_within(d, header_of(d).cell_count as int, header_of(d).cell_content_offset as int),
        record_encodable(r),
    ensures
        ({
            let h = header_of(d);
            let c = record_bytes(r);
            let e = after_insert_cell(d, index, c);
            &&& e.len() == d.len()
            &&& spec_page_header(e) == Ok::<PageHeader, Seq<char>>(PageHeader {
                cell_count: (h.cell_count + 1) as u16,
                cell_content_offset: (h.cell_content_offset - c.len()) as u16,
                ..h
            })
            &&& pointers_within(e, h.cell_count + 1, h.cell_content_offset - c.len())
            &&& leaf_cell_at(e, index) == Ok::<RecordView, ErrorView>(r)
            &&& forall|j: int| 0 <= j < index ==> #[trigger] leaf_cell_at(e, j) == leaf_cell_at(d, j)
            &&& forall|j: int| index < j <= h.cell_count ==> #[trigger] leaf_cell_at(e, j) == leaf_cell_at(d, j - 1)
        }),
{
    let h = header_of(d);
    let count = h.cell_count as int;
    let off = h.cell_content_offset as int;
    let c = record_bytes(r);
    let new_off = off - c.len();
    let e = after_insert_cell(d, index, c);
    lemma_insert_bytes(d, index, c);
    assert forall|j: int| 0 <= j < index implies #[trigger] leaf_cell_at(e, j) == leaf_cell_at(d, j) by {
        lemma_same_cell(d, e, j, j, off);
    }
    assert forall|j: int| index < j <= count implies #[trigger] leaf_cell_at(e, j) == leaf_cell_at(d, j - 1) by {
        lemma_same_cell(d, e, j - 1, j, off);
    }
    lemma_record_roundtrip(r, d.subrange(off, d.len() as int));
    assert(c.len() > 0) by {
        assert(c.len() >= crate::storage::varint::varint_bytes(r.key.len()).len());
    }
    assert(pointer_at(e, index) == new_off);
    assert(e.subrange(new_off, e.len() as int) == c + d.subrange(off, d.len() as int));
    assert forall|j: int| 0 <= j < count + 1 implies new_off <= #[trigger] pointer_at(e, j) < e.len() by {
        if j < index {
            assert(off <= pointer_at(d, j) < d.len());
        } else if j > index {
            assert(off <= pointer_at(d, j - 1) < d.len());
        }
    }
}

} // verus!
