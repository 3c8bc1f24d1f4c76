//! B+Tree insertion, with leaf and interior splits propagated up to a new
//! root.
//!
//! A node that is full is split: its cells and the new one are sorted by
//! key, the lower half stays, the upper half moves to a new page, and the
//! first key of the upper half is handed to the parent.  A cell that does
//! not fit the page it is put in is reported as an error.
use vstd::prelude::*;
use crate::error::{Error, ErrorView, Result};
use crate::storage::btree::keys::{bytes_eq, bytes_lt, key_lt};
use crate::storage::btree::node::{BTreeNode, InteriorCell, LeafCell};
use crate::storage::btree::search::{PageReader, child_for, child_scan, descend, lemma_descend_fuel, descent_ends, find_child_page, leaf_lookup, lemma_search_after_leaf_change, lemma_search_kept, reader, search_result};
use crate::storage::btree::{BTree, write_node};
use crate::storage::page::{Page, PageHeader, PageId, PageType, overwrite, page_header_bytes, spec_page_header};
use crate::storage::pager::{Pager, lemma_reads_kept_before, reads_kept_but, zeros};
use crate::storage::record::{Record, RecordView, record_bytes, record_encodable};
use crate::storage::btree::leaf::{leaf_room, leaf_slot, leaf_wf, lemma_leaf_place, lemma_leaf_replace, lemma_lookups_kept_trans, lookups_kept_but};
use crate::storage::btree::delete::leaf_for;
use crate::storage::btree::node::{after_delete_cell, after_insert_cell, cell_key_at, cell_keys, cells_readable, header_of, insert_fits, interior_cell_at, interior_cell_bytes, keys_sorted, leaf_cell_at, lower_bound_ok};
use crate::storage::btree::keys::{lemma_key_lt_asymmetric, lemma_key_lt_total, lemma_key_lt_transitive};
use crate::storage::btree::split::{leaf_records, leaf_split_fits, lemma_leaf_holds_records, lemma_split_lookups, lemma_split_step, lemma_split_step_room, lookup_with, split_half};
use crate::storage::btree::bulk_load::{cells_room, interior_header, interior_page_holds, keys_strictly_ascending, leaf_header, leaf_holds, lemma_empty_leaf_holds, lemma_fresh_interior, lemma_fresh_leaf, lemma_header_written};
use crate::storage::btree::interior::{law_delete_cells, law_interior_insert, lemma_header_keeps_cells, pointers_within};
use crate::storage::btree::parent::{children_distinct, icells, law_parent_split_search, leafy, lemma_child_for_scan, lemma_delete_keeps, lemma_parent_cells_mid, lemma_replace_cell, lemma_route_index, lemma_same_route, lemma_scan_first_none, parent_cells, parent_right, route_index, routed_at, scan};
use crate::storage::btree::leaf::lemma_delete_bytes;
use crate::storage::btree::deep::{lemma_kept_frame, lemma_kept_intro, lemma_kept_law, lemma_nested_step, reaches_leaves, route, searches_kept, split_site, subtree_outside, touched};
use crate::storage::btree::node::pointer_at;
use crate::storage::codec::be32_bytes;
use crate::text::string_of;

verus! {

/// Insert result - indicates if a split occurred
#[derive(Debug)]
struct InsertResult {
    /// Whether a split occurred
    split: bool,
    /// If split, the new right sibling page ID
    new_page_id: Option<PageId>,
    /// If split, the separator key
    separator_key: Option<Vec<u8>>,
}

impl InsertResult {
    fn no_split() -> (r: Self)
        ensures
            !r.split,
            r.new_page_id is None,
            r.separator_key is None,
    {
        InsertResult { split: false, new_page_id: None, separator_key: None }
    }

    fn with_split(new_page_id: PageId, separator_key: Vec<u8>) -> (r: Self)
        ensures
            r.split,
            r.new_page_id == Some(new_page_id),
            r.separator_key == Some(separator_key),
    {
        InsertResult { split: true, new_page_id: Some(new_page_id), separator_key: Some(separator_key) }
    }
}

/// What an insertion keeps of a pager: its invariant, page size, mode and
/// cached pages.
pub open spec fn pager_kept(old_p: Pager, new_p: Pager) -> bool {
    &&& new_p.wf()
    &&& new_p.psize() == old_p.psize()
    &&& new_p.in_txn() == old_p.in_txn()
    &&& forall|q: PageId| #[trigger] old_p.cached().contains_key(q) ==> new_p.cached().contains_key(q)
}

pub(crate) proof fn lemma_kept_trans(a: Pager, b: Pager, c: Pager)
    requires
        pager_kept(a, b),
        pager_kept(b, c),
    ensures
        pager_kept(a, c),
{
    assert forall|q: PageId| #[trigger] a.cached().contains_key(q) implies c.cached().contains_key(q) by {
        assert(b.cached().contains_key(q));
    }
}

/// Allocates a page of the given type, if the page count and the file can
/// still grow.
pub(crate) fn allocate(pager: &mut Pager, page_type: PageType) -> (r: Result<Page>)
    requires
        old(pager).wf(),
        old(pager).psize() >= 64,
    ensures
        pager_kept(*old(pager), *final(pager)),
        r matches Ok(p) ==> {
            &&& final(pager).cached().contains_key(p.id)
            &&& p.data@.len() == old(pager).psize()
            &&& p.id == old(pager).hdr().page_count + 1
            &&& final(pager).addressable(p.id)
            &&& final(pager).hdr().page_count == old(pager).hdr().page_count + 1
            &&& p.data@ == overwrite(zeros(old(pager).psize()), 0, page_header_bytes(PageHeader {
                page_type,
                cell_count: 0,
                cell_content_offset: old(pager).psize() as u16,
                fragmented_free_bytes: 0,
                right_child: 0,
            }))
            &&& final(pager).visible(p.id) == Some(p.data@)
        },
        !old(pager).can_grow() ==> {
            &&& r matches Err(e) && e@ == ErrorView::Internal("Database is full"@)
            &&& *final(pager) == *old(pager)
        },
        old(pager).can_grow() && !old(pager).in_txn() ==> r is Ok,
        final(pager).hdr().page_count >= old(pager).hdr().page_count,
        forall|q: PageId| q != old(pager).hdr().page_count + 1 && old(pager).cached().contains_key(q)
            ==> #[trigger] final(pager).cached()[q] == old(pager).cached()[q],
{
    let count = pager.page_count();
    let size = pager.page_size();
    proof {
        assert((count as u128 + 3) * (size as u128) <= 0x1_0000_0002u128 * 0xffff_ffff_ffff_ffffu128) by (nonlinear_arith)
            requires
                count <= 0xffff_ffffu32,
                size as int <= 0xffff_ffff_ffff_ffffu64 as int,
        ;
    }
    if count == u32::MAX || (count as u128 + 3) * (size as u128) > usize::MAX as u128 {
        return Err(Error::Internal(string_of("Database is full")));
    }
    proof {
        let c = count as int;
        let s = size as int;
        assert((c + 1) * s + s <= usize::MAX) by (nonlinear_arith)
            requires
                (c + 3) * s <= usize::MAX,
                s >= 0;
    }
    pager.allocate_page(page_type)
}

/// Whether a cell of `size` bytes can be put in the node's page.
pub(crate) fn cell_fits(node: &BTreeNode, size: usize) -> (r: Result<bool>)
    ensures
        match spec_page_header(node.bytes()) {
            Ok(h) => r == Ok::<bool, Error>(size <= h.cell_content_offset && h.cell_content_offset <= node.bytes().len()
                && h.cell_count < 65535),
            Err(m) => r matches Err(e) && e@ == ErrorView::InvalidPage(m),
        },
{
    let h = match node.page().header() {
        Ok(h) => h,
        Err(e) => {
            return Err(e);
        },
    };
    Ok(size <= h.cell_content_offset as usize && h.cell_content_offset as usize <= node.page().data.len()
        && h.cell_count < 65535)
}

/// The keys of a node's cells, read as its header's page type says.
pub open spec fn node_keys(d: Seq<u8>) -> Seq<Seq<u8>> {
    cell_keys(d, header_of(d).page_type == PageType::Leaf)
}

/// A node whose cells all read, with keys in ascending order.
pub open spec fn sorted_cells(d: Seq<u8>) -> bool {
    let leaf = header_of(d).page_type == PageType::Leaf;
    cells_readable(d, leaf) && keys_sorted(cell_keys(d, leaf))
}

/// Puts a leaf cell at its sorted place in a node.
fn insert_leaf_sorted(node: &mut BTreeNode, cell: &LeafCell) -> (r: Result<()>)
    ensures
        final(node).spec_page().id == old(node).spec_page().id,
        final(node).bytes().len() == old(node).bytes().len(),
        spec_page_header(old(node).bytes()) is Err ==> r is Err,
        r is Ok ==> exists|i: int| 0 <= i <= header_of(old(node).bytes()).cell_count
            && final(node).bytes() == #[trigger] after_insert_cell(old(node).bytes(), i, record_bytes(cell.record@))
            && (sorted_cells(old(node).bytes()) ==> lower_bound_ok(node_keys(old(node).bytes()), cell.key@, i)),
        sorted_cells(old(node).bytes()) ==> {
            let d = old(node).bytes();
            let h = header_of(d);
            if record_bytes(cell.record@).len() <= h.cell_content_offset && h.cell_content_offset <= d.len()
                && h.cell_count < 65535 {
                14 + 2 * h.cell_count <= d.len() ==> r is Ok
            } else {
                &&& r matches Err(e) && e@ == ErrorView::BTreeError("Cell does not fit in page"@)
                &&& *final(node) == *old(node)
            }
        },
{
    let index = match node.find_cell_index(cell.key.as_slice()) {
        Ok(i) => i,
        Err(e) => {
            return Err(e);
        },
    };
    let data = cell.serialize();
    match cell_fits(node, data.len()) {
        Ok(true) => {},
        Ok(false) => {
            return Err(Error::BTreeError(string_of("Cell does not fit in page")));
        },
        Err(e) => {
            return Err(e);
        },
    }
    node.insert_leaf_cell(index, cell)
}

/// Puts an interior cell at a given index in a node.
fn insert_interior_at(node: &mut BTreeNode, index: u16, cell: &InteriorCell) -> (r: Result<()>)
    ensures
        final(node).spec_page().id == old(node).spec_page().id,
        final(node).bytes().len() == old(node).bytes().len(),
        match spec_page_header(old(node).bytes()) {
            Err(m) => r matches Err(e) && e@ == ErrorView::InvalidPage(m) && *final(node) == *old(node),
            Ok(h) => if interior_cell_bytes(cell.key@, cell.left_child).len() <= h.cell_content_offset
                && h.cell_content_offset <= old(node).bytes().len() && h.cell_count < 65535 {
                if insert_fits(old(node).bytes(), index as int) {
                    &&& r is Ok
                    &&& final(node).bytes() == after_insert_cell(old(node).bytes(), index as int,
                        interior_cell_bytes(cell.key@, cell.left_child))
                } else {
                    r matches Err(e) && e@ == ErrorView::InvalidPage("Cell pointer out of bounds"@)
                }
            } else {
                &&& r matches Err(e) && e@ == ErrorView::BTreeError("Cell does not fit in page"@)
                &&& *final(node) == *old(node)
            },
        },
{
    let data = cell.serialize();
    match cell_fits(node, data.len()) {
        Ok(true) => {},
        Ok(false) => {
            return Err(Error::BTreeError(string_of("Cell does not fit in page")));
        },
        Err(e) => {
            return Err(e);
        },
    }
    node.insert_interior_cell(index, cell)
}

/// Puts an interior cell at its sorted place in a node.
fn insert_interior_sorted(node: &mut BTreeNode, cell: &InteriorCell) -> (r: Result<()>)
    ensures
        final(node).spec_page().id == old(node).spec_page().id,
        final(node).bytes().len() == old(node).bytes().len(),
        spec_page_header(old(node).bytes()) is Err ==> r is Err,
        r is Ok ==> exists|i: int| 0 <= i <= header_of(old(node).bytes()).cell_count
            && final(node).bytes() == #[trigger] after_insert_cell(old(node).bytes(), i,
                interior_cell_bytes(cell.key@, cell.left_child))
            && (sorted_cells(old(node).bytes()) ==> lower_bound_ok(node_keys(old(node).bytes()), cell.key@, i)),
        sorted_cells(old(node).bytes()) ==> {
            let d = old(node).bytes();
            let h = header_of(d);
            if interior_cell_bytes(cell.key@, cell.left_child).len() <= h.cell_content_offset
                && h.cell_content_offset <= d.len() && h.cell_count < 65535 {
                14 + 2 * h.cell_count <= d.len() ==> r is Ok
            } else {
                &&& r matches Err(e) && e@ == ErrorView::BTreeError("Cell does not fit in page"@)
                &&& *final(node) == *old(node)
            }
        },
{
    let index = match node.find_cell_index(cell.key.as_slice()) {
        Ok(i) => i,
        Err(e) => {
            return Err(e);
        },
    };
    insert_interior_at(node, index, cell)
}

/// Whether cells are in ascending key order (equal keys allowed).
pub open spec fn leaf_cells_sorted(cs: Seq<LeafCell>) -> bool {
    forall|i: int, j: int| 0 <= i < j < cs.len() ==> !key_lt(#[trigger] cs[j].key@, #[trigger] cs[i].key@)
}

/// Whether interior cells are in ascending key order (equal keys allowed).
pub open spec fn interior_cells_sorted(cs: Seq<InteriorCell>) -> bool {
    forall|i: int, j: int| 0 <= i < j < cs.len() ==> !key_lt(#[trigger] cs[j].key@, #[trigger] cs[i].key@)
}

/// Cells whose keys ascend strictly.
pub open spec fn leaf_cells_strict(cs: Seq<LeafCell>) -> bool {
    forall|i: int, j: int| 0 <= i < j < cs.len() ==> key_lt(#[trigger] cs[i].key@, #[trigger] cs[j].key@)
}

/// Cells whose keys ascend strictly but for the last, whose key none of
/// the others has.
pub open spec fn strict_then_new(cs: Seq<LeafCell>) -> bool {
    &&& cs.len() >= 1
    &&& leaf_cells_strict(cs.drop_last())
    &&& forall|j: int| 0 <= j < cs.len() - 1 ==> #[trigger] cs[j].key@ != cs.last().key@
}

/// Sorts leaf cells by key, keeping equal keys in their order.  Cells in
/// strict order followed by one with a new key come out with that one at
/// its place among the others.
#[verifier::spinoff_prover]
#[verifier::rlimit(40)]
fn sort_leaf_cells(cells: Vec<LeafCell>) -> (r: Vec<LeafCell>)
    ensures
        r@.len() == cells@.len(),
        leaf_cells_sorted(r@),
        strict_then_new(cells@) ==> exists|pos: int| 0 <= pos < cells@.len() && {
            &&& r@ == cells@.drop_last().insert(pos, cells@.last())
            &&& forall|j: int| 0 <= j < pos ==> key_lt(#[trigger] cells@[j].key@, cells@.last().key@)
            &&& forall|j: int| pos <= j < cells@.len() - 1 ==> key_lt(cells@.last().key@, #[trigger] cells@[j].key@)
        },
{
    let ghost all = cells@;
    let ghost special = strict_then_new(cells@);
    let ghost mut fin: int = 0;
    let mut out: Vec<LeafCell> = Vec::new();
    let mut input = cells;
    let n = input.len();
    while input.len() > 0
        invariant
            out@.len() + input@.len() == n,
            leaf_cells_sorted(out@),
            n == all.len(),
            special == strict_then_new(all),
            input@ == all.skip(out@.len() as int),
            special && out@.len() < n ==> out@ == all.take(out@.len() as int),
            special && out@.len() == n ==> {
                &&& 0 <= fin < n
                &&& out@ == all.drop_last().insert(fin, all.last())
                &&& forall|j: int| 0 <= j < fin ==> key_lt(#[trigger] all[j].key@, all.last().key@)
                &&& forall|j: int| fin <= j < n - 1 ==> key_lt(all.last().key@, #[trigger] all[j].key@)
            },
        decreases input@.len(),
    {
        let ghost k: int = out@.len() as int;
        assert(input@[0] == all[k]);
        assert(input@.remove(0) == all.skip(k + 1));
        let c = input.remove(0);
        let mut pos: usize = out.len();
        while pos > 0 && bytes_lt(c.key.as_slice(), out[pos - 1].key.as_slice())
            invariant
                pos <= out@.len(),
                leaf_cells_sorted(out@),
                forall|j: int| pos <= j < out@.len() ==> key_lt(c.key@, #[trigger] out@[j].key@),
            decreases pos,
        {
            pos = pos - 1;
        }
        proof {
            assert forall|j: int| 0 <= j < pos implies !key_lt(c.key@, #[trigger] out@[j].key@) by {
                if pos > 0 && key_lt(c.key@, out@[j].key@) {
                    if j < pos - 1 {
                        crate::storage::btree::keys::lemma_key_lt_total(out@[j].key@, out@[pos - 1].key@);
                        if key_lt(out@[j].key@, out@[pos - 1].key@) {
                            crate::storage::btree::keys::lemma_key_lt_transitive(c.key@, out@[j].key@, out@[pos - 1].key@);
                        } else if out@[j].key@ != out@[pos - 1].key@ {
                            assert(!key_lt(out@[pos - 1].key@, out@[j].key@));
                        }
                    }
                }
            }
        }
        let ghost before = out@;
        proof {
            if special && k < n - 1 {
                assert(before == all.take(k));
                if pos < before.len() {
                    let l = before.len() - 1;
                    assert(key_lt(c.key@, before[l].key@));
                    assert(key_lt(all[l].key@, all[k].key@)) by {
                        assert(all.drop_last()[l] == all[l]);
                        assert(all.drop_last()[k] == all[k]);
                    }
                    lemma_key_lt_asymmetric(c.key@, before[l].key@);
                }
            }
            if special && k == n - 1 {
                assert(before == all.drop_last());
                assert(c == all.last());
                assert forall|j: int| 0 <= j < pos implies key_lt(#[trigger] all[j].key@, all.last().key@) by {
                    assert(before[j] == all[j]);
                    lemma_key_lt_total(all[j].key@, all.last().key@);
                }
                assert forall|j: int| pos <= j < n - 1 implies key_lt(all.last().key@, #[trigger] all[j].key@) by {
                    assert(before[j] == all[j]);
                }
                fin = pos as int;
            }
        }
        out.insert(pos, c);
        proof {
            assert forall|i: int, j: int| 0 <= i < j < out@.len() implies !key_lt(#[trigger] out@[j].key@, #[trigger] out@[i].key@) by {
                if i < pos && j > pos {
                    assert(out@[i] == before[i]);
                    assert(out@[j] == before[j - 1]);
                } else if i == pos {
                    assert(out@[j] == before[j - 1]);
                    crate::storage::btree::keys::lemma_key_lt_asymmetric(c.key@, before[j - 1].key@);
                } else if j == pos {
                    assert(out@[i] == before[i]);
                } else if j < pos {
                    assert(out@[i] == before[i]);
                    assert(out@[j] == before[j]);
                } else {
                    assert(out@[i] == before[i - 1]);
                    assert(out@[j] == before[j - 1]);
                }
            }
            if special && k < n - 1 {
                assert(out@ =~= all.take(k + 1));
            }
        }
    }
    out
}

/// Sorts interior cells by key, keeping equal keys in their order.
#[verifier::spinoff_prover]
fn sort_interior_cells(cells: Vec<InteriorCell>) -> (r: Vec<InteriorCell>)
    ensures
        r@.len() == cells@.len(),
        interior_cells_sorted(r@),
{
    let mut out: Vec<InteriorCell> = Vec::new();
    let mut input = cells;
    let n = input.len();
    while input.len() > 0
        invariant
            out@.len() + input@.len() == n,
            interior_cells_sorted(out@),
        decreases input@.len(),
    {
        let c = input.remove(0);
        let mut pos: usize = out.len();
        while pos > 0 && bytes_lt(c.key.as_slice(), out[pos - 1].key.as_slice())
            invariant
                pos <= out@.len(),
                interior_cells_sorted(out@),
                forall|j: int| pos <= j < out@.len() ==> key_lt(c.key@, #[trigger] out@[j].key@),
            decreases pos,
        {
            pos = pos - 1;
        }
        proof {
            assert forall|j: int| 0 <= j < pos implies !key_lt(c.key@, #[trigger] out@[j].key@) by {
                if pos > 0 && key_lt(c.key@, out@[j].key@) {
                    if j < pos - 1 {
                        crate::storage::btree::keys::lemma_key_lt_total(out@[j].key@, out@[pos - 1].key@);
                        if key_lt(out@[j].key@, out@[pos - 1].key@) {
                            crate::storage::btree::keys::lemma_key_lt_transitive(c.key@, out@[j].key@, out@[pos - 1].key@);
                        } else if out@[j].key@ != out@[pos - 1].key@ {
                            assert(!key_lt(out@[pos - 1].key@, out@[j].key@));
                        }
                    }
                }
            }
        }
        let ghost before = out@;
        out.insert(pos, c);
        proof {
            assert forall|i: int, j: int| 0 <= i < j < out@.len() implies !key_lt(#[trigger] out@[j].key@, #[trigger] out@[i].key@) by {
                if i < pos && j > pos {
                    assert(out@[i] == before[i]);
                    assert(out@[j] == before[j - 1]);
                } else if i == pos {
                    assert(out@[j] == before[j - 1]);
                    crate::storage::btree::keys::lemma_key_lt_asymmetric(c.key@, before[j - 1].key@);
                } else if j == pos {
                    assert(out@[i] == before[i]);
                } else if j < pos {
                    assert(out@[i] == before[i]);
                    assert(out@[j] == before[j]);
                } else {
                    assert(out@[i] == before[i - 1]);
                    assert(out@[j] == before[j - 1]);
                }
            }
        }
    }
    out
}

/// Insert a record into the B+Tree; when the root splits, a new interior
/// root takes its place
#[verifier::spinoff_prover]
#[verifier::rlimit(60)]
pub fn insert(btree: &mut BTree, pager: &mut Pager, record: Record) -> (r: Result<()>)
    requires
        old(pager).wf(),
        old(pager).psize() >= 64,
        descent_ends(reader(*old(pager)), old(btree).root(), record.key@),
    ensures
        pager_kept(*old(pager), *final(pager)),
        final(btree).root() != old(btree).root() ==> {
            &&& r is Ok
            &&& final(pager).hdr().root_page == final(btree).root()
            &&& final(pager).visible(final(btree).root()) is Some
        },
        (leaf_for(reader(*old(pager)), old(btree).root(), record@.key) matches Ok(leaf)
            && reader(*old(pager))(leaf) matches Ok(d) && leaf_wf(d) && record_encodable(record@)
            && leaf_room(d, record@)) ==> {
            &&& r is Ok
            &&& final(btree).root() == old(btree).root()
            &&& descent_ends(reader(*final(pager)), final(btree).root(), record@.key)
            &&& search_result(reader(*final(pager)), final(btree).root(), record@.key) == Ok::<RecordView, ErrorView>(record@)
            &&& forall|k: Seq<u8>| k != record@.key && #[trigger] leaf_for(reader(*old(pager)), old(btree).root(), k) is Ok
                && descent_ends(reader(*old(pager)), old(btree).root(), k) ==> {
                &&& descent_ends(reader(*final(pager)), final(btree).root(), k)
                &&& search_result(reader(*final(pager)), final(btree).root(), k)
                    == search_result(reader(*old(pager)), old(btree).root(), k)
            }
        },
        (exists|depth: nat| #[trigger] nested_leaf_splits(*old(pager), old(btree).root(), record@, depth)) ==> {
            &&& r is Ok
            &&& final(btree).root() == old(btree).root()
            &&& descent_ends(reader(*final(pager)), final(btree).root(), record@.key)
            &&& search_result(reader(*final(pager)), final(btree).root(), record@.key) == Ok::<RecordView, ErrorView>(record@)
            &&& forall|k: Seq<u8>| k != record@.key ==> {
                &&& descent_ends(reader(*final(pager)), final(btree).root(), k)
                &&& #[trigger] search_result(reader(*final(pager)), final(btree).root(), k)
                    == search_result(reader(*old(pager)), old(btree).root(), k)
            }
        },
        root_leaf_splits(*old(pager), old(btree).root(), record@) ==> {
            &&& r is Ok
            &&& final(btree).root() != old(btree).root()
            &&& descent_ends(reader(*final(pager)), final(btree).root(), record@.key)
            &&& search_result(reader(*final(pager)), final(btree).root(), record@.key) == Ok::<RecordView, ErrorView>(record@)
            &&& forall|k: Seq<u8>| k != record@.key ==> {
                &&& descent_ends(reader(*final(pager)), final(btree).root(), k)
                &&& #[trigger] search_result(reader(*final(pager)), final(btree).root(), k)
                    == search_result(reader(*old(pager)), old(btree).root(), k)
            }
        },
{
    let root_page_id = btree.root_page_id();
    let ghost rd = reader(*pager);
    let ghost n0 = choose|n: nat| #[trigger] descend(rd, root_page_id, record.key@, n) is Some;
    let ghost record_view = record@;
    let ghost p0 = *pager;
    let ghost depth = choose|depth: nat| #[trigger] nested_leaf_splits(p0, root_page_id, record_view, depth);
    let ghost nested = exists|depth: nat| #[trigger] nested_leaf_splits(p0, root_page_id, record_view, depth);
    proof {
        lemma_room_at_root(rd, root_page_id, record_view, n0);
        if nested && depth == 0 {
            lemma_nested_zero(p0, root_page_id, record_view);
        }
    }
    let result = match insert_recursive(pager, root_page_id, record, Ghost(n0), Ghost(depth)) {
        Ok(res) => res,
        Err(e) => {
            proof {
                reveal(split_done);
                reveal(parent_done);
            }
            return Err(e);
        },
    };
    proof {
        reveal(parent_done);
    }
    let ghost splits = root_leaf_splits(p0, root_page_id, record_view);
    let ghost d0 = p0.read_result(root_page_id)->Ok_0;
    proof {
        if splits {
            reveal(split_done);
        }
    }
    if result.split {
        let (new_page_id, separator_key) = match (result.new_page_id, result.separator_key) {
            (Some(p), Some(k)) => (p, k),
            _ => {
                return Ok(());
            },
        };
        let ghost sep_view = separator_key@;
        let ghost p1 = *pager;
        let new_root_id = match make_root(pager, root_page_id, separator_key, new_page_id) {
            Ok(id) => id,
            Err(e) => {
                return Err(e);
            },
        };
        let ghost e2 = pager.read_result(new_root_id)->Ok_0;
        btree.set_root_page_id(new_root_id);
        match pager.set_root_page(new_root_id) {
            Ok(()) => {},
            Err(e) => {
                return Err(e);
            },
        }
        proof {
            assert(pager.visible(new_root_id) is Some);
            if splits {
                assert(pager.read_result(root_page_id) == p1.read_result(root_page_id));
                assert(pager.read_result(new_page_id) == p1.read_result(new_page_id));
                lemma_root_split_search(p0, *pager, root_page_id, new_page_id, new_root_id, d0, record_view,
                    sep_view, e2, p1.read_result(root_page_id)->Ok_0, p1.read_result(new_page_id)->Ok_0);
            }
        }
    } else {
        proof {
            if room_at_leaf(rd, root_page_id, record_view, n0) {
                lemma_search_after_insert(p0, *pager, root_page_id, record_view, n0);
                lemma_other_keys_after_insert(p0, *pager, root_page_id, record_view, n0);
            }
            if nested && depth == 0 {
                let sep = choose|sep: Seq<u8>| #[trigger] parent_split_result(p0, *pager, root_page_id, record_view, sep);
                lemma_parent_law(p0, *pager, root_page_id, record_view, sep);
            }
            if nested && depth > 0 {
                lemma_kept_law(p0, *pager, root_page_id, record_view, depth);
            }
        }
    }
    Ok(())
}

/// The law of an insert that split the leaf under the root, which took the
/// separator: the record is found, and every other key finds what it did.
proof fn lemma_parent_law(p0: Pager, pf: Pager, root: PageId, rv: RecordView, sep: Seq<u8>)
    requires
        parent_leaf_splits(p0, root, rv),
        parent_split_result(p0, pf, root, rv, sep),
    ensures
        descent_ends(reader(pf), root, rv.key),
        search_result(reader(pf), root, rv.key) == Ok::<RecordView, ErrorView>(rv),
        forall|k: Seq<u8>| k != rv.key ==> {
            &&& descent_ends(reader(pf), root, k)
            &&& #[trigger] search_result(reader(pf), root, k) == search_result(reader(p0), root, k)
        },
        forall|k: Seq<u8>| #[trigger] descend(reader(pf), root, k, 2) matches Some(Ok(_))
            && descend(reader(p0), root, k, 2) matches Some(Ok(_)),
{
    reveal(parent_leaf_splits);
    let dp = p0.cached()[root].0;
    let cs = icells(dp);
    let right = header_of(dp).right_child;
    let n = (p0.hdr().page_count + 1) as u32;
    assert forall|j: int| 0 <= j < cs.len() implies #[trigger] leafy(p0, root, cs[j].1) && cs[j].1 != n by {
        assert(leaf_child(p0, root, cs[j].1));
    }
    law_parent_split_search(p0, pf, root, rv, sep, scan(cs, right, rv.key), n);
}

/// Makes a new interior page the root above two pages: one cell with the
/// separator and the left page, and the right page as right child.  Its id.
fn make_root(pager: &mut Pager, left: PageId, separator_key: Vec<u8>, right: PageId) -> (r: Result<PageId>)
    requires
        old(pager).wf(),
        old(pager).psize() >= 64,
    ensures
        pager_kept(*old(pager), *final(pager)),
        final(pager).hdr().page_count >= old(pager).hdr().page_count,
        r matches Ok(id) ==> {
            &&& id == old(pager).hdr().page_count + 1
            &&& final(pager).visible(id) is Some
            &&& final(pager).cached().contains_key(id)
        },
        forall|q: PageId| q != old(pager).hdr().page_count + 1 && old(pager).cached().contains_key(q) ==> {
            &&& #[trigger] final(pager).cached().contains_key(q)
            &&& final(pager).cached()[q] == old(pager).cached()[q]
        },
        old(pager).can_grow() && !old(pager).in_txn() && old(pager).psize() <= 65535
            && interior_cell_bytes(separator_key@, left).len() + 14 <= old(pager).psize() ==> {
            &&& r matches Ok(id)
            &&& final(pager).read_result(id) is Ok
            &&& spec_page_header(final(pager).read_result(id)->Ok_0) is Ok
            &&& header_of(final(pager).read_result(id)->Ok_0).page_type == PageType::Interior
            &&& header_of(final(pager).read_result(id)->Ok_0).cell_count == 1
            &&& header_of(final(pager).read_result(id)->Ok_0).right_child == right
            &&& interior_cell_at(final(pager).read_result(id)->Ok_0, 0)
                == Ok::<(Seq<u8>, u32), ErrorView>((separator_key@, left))
        },
{
    let ghost ps = pager.psize();
    let ghost ok = pager.can_grow() && !pager.in_txn() && pager.psize() <= 65535
        && interior_cell_bytes(separator_key@, left).len() + 14 <= pager.psize();
    let ghost p0 = *pager;
    let new_root_page = match allocate(pager, PageType::Interior) {
        Ok(p) => p,
        Err(e) => {
            return Err(e);
        },
    };
    let mut new_root = BTreeNode::from_page(new_root_page);
    let new_root_id = new_root.page_id();
    proof {
        if ok {
            lemma_fresh_interior(ps);
            assert(new_root.bytes() == overwrite(zeros(ps), 0, page_header_bytes(interior_header(0, ps))));
        }
    }
    let interior_cell = InteriorCell { left_child: left, key: separator_key };
    match insert_interior_at(&mut new_root, 0, &interior_cell) {
        Ok(()) => {},
        Err(e) => {
            return Err(e);
        },
    }
    let ghost e1 = new_root.bytes();
    match new_root.set_right_child(right) {
        Ok(()) => {},
        Err(e) => {
            return Err(e);
        },
    }
    let ghost e2 = new_root.bytes();
    proof {
        if ok {
            lemma_new_root_bytes(ps, interior_cell.key@, left, right, e1, e2);
        }
    }
    let ghost p1 = *pager;
    match write_node(pager, new_root) {
        Ok(()) => {},
        Err(e) => {
            return Err(e);
        },
    }
    proof {
        lemma_kept_trans(p0, p1, *pager);
        assert(pager.read_result(new_root_id) == Ok::<Seq<u8>, ErrorView>(e2));
    }
    Ok(new_root_id)
}

/// A new root made of a fresh interior page with one cell, for the old root
/// under the separator, and the new page as its right child reads so.
proof fn lemma_new_root_bytes(ps: nat, sep: Seq<u8>, left: u32, right: u32, e1: Seq<u8>, e2: Seq<u8>)
    requires
        64 <= ps <= 65535,
        interior_cell_bytes(sep, left).len() + 14 <= ps,
        sep.len() <= u64::MAX,
        e1 == after_insert_cell(overwrite(zeros(ps), 0, page_header_bytes(interior_header(0, ps))), 0,
            interior_cell_bytes(sep, left)),
        e2 == overwrite(e1, 0, page_header_bytes(PageHeader { right_child: right, ..header_of(e1) })),
    ensures
        spec_page_header(e2) is Ok,
        header_of(e2).page_type == PageType::Interior,
        header_of(e2).cell_count == 1,
        header_of(e2).right_child == right,
        interior_cell_at(e2, 0) == Ok::<(Seq<u8>, u32), ErrorView>((sep, left)),
{
    let fresh = overwrite(zeros(ps), 0, page_header_bytes(interior_header(0, ps)));
    lemma_fresh_interior(ps);
    law_interior_insert(fresh, 0, sep, left);
    lemma_header_written(e1, PageHeader { right_child: right, ..header_of(e1) });
    lemma_header_keeps_cells(e1, PageHeader { right_child: right, ..header_of(e1) }, 1);
}

/// A search from a page that reads as a leaf ends there, and looks the key
/// up in it.
proof fn lemma_search_at_leaf(rd: PageReader, pid: PageId, k: Seq<u8>)
    requires
        rd(pid) is Ok,
        spec_page_header(rd(pid)->Ok_0) is Ok,
        header_of(rd(pid)->Ok_0).page_type == PageType::Leaf,
    ensures
        descent_ends(rd, pid, k),
        search_result(rd, pid, k) == leaf_lookup(rd(pid)->Ok_0, k),
{
    assert(descend(rd, pid, k, 1) is Some);
    let n = choose|n: nat| #[trigger] descend(rd, pid, k, n) is Some;
    assert(descend(rd, pid, k, n) == Some(Ok::<PageId, ErrorView>(pid)));
}

/// After the root leaf split and a new root took the old root and the new
/// page as children, a search for the record's key finds it, and one for
/// any other key finds what the old root gave.
proof fn lemma_root_split_search(p0: Pager, pf: Pager, root: PageId, new_leaf: PageId, new_root: PageId, d: Seq<u8>,
    rv: RecordView, sep: Seq<u8>, e: Seq<u8>, dl: Seq<u8>, dr: Seq<u8>)
    requires
        p0.read_result(root) == Ok::<Seq<u8>, ErrorView>(d),
        leaf_wf(d),
        pf.read_result(new_root) == Ok::<Seq<u8>, ErrorView>(e),
        spec_page_header(e) is Ok,
        header_of(e).page_type == PageType::Interior,
        header_of(e).cell_count == 1,
        header_of(e).right_child == new_leaf,
        interior_cell_at(e, 0) == Ok::<(Seq<u8>, u32), ErrorView>((sep, root)),
        pf.read_result(root) == Ok::<Seq<u8>, ErrorView>(dl),
        pf.read_result(new_leaf) == Ok::<Seq<u8>, ErrorView>(dr),
        leaf_wf(dl),
        leaf_wf(dr),
        forall|k: Seq<u8>| key_lt(k, sep) ==> #[trigger] leaf_lookup(dl, k) == lookup_with(d, rv, k),
        forall|k: Seq<u8>| !key_lt(k, sep) ==> #[trigger] leaf_lookup(dr, k) == lookup_with(d, rv, k),
    ensures
        descent_ends(reader(pf), new_root, rv.key),
        search_result(reader(pf), new_root, rv.key) == Ok::<RecordView, ErrorView>(rv),
        forall|k: Seq<u8>| k != rv.key ==> {
            &&& descent_ends(reader(pf), new_root, k)
            &&& #[trigger] search_result(reader(pf), new_root, k) == search_result(reader(p0), root, k)
        },
{
    assert forall|k: Seq<u8>| {
        &&& descent_ends(reader(pf), new_root, k)
        &&& #[trigger] search_result(reader(pf), new_root, k) == lookup_with(d, rv, k)
    } by {
        let rd = reader(pf);
        let child: PageId = if key_lt(k, sep) { root } else { new_leaf };
        assert(child_scan(e, k, 1, 1) == Ok::<PageId, ErrorView>(new_leaf));
        assert(child_for(e, k) == Ok::<PageId, ErrorView>(child));
        lemma_search_at_leaf(rd, child, k);
        let m = choose|m: nat| #[trigger] descend(rd, child, k, m) is Some;
        lemma_descend_fuel(rd, child, k, 1, m + 1);
        assert(descend(rd, new_root, k, 2) == descend(rd, child, k, 1));
        assert(descend(rd, new_root, k, 2) is Some);
        let n = choose|n: nat| #[trigger] descend(rd, new_root, k, n) is Some;
        if n <= 2 {
            lemma_descend_fuel(rd, new_root, k, n, 2);
        } else {
            lemma_descend_fuel(rd, new_root, k, 2, n);
        }
        assert(descend(rd, child, k, 1) == Some(Ok::<PageId, ErrorView>(child)));
    }
    assert forall|k: Seq<u8>| k != rv.key implies {
        &&& descent_ends(reader(pf), new_root, k)
        &&& #[trigger] search_result(reader(pf), new_root, k) == search_result(reader(p0), root, k)
    } by {
        lemma_search_at_leaf(reader(p0), root, k);
    }
}

/// When the descent for a record's key reaches a well-formed leaf with
/// room for it, the descent within the fuel that `leaf_for` picks does.
proof fn lemma_room_at_root(rd: PageReader, root: PageId, r: RecordView, n: nat)
    requires
        descend(rd, root, r.key, n) is Some,
        n == choose|n: nat| #[trigger] descend(rd, root, r.key, n) is Some,
    ensures
        (leaf_for(rd, root, r.key) matches Ok(leaf) && rd(leaf) matches Ok(d) && leaf_wf(d) && record_encodable(r)
            && leaf_room(d, r)) ==> room_at_leaf(rd, root, r, n),
{
    reveal(room_at_leaf);
}

/// After an insert that reached a leaf with room, put the record there and
/// left every other page that read well as it was, a search for the
/// record's key from the same root ends and finds the record.
proof fn lemma_search_after_insert(p0: Pager, p1: Pager, root: PageId, r: RecordView, n: nat)
    requires
        room_at_leaf(reader(p0), root, r, n),
        leaf_found(p1, reached_leaf(reader(p0), root, r.key, n), r),
        reads_kept_but(p0, p1, reached_leaf(reader(p0), root, r.key, n)),
    ensures
        descent_ends(reader(p1), root, r.key),
        search_result(reader(p1), root, r.key) == Ok::<RecordView, ErrorView>(r),
{
    reveal(room_at_leaf);
    reveal(leaf_found);
    lemma_search_after_leaf_change(p0, p1, root, r.key, n, reached_leaf(reader(p0), root, r.key, n));
}

/// After such an insert, a search for any other key that reached a leaf
/// before ends and gives what it gave.
proof fn lemma_other_keys_after_insert(p0: Pager, p1: Pager, root: PageId, r: RecordView, n: nat)
    requires
        room_at_leaf(reader(p0), root, r, n),
        leaf_found(p1, reached_leaf(reader(p0), root, r.key, n), r),
        reads_kept_but(p0, p1, reached_leaf(reader(p0), root, r.key, n)),
        lookups_kept_but(
            p0.read_result(reached_leaf(reader(p0), root, r.key, n))->Ok_0,
            p1.read_result(reached_leaf(reader(p0), root, r.key, n))->Ok_0,
            r.key,
        ),
    ensures
        forall|k: Seq<u8>| k != r.key && #[trigger] leaf_for(reader(p0), root, k) is Ok
            && descent_ends(reader(p0), root, k) ==> {
            &&& descent_ends(reader(p1), root, k)
            &&& search_result(reader(p1), root, k) == search_result(reader(p0), root, k)
        },
{
    reveal(room_at_leaf);
    reveal(leaf_found);
    reveal(lookups_kept_but);
    let leaf = reached_leaf(reader(p0), root, r.key, n);
    assert forall|k: Seq<u8>| k != r.key && #[trigger] leaf_for(reader(p0), root, k) is Ok
        && descent_ends(reader(p0), root, k) implies {
        &&& descent_ends(reader(p1), root, k)
        &&& search_result(reader(p1), root, k) == search_result(reader(p0), root, k)
    } by {
        assert(leaf_lookup(p1.read_result(leaf)->Ok_0, k) == leaf_lookup(p0.read_result(leaf)->Ok_0, k));
        lemma_search_kept(p0, p1, root, k, leaf);
    }
}

/// What the descent from a page for a record's key, when it reaches a
/// well-formed leaf with room for it, says of the page itself.
proof fn lemma_room_at_page(rd: PageReader, pid: PageId, r: RecordView, fuel: nat)
    requires
        room_at_leaf(rd, pid, r, fuel),
    ensures
        fuel > 0,
        rd(pid) is Ok,
        spec_page_header(rd(pid)->Ok_0) is Ok,
        spec_page_header(rd(pid)->Ok_0)->Ok_0.page_type != PageType::Leaf ==> child_for(rd(pid)->Ok_0, r.key) is Ok,
        spec_page_header(rd(pid)->Ok_0)->Ok_0.page_type == PageType::Leaf ==> {
            &&& reached_leaf(rd, pid, r.key, fuel) == pid
            &&& leaf_wf(rd(pid)->Ok_0)
            &&& record_encodable(r)
            &&& leaf_room(rd(pid)->Ok_0, r)
        },
{
    reveal(room_at_leaf);
}

/// When inserting a record into the tree rooted at `root` splits the root,
/// a leaf: the root reads as a leaf the header counts, without room for the
/// record, that can be split to take it, and the pager can grow by one page
/// more for a new root.
pub open spec fn root_leaf_splits(p: Pager, root: PageId, r: RecordView) -> bool {
    &&& p.read_result(root) is Ok
    &&& root <= p.hdr().page_count
    &&& !leaf_room(p.read_result(root)->Ok_0, r)
    &&& leaf_split_fits(p, p.read_result(root)->Ok_0, r)
    &&& p.hdr().page_count + 1 < u32::MAX
    &&& (p.hdr().page_count + 4) * p.psize() <= usize::MAX
}

/// A child page of the root: cached, counted by the header, not the root,
/// and reading as a leaf.
pub open spec fn leaf_child(p: Pager, root: PageId, c: u32) -> bool {
    &&& leafy(p, root, c)
    &&& c <= p.hdr().page_count
}

/// When inserting a record into a tree of two levels splits the leaf that
/// its key reaches, and the root above takes the separator without
/// splitting: the root is a cached interior page the header counts, filling
/// a page, whose cells read, with strictly ascending keys, in its content
/// area, and whose children are distinct leaves the header counts; the leaf
/// the key reaches has records, all routed to it, and can be split to take
/// the record (see `root_leaf_splits`); and the root has room for the
/// separator's cell and for the cell that will point at the new page.
#[verifier::opaque]
pub open spec fn parent_leaf_splits(p: Pager, root: PageId, r: RecordView) -> bool {
    let dp = p.cached()[root].0;
    let h = header_of(dp);
    let cs = icells(dp);
    let count = h.cell_count as int;
    let child = scan(cs, h.right_child, r.key);
    let i = route_index(cs, r.key);
    let dl = p.read_result(child)->Ok_0;
    let n = (p.hdr().page_count + 1) as u32;
    &&& p.cached().contains_key(root)
    &&& root <= p.hdr().page_count
    &&& dp.len() == p.psize()
    &&& spec_page_header(dp) is Ok
    &&& h.page_type == PageType::Interior
    &&& forall|j: int| 0 <= j < count ==> #[trigger] interior_cell_at(dp, j) is Ok
    &&& keys_sorted(cell_keys(dp, false))
    &&& 12 + 2 * count <= h.cell_content_offset <= dp.len()
    &&& pointers_within(dp, count, h.cell_content_offset as int)
    &&& children_distinct(cs, h.right_child)
    &&& forall|j: int| 0 <= j < count ==> #[trigger] leaf_child(p, root, cs[j].1)
    &&& leaf_child(p, root, h.right_child)
    &&& root_leaf_splits(p, child, r)
    &&& header_of(dl).cell_count >= 1
    &&& forall|j: int| 0 <= j < header_of(dl).cell_count ==> scan(cs, h.right_child, #[trigger] leaf_records(dl)[j].key) == child
    &&& forall|t: Seq<u8>| split_key(dl, r, t) ==> 16 + 2 * count + #[trigger] interior_cell_bytes(t, child).len()
        + (if i < count { interior_cell_bytes(cs[i].0, n).len() } else { 0 }) <= h.cell_content_offset
}

/// What the root of a two-level tree holds after the leaf under it split
/// with separator `sep`: the separator's cell before the cell that now
/// points at the new page (or the new page as right child); the leaf and
/// the new page read as leaves that look every key up as the leaf with the
/// record would, below and from the separator; every other cached page is
/// as it was.
pub open spec fn parent_split_result(p0: Pager, pf: Pager, root: PageId, rv: RecordView, sep: Seq<u8>) -> bool {
    let dp = p0.cached()[root].0;
    let cs = icells(dp);
    let right = header_of(dp).right_child;
    let i = route_index(cs, rv.key);
    let child = scan(cs, right, rv.key);
    let n = (p0.hdr().page_count + 1) as u32;
    &&& i < cs.len() ==> key_lt(sep, cs[i].0)
    &&& pf.cached().contains_key(root)
    &&& interior_page_holds(pf.cached()[root].0, parent_cells(cs, i, sep, child, n), parent_right(cs, right, i, n))
    &&& leafy(pf, root, child)
    &&& leafy(pf, root, n)
    &&& forall|k: Seq<u8>| key_lt(k, sep) ==> #[trigger] leaf_lookup(pf.cached()[child].0, k) == lookup_with(p0.cached()[child].0, rv, k)
    &&& forall|k: Seq<u8>| !key_lt(k, sep) ==> #[trigger] leaf_lookup(pf.cached()[n].0, k) == lookup_with(p0.cached()[child].0, rv, k)
    &&& forall|q: PageId| q != root && q != child && q != n && p0.cached().contains_key(q) ==> #[trigger] pf.cached().contains_key(q)
        && pf.cached()[q] == p0.cached()[q]
}

/// An insert that split the leaf under the root, which took the separator.
#[verifier::opaque]
spec fn parent_done(p0: Pager, pf: Pager, root: PageId, rv: RecordView, r: Result<InsertResult>) -> bool {
    &&& r is Ok
    &&& !r->Ok_0.split
    &&& exists|sep: Seq<u8>| #[trigger] parent_split_result(p0, pf, root, rv, sep)
}

/// What such a tree's root reads as.
proof fn lemma_pls_facts(p: Pager, root: PageId, r: RecordView)
    requires
        parent_leaf_splits(p, root, r),
    ensures
        p.cached().contains_key(root),
        p.read_result(root) == Ok::<Seq<u8>, ErrorView>(p.cached()[root].0),
        spec_page_header(p.cached()[root].0) is Ok,
        header_of(p.cached()[root].0).page_type == PageType::Interior,
        forall|j: int| 0 <= j < header_of(p.cached()[root].0).cell_count ==> #[trigger] interior_cell_at(p.cached()[root].0, j) is Ok,
        root_leaf_splits(p, scan(icells(p.cached()[root].0), header_of(p.cached()[root].0).right_child, r.key), r),
        header_of(p.read_result(scan(icells(p.cached()[root].0), header_of(p.cached()[root].0).right_child, r.key))->Ok_0).cell_count >= 1,
        leaf_child(p, root, scan(icells(p.cached()[root].0), header_of(p.cached()[root].0).right_child, r.key)),
        root <= p.hdr().page_count,
{
    reveal(parent_leaf_splits);
    let dp = p.cached()[root].0;
    let cs = icells(dp);
    let right = header_of(dp).right_child;
    lemma_route_index(cs, right, r.key);
    if route_index(cs, r.key) < cs.len() {
        assert(leaf_child(p, root, cs[route_index(cs, r.key)].1));
    }
}

/// What a finished split gives back.
proof fn lemma_split_ok(p0: Pager, p1: Pager, id: PageId, d: Seq<u8>, rv: RecordView, r: Result<InsertResult>)
    requires
        split_done(p0, p1, id, d, rv, r),
    ensures
        r is Ok,
        r->Ok_0.split,
        r->Ok_0.new_page_id == Some((p0.hdr().page_count + 1) as u32),
        r->Ok_0.separator_key is Some,
        split_key(d, rv, r->Ok_0.separator_key->Some_0@),
        header_of(d).cell_count >= 1 ==> key_lt(least_split_key(d, rv), r->Ok_0.separator_key->Some_0@),
{
    reveal(split_done);
}

/// What a finished split leaves in the pager.
proof fn lemma_split_pages(p0: Pager, p1: Pager, id: PageId, d: Seq<u8>, rv: RecordView, r: Result<InsertResult>)
    requires
        split_done(p0, p1, id, d, rv, r),
    ensures
        p1.cached().contains_key(id),
        p1.cached().contains_key((p0.hdr().page_count + 1) as u32),
        p1.read_result(id) == Ok::<Seq<u8>, ErrorView>(p1.cached()[id].0),
        p1.read_result((p0.hdr().page_count + 1) as u32) == Ok::<Seq<u8>, ErrorView>(p1.cached()[(p0.hdr().page_count + 1) as u32].0),
        leaf_wf(p1.cached()[id].0),
        leaf_wf(p1.cached()[(p0.hdr().page_count + 1) as u32].0),
        forall|k: Seq<u8>| key_lt(k, r->Ok_0.separator_key->Some_0@) ==> #[trigger] leaf_lookup(p1.cached()[id].0, k) == lookup_with(d, rv, k),
        forall|k: Seq<u8>| !key_lt(k, r->Ok_0.separator_key->Some_0@) ==> #[trigger] leaf_lookup(p1.cached()[(p0.hdr().page_count + 1) as u32].0, k) == lookup_with(d, rv, k),
        forall|q: PageId| q != id && q != (p0.hdr().page_count + 1) as u32 && p0.cached().contains_key(q) ==> #[trigger] p1.cached().contains_key(q)
            && p1.cached()[q] == p0.cached()[q],
{
    reveal(split_done);
}

/// After the leaf under the root split and the root took the separator, the
/// root and the two leaves hold what `parent_split_result` says.
#[verifier::spinoff_prover]
#[verifier::rlimit(60)]
proof fn lemma_parent_branch(p0: Pager, p1: Pager, p2: Pager, p3: Pager, root: PageId, rv: RecordView, res: InsertResult)
    requires
        parent_leaf_splits(p0, root, rv),
        p1.cached() == p0.cached(),
        p1.hdr() == p0.hdr(),
        p1.psize() == p0.psize(),
        forall|q: PageId| #[trigger] p1.read_result(q) == p0.read_result(q),
        split_done(p1, p2, scan(icells(p0.cached()[root].0), header_of(p0.cached()[root].0).right_child, rv.key),
            p1.read_result(scan(icells(p0.cached()[root].0), header_of(p0.cached()[root].0).right_child, rv.key))->Ok_0,
            rv, Ok::<InsertResult, Error>(res)),
        p3.cached().contains_key(root),
        interior_page_holds(p3.cached()[root].0,
            parent_cells(icells(p0.cached()[root].0), route_index(icells(p0.cached()[root].0), rv.key), res.separator_key->Some_0@,
                scan(icells(p0.cached()[root].0), header_of(p0.cached()[root].0).right_child, rv.key), res.new_page_id->Some_0),
            parent_right(icells(p0.cached()[root].0), header_of(p0.cached()[root].0).right_child,
                route_index(icells(p0.cached()[root].0), rv.key), res.new_page_id->Some_0)),
        forall|q: PageId| q != root && p2.cached().contains_key(q) ==> #[trigger] p3.cached()[q] == p2.cached()[q],
        pager_kept(p2, p3),
    ensures
        parent_split_result(p0, p3, root, rv, res.separator_key->Some_0@),
{
    let sep = res.separator_key->Some_0@;
    let dp = p0.cached()[root].0;
    let cs = icells(dp);
    let right = header_of(dp).right_child;
    let child = scan(cs, right, rv.key);
    let n = (p0.hdr().page_count + 1) as u32;
    lemma_pls_facts(p0, root, rv);
    lemma_split_ok(p1, p2, child, p1.read_result(child)->Ok_0, rv, Ok::<InsertResult, Error>(res));
    lemma_split_pages(p1, p2, child, p1.read_result(child)->Ok_0, rv, Ok::<InsertResult, Error>(res));
    lemma_split_key_routed(p0, root, rv, sep);
    lemma_route_index(cs, right, rv.key);
    assert(p1.read_result(child) == Ok::<Seq<u8>, ErrorView>(p0.cached()[child].0));
    assert(p3.cached()[child] == p2.cached()[child]);
    assert(p3.cached()[n] == p2.cached()[n]);
    assert forall|q: PageId| q != root && q != child && q != n && p0.cached().contains_key(q) implies #[trigger] p3.cached().contains_key(q)
        && p3.cached()[q] == p0.cached()[q] by {
        assert(p2.cached().contains_key(q) && p2.cached()[q] == p1.cached()[q]);
    }
}

/// A key of the leaf or the record is routed to the leaf.
proof fn lemma_split_key_routed(p: Pager, root: PageId, r: RecordView, t: Seq<u8>)
    requires
        parent_leaf_splits(p, root, r),
        split_key(p.read_result(scan(icells(p.cached()[root].0), header_of(p.cached()[root].0).right_child, r.key))->Ok_0, r, t),
    ensures
        routed_at(icells(p.cached()[root].0), route_index(icells(p.cached()[root].0), r.key), t),
        scan(icells(p.cached()[root].0), header_of(p.cached()[root].0).right_child, t)
            == scan(icells(p.cached()[root].0), header_of(p.cached()[root].0).right_child, r.key),
{
    reveal(parent_leaf_splits);
    let dp = p.cached()[root].0;
    let cs = icells(dp);
    let right = header_of(dp).right_child;
    let child = scan(cs, right, r.key);
    let dl = p.read_result(child)->Ok_0;
    if t != r.key {
        let j = choose|j: int| 0 <= j < header_of(dl).cell_count && #[trigger] leaf_records(dl)[j].key == t;
        assert(scan(cs, right, leaf_records(dl)[j].key) == child);
    }
    lemma_same_route(cs, right, t, r.key);
    lemma_route_index(cs, right, t);
}

/// The root of such a tree can take the separator of the leaf's split.
proof fn lemma_parent_takes(p: Pager, root: PageId, r: RecordView, sep: Seq<u8>)
    requires
        parent_leaf_splits(p, root, r),
        split_key(p.read_result(scan(icells(p.cached()[root].0), header_of(p.cached()[root].0).right_child, r.key))->Ok_0, r, sep),
        key_lt(least_split_key(p.read_result(scan(icells(p.cached()[root].0), header_of(p.cached()[root].0).right_child, r.key))->Ok_0, r), sep),
        sep.len() <= u64::MAX,
    ensures
        parent_takes(p.cached()[root].0, route_index(icells(p.cached()[root].0), r.key), sep,
            scan(icells(p.cached()[root].0), header_of(p.cached()[root].0).right_child, r.key),
            (p.hdr().page_count + 1) as u32),
{
    reveal(parent_leaf_splits);
    reveal(parent_takes);
    let dp = p.cached()[root].0;
    let cs = icells(dp);
    let right = header_of(dp).right_child;
    let child = scan(cs, right, r.key);
    let dl = p.read_result(child)->Ok_0;
    let i = route_index(cs, r.key);
    let t = least_split_key(dl, r);
    lemma_route_index(cs, right, r.key);
    lemma_split_key_routed(p, root, r, sep);
    assert(split_key(dl, r, t)) by {
        if t != r.key {
            assert(leaf_records(dl)[0].key == t);
        }
    }
    lemma_split_key_routed(p, root, r, t);
    if i > 0 {
        lemma_scan_first_none(cs.take(i), t);
        assert(cs.take(i)[i - 1] == cs[i - 1]);
        assert(!key_lt(t, cs[i - 1].0));
        lemma_key_lt_total(cs[i - 1].0, t);
        if key_lt(cs[i - 1].0, t) {
            lemma_key_lt_transitive(cs[i - 1].0, t, sep);
        }
    }
    if i < cs.len() {
        assert(interior_cell_at(dp, i) is Ok);
        assert(cs[i].0.len() <= dp.len());
    }
}

/// When inserting a record splits a leaf `depth + 1` levels below `g`, and
/// the page above that leaf takes the separator (see `parent_leaf_splits`):
/// each interior page on the key's path down to that page is cached, reads
/// with cells, and is none of the pages the split writes (see `touched`);
/// and every other child of such a page roots a subtree as deep as the
/// key's, cached, well formed and apart from those pages.
#[verifier::opaque]
pub open spec fn nested_leaf_splits(p: Pager, g: PageId, r: RecordView, depth: nat) -> bool
    decreases depth,
{
    if depth == 0 {
        parent_leaf_splits(p, g, r)
    } else {
        let m = p.cached();
        let d = m[g].0;
        let count = header_of(d).cell_count;
        let c = route(m, g, r.key);
        let s = touched(m, p.hdr().page_count, c, r.key, (depth - 1) as nat);
        &&& m.contains_key(g)
        &&& spec_page_header(d) is Ok
        &&& header_of(d).page_type != PageType::Leaf
        &&& forall|j: int| 0 <= j < count ==> #[trigger] interior_cell_at(d, j) is Ok
        &&& !s.contains(g)
        &&& nested_leaf_splits(p, c, r, (depth - 1) as nat)
        &&& forall|j: int| #![trigger icells(d)[j]] 0 <= j < count && icells(d)[j].1 != c
            ==> subtree_outside(m, icells(d)[j].1, s, depth + 1)
        &&& header_of(d).right_child != c ==> subtree_outside(m, header_of(d).right_child, s, depth + 1)
    }
}

/// At depth zero, `nested_leaf_splits` is `parent_leaf_splits`.
proof fn lemma_nested_zero(p: Pager, g: PageId, r: RecordView)
    ensures
        nested_leaf_splits(p, g, r, 0) == parent_leaf_splits(p, g, r),
{
    reveal(nested_leaf_splits);
}

/// What `nested_leaf_splits` says of the page `g` above depth zero.
proof fn lemma_nested_unfold(p: Pager, g: PageId, r: RecordView, depth: nat)
    requires
        depth > 0,
        nested_leaf_splits(p, g, r, depth),
    ensures
        p.cached().contains_key(g),
        spec_page_header(p.cached()[g].0) is Ok,
        header_of(p.cached()[g].0).page_type != PageType::Leaf,
        forall|j: int| 0 <= j < header_of(p.cached()[g].0).cell_count ==> #[trigger] interior_cell_at(p.cached()[g].0, j) is Ok,
        !touched(p.cached(), p.hdr().page_count, route(p.cached(), g, r.key), r.key, (depth - 1) as nat).contains(g),
        nested_leaf_splits(p, route(p.cached(), g, r.key), r, (depth - 1) as nat),
        forall|j: int| #![trigger icells(p.cached()[g].0)[j]] 0 <= j < header_of(p.cached()[g].0).cell_count
            && icells(p.cached()[g].0)[j].1 != route(p.cached(), g, r.key)
            ==> subtree_outside(p.cached(), icells(p.cached()[g].0)[j].1,
                touched(p.cached(), p.hdr().page_count, route(p.cached(), g, r.key), r.key, (depth - 1) as nat), depth + 1),
        header_of(p.cached()[g].0).right_child != route(p.cached(), g, r.key)
            ==> subtree_outside(p.cached(), header_of(p.cached()[g].0).right_child,
                touched(p.cached(), p.hdr().page_count, route(p.cached(), g, r.key), r.key, (depth - 1) as nat), depth + 1),
{
    reveal(nested_leaf_splits);
}

/// The two-level case: the page above the leaf took the separator.
#[verifier::spinoff_prover]
#[verifier::rlimit(40)]
proof fn lemma_nested_base(p0: Pager, pf: Pager, g: PageId, rv: RecordView, r: Result<InsertResult>)
    requires
        parent_leaf_splits(p0, g, rv),
        parent_done(p0, pf, g, rv, r),
    ensures
        r is Ok,
        !r->Ok_0.split,
        searches_kept(p0, pf, g, rv, 0),
{
    reveal(parent_done);
    let sep = choose|sep: Seq<u8>| #[trigger] parent_split_result(p0, pf, g, rv, sep);
    lemma_parent_law(p0, pf, g, rv, sep);
    let m0 = p0.cached();
    let dp = m0[g].0;
    let child = scan(icells(dp), header_of(dp).right_child, rv.key);
    let n = (p0.hdr().page_count + 1) as u32;
    assert(split_site(m0, g, rv.key, 0) == g);
    let s = touched(m0, p0.hdr().page_count, g, rv.key, 0);
    assert(s == set![g, child, n]);
    assert forall|k: Seq<u8>| #[trigger] reaches_leaves(reader(p0), reader(pf), g, k, 0) by {
        assert(descend(reader(pf), g, k, 2) matches Some(Ok(_)));
    }
    assert forall|q: PageId| !s.contains(q) && m0.contains_key(q) implies #[trigger] pf.cached().contains_key(q)
        && pf.cached()[q].0 == m0[q].0 by {
        assert(q != g && q != child && q != n);
    }
    lemma_kept_intro(p0, pf, g, rv, 0);
}

/// The page on the key's path above the page that took the separator,
/// written back with its own bytes after the insert below it: searches from
/// it keep what `searches_kept` says.
#[verifier::spinoff_prover]
#[verifier::rlimit(40)]
proof fn lemma_nested_up(p0: Pager, p2: Pager, pf: Pager, g: PageId, rv: RecordView, depth: nat, res: InsertResult)
    requires
        depth > 0,
        nested_leaf_splits(p0, g, rv, depth),
        depth == 1 ==> parent_done(p0, p2, route(p0.cached(), g, rv.key), rv, Ok::<InsertResult, Error>(res)),
        depth > 1 ==> searches_kept(p0, p2, route(p0.cached(), g, rv.key), rv, (depth - 1) as nat),
        pager_kept(p0, p2),
        reads_kept_but(p2, pf, g),
        forall|q: PageId| #[trigger] pf.cached().contains_key(q) <==> p2.cached().contains_key(q),
        forall|q: PageId| q != g ==> #[trigger] pf.cached()[q] == p2.cached()[q],
        pf.cached().contains_key(g),
        pf.cached()[g].0 == p0.cached()[g].0,
    ensures
        searches_kept(p0, pf, g, rv, depth),
{
    let c = route(p0.cached(), g, rv.key);
    let m1 = (depth - 1) as nat;
    lemma_nested_unfold(p0, g, rv, depth);
    if depth == 1 {
        lemma_nested_zero(p0, c, rv);
        lemma_nested_base(p0, p2, c, rv, Ok::<InsertResult, Error>(res));
    }
    lemma_kept_frame(p0, p2, c, rv, m1);
    assert(p2.cached().contains_key(g));
    assert(p2.cached()[g].0 == p0.cached()[g].0);
    assert forall|q: PageId| #[trigger] p2.read_result(q) is Ok implies pf.read_result(q) == p2.read_result(q) by {
        reveal(reads_kept_but);
        if q == g {
            assert(p2.read_result(g) == Ok::<Seq<u8>, ErrorView>(p2.cached()[g].0));
            assert(pf.read_result(g) == Ok::<Seq<u8>, ErrorView>(pf.cached()[g].0));
        }
    }
    lemma_nested_step(p0, p2, pf, g, rv, depth);
}

/// Recursive insert with split propagation
#[verifier::spinoff_prover]
#[verifier::rlimit(100)]
fn insert_recursive(pager: &mut Pager, page_id: PageId, record: Record, Ghost(fuel): Ghost<nat>, Ghost(depth): Ghost<nat>)
    -> (r: Result<InsertResult>)
    requires
        old(pager).wf(),
        old(pager).psize() >= 64,
        descend(reader(*old(pager)), page_id, record.key@, fuel) is Some,
    ensures
        pager_kept(*old(pager), *final(pager)),
        r matches Ok(res) ==> (res.split ==> res.new_page_id is Some && res.separator_key is Some),
        room_at_leaf(reader(*old(pager)), page_id, record@, fuel) ==> {
            let leaf = reached_leaf(reader(*old(pager)), page_id, record@.key, fuel);
            &&& r matches Ok(res) && !res.split
            &&& leaf_found(*final(pager), leaf, record@)
            &&& reads_kept_but(*old(pager), *final(pager), leaf)
            &&& lookups_kept_but(old(pager).read_result(leaf)->Ok_0, final(pager).read_result(leaf)->Ok_0, record@.key)
        },
        root_leaf_splits(*old(pager), page_id, record@) ==> split_done(*old(pager), *final(pager), page_id,
            old(pager).read_result(page_id)->Ok_0, record@, r),
        parent_leaf_splits(*old(pager), page_id, record@) ==> parent_done(*old(pager), *final(pager), page_id, record@, r),
        depth > 0 && nested_leaf_splits(*old(pager), page_id, record@, depth) ==> {
            &&& r matches Ok(res) && !res.split
            &&& searches_kept(*old(pager), *final(pager), page_id, record@, depth)
        },
    decreases fuel,
{
    let ghost rd = reader(*pager);
    let ghost rv = record@;
    let ghost p0 = *pager;
    let ghost nested = depth > 0 && nested_leaf_splits(p0, page_id, rv, depth);
    proof {
        if nested {
            lemma_nested_unfold(p0, page_id, rv, depth);
            lemma_child_for_scan(p0.cached()[page_id].0, rv.key);
        }
    }
    assert(rd(page_id) == pager.read_result(page_id));
    proof {
        if parent_leaf_splits(p0, page_id, rv) {
            lemma_pls_facts(p0, page_id, rv);
        }
    }
    proof {
        if room_at_leaf(rd, page_id, rv, fuel) {
            lemma_room_at_page(rd, page_id, rv, fuel);
        }
    }
    let page = match pager.read_page(page_id) {
        Ok(p) => p,
        Err(e) => {
            return Err(e);
        },
    };
    let node = BTreeNode::from_page(page);
    let is_leaf = match node.is_leaf() {
        Ok(b) => b,
        Err(e) => {
            return Err(e);
        },
    };
    if is_leaf {
        proof {
            if room_at_leaf(rd, page_id, rv, fuel) {
                lemma_room_at_page(rd, page_id, rv, fuel);
            }
        }
        let ghost p1 = *pager;
        let ghost d1 = node.bytes();
        let ghost id1 = node.spec_page().id;
        proof {
            if nested {
                assert(d1 == p0.cached()[page_id].0);
            }
            if root_leaf_splits(p0, page_id, rv) {
                assert(d1 == p0.read_result(page_id)->Ok_0);
                assert(leaf_split_fits(p1, d1, rv));
            }
        }
        let r = insert_into_leaf(pager, node, record);
        proof {
            if room_at_leaf(rd, page_id, rv, fuel) {
                lemma_reads_kept_before(p0, p1, *pager, page_id);
            }
            if root_leaf_splits(p0, page_id, rv) {
                reveal(split_done);
                assert(split_done(p1, *pager, id1, d1, rv, r));
            }
        }
        return r;
    }
    let ghost d_node = node.bytes();
    proof {
        if parent_leaf_splits(p0, page_id, rv) {
            assert(d_node == p0.cached()[page_id].0);
            lemma_child_for_scan(d_node, rv.key);
        }
    }
    let child_id = match find_child_page(&node, record.key.as_slice()) {
        Ok(c) => c,
        Err(e) => {
            return Err(e);
        },
    };
    let ghost p1 = *pager;
    proof {
        assert(reader(*pager) =~= rd);
        if parent_leaf_splits(p0, page_id, rv) {
            assert(p1.cached() == p0.cached());
            assert(root_leaf_splits(p1, child_id, rv));
        }
        if room_at_leaf(rd, page_id, rv, fuel) {
            lemma_room_at_child(rd, page_id, d_node, child_id, rv, fuel);
        }
    }
    proof {
        if nested {
            assert(d_node == p0.cached()[page_id].0);
            assert(p1 == p0);
            if depth == 1 {
                lemma_nested_zero(p0, child_id, rv);
            }
        }
    }
    let child_result = match insert_recursive(pager, child_id, record, Ghost((fuel - 1) as nat), Ghost((depth - 1) as nat)) {
        Ok(res) => res,
        Err(e) => {
            proof {
                if nested && depth == 1 {
                    reveal(parent_done);
                }
                if parent_leaf_splits(p0, page_id, rv) {
                    lemma_split_ok(p1, *pager, child_id, p1.read_result(child_id)->Ok_0, rv, Err::<InsertResult, Error>(e));
                }
            }
            return Err(e);
        },
    };
    if child_result.split {
        proof {
            if nested && depth == 1 {
                reveal(parent_done);
            }
        }
        let ghost p2 = *pager;
        let ghost pls = parent_leaf_splits(p0, page_id, rv);
        let ghost gi = route_index(icells(d_node), rv.key);
        let ghost cres = child_result;
        proof {
            if pls {
                lemma_split_ok(p1, p2, child_id, p1.read_result(child_id)->Ok_0, rv, Ok::<InsertResult, Error>(child_result));
                lemma_parent_takes(p0, page_id, rv, child_result.separator_key->Some_0@);
            }
        }
        let r = handle_child_split(pager, node, child_id, child_result, Ghost(gi));
        proof {
            if pls {
                reveal(parent_done);
                lemma_parent_branch(p0, p1, p2, *pager, page_id, rv, cres);
            }
        }
        r
    } else {
        proof {
            if parent_leaf_splits(p0, page_id, rv) {
                lemma_split_ok(p1, *pager, child_id, p1.read_result(child_id)->Ok_0, rv, Ok::<InsertResult, Error>(child_result));
            }
        }
        let ghost p2 = *pager;
        match write_node(pager, node) {
            Ok(()) => {},
            Err(e) => {
                return Err(e);
            },
        }
        proof {
            if room_at_leaf(rd, page_id, rv, fuel) {
                assert(pager.read_result(page_id) == Ok::<Seq<u8>, ErrorView>(d_node));
                lemma_interior_frame(p0, p1, p2, *pager, page_id, d_node, child_id, rv, fuel);
            }
            if nested {
                lemma_nested_up(p0, p2, *pager, page_id, rv, depth, child_result);
            }
        }
        Ok(InsertResult::no_split())
    }
}

/// From an interior page, the descent goes on from the child for the key,
/// one level less deep, to the same leaf.
proof fn lemma_room_at_child(rd: PageReader, pid: PageId, d: Seq<u8>, child: PageId, r: RecordView, fuel: nat)
    requires
        room_at_leaf(rd, pid, r, fuel),
        rd(pid) == Ok::<Seq<u8>, ErrorView>(d),
        spec_page_header(d) is Ok,
        spec_page_header(d)->Ok_0.page_type != PageType::Leaf,
        child_for(d, r.key) == Ok::<PageId, ErrorView>(child),
    ensures
        fuel > 0,
        room_at_leaf(rd, child, r, (fuel - 1) as nat),
        reached_leaf(rd, child, r.key, (fuel - 1) as nat) == reached_leaf(rd, pid, r.key, fuel),
        reached_leaf(rd, pid, r.key, fuel) != pid,
{
    reveal(room_at_leaf);
    assert(descend(rd, pid, r.key, fuel) == descend(rd, child, r.key, (fuel - 1) as nat));
}

/// After the insert below an interior page succeeds without a split and the
/// page is written back unchanged, the record is found in the leaf that
/// the descent reached, and every other page that read well reads the same.
proof fn lemma_interior_frame(
    p0: Pager,
    p1: Pager,
    p2: Pager,
    p3: Pager,
    pid: PageId,
    d: Seq<u8>,
    child: PageId,
    r: RecordView,
    fuel: nat,
)
    requires
        room_at_leaf(reader(p0), pid, r, fuel),
        reader(p0)(pid) == Ok::<Seq<u8>, ErrorView>(d),
        spec_page_header(d) is Ok,
        spec_page_header(d)->Ok_0.page_type != PageType::Leaf,
        child_for(d, r.key) == Ok::<PageId, ErrorView>(child),
        forall|q: PageId| #[trigger] p1.read_result(q) == p0.read_result(q),
        reader(p1) == reader(p0),
        leaf_found(p2, reached_leaf(reader(p1), child, r.key, (fuel - 1) as nat), r),
        reads_kept_but(p1, p2, reached_leaf(reader(p1), child, r.key, (fuel - 1) as nat)),
        lookups_kept_but(
            p1.read_result(reached_leaf(reader(p1), child, r.key, (fuel - 1) as nat))->Ok_0,
            p2.read_result(reached_leaf(reader(p1), child, r.key, (fuel - 1) as nat))->Ok_0,
            r.key,
        ),
        p3.read_result(pid) == Ok::<Seq<u8>, ErrorView>(d),
        reads_kept_but(p2, p3, pid),
    ensures
        leaf_found(p3, reached_leaf(reader(p0), pid, r.key, fuel), r),
        reads_kept_but(p0, p3, reached_leaf(reader(p0), pid, r.key, fuel)),
        lookups_kept_but(
            p0.read_result(reached_leaf(reader(p0), pid, r.key, fuel))->Ok_0,
            p3.read_result(reached_leaf(reader(p0), pid, r.key, fuel))->Ok_0,
            r.key,
        ),
{
    reveal(leaf_found);
    reveal(reads_kept_but);
    lemma_room_at_child(reader(p0), pid, d, child, r, fuel);
    let leaf = reached_leaf(reader(p0), pid, r.key, fuel);
    assert(p2.read_result(leaf) is Ok);
    assert(p3.read_result(leaf) == p2.read_result(leaf));
    assert(p1.read_result(leaf) == p0.read_result(leaf));
    assert forall|q: PageId| q != leaf && #[trigger] p0.read_result(q) is Ok implies p3.read_result(q) == p0.read_result(q) by {
        assert(p1.read_result(q) == p0.read_result(q));
        if q != pid {
            assert(p2.read_result(q) == p0.read_result(q));
        }
    }
}

/// The descent for a record's key from `pid`, within `fuel` levels, reaches
/// a well-formed leaf with room for the record.
#[verifier::opaque]
pub open spec fn room_at_leaf(rd: PageReader, pid: PageId, r: RecordView, fuel: nat) -> bool {
    &&& descend(rd, pid, r.key, fuel) matches Some(Ok(leaf))
    &&& rd(leaf) matches Ok(d)
    &&& leaf_wf(d)
    &&& record_encodable(r)
    &&& leaf_room(d, r)
}

/// The leaf that the descent for `key` from `pid` reaches within `fuel`.
pub open spec fn reached_leaf(rd: PageReader, pid: PageId, key: Seq<u8>, fuel: nat) -> PageId {
    descend(rd, pid, key, fuel)->Some_0->Ok_0
}

/// The page `pid` reads as a well-formed leaf in which looking up the key
/// of `r` finds `r`.
#[verifier::opaque]
pub open spec fn leaf_found(p: Pager, pid: PageId, r: RecordView) -> bool {
    &&& reader(p)(pid) is Ok
    &&& leaf_wf(reader(p)(pid)->Ok_0)
    &&& leaf_lookup(reader(p)(pid)->Ok_0, r.key) == Ok::<RecordView, ErrorView>(r)
}

/// Insert into a leaf node, splitting it when it is full; a cell with the
/// same key is replaced
#[verifier::rlimit(40)]
fn insert_into_leaf(pager: &mut Pager, node: BTreeNode, record: Record) -> (r: Result<InsertResult>)
    requires
        old(pager).wf(),
        old(pager).psize() >= 64,
        old(pager).cached().contains_key(node.spec_page().id),
        node.bytes().len() <= old(pager).psize(),
    ensures
        pager_kept(*old(pager), *final(pager)),
        r matches Ok(res) ==> (res.split ==> res.new_page_id is Some && res.separator_key is Some),
        leaf_wf(node.bytes()) && record_encodable(record@) && (r matches Ok(res) && !res.split)
            ==> leaf_found(*final(pager), node.spec_page().id, record@),
        leaf_wf(node.bytes()) && record_encodable(record@) && leaf_room(node.bytes(), record@) ==> {
            &&& r matches Ok(res) && !res.split
            &&& reads_kept_but(*old(pager), *final(pager), node.spec_page().id)
            &&& lookups_kept_but(node.bytes(), final(pager).read_result(node.spec_page().id)->Ok_0, record@.key)
        },
        leaf_split_fits(*old(pager), node.bytes(), record@) && !leaf_room(node.bytes(), record@)
            && node.spec_page().id <= old(pager).hdr().page_count
            ==> split_done(*old(pager), *final(pager), node.spec_page().id, node.bytes(), record@, r),
{
    let ghost d0 = node.bytes();
    let ghost rv = record@;
    let ghost mut cur = d0;
    let mut node = node;
    let key = vstd::slice::slice_to_vec(record.key.as_slice());
    let cell = LeafCell { key, record };
    let cell_size = cell.serialize().len();
    proof {
        if leaf_split_fits(*pager, d0, rv) {
            let half = split_half(header_of(d0).cell_count as nat);
            let b = record_bytes(rv).len() as int;
            assert(b + 18 <= pager.psize()) by (nonlinear_arith)
                requires
                    1 <= half,
                    half * (b + 2) + 16 <= pager.psize(),
                    b >= 0,
            ;
        }
    }
    if cell_size > usize::MAX - 2 {
        return Err(Error::BTreeError(string_of("Cell does not fit in page")));
    }
    let has_space = match node.has_space_for_cell(cell_size) {
        Ok(b) => b,
        Err(e) => {
            return Err(e);
        },
    };
    if !has_space {
        return split_leaf_and_insert(pager, node, cell);
    }
    let insert_index = match node.find_cell_index(cell.key.as_slice()) {
        Ok(i) => i,
        Err(e) => {
            return Err(e);
        },
    };
    let cell_count = match node.cell_count() {
        Ok(n) => n,
        Err(e) => {
            return Err(e);
        },
    };
    // The cells before `insert_index` hold smaller keys and those from it on
    // larger ones, once a cell with the same key is gone.
    let ghost mut placed = false;
    let ghost mut replaced = false;
    proof {
        if leaf_wf(d0) && record_encodable(rv) {
            assert(cell.key@ == rv.key);
            assert(lower_bound_ok(cell_keys(d0, true), rv.key, insert_index as int));
            assert(12 + 2 * (header_of(d0).cell_count + 1) + record_bytes(rv).len() <= header_of(d0).cell_content_offset);
            if insert_index >= cell_count {
                placed = true;
            }
        }
    }
    if insert_index < cell_count {
        let existing_cell = match node.get_leaf_cell(insert_index) {
            Ok(c) => c,
            Err(e) => {
                return Err(e);
            },
        };
        let same = bytes_eq(existing_cell.key.as_slice(), cell.key.as_slice());
        proof {
            if leaf_wf(d0) && record_encodable(rv) {
                assert(cell_key_at(d0, true, insert_index as int) is Ok);
                if !same {
                    placed = true;
                }
            }
        }
        if same {
            match node.delete_cell(insert_index) {
                Ok(()) => {},
                Err(e) => {
                    return Err(e);
                },
            }
            proof {
                if leaf_wf(d0) && record_encodable(rv) {
                    lemma_leaf_replace(d0, insert_index as int, rv);
                    cur = after_delete_cell(d0, insert_index as int);
                    placed = true;
                    replaced = true;
                }
            }
        }
    }
    proof {
        if placed {
            assert(leaf_slot(cur, insert_index as int, rv));
        }
    }
    let data = cell.serialize();
    match cell_fits(&node, data.len()) {
        Ok(true) => {},
        Ok(false) => {
            return Err(Error::BTreeError(string_of("Cell does not fit in page")));
        },
        Err(e) => {
            return Err(e);
        },
    }
    let ghost d2 = node.bytes();
    match node.insert_leaf_cell(insert_index, &cell) {
        Ok(()) => {},
        Err(e) => {
            return Err(e);
        },
    }
    proof {
        if placed && d2 == cur {
            lemma_leaf_place(cur, insert_index as int, rv);
            if replaced {
                lemma_lookups_kept_trans(d0, cur, node.bytes(), rv.key);
            }
        }
    }
    match write_node(pager, node) {
        Ok(()) => {},
        Err(e) => {
            return Err(e);
        },
    }
    proof {
        reveal(leaf_found);
    }
    Ok(InsertResult::no_split())
}

/// The leaf cells of a node, in order.
fn leaf_cells(node: &BTreeNode) -> (r: Result<Vec<LeafCell>>)
    ensures
        match spec_page_header(node.bytes()) {
            Err(m) => r matches Err(e) && e@ == ErrorView::InvalidPage(m),
            Ok(h) => {
                &&& (forall|i: int| 0 <= i < h.cell_count ==> #[trigger] leaf_cell_at(node.bytes(), i) is Ok) ==> r is Ok
                &&& r matches Ok(v) ==> {
                    &&& v@.len() == h.cell_count
                    &&& forall|i: int| 0 <= i < v@.len() ==> Ok::<RecordView, ErrorView>(#[trigger] v@[i].record@)
                        == leaf_cell_at(node.bytes(), i) && v@[i].key@ == v@[i].record@.key
                }
                &&& r matches Err(e) ==> exists|i: int| 0 <= i < h.cell_count
                    && #[trigger] leaf_cell_at(node.bytes(), i) == Err::<RecordView, ErrorView>(e@)
            },
        },
{
    let cell_count = match node.cell_count() {
        Ok(n) => n,
        Err(e) => {
            return Err(e);
        },
    };
    let mut cells: Vec<LeafCell> = Vec::new();
    let mut i: u16 = 0;
    while i < cell_count
        invariant
            i <= cell_count,
            spec_page_header(node.bytes()) is Ok,
            cell_count == spec_page_header(node.bytes())->Ok_0.cell_count,
            cells@.len() == i,
            forall|j: int| 0 <= j < i ==> Ok::<RecordView, ErrorView>(#[trigger] cells@[j].record@)
                == leaf_cell_at(node.bytes(), j) && cells@[j].key@ == cells@[j].record@.key,
        decreases cell_count - i,
    {
        match node.get_leaf_cell(i) {
            Ok(c) => cells.push(c),
            Err(e) => {
                return Err(e);
            },
        }
        i = i + 1;
    }
    Ok(cells)
}

/// The interior cells of a node, in order.
fn interior_cells(node: &BTreeNode) -> (r: Result<Vec<InteriorCell>>)
    ensures
        match spec_page_header(node.bytes()) {
            Err(m) => r matches Err(e) && e@ == ErrorView::InvalidPage(m),
            Ok(h) => {
                &&& (forall|i: int| 0 <= i < h.cell_count ==> #[trigger] interior_cell_at(node.bytes(), i) is Ok) ==> r is Ok
                &&& r matches Ok(v) ==> {
                    &&& v@.len() == h.cell_count
                    &&& forall|i: int| 0 <= i < v@.len() ==> Ok::<(Seq<u8>, u32), ErrorView>(
                        ((#[trigger] v@[i]).key@, v@[i].left_child)) == interior_cell_at(node.bytes(), i)
                }
                &&& r matches Err(e) ==> exists|i: int| 0 <= i < h.cell_count
                    && #[trigger] interior_cell_at(node.bytes(), i) == Err::<(Seq<u8>, u32), ErrorView>(e@)
            },
        },
{
    let cell_count = match node.cell_count() {
        Ok(n) => n,
        Err(e) => {
            return Err(e);
        },
    };
    let mut cells: Vec<InteriorCell> = Vec::new();
    let mut i: u16 = 0;
    while i < cell_count
        invariant
            i <= cell_count,
            spec_page_header(node.bytes()) is Ok,
            cell_count == spec_page_header(node.bytes())->Ok_0.cell_count,
            cells@.len() == i,
            forall|j: int| 0 <= j < i ==> Ok::<(Seq<u8>, u32), ErrorView>(((#[trigger] cells@[j]).key@, cells@[j].left_child))
                == interior_cell_at(node.bytes(), j),
        decreases cell_count - i,
    {
        match node.get_interior_cell(i) {
            Ok(c) => cells.push(c),
            Err(e) => {
                return Err(e);
            },
        }
        i = i + 1;
    }
    Ok(cells)
}

/// Split a leaf node: its cells and the new one, sorted, are shared between
/// it and a new leaf; the new leaf's first key separates them
#[verifier::spinoff_prover]
#[verifier::rlimit(100)]
fn split_leaf_and_insert(pager: &mut Pager, node: BTreeNode, new_cell: LeafCell) -> (r: Result<InsertResult>)
    requires
        old(pager).wf(),
        old(pager).psize() >= 64,
        old(pager).cached().contains_key(node.spec_page().id),
        node.bytes().len() <= old(pager).psize(),
    ensures
        pager_kept(*old(pager), *final(pager)),
        r matches Ok(res) ==> res.split && res.new_page_id is Some && res.separator_key is Some,
        leaf_split_fits(*old(pager), node.bytes(), new_cell.record@) && new_cell.key@ == new_cell.record@.key
            && node.spec_page().id <= old(pager).hdr().page_count ==> split_done(*old(pager), *final(pager),
                node.spec_page().id, node.bytes(), new_cell.record@, r),
{
    let ghost d = node.bytes();
    let ghost rv = new_cell.record@;
    let ghost fits = leaf_split_fits(*pager, d, rv) && new_cell.key@ == rv.key
        && node.spec_page().id <= pager.hdr().page_count;
    let ghost ps = pager.psize();
    let ghost node_id = node.spec_page().id;
    proof {
        if fits {
            lemma_leaf_holds_records(d);
        }
    }
    let mut node = node;
    let new_page = match allocate(pager, PageType::Leaf) {
        Ok(p) => p,
        Err(e) => {
            return Err(e);
        },
    };
    let new_page_id = new_page.id;
    let mut new_node = BTreeNode::from_page(new_page);
    let mut all_cells = match leaf_cells(&node) {
        Ok(c) => c,
        Err(e) => {
            return Err(e);
        },
    };
    let ghost old_cells = all_cells@;
    all_cells.push(new_cell);
    let ghost pushed = all_cells@;
    proof {
        if fits {
            lemma_pushed_cells(d, old_cells, pushed, new_cell);
        }
    }
    let all_cells = sort_leaf_cells(all_cells);
    let ghost rs = cell_records(all_cells@);
    let ghost mut pos: int = 0;
    let ghost half = split_half(header_of(d).cell_count as nat);
    proof {
        if fits {
            pos = choose|pos: int| 0 <= pos < pushed.len() && {
                &&& all_cells@ == pushed.drop_last().insert(pos, pushed.last())
                &&& forall|j: int| 0 <= j < pos ==> key_lt(#[trigger] pushed[j].key@, pushed.last().key@)
                &&& forall|j: int| pos <= j < pushed.len() - 1 ==> key_lt(pushed.last().key@, #[trigger] pushed[j].key@)
            };
            lemma_sorted_records(d, old_cells, pushed, all_cells@, pos, ps as int);
        }
    }
    let split_point = all_cells.len() / 2;
    let separator_key = vstd::slice::slice_to_vec(all_cells[split_point].key.as_slice());
    let page_size = pager.page_size();
    let ghost len0 = node.bytes().len();
    match node.page_mut().initialize(PageType::Leaf, page_size) {
        Ok(()) => {},
        Err(e) => {
            return Err(e);
        },
    }
    assert(node.bytes().len() == len0);
    proof {
        if fits {
            lemma_header_written(d, leaf_header(0, ps));
            lemma_empty_leaf_holds(node.bytes(), ps);
            lemma_fresh_leaf(ps);
            lemma_empty_leaf_holds(new_node.bytes(), ps);
        }
    }
    proof {
        if fits {
            assert(all_cells@.len() == header_of(d).cell_count + 1);
            assert(fill_fits(node.bytes(), all_cells@, 0, split_point as int, half));
            assert(fill_fits(new_node.bytes(), all_cells@, split_point as int, all_cells@.len() as int, half));
        }
    }
    match fill_leaf(&mut node, &all_cells, 0, split_point, Ghost(half)) {
        Ok(()) => {},
        Err(e) => {
            return Err(e);
        },
    }
    match fill_leaf(&mut new_node, &all_cells, split_point, all_cells.len(), Ghost(half)) {
        Ok(()) => {},
        Err(e) => {
            return Err(e);
        },
    }
    let ghost left = node.bytes();
    let ghost right = new_node.bytes();
    match write_node(pager, node) {
        Ok(()) => {},
        Err(e) => {
            return Err(e);
        },
    }
    match write_node(pager, new_node) {
        Ok(()) => {},
        Err(e) => {
            return Err(e);
        },
    }
    let r = Ok(InsertResult::with_split(new_page_id, separator_key));
    proof {
        reveal(split_done);
        if fits {
            assert(rs.subrange(0, split_point as int) =~= rs.take(split_point as int));
            assert(rs.subrange(split_point as int, rs.len() as int) =~= rs.skip(split_point as int));
            lemma_split_lookups(d, rv, pos, rs, split_point as int, left, right);
            lemma_separator_room(rs[split_point as int], half, ps as int);
            lemma_separator_key(d, rv, pos, rs, split_point as int);
            assert(pager.read_result(node_id) == Ok::<Seq<u8>, ErrorView>(left));
            assert(pager.read_result(new_page_id) == Ok::<Seq<u8>, ErrorView>(right));
        }
    }
    r
}

/// The separator is a key of the leaf or the new record, above the least of
/// them when the leaf had records.
proof fn lemma_separator_key(d: Seq<u8>, rv: RecordView, pos: int, rs: Seq<RecordView>, mid: int)
    requires
        leaf_wf(d),
        0 <= pos <= header_of(d).cell_count,
        rs == leaf_records(d).insert(pos, rv),
        keys_strictly_ascending(rs),
        mid == rs.len() / 2,
    ensures
        split_key(d, rv, rs[mid].key),
        header_of(d).cell_count >= 1 ==> key_lt(least_split_key(d, rv), rs[mid].key),
{
    let lr = leaf_records(d);
    if mid < pos {
        assert(rs[mid] == lr[mid]);
    } else if mid > pos {
        assert(rs[mid] == lr[mid - 1]);
    }
    if header_of(d).cell_count >= 1 {
        assert(mid >= 1);
        if pos == 0 {
            assert(rs[0] == rv);
            assert(rs[1] == lr[0]);
            assert(key_lt(rv.key, lr[0].key));
            lemma_key_lt_asymmetric(rv.key, lr[0].key);
        } else {
            assert(rs[0] == lr[0]);
            assert(rs[pos] == rv);
            assert(key_lt(lr[0].key, rv.key));
        }
        assert(least_split_key(d, rv) == rs[0].key);
    }
}

/// The interior cell of a record's key, whatever its child, leaves room
/// for an interior page's header and pointer when the record's cell, some
/// number of times over, fits with a few bytes to spare.
proof fn lemma_separator_room(r: RecordView, half: nat, ps: int)
    requires
        1 <= half,
        half * (record_bytes(r).len() + 2) + 16 <= ps,
    ensures
        forall|c: u32| #[trigger] interior_cell_bytes(r.key, c).len() + 14 <= ps,
{
    let b = record_bytes(r).len() as int;
    assert(b + 2 + 16 <= ps) by (nonlinear_arith)
        requires
            1 <= half,
            half * (b + 2) + 16 <= ps,
            b >= 0,
    ;
    assert forall|c: u32| #[trigger] interior_cell_bytes(r.key, c).len() + 14 <= ps by {
        assert(be32_bytes(c).len() == 4);
    }
}

/// The records of leaf cells, in order.
spec fn cell_records(cs: Seq<LeafCell>) -> Seq<RecordView> {
    Seq::new(cs.len(), |i: int| cs[i].record@)
}

/// The cells of a well-formed leaf with a cell of a new key pushed after
/// them ascend strictly but for that last one.
proof fn lemma_pushed_cells(d: Seq<u8>, old_cells: Seq<LeafCell>, pushed: Seq<LeafCell>, c: LeafCell)
    requires
        leaf_wf(d),
        old_cells.len() == header_of(d).cell_count,
        forall|i: int| 0 <= i < old_cells.len() ==> Ok::<RecordView, ErrorView>(#[trigger] old_cells[i].record@)
            == leaf_cell_at(d, i) && old_cells[i].key@ == old_cells[i].record@.key,
        pushed == old_cells.push(c),
        c.key@ == c.record@.key,
        forall|j: int| 0 <= j < header_of(d).cell_count ==> #[trigger] cell_keys(d, true)[j] != c.record@.key,
    ensures
        strict_then_new(pushed),
        leaf_cells_strict(old_cells),
        forall|i: int| 0 <= i < old_cells.len() ==> #[trigger] old_cells[i].record@ == leaf_records(d)[i],
{
    lemma_leaf_holds_records(d);
    assert(pushed.drop_last() =~= old_cells);
    assert forall|i: int| 0 <= i < old_cells.len() implies #[trigger] old_cells[i].record@ == leaf_records(d)[i] by {
        assert(leaf_cell_at(d, i) == Ok::<RecordView, ErrorView>(leaf_records(d)[i]));
    }
    assert forall|i: int, j: int| 0 <= i < j < old_cells.len() implies
        key_lt(#[trigger] old_cells[i].key@, #[trigger] old_cells[j].key@) by {
        assert(old_cells[i].record@ == leaf_records(d)[i]);
        assert(old_cells[j].record@ == leaf_records(d)[j]);
    }
    assert forall|j: int| 0 <= j < pushed.len() - 1 implies #[trigger] pushed[j].key@ != pushed.last().key@ by {
        assert(pushed[j] == old_cells[j]);
        assert(old_cells[j].record@ == leaf_records(d)[j]);
    }
}

/// The records of the sorted cells: the leaf's, with the new one at its
/// place, in strictly ascending order, each small enough for a split.
proof fn lemma_sorted_records(d: Seq<u8>, old_cells: Seq<LeafCell>, pushed: Seq<LeafCell>, sorted: Seq<LeafCell>, pos: int, ps: int)
    requires
        leaf_wf(d),
        old_cells.len() == header_of(d).cell_count,
        forall|i: int| 0 <= i < old_cells.len() ==> #[trigger] old_cells[i].record@ == leaf_records(d)[i],
        forall|i: int| 0 <= i < old_cells.len() ==> #[trigger] old_cells[i].key@ == old_cells[i].record@.key,
        pushed == old_cells.push(pushed.last()),
        pushed.last().key@ == pushed.last().record@.key,
        leaf_cells_strict(old_cells),
        0 <= pos < pushed.len(),
        sorted == pushed.drop_last().insert(pos, pushed.last()),
        forall|j: int| 0 <= j < pos ==> key_lt(#[trigger] pushed[j].key@, pushed.last().key@),
        forall|j: int| pos <= j < pushed.len() - 1 ==> key_lt(pushed.last().key@, #[trigger] pushed[j].key@),
        split_half(header_of(d).cell_count as nat) * (record_bytes(pushed.last().record@).len() + 2) + 16 <= ps,
        record_encodable(pushed.last().record@),
        forall|j: int| 0 <= j < header_of(d).cell_count ==> {
            &&& record_encodable(#[trigger] leaf_records(d)[j])
            &&& split_half(header_of(d).cell_count as nat) * (record_bytes(leaf_records(d)[j]).len() + 2) + 16 <= ps
        },
    ensures
        cell_records(sorted) == leaf_records(d).insert(pos, pushed.last().record@),
        keys_strictly_ascending(cell_records(sorted)),
        forall|j: int| 0 <= j < sorted.len() ==> (#[trigger] cell_records(sorted)[j]).key == sorted[j].key@,
        forall|j: int| 0 <= j < sorted.len() ==> {
            &&& split_half(header_of(d).cell_count as nat) * (record_bytes(#[trigger] cell_records(sorted)[j]).len() + 2) + 16 <= ps
            &&& record_encodable(cell_records(sorted)[j])
        },
{
    let rs = cell_records(sorted);
    let c = pushed.last();
    assert(pushed.drop_last() =~= old_cells);
    assert forall|j: int| 0 <= j < rs.len() implies (#[trigger] rs[j]).key == sorted[j].key@
        && rs[j] == leaf_records(d).insert(pos, c.record@)[j] by {
        if j < pos {
            assert(sorted[j] == old_cells[j]);
        } else if j > pos {
            assert(sorted[j] == old_cells[j - 1]);
        }
    }
    assert(rs =~= leaf_records(d).insert(pos, c.record@));
    assert forall|i: int, j: int| 0 <= i < j < rs.len() implies key_lt(#[trigger] rs[i].key, #[trigger] rs[j].key) by {
        if i < pos && j < pos {
            assert(key_lt(old_cells[i].key@, old_cells[j].key@));
        } else if i < pos && j > pos {
            assert(pushed[i] == old_cells[i]);
            assert(pushed[j - 1] == old_cells[j - 1]);
            lemma_key_lt_transitive(old_cells[i].key@, c.key@, old_cells[j - 1].key@);
        } else if i < pos {
            assert(pushed[i] == old_cells[i]);
        } else if i == pos {
            assert(pushed[j - 1] == old_cells[j - 1]);
        } else {
            assert(key_lt(old_cells[i - 1].key@, old_cells[j - 1].key@));
        }
    }
    assert forall|j: int| 0 <= j < sorted.len() implies {
        &&& split_half(header_of(d).cell_count as nat) * (record_bytes(#[trigger] rs[j]).len() + 2) + 16 <= ps
        &&& record_encodable(rs[j])
    } by {
        if j < pos {
            assert(rs[j] == leaf_records(d)[j]);
        } else if j > pos {
            assert(rs[j] == leaf_records(d)[j - 1]);
        }
    }
}

/// When a leaf can take the cells `lo..hi` of strictly ascending cells:
/// it is an empty leaf filling a page of 64 to 65535 bytes, whose content
/// starts at its end, and no more than `half` cells, each of which `half`
/// times over fits with the header, are to go in.
spec fn fill_fits(d: Seq<u8>, cs: Seq<LeafCell>, lo: int, hi: int, half: nat) -> bool {
    let rs = cell_records(cs);
    &&& 64 <= d.len() <= 65535
    &&& leaf_holds(d, Seq::empty())
    &&& header_of(d).cell_content_offset == d.len()
    &&& keys_strictly_ascending(rs)
    &&& forall|j: int| 0 <= j < rs.len() ==> (#[trigger] rs[j]).key == cs[j].key@
    &&& forall|j: int| 0 <= j < rs.len() ==> {
        &&& half * (record_bytes(#[trigger] rs[j]).len() + 2) + 12 <= d.len()
        &&& record_encodable(rs[j])
    }
    &&& 1 <= half
    &&& hi - lo <= half
}

/// Puts the cells `lo..hi` into a node, each at its sorted place.
#[verifier::spinoff_prover]
#[verifier::rlimit(40)]
fn fill_leaf(node: &mut BTreeNode, cells: &Vec<LeafCell>, lo: usize, hi: usize, Ghost(half): Ghost<nat>) -> (r: Result<()>)
    requires
        lo <= hi <= cells@.len(),
    ensures
        final(node).spec_page().id == old(node).spec_page().id,
        final(node).bytes().len() == old(node).bytes().len(),
        fill_fits(old(node).bytes(), cells@, lo as int, hi as int, half) ==> {
            &&& r is Ok
            &&& leaf_holds(final(node).bytes(), cell_records(cells@).subrange(lo as int, hi as int))
        },
{
    let ghost fits = fill_fits(node.bytes(), cells@, lo as int, hi as int, half);
    let ghost rs = cell_records(cells@).skip(lo as int);
    let ghost ps = node.bytes().len();
    let ghost mut used: nat = 0;
    proof {
        if fits {
            assert(rs.take(0) =~= Seq::<RecordView>::empty());
            assert forall|a: int, b: int| 0 <= a < b < rs.len() implies key_lt(#[trigger] rs[a].key, #[trigger] rs[b].key) by {
                assert(rs[a] == cell_records(cells@)[lo + a]);
                assert(rs[b] == cell_records(cells@)[lo + b]);
            }
        }
    }
    let mut i: usize = lo;
    while i < hi
        invariant
            lo <= i <= hi,
            hi <= cells@.len(),
            node.spec_page().id == old(node).spec_page().id,
            node.bytes().len() == ps,
            ps == old(node).bytes().len(),
            rs == cell_records(cells@).skip(lo as int),
            fits == fill_fits(old(node).bytes(), cells@, lo as int, hi as int, half),
            fits ==> {
                &&& 64 <= ps <= 65535
                &&& keys_strictly_ascending(rs)
                &&& forall|j: int| 0 <= j < rs.len() ==> (#[trigger] rs[j]).key == cells@[lo + j].key@
                &&& forall|j: int| 0 <= j < rs.len() ==> half * (record_bytes(#[trigger] rs[j]).len() + 2) + 12 <= ps
                    && record_encodable(rs[j])
                &&& 1 <= half
                &&& hi - lo <= half
                &&& leaf_holds(node.bytes(), rs.take(i - lo))
                &&& header_of(node.bytes()).cell_content_offset == ps - used
                &&& used + 2 * (i - lo) == cells_room(rs.take(i - lo))
            },
        decreases hi - i,
    {
        let ghost before = node.bytes();
        let ghost k: int = i - lo;
        proof {
            if fits {
                assert(rs[k] == cell_records(cells@)[i as int]);
                assert(rs[k].key == cells@[i as int].key@);
                lemma_split_step_room(rs, 0, k, half, ps as int);
                assert(rs.subrange(0, k) =~= rs.take(k));
                assert(rs.subrange(0, k + 1) =~= rs.take(k + 1));
                assert(sorted_cells(before));
                assert(header_of(before).cell_count == k);
            }
        }
        match insert_leaf_sorted(node, &cells[i]) {
            Ok(()) => {},
            Err(e) => {
                return Err(e);
            },
        }
        proof {
            if fits {
                let c = cells@[i as int];
                let idx = choose|idx: int| 0 <= idx <= header_of(before).cell_count
                    && node.bytes() == #[trigger] after_insert_cell(before, idx, record_bytes(c.record@))
                    && (sorted_cells(before) ==> lower_bound_ok(node_keys(before), c.key@, idx));
                lemma_split_step(before, node.bytes(), rs, k, idx);
                used = (used + record_bytes(rs[k]).len()) as nat;
            }
        }
        i = i + 1;
    }
    proof {
        if fits {
            assert(rs.take(hi - lo) =~= cell_records(cells@).subrange(lo as int, hi as int));
        }
    }
    Ok(())
}

/// What a split that took a record gives: a new page after the last one,
/// and the separator, the first key of the upper half; the split leaf and
/// the new page read as well-formed leaves, the lower one looking up every
/// key below the separator, the upper one every other key, as the leaf
/// with the record would.
#[verifier::opaque]
spec fn split_done(p0: Pager, p1: Pager, id: PageId, d: Seq<u8>, rv: RecordView, r: Result<InsertResult>) -> bool {
    let new_id = (p0.hdr().page_count + 1) as u32;
    let dl = p1.read_result(id)->Ok_0;
    let dr = p1.read_result(new_id)->Ok_0;
    &&& r is Ok
    &&& r->Ok_0.split
    &&& r->Ok_0.new_page_id == Some(new_id)
    &&& r->Ok_0.separator_key is Some
    &&& p1.hdr().page_count == p0.hdr().page_count + 1
    &&& p1.read_result(id) is Ok
    &&& p1.read_result(new_id) is Ok
    &&& p1.cached().contains_key(id)
    &&& p1.cached().contains_key(new_id)
    &&& leaf_wf(dl)
    &&& leaf_wf(dr)
    &&& forall|c: u32| #[trigger] interior_cell_bytes(r->Ok_0.separator_key->Some_0@, c).len() + 14 <= p0.psize()
    &&& forall|k: Seq<u8>| key_lt(k, r->Ok_0.separator_key->Some_0@) ==> #[trigger] leaf_lookup(dl, k) == lookup_with(d, rv, k)
    &&& forall|k: Seq<u8>| !key_lt(k, r->Ok_0.separator_key->Some_0@) ==> #[trigger] leaf_lookup(dr, k) == lookup_with(d, rv, k)
    &&& forall|q: PageId| q != id && q != new_id && p0.cached().contains_key(q) ==> #[trigger] p1.cached().contains_key(q)
        && p1.cached()[q] == p0.cached()[q]
    &&& split_key(d, rv, r->Ok_0.separator_key->Some_0@)
    &&& header_of(d).cell_count >= 1 ==> key_lt(least_split_key(d, rv), r->Ok_0.separator_key->Some_0@)
}

/// A key among a leaf's records and a new one.
pub open spec fn split_key(d: Seq<u8>, rv: RecordView, t: Seq<u8>) -> bool {
    t == rv.key || exists|j: int| 0 <= j < header_of(d).cell_count && #[trigger] leaf_records(d)[j].key == t
}

/// The least key among a leaf's strictly ascending records and a new one.
pub open spec fn least_split_key(d: Seq<u8>, rv: RecordView) -> Seq<u8> {
    if header_of(d).cell_count > 0 && key_lt(leaf_records(d)[0].key, rv.key) { leaf_records(d)[0].key } else { rv.key }
}

/// When a child's split can go into its parent without the parent
/// splitting: the parent reads as an interior page whose cells read, with
/// strictly ascending keys, in its content area; the child sits at index
/// `i` (the left child of cell `i`, or the right child when `i` is the cell
/// count); the separator lies above the key before and below the key at
/// `i`; and the separator's cell and the cell that will take the new page
/// fit in the free space.
#[verifier::opaque]
spec fn parent_takes(dp: Seq<u8>, i: int, sep: Seq<u8>, child: u32, n: u32) -> bool {
    let h = header_of(dp);
    let cs = icells(dp);
    let count = h.cell_count as int;
    let off = h.cell_content_offset as int;
    &&& spec_page_header(dp) is Ok
    &&& h.page_type == PageType::Interior
    &&& forall|j: int| 0 <= j < count ==> #[trigger] interior_cell_at(dp, j) is Ok
    &&& keys_sorted(cell_keys(dp, false))
    &&& 12 + 2 * count <= off <= dp.len()
    &&& pointers_within(dp, count, off)
    &&& 0 <= i <= count
    &&& i < count ==> cs[i].1 == child && key_lt(sep, cs[i].0) && cs[i].0.len() <= u64::MAX
    &&& i == count ==> h.right_child == child
    &&& i > 0 ==> key_lt(cs[i - 1].0, sep)
    &&& sep.len() <= u64::MAX
    &&& 16 + 2 * count + interior_cell_bytes(sep, child).len()
        + (if i < count { interior_cell_bytes(cs[i].0, n).len() } else { 0 }) <= off
}

/// What a parent that can take a child's split reads as.
proof fn lemma_parent_takes_facts(dp: Seq<u8>, i: int, sep: Seq<u8>, child: u32, n: u32)
    requires
        parent_takes(dp, i, sep, child, n),
    ensures
        spec_page_header(dp) is Ok,
        header_of(dp).page_type == PageType::Interior,
        cells_readable(dp, false),
        keys_sorted(cell_keys(dp, false)),
        forall|j: int| 0 <= j < header_of(dp).cell_count ==> #[trigger] interior_cell_at(dp, j) is Ok,
        0 <= i <= header_of(dp).cell_count,
        header_of(dp).cell_count < 32760,
        header_of(dp).cell_content_offset <= dp.len(),
        pointers_within(dp, header_of(dp).cell_count as int, header_of(dp).cell_content_offset as int),
        sep.len() <= u64::MAX,
        i < header_of(dp).cell_count ==> icells(dp)[i].1 == child && icells(dp)[i].0.len() <= u64::MAX,
        i == header_of(dp).cell_count ==> header_of(dp).right_child == child,
        16 + 2 * header_of(dp).cell_count + interior_cell_bytes(sep, child).len()
            + (if i < header_of(dp).cell_count { interior_cell_bytes(icells(dp)[i].0, n).len() } else { 0 })
            <= header_of(dp).cell_content_offset,
{
    reveal(parent_takes);
    assert forall|j: int| 0 <= j < header_of(dp).cell_count implies #[trigger] cell_key_at(dp, false, j) is Ok by {
        assert(interior_cell_at(dp, j) is Ok);
    }
}

/// In strictly ascending keys, with a key between the one before `i` and
/// the one at `i`, `i` is that key's lower bound.
proof fn lemma_lower_bound_at(dp: Seq<u8>, i: int, sep: Seq<u8>, child: u32, n: u32)
    requires
        parent_takes(dp, i, sep, child, n),
    ensures
        forall|x: int| lower_bound_ok(cell_keys(dp, false), sep, x) ==> x == i,
        forall|j: int| 0 <= j < header_of(dp).cell_count ==> #[trigger] cell_keys(dp, false)[j] == icells(dp)[j].0,
{
    reveal(parent_takes);
    let ks = cell_keys(dp, false);
    let cs = icells(dp);
    let count = header_of(dp).cell_count as int;
    assert forall|j: int| 0 <= j < count implies #[trigger] ks[j] == cs[j].0 by {
        assert(interior_cell_at(dp, j) is Ok);
    }
    assert forall|x: int| lower_bound_ok(ks, sep, x) implies x == i by {
        if x < i {
            assert(!key_lt(ks[x], sep));
            if x < i - 1 {
                assert(key_lt(ks[x], ks[i - 1]));
                lemma_key_lt_transitive(ks[x], ks[i - 1], sep);
            }
        } else if x > i {
            assert(key_lt(ks[i], sep));
            lemma_key_lt_asymmetric(sep, ks[i]);
        }
    }
}

/// Handle a child node split in an interior node: the separator goes into
/// the parent, which splits in turn when it is full
#[verifier::spinoff_prover]
#[verifier::rlimit(100)]
fn handle_child_split(pager: &mut Pager, parent: BTreeNode, child_id: PageId, child_result: InsertResult,
    Ghost(i): Ghost<int>) -> (r: Result<InsertResult>)
    requires
        old(pager).wf(),
        old(pager).psize() >= 64,
        old(pager).cached().contains_key(parent.spec_page().id),
        parent.bytes().len() <= old(pager).psize(),
        child_result.split,
        child_result.new_page_id is Some,
        child_result.separator_key is Some,
    ensures
        pager_kept(*old(pager), *final(pager)),
        r matches Ok(res) ==> (res.split ==> res.new_page_id is Some && res.separator_key is Some),
        parent_takes(parent.bytes(), i, child_result.separator_key->Some_0@, child_id, child_result.new_page_id->Some_0) ==> {
            &&& r matches Ok(res) && !res.split
            &&& final(pager).cached().contains_key(parent.spec_page().id)
            &&& interior_page_holds(final(pager).cached()[parent.spec_page().id].0,
                parent_cells(icells(parent.bytes()), i, child_result.separator_key->Some_0@, child_id,
                    child_result.new_page_id->Some_0),
                parent_right(icells(parent.bytes()), header_of(parent.bytes()).right_child, i,
                    child_result.new_page_id->Some_0))
            &&& forall|q: PageId| q != parent.spec_page().id && old(pager).cached().contains_key(q)
                ==> #[trigger] final(pager).cached()[q] == old(pager).cached()[q]
        },
{
    let ghost dp = parent.bytes();
    let ghost pid = parent.spec_page().id;
    let ghost cs = icells(dp);
    let ghost count0 = header_of(dp).cell_count as int;
    let mut parent = parent;
    let (new_page_id, separator_key) = match (child_result.new_page_id, child_result.separator_key) {
        (Some(p), Some(k)) => (p, k),
        _ => {
            return Ok(InsertResult::no_split());
        },
    };
    let ghost takes = parent_takes(dp, i, separator_key@, child_id, new_page_id);
    proof {
        if takes {
            lemma_parent_takes_facts(dp, i, separator_key@, child_id, new_page_id);
            lemma_lower_bound_at(dp, i, separator_key@, child_id, new_page_id);
            assert(be32_bytes(child_id).len() == 4);
        }
    }
    let key_copy = vstd::slice::slice_to_vec(separator_key.as_slice());
    let interior_cell = InteriorCell { left_child: child_id, key: key_copy };
    let cell_size = interior_cell.serialize().len();
    if cell_size > usize::MAX - 2 {
        return Err(Error::BTreeError(string_of("Cell does not fit in page")));
    }
    let has_space = match parent.has_space_for_cell(cell_size) {
        Ok(b) => b,
        Err(e) => {
            return Err(e);
        },
    };
    if !has_space {
        return split_interior_and_insert(pager, parent, interior_cell, new_page_id);
    }
    let insert_index = match parent.find_cell_index(separator_key.as_slice()) {
        Ok(i) => i,
        Err(e) => {
            return Err(e);
        },
    };
    proof {
        if takes {
            assert(insert_index == i);
        }
    }
    match insert_interior_at(&mut parent, insert_index, &interior_cell) {
        Ok(()) => {},
        Err(e) => {
            return Err(e);
        },
    }
    let ghost e1 = parent.bytes();
    proof {
        if takes {
            law_interior_insert(dp, i, separator_key@, child_id);
        }
    }
    let count = match parent.cell_count() {
        Ok(n) => n,
        Err(e) => {
            return Err(e);
        },
    };
    if count > 0 && insert_index == count - 1 {
        match parent.right_child() {
            Ok(_) => {},
            Err(e) => {
                return Err(e);
            },
        }
        match parent.set_right_child(new_page_id) {
            Ok(()) => {},
            Err(e) => {
                return Err(e);
            },
        }
        proof {
            if takes {
                let h1 = PageHeader { right_child: new_page_id, ..header_of(e1) };
                lemma_header_written(e1, h1);
                lemma_header_keeps_cells(e1, h1, count0 + 1);
                lemma_parent_cells_last(dp, parent.bytes(), e1, i, separator_key@, child_id, new_page_id);
            }
        }
    } else if insert_index < u16::MAX {
        let next_cell = match parent.get_interior_cell(insert_index + 1) {
            Ok(c) => c,
            Err(e) => {
                return Err(e);
            },
        };
        let updated_cell = InteriorCell { left_child: new_page_id, key: next_cell.key };
        match parent.delete_cell(insert_index + 1) {
            Ok(()) => {},
            Err(e) => {
                return Err(e);
            },
        }
        let ghost e2 = parent.bytes();
        proof {
            if takes {
                assert(next_cell.key@ == cs[i].0);
                lemma_delete_keeps(e1, i + 1, count0 + 1,
                    header_of(dp).cell_content_offset - interior_cell_bytes(separator_key@, child_id).len());
                assert(be32_bytes(new_page_id).len() == 4);
            }
        }
        match insert_interior_at(&mut parent, insert_index + 1, &updated_cell) {
            Ok(()) => {},
            Err(e) => {
                return Err(e);
            },
        }
        proof {
            if takes {
                lemma_replace_cell(e1, i + 1, count0 + 1,
                    header_of(dp).cell_content_offset - interior_cell_bytes(separator_key@, child_id).len(),
                    cs[i].0, new_page_id);
                lemma_parent_cells_mid(dp, e1, parent.bytes(), i, separator_key@, child_id, new_page_id);
            }
        }
    }
    let ghost written = parent.bytes();
    match write_node(pager, parent) {
        Ok(()) => {},
        Err(e) => {
            return Err(e);
        },
    }
    Ok(InsertResult::no_split())
}

/// The parent after the separator went in at the end and the new page
/// became its right child.
proof fn lemma_parent_cells_last(dp: Seq<u8>, e: Seq<u8>, e1: Seq<u8>, i: int, sep: Seq<u8>, child: u32, n: u32)
    requires
        parent_takes(dp, i, sep, child, n),
        i == header_of(dp).cell_count,
        e1 == after_insert_cell(dp, i, interior_cell_bytes(sep, child)),
        spec_page_header(e1) == Ok::<PageHeader, Seq<char>>(PageHeader {
            cell_count: (header_of(dp).cell_count + 1) as u16,
            cell_content_offset: (header_of(dp).cell_content_offset - interior_cell_bytes(sep, child).len()) as u16,
            ..header_of(dp)
        }),
        interior_cell_at(e1, i) == Ok::<(Seq<u8>, u32), ErrorView>((sep, child)),
        forall|j: int| 0 <= j < i ==> #[trigger] interior_cell_at(e1, j) == interior_cell_at(dp, j),
        spec_page_header(e) == Ok::<PageHeader, Seq<char>>(PageHeader { right_child: n, ..header_of(e1) }),
        forall|j: int| 0 <= j < i + 1 ==> #[trigger] interior_cell_at(e, j) == interior_cell_at(e1, j),
    ensures
        interior_page_holds(e, parent_cells(icells(dp), i, sep, child, n), parent_right(icells(dp), header_of(dp).right_child, i, n)),
{
    reveal(parent_takes);
    let cs2 = parent_cells(icells(dp), i, sep, child, n);
    assert forall|j: int| 0 <= j < cs2.len() implies #[trigger] interior_cell_at(e, j)
        == Ok::<(Seq<u8>, u32), ErrorView>(cs2[j]) by {
        if j < i {
            assert(interior_cell_at(dp, j) is Ok);
        }
    }
}




/// Split an interior node when it is full: the middle key of its sorted
/// cells moves up, the cells above it go to a new interior node
fn split_interior_and_insert(pager: &mut Pager, node: BTreeNode, new_cell: InteriorCell, right_child: PageId) -> (r: Result<InsertResult>)
    requires
        old(pager).wf(),
        old(pager).psize() >= 64,
        old(pager).cached().contains_key(node.spec_page().id),
        node.bytes().len() <= old(pager).psize(),
    ensures
        pager_kept(*old(pager), *final(pager)),
        r matches Ok(res) ==> (res.split ==> res.new_page_id is Some && res.separator_key is Some),
{
    let mut node = node;
    let new_page = match allocate(pager, PageType::Interior) {
        Ok(p) => p,
        Err(e) => {
            return Err(e);
        },
    };
    let new_page_id = new_page.id;
    let mut new_node = BTreeNode::from_page(new_page);
    let mut all_cells = match interior_cells(&node) {
        Ok(c) => c,
        Err(e) => {
            return Err(e);
        },
    };
    all_cells.push(new_cell);
    let all_cells = sort_interior_cells(all_cells);
    let split_point = all_cells.len() / 2;
    let separator_key = vstd::slice::slice_to_vec(all_cells[split_point].key.as_slice());
    let page_size = pager.page_size();
    let ghost len0 = node.bytes().len();
    match node.page_mut().initialize(PageType::Interior, page_size) {
        Ok(()) => {},
        Err(e) => {
            return Err(e);
        },
    }
    assert(node.bytes().len() == len0);
    let ghost after_alloc = *pager;
    let mut i: usize = 0;
    while i < split_point
        invariant
            i <= split_point,
            split_point < all_cells@.len(),
            node.bytes().len() == len0,
            len0 <= pager.psize(),
            *pager == after_alloc,
            pager_kept(*old(pager), *pager),
            pager.cached().contains_key(node.spec_page().id),
        decreases split_point - i,
    {
        match insert_interior_sorted(&mut node, &all_cells[i]) {
            Ok(()) => {},
            Err(e) => {
                return Err(e);
            },
        }
        i = i + 1;
    }
    match node.set_right_child(all_cells[split_point].left_child) {
        Ok(()) => {},
        Err(e) => {
            return Err(e);
        },
    }
    let mut j: usize = split_point + 1;
    let ghost len1 = new_node.bytes().len();
    while j < all_cells.len()
        invariant
            split_point < j <= all_cells@.len(),
            new_node.bytes().len() == len1,
            len1 <= pager.psize(),
            len0 <= pager.psize(),
            node.bytes().len() == len0,
            *pager == after_alloc,
            pager_kept(*old(pager), *pager),
            pager.cached().contains_key(node.spec_page().id),
            pager.cached().contains_key(new_node.spec_page().id),
        decreases all_cells@.len() - j,
    {
        match insert_interior_sorted(&mut new_node, &all_cells[j]) {
            Ok(()) => {},
            Err(e) => {
                return Err(e);
            },
        }
        j = j + 1;
    }
    match new_node.set_right_child(right_child) {
        Ok(()) => {},
        Err(e) => {
            return Err(e);
        },
    }
    match write_node(pager, node) {
        Ok(()) => {},
        Err(e) => {
            return Err(e);
        },
    }
    match write_node(pager, new_node) {
        Ok(()) => {},
        Err(e) => {
            return Err(e);
        },
    }
    Ok(InsertResult::with_split(new_page_id, separator_key))
}

} // verus!
