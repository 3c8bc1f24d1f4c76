//! B+Tree deletion: removes a key's cell from its leaf.  Emptied space is
//! not reclaimed and nodes are not merged.
use vstd::prelude::*;
use crate::error::{Error, ErrorView, Result};
use crate::storage::btree::keys::bytes_eq;
use crate::storage::btree::keys::{lemma_key_lt_irreflexive, lemma_key_lt_asymmetric};
use crate::storage::btree::leaf::{leaf_wf, lemma_leaf_delete, lemma_leaf_scan_absent, lemma_lookups_kept, lookups_kept_but};
use crate::storage::btree::node::{BTreeNode, after_delete_cell, cell_key_at, cell_keys, header_of, leaf_cell_at};
use crate::storage::btree::search::{
    PageReader, descend, descent_ends, find_child_page, leaf_lookup, leaf_scan, lemma_search_after_leaf_change, lemma_search_kept, reader,
    search_result,
};
use crate::storage::btree::BTree;
use crate::storage::page::{PageId, PageType, spec_page_header};
use crate::storage::pager::{Pager, lemma_reads_kept_before, reads_kept_but};

verus! {

/// The leaf that the descent for `key` from `pid` reaches, or its error.
pub open spec fn leaf_for(rd: PageReader, pid: PageId, key: Seq<u8>) -> core::result::Result<PageId, ErrorView> {
    descend(rd, pid, key, choose|n: nat| #[trigger] descend(rd, pid, key, n) is Some)->Some_0
}

/// The first cell from `i` on whose key is `key`, if any.
pub open spec fn key_index(d: Seq<u8>, key: Seq<u8>, i: nat, n: nat) -> core::result::Result<Option<nat>, ErrorView>
    decreases n - i,
{
    if i >= n {
        Ok(None)
    } else {
        match leaf_cell_at(d, i as int) {
            Err(e) => Err(e),
            Ok(r) => if r.key == key { Ok(Some(i)) } else { key_index(d, key, i + 1, n) },
        }
    }
}

proof fn lemma_key_index_bound(d: Seq<u8>, key: Seq<u8>, i: nat, n: nat)
    ensures
        key_index(d, key, i, n) matches Ok(Some(k)) ==> i <= k < n,
    decreases n - i,
{
    if i < n {
        lemma_key_index_bound(d, key, i + 1, n);
    }
}

/// The index `key_index` finds holds a cell with that key.
proof fn lemma_key_index_found(d: Seq<u8>, key: Seq<u8>, i: nat, n: nat)
    ensures
        key_index(d, key, i, n) matches Ok(Some(k)) ==> (leaf_cell_at(d, k as int) matches Ok(r) && r.key == key),
    decreases n - i,
{
    if i < n {
        lemma_key_index_found(d, key, i + 1, n);
    }
}

/// Deleting a key from a well-formed leaf leaves a well-formed leaf in
/// which looking the key up finds nothing.
pub proof fn lemma_leaf_delete_absent(d: Seq<u8>, key: Seq<u8>)
    requires
        leaf_wf(d),
        leaf_delete(d, key) is Ok,
    ensures
        leaf_wf(leaf_delete(d, key)->Ok_0),
        leaf_lookup(leaf_delete(d, key)->Ok_0, key) == Err::<crate::storage::record::RecordView, ErrorView>(ErrorView::NotFound),
        lookups_kept_but(d, leaf_delete(d, key)->Ok_0, key),
{
    let n = header_of(d).cell_count as nat;
    lemma_key_index_bound(d, key, 0, n);
    lemma_key_index_found(d, key, 0, n);
    let i = key_index(d, key, 0, n)->Ok_0->Some_0 as int;
    let ks = cell_keys(d, true);
    assert(cell_key_at(d, true, i) is Ok);
    assert(ks[i] == key);
    lemma_leaf_delete(d, i);
    let e = after_delete_cell(d, i);
    let ks1 = cell_keys(e, true);
    assert forall|j: int| 0 <= j < header_of(e).cell_count implies #[trigger] ks1[j] != key by {
        let k = if j < i { j } else { j + 1 };
        assert(ks1[j] == ks[k]);
        lemma_key_lt_irreflexive(key);
        if k < i {
            assert(crate::storage::btree::keys::key_lt(ks[k], ks[i]));
        } else {
            assert(crate::storage::btree::keys::key_lt(ks[i], ks[k]));
        }
    }
    lemma_leaf_scan_absent(e, key, 0);
    lemma_lookups_kept(d, e, key, i, false);
}

/// After a delete that changed only the leaf `leaf`, into a leaf that
/// looks every other key up the same, a search for any other key that
/// reached a leaf before ends and gives what it gave.
proof fn lemma_other_keys_after_delete(p0: Pager, p1: Pager, root: PageId, key: Seq<u8>, leaf: PageId)
    requires
        reads_kept_but(p0, p1, leaf),
        p0.read_result(leaf) is Ok,
        leaf_wf(p0.read_result(leaf)->Ok_0),
        p1.read_result(leaf) is Ok,
        leaf_wf(p1.read_result(leaf)->Ok_0),
        lookups_kept_but(p0.read_result(leaf)->Ok_0, p1.read_result(leaf)->Ok_0, key),
    ensures
        forall|k: Seq<u8>| k != key && #[trigger] leaf_for(reader(p0), root, k) is Ok
            && descent_ends(reader(p0), root, k) ==> {
            &&& descent_ends(reader(p1), root, k)
            &&& search_result(reader(p1), root, k) == search_result(reader(p0), root, k)
        },
{
    reveal(lookups_kept_but);
    assert forall|k: Seq<u8>| k != key && #[trigger] leaf_for(reader(p0), root, k) is Ok
        && descent_ends(reader(p0), root, k) implies {
        &&& descent_ends(reader(p1), root, k)
        &&& search_result(reader(p1), root, k) == search_result(reader(p0), root, k)
    } by {
        assert(leaf_lookup(p1.read_result(leaf)->Ok_0, k) == leaf_lookup(p0.read_result(leaf)->Ok_0, k));
        lemma_search_kept(p0, p1, root, k, leaf);
    }
}

/// What deleting `key` from the tree rooted at `root` does: the leaf it
/// rewrites and that leaf's new bytes, or the error.
pub open spec fn spec_delete(rd: PageReader, root: PageId, key: Seq<u8>) -> core::result::Result<(PageId, Seq<u8>), ErrorView> {
    match leaf_for(rd, root, key) {
        Err(e) => Err(e),
        Ok(leaf) => match leaf_delete(rd(leaf)->Ok_0, key) {
            Err(e) => Err(e),
            Ok(bytes) => Ok((leaf, bytes)),
        },
    }
}

/// What deleting `key` does to a leaf's bytes, or the error.
pub open spec fn leaf_delete(d: Seq<u8>, key: Seq<u8>) -> core::result::Result<Seq<u8>, ErrorView> {
    match spec_page_header(d) {
        Err(m) => Err(ErrorView::InvalidPage(m)),
        Ok(h) => match key_index(d, key, 0, h.cell_count as nat) {
            Err(e) => Err(e),
            Ok(None) => Err(ErrorView::NotFound),
            Ok(Some(i)) => if i + 1 == h.cell_count || 12 + 2 * h.cell_count <= d.len() {
                Ok(after_delete_cell(d, i as int))
            } else {
                Err(ErrorView::InvalidPage("Cell pointer out of bounds"@))
            },
        },
    }
}

/// Find the leaf node that holds a key
pub fn find_leaf_for_delete(btree: &BTree, pager: &mut Pager, key: &[u8]) -> (r: Result<PageId>)
    requires
        old(pager).wf(),
        descent_ends(reader(*old(pager)), btree.root(), key@),
    ensures
        final(pager).wf(),
        forall|q: PageId| #[trigger] final(pager).read_result(q) == old(pager).read_result(q),
        final(pager).image() == old(pager).image(),
        final(pager).hdr() == old(pager).hdr(),
        final(pager).psize() == old(pager).psize(),
        final(pager).in_txn() == old(pager).in_txn(),
        final(pager).shadows() == old(pager).shadows(),
        final(pager).modified() == old(pager).modified(),
        match leaf_for(reader(*old(pager)), btree.root(), key@) {
            Ok(leaf) => r == Ok::<PageId, Error>(leaf) && old(pager).read_result(leaf) is Ok,
            Err(e) => r matches Err(x) && x@ == e,
        },
{
    let ghost rd = reader(*pager);
    let ghost n0 = choose|n: nat| #[trigger] descend(rd, btree.root(), key@, n) is Some;
    let ghost target = descend(rd, btree.root(), key@, n0);
    let mut page_id = btree.root_page_id();
    let ghost mut fuel: nat = n0;
    loop
        invariant
            pager.wf(),
            forall|q: PageId| #[trigger] pager.read_result(q) == old(pager).read_result(q),
            rd == reader(*old(pager)),
            pager.image() == old(pager).image(),
            pager.hdr() == old(pager).hdr(),
            pager.psize() == old(pager).psize(),
            pager.in_txn() == old(pager).in_txn(),
            pager.shadows() == old(pager).shadows(),
            pager.modified() == old(pager).modified(),
            target is Some,
            n0 == choose|n: nat| #[trigger] descend(rd, btree.root(), key@, n) is Some,
            target == descend(rd, btree.root(), key@, n0),
            descend(rd, page_id, key@, fuel) == target,
        decreases fuel,
    {
        assert(rd(page_id) == old(pager).read_result(page_id));
        assert(fuel > 0);
        let page = match pager.read_page(page_id) {
            Ok(p) => p,
            Err(e) => {
                return Err(e);
            },
        };
        let node = BTreeNode::from_page(page);
        let is_leaf = match node.is_leaf() {
            Ok(b) => b,
            Err(e) => {
                return Err(e);
            },
        };
        if is_leaf {
            return Ok(page_id);
        }
        page_id = match find_child_page(&node, key) {
            Ok(c) => c,
            Err(e) => {
                return Err(e);
            },
        };
        proof {
            fuel = (fuel - 1) as nat;
        }
    }
}

/// The first cell of a leaf whose key is `key`, if any.
fn find_key_index(leaf_node: &BTreeNode, cell_count: u16, key: &[u8]) -> (r: Result<Option<u16>>)
    requires
        spec_page_header(leaf_node.bytes()) is Ok,
        cell_count == spec_page_header(leaf_node.bytes())->Ok_0.cell_count,
    ensures
        match key_index(leaf_node.bytes(), key@, 0, cell_count as nat) {
            Ok(Some(k)) => r == Ok::<Option<u16>, Error>(Some(k as u16)),
            Ok(None) => r == Ok::<Option<u16>, Error>(None),
            Err(e) => r matches Err(x) && x@ == e,
        },
{
    let ghost d = leaf_node.bytes();
    let mut i: u16 = 0;
    while i < cell_count
        invariant
            i <= cell_count,
            d == leaf_node.bytes(),
            key_index(d, key@, i as nat, cell_count as nat) == key_index(d, key@, 0, cell_count as nat),
        decreases cell_count - i,
    {
        let cell = match leaf_node.get_leaf_cell(i) {
            Ok(c) => c,
            Err(e) => {
                return Err(e);
            },
        };
        if bytes_eq(cell.key.as_slice(), key) {
            return Ok(Some(i));
        }
        i = i + 1;
    }
    Ok(None)
}

/// Delete a record from the B+Tree: its cell leaves its leaf
pub fn delete(btree: &mut BTree, pager: &mut Pager, key: &[u8]) -> (r: Result<()>)
    requires
        old(pager).wf(),
        descent_ends(reader(*old(pager)), old(btree).root(), key@),
    ensures
        final(pager).wf(),
        final(btree).root() == old(btree).root(),
        final(pager).hdr() == old(pager).hdr(),
        final(pager).psize() == old(pager).psize(),
        final(pager).in_txn() == old(pager).in_txn(),
        match spec_delete(reader(*old(pager)), old(btree).root(), key@) {
            Ok((leaf, bytes)) => r is Ok && final(pager).visible(leaf) == Some(bytes),
            Err(e) => r matches Err(x) && x@ == e,
        },
        (leaf_for(reader(*old(pager)), old(btree).root(), key@) matches Ok(leaf)
            && reader(*old(pager))(leaf) matches Ok(d) && leaf_wf(d) && r is Ok) ==> {
            &&& descent_ends(reader(*final(pager)), final(btree).root(), key@)
            &&& search_result(reader(*final(pager)), final(btree).root(), key@)
                == Err::<crate::storage::record::RecordView, ErrorView>(ErrorView::NotFound)
            &&& forall|k: Seq<u8>| k != key@ && #[trigger] leaf_for(reader(*old(pager)), old(btree).root(), k) is Ok
                && descent_ends(reader(*old(pager)), old(btree).root(), k) ==> {
                &&& descent_ends(reader(*final(pager)), final(btree).root(), k)
                &&& search_result(reader(*final(pager)), final(btree).root(), k)
                    == search_result(reader(*old(pager)), old(btree).root(), k)
            }
        },
{
    let ghost rd = reader(*pager);
    let ghost p0 = *pager;
    let leaf_id = match find_leaf_for_delete(btree, pager, key) {
        Ok(id) => id,
        Err(e) => {
            return Err(e);
        },
    };
    assert(rd(leaf_id) == pager.read_result(leaf_id));
    let ghost p1 = *pager;
    let r = delete_from_leaf(pager, leaf_id, key);
    proof {
        let d = rd(leaf_id)->Ok_0;
        if leaf_wf(d) && r is Ok {
            lemma_reads_kept_before(p0, p1, *pager, leaf_id);
            lemma_leaf_delete_absent(d, key@);
            let n0 = choose|n: nat| #[trigger] descend(rd, btree.root(), key@, n) is Some;
            lemma_search_after_leaf_change(p0, *pager, btree.root(), key@, n0, leaf_id);
            lemma_other_keys_after_delete(p0, *pager, btree.root(), key@, leaf_id);
        }
    }
    r
}

/// Deletes `key` from the leaf page `leaf_id`.
#[verifier::rlimit(40)]
fn delete_from_leaf(pager: &mut Pager, leaf_id: PageId, key: &[u8]) -> (r: Result<()>)
    requires
        old(pager).wf(),
        old(pager).read_result(leaf_id) is Ok,
    ensures
        final(pager).wf(),
        final(pager).hdr() == old(pager).hdr(),
        final(pager).psize() == old(pager).psize(),
        final(pager).in_txn() == old(pager).in_txn(),
        match leaf_delete(old(pager).read_result(leaf_id)->Ok_0, key@) {
            Ok(bytes) => {
                &&& r is Ok
                &&& final(pager).visible(leaf_id) == Some(bytes)
                &&& final(pager).read_result(leaf_id) == Ok::<Seq<u8>, ErrorView>(bytes)
                &&& reads_kept_but(*old(pager), *final(pager), leaf_id)
            },
            Err(e) => r matches Err(x) && x@ == e,
        },
{
    let ghost p0 = *pager;
    let leaf_page = match pager.read_page(leaf_id) {
        Ok(p) => p,
        Err(e) => {
            return Err(e);
        },
    };
    let mut leaf_node = BTreeNode::from_page(leaf_page);
    let cell_count = match leaf_node.cell_count() {
        Ok(n) => n,
        Err(e) => {
            return Err(e);
        },
    };
    let found_index = match find_key_index(&leaf_node, cell_count, key) {
        Ok(f) => f,
        Err(e) => {
            return Err(e);
        },
    };
    proof {
        lemma_key_index_bound(leaf_node.bytes(), key@, 0, cell_count as nat);
    }
    let ghost d = leaf_node.bytes();
    match found_index {
        Some(index) => {
            match leaf_node.delete_cell(index) {
                Ok(()) => {},
                Err(e) => {
                    return Err(e);
                },
            }
            assert(leaf_node.bytes().len() == d.len());
            let ghost p1 = *pager;
            let r = crate::storage::btree::write_node(pager, leaf_node);
            proof {
                lemma_reads_kept_before(p0, p1, *pager, leaf_id);
            }
            r
        },
        None => Err(Error::NotFound),
    }
}

} // verus!
