//! B+Tree search: point lookup by key.
//!
//! The descent is stated over what reading each page gives; a lookup that
//! reaches a leaf scans its sorted cells.
use vstd::prelude::*;
use crate::error::{Error, ErrorView, Result};
use crate::storage::btree::keys::{bytes_eq, bytes_lt, key_lt};
use crate::storage::btree::node::{BTreeNode, interior_cell_at, leaf_cell_at};
use crate::storage::btree::BTree;
use crate::storage::page::{PageId, PageType, spec_page_header};
use crate::storage::pager::{Pager, reads_kept_but};
use crate::storage::record::{Record, RecordView};

verus! {

/// How pages read: a page's bytes, or the error reading it gives.
pub type PageReader = spec_fn(PageId) -> core::result::Result<Seq<u8>, ErrorView>;

/// What a pager's `read_page` gives, page by page.
pub open spec fn reader(p: Pager) -> PageReader {
    |q: PageId| p.read_result(q)
}

/// The child of an interior node to follow for `key`, scanning cells from
/// `i`: the left child of the first cell whose key is above `key`, else the
/// right child.
pub open spec fn child_scan(d: Seq<u8>, key: Seq<u8>, i: nat, n: nat) -> core::result::Result<PageId, ErrorView>
    decreases n - i,
{
    if i >= n {
        match spec_page_header(d) {
            Ok(h) => Ok(h.right_child),
            Err(m) => Err(ErrorView::InvalidPage(m)),
        }
    } else {
        match interior_cell_at(d, i as int) {
            Err(e) => Err(e),
            Ok((k, l)) => if key_lt(key, k) { Ok(l) } else { child_scan(d, key, i + 1, n) },
        }
    }
}

/// The child of an interior node to follow for `key`.
pub open spec fn child_for(d: Seq<u8>, key: Seq<u8>) -> core::result::Result<PageId, ErrorView> {
    match spec_page_header(d) {
        Err(m) => Err(ErrorView::InvalidPage(m)),
        Ok(h) => child_scan(d, key, 0, h.cell_count as nat),
    }
}

/// Looking `key` up in a leaf, scanning cells from `i`: the first cell with
/// that key, stopping at a greater key.
pub open spec fn leaf_scan(d: Seq<u8>, key: Seq<u8>, i: nat, n: nat) -> core::result::Result<RecordView, ErrorView>
    decreases n - i,
{
    if i >= n {
        Err(ErrorView::NotFound)
    } else {
        match leaf_cell_at(d, i as int) {
            Err(e) => Err(e),
            Ok(r) => if r.key == key {
                Ok(r)
            } else if key_lt(key, r.key) {
                Err(ErrorView::NotFound)
            } else {
                leaf_scan(d, key, i + 1, n)
            },
        }
    }
}

/// Looking `key` up in a leaf.
pub open spec fn leaf_lookup(d: Seq<u8>, key: Seq<u8>) -> core::result::Result<RecordView, ErrorView> {
    match spec_page_header(d) {
        Err(m) => Err(ErrorView::InvalidPage(m)),
        Ok(h) => leaf_scan(d, key, 0, h.cell_count as nat),
    }
}

/// The leaf that the descent for `key` from page `pid` reaches, within
/// `fuel` levels; none if it takes more.
pub open spec fn descend(rd: PageReader, pid: PageId, key: Seq<u8>, fuel: nat) -> Option<core::result::Result<PageId, ErrorView>>
    decreases fuel,
{
    if fuel == 0 {
        None
    } else {
        match rd(pid) {
            Err(e) => Some(Err(e)),
            Ok(d) => match spec_page_header(d) {
                Err(m) => Some(Err(ErrorView::InvalidPage(m))),
                Ok(h) => if h.page_type == PageType::Leaf {
                    Some(Ok(pid))
                } else {
                    match child_for(d, key) {
                        Err(e) => Some(Err(e)),
                        Ok(c) => descend(rd, c, key, (fuel - 1) as nat),
                    }
                },
            },
        }
    }
}

/// Whether the descent for `key` from `pid` reaches a leaf or an error.
pub open spec fn descent_ends(rd: PageReader, pid: PageId, key: Seq<u8>) -> bool {
    exists|n: nat| #[trigger] descend(rd, pid, key, n) is Some
}

/// What searching from `pid` for `key` gives, within `fuel` levels.
pub open spec fn spec_search(rd: PageReader, pid: PageId, key: Seq<u8>, fuel: nat) -> Option<core::result::Result<RecordView, ErrorView>> {
    match descend(rd, pid, key, fuel) {
        None => None,
        Some(Err(e)) => Some(Err(e)),
        Some(Ok(leaf)) => Some(leaf_lookup(rd(leaf)->Ok_0, key)),
    }
}

/// A descent that ends within `n` levels ends, the same way, within more.
pub proof fn lemma_descend_fuel(rd: PageReader, pid: PageId, key: Seq<u8>, n: nat, m: nat)
    requires
        descend(rd, pid, key, n) is Some,
        n <= m,
    ensures
        descend(rd, pid, key, m) == descend(rd, pid, key, n),
    decreases n,
{
    if n > 0 {
        match rd(pid) {
            Err(_) => {},
            Ok(d) => match spec_page_header(d) {
                Err(_) => {},
                Ok(h) => if h.page_type != PageType::Leaf {
                    match child_for(d, key) {
                        Err(_) => {},
                        Ok(c) => {
                            lemma_descend_fuel(rd, c, key, (n - 1) as nat, (m - 1) as nat);
                        },
                    }
                },
            },
        }
    }
}

/// A descent that reaches `leaf` reaches it the same way after the pages
/// change, as long as every page other than `leaf` that read well reads
/// the same, and `leaf` still reads as a leaf.
pub proof fn lemma_descend_frame(rd: PageReader, rd2: PageReader, pid: PageId, key: Seq<u8>, n: nat, leaf: PageId)
    requires
        descend(rd, pid, key, n) == Some(Ok::<PageId, ErrorView>(leaf)),
        forall|q: PageId| q != leaf && #[trigger] rd(q) is Ok ==> rd2(q) == rd(q),
        rd2(leaf) is Ok,
        spec_page_header(rd2(leaf)->Ok_0) is Ok,
        spec_page_header(rd2(leaf)->Ok_0)->Ok_0.page_type == PageType::Leaf,
    ensures
        descend(rd2, pid, key, n) == Some(Ok::<PageId, ErrorView>(leaf)),
    decreases n,
{
    if pid != leaf {
        assert(rd(pid) is Ok);
        let d = rd(pid)->Ok_0;
        assert(rd2(pid) == rd(pid));
        let c = child_for(d, key)->Ok_0;
        lemma_descend_frame(rd, rd2, c, key, (n - 1) as nat, leaf);
    }
}

/// A search whose descent reached `leaf`, run again after only `leaf`
/// changed among the pages that read well and still reads as a leaf, ends
/// and gives what looking the key up in the new leaf gives.
pub proof fn lemma_search_after_leaf_change(p0: Pager, p1: Pager, root: PageId, key: Seq<u8>, n: nat, leaf: PageId)
    requires
        descend(reader(p0), root, key, n) == Some(Ok::<PageId, ErrorView>(leaf)),
        reads_kept_but(p0, p1, leaf),
        p1.read_result(leaf) is Ok,
        spec_page_header(p1.read_result(leaf)->Ok_0) is Ok,
        spec_page_header(p1.read_result(leaf)->Ok_0)->Ok_0.page_type == PageType::Leaf,
    ensures
        descent_ends(reader(p1), root, key),
        search_result(reader(p1), root, key) == leaf_lookup(p1.read_result(leaf)->Ok_0, key),
{
    reveal(reads_kept_but);
    let rd = reader(p0);
    let rd1 = reader(p1);
    assert forall|q: PageId| q != leaf && #[trigger] rd(q) is Ok implies rd1(q) == rd(q) by {
        assert(p0.read_result(q) is Ok);
    }
    lemma_descend_frame(rd, rd1, root, key, n, leaf);
    assert(descend(rd1, root, key, n) is Some);
    let m = choose|m: nat| #[trigger] descend(rd1, root, key, m) is Some;
    if m <= n {
        lemma_descend_fuel(rd1, root, key, m, n);
    } else {
        lemma_descend_fuel(rd1, root, key, n, m);
    }
}

/// A page that a descent reaches reads well, as a leaf.
pub proof fn lemma_descend_reads_leaf(rd: PageReader, pid: PageId, key: Seq<u8>, n: nat)
    requires
        descend(rd, pid, key, n) matches Some(Ok(_)),
    ensures
        ({
            let leaf = descend(rd, pid, key, n)->Some_0->Ok_0;
            &&& rd(leaf) is Ok
            &&& spec_page_header(rd(leaf)->Ok_0) is Ok
            &&& spec_page_header(rd(leaf)->Ok_0)->Ok_0.page_type == PageType::Leaf
        }),
    decreases n,
{
    if n > 0 {
        match rd(pid) {
            Err(_) => {},
            Ok(d) => match spec_page_header(d) {
                Err(_) => {},
                Ok(h) => if h.page_type != PageType::Leaf {
                    match child_for(d, key) {
                        Err(_) => {},
                        Ok(c) => {
                            lemma_descend_reads_leaf(rd, c, key, (n - 1) as nat);
                        },
                    }
                },
            },
        }
    }
}

/// A descent reaches the same leaf after the pages change, as long as every
/// page other than `x` that read well reads the same, and `x` reads as a
/// leaf both before and after.
pub proof fn lemma_descend_frame_at(rd: PageReader, rd2: PageReader, pid: PageId, key: Seq<u8>, n: nat, x: PageId)
    requires
        descend(rd, pid, key, n) matches Some(Ok(_)),
        forall|q: PageId| q != x && #[trigger] rd(q) is Ok ==> rd2(q) == rd(q),
        rd(x) is Ok,
        spec_page_header(rd(x)->Ok_0) is Ok,
        spec_page_header(rd(x)->Ok_0)->Ok_0.page_type == PageType::Leaf,
        rd2(x) is Ok,
        spec_page_header(rd2(x)->Ok_0) is Ok,
        spec_page_header(rd2(x)->Ok_0)->Ok_0.page_type == PageType::Leaf,
    ensures
        descend(rd2, pid, key, n) == descend(rd, pid, key, n),
    decreases n,
{
    if pid != x {
        assert(rd(pid) is Ok);
        let d = rd(pid)->Ok_0;
        assert(rd2(pid) == rd(pid));
        if spec_page_header(d)->Ok_0.page_type != PageType::Leaf {
            let c = child_for(d, key)->Ok_0;
            lemma_descend_frame_at(rd, rd2, c, key, (n - 1) as nat, x);
        }
    }
}

/// After only page `x`, a leaf, changed among the pages that read well,
/// into a leaf that looks `key` up the same, a search for `key` that
/// reached a leaf before ends and gives what it gave.
pub proof fn lemma_search_kept(p0: Pager, p1: Pager, root: PageId, key: Seq<u8>, x: PageId)
    requires
        reads_kept_but(p0, p1, x),
        p0.read_result(x) is Ok,
        spec_page_header(p0.read_result(x)->Ok_0) is Ok,
        spec_page_header(p0.read_result(x)->Ok_0)->Ok_0.page_type == PageType::Leaf,
        p1.read_result(x) is Ok,
        spec_page_header(p1.read_result(x)->Ok_0) is Ok,
        spec_page_header(p1.read_result(x)->Ok_0)->Ok_0.page_type == PageType::Leaf,
        leaf_lookup(p1.read_result(x)->Ok_0, key) == leaf_lookup(p0.read_result(x)->Ok_0, key),
        descent_ends(reader(p0), root, key),
        descend(reader(p0), root, key, choose|n: nat| #[trigger] descend(reader(p0), root, key, n) is Some) matches Some(Ok(_)),
    ensures
        descent_ends(reader(p1), root, key),
        search_result(reader(p1), root, key) == search_result(reader(p0), root, key),
{
    reveal(reads_kept_but);
    let rd = reader(p0);
    let rd1 = reader(p1);
    let n = choose|n: nat| #[trigger] descend(rd, root, key, n) is Some;
    assert forall|q: PageId| q != x && #[trigger] rd(q) is Ok implies rd1(q) == rd(q) by {
        assert(p0.read_result(q) is Ok);
    }
    lemma_descend_frame_at(rd, rd1, root, key, n, x);
    lemma_descend_reads_leaf(rd, root, key, n);
    let leaf = descend(rd, root, key, n)->Some_0->Ok_0;
    assert(descend(rd1, root, key, n) is Some);
    let m = choose|m: nat| #[trigger] descend(rd1, root, key, m) is Some;
    if m <= n {
        lemma_descend_fuel(rd1, root, key, m, n);
    } else {
        lemma_descend_fuel(rd1, root, key, n, m);
    }
    if leaf != x {
        assert(p0.read_result(leaf) is Ok);
        assert(rd1(leaf) == rd(leaf));
    }
}

/// The result of a search that ends: the same whatever fuel it is given.
pub open spec fn search_result(rd: PageReader, pid: PageId, key: Seq<u8>) -> core::result::Result<RecordView, ErrorView> {
    spec_search(rd, pid, key, choose|n: nat| #[trigger] descend(rd, pid, key, n) is Some)->Some_0
}

/// The child page that should contain `key`, for an interior node
pub fn find_child_page(node: &BTreeNode, key: &[u8]) -> (r: Result<PageId>)
    ensures
        match child_for(node.bytes(), key@) {
            Ok(c) => r == Ok::<PageId, Error>(c),
            Err(e) => r matches Err(x) && x@ == e,
        },
{
    let cell_count = match node.cell_count() {
        Ok(n) => n,
        Err(e) => {
            return Err(e);
        },
    };
    let ghost d = node.bytes();
    if cell_count == 0 {
        return node.right_child();
    }
    let mut i: u16 = 0;
    while i < cell_count
        invariant
            i <= cell_count,
            d == node.bytes(),
            spec_page_header(d) is Ok,
            cell_count == spec_page_header(d)->Ok_0.cell_count,
            child_scan(d, key@, i as nat, cell_count as nat) == child_for(d, key@),
        decreases cell_count - i,
    {
        let cell = match node.get_interior_cell(i) {
            Ok(c) => c,
            Err(e) => {
                return Err(e);
            },
        };
        if bytes_lt(key, cell.key.as_slice()) {
            return Ok(cell.left_child);
        }
        i = i + 1;
    }
    node.right_child()
}

/// Search for `key` in a leaf node
pub fn search_leaf(node: &BTreeNode, key: &[u8]) -> (r: Result<Record>)
    ensures
        match leaf_lookup(node.bytes(), key@) {
            Ok(w) => r matches Ok(rec) && rec@ == w,
            Err(e) => r matches Err(x) && x@ == e,
        },
{
    let cell_count = match node.cell_count() {
        Ok(n) => n,
        Err(e) => {
            return Err(e);
        },
    };
    let ghost d = node.bytes();
    let mut i: u16 = 0;
    while i < cell_count
        invariant
            i <= cell_count,
            d == node.bytes(),
            spec_page_header(d) is Ok,
            cell_count == spec_page_header(d)->Ok_0.cell_count,
            leaf_scan(d, key@, i as nat, cell_count as nat) == leaf_lookup(d, key@),
        decreases cell_count - i,
    {
        let cell = match node.get_leaf_cell(i) {
            Ok(c) => c,
            Err(e) => {
                return Err(e);
            },
        };
        if bytes_eq(cell.key.as_slice(), key) {
            return Ok(cell.record);
        }
        if bytes_lt(key, cell.key.as_slice()) {
            return Err(Error::NotFound);
        }
        i = i + 1;
    }
    Err(Error::NotFound)
}

/// Whether the descent for `key` from page `root` reaches a leaf, or stops
/// at an error, within `max_levels` levels; reading the pages on the way
/// changes what no page reads.
pub fn descends_within(pager: &mut Pager, root: PageId, key: &[u8], max_levels: u64) -> (r: bool)
    requires
        old(pager).wf(),
    ensures
        final(pager).wf(),
        forall|q: PageId| #[trigger] final(pager).read_result(q) == old(pager).read_result(q),
        final(pager).image() == old(pager).image(),
        final(pager).hdr() == old(pager).hdr(),
        final(pager).psize() == old(pager).psize(),
        final(pager).in_txn() == old(pager).in_txn(),
        final(pager).shadows() == old(pager).shadows(),
        final(pager).modified() == old(pager).modified(),
        r == descend(reader(*old(pager)), root, key@, max_levels as nat) is Some,
{
    let ghost rd = reader(*pager);
    let ghost target = descend(rd, root, key@, max_levels as nat);
    let mut page_id = root;
    let mut left: u64 = max_levels;
    while left > 0
        invariant
            pager.wf(),
            forall|q: PageId| #[trigger] pager.read_result(q) == old(pager).read_result(q),
            rd == reader(*old(pager)),
            pager.image() == old(pager).image(),
            pager.hdr() == old(pager).hdr(),
            pager.psize() == old(pager).psize(),
            pager.in_txn() == old(pager).in_txn(),
            pager.shadows() == old(pager).shadows(),
            pager.modified() == old(pager).modified(),
            target == descend(rd, root, key@, max_levels as nat),
            descend(rd, page_id, key@, left as nat) is Some == target is Some,
        decreases left,
    {
        assert(rd(page_id) == old(pager).read_result(page_id));
        let page = match pager.read_page(page_id) {
            Ok(p) => p,
            Err(_) => {
                return true;
            },
        };
        let node = BTreeNode::from_page(page);
        let is_leaf = match node.is_leaf() {
            Ok(b) => b,
            Err(_) => {
                return true;
            },
        };
        if is_leaf {
            return true;
        }
        page_id = match find_child_page(&node, key) {
            Ok(c) => c,
            Err(_) => {
                return true;
            },
        };
        left = left - 1;
    }
    false
}

/// Search for a record by exact key match
pub fn search(btree: &BTree, pager: &mut Pager, key: &[u8]) -> (r: Result<Record>)
    requires
        old(pager).wf(),
        descent_ends(reader(*old(pager)), btree.root(), key@),
    ensures
        final(pager).wf(),
        forall|q: PageId| #[trigger] final(pager).read_result(q) == old(pager).read_result(q),
        final(pager).image() == old(pager).image(),
        final(pager).hdr() == old(pager).hdr(),
        final(pager).psize() == old(pager).psize(),
        final(pager).in_txn() == old(pager).in_txn(),
        final(pager).shadows() == old(pager).shadows(),
        final(pager).modified() == old(pager).modified(),
        match search_result(reader(*old(pager)), btree.root(), key@) {
            Ok(w) => r matches Ok(rec) && rec@ == w,
            Err(e) => r matches Err(x) && x@ == e,
        },
{
    let ghost rd = reader(*pager);
    let ghost n0 = choose|n: nat| #[trigger] descend(rd, btree.root(), key@, n) is Some;
    let ghost target = descend(rd, btree.root(), key@, n0);
    let mut page_id = btree.root_page_id();
    let ghost mut fuel: nat = n0;
    loop
        invariant
            pager.wf(),
            forall|q: PageId| #[trigger] pager.read_result(q) == old(pager).read_result(q),
            rd == reader(*old(pager)),
            pager.image() == old(pager).image(),
            pager.hdr() == old(pager).hdr(),
            pager.psize() == old(pager).psize(),
            pager.in_txn() == old(pager).in_txn(),
            pager.shadows() == old(pager).shadows(),
            pager.modified() == old(pager).modified(),
            target is Some,
            n0 == choose|n: nat| #[trigger] descend(rd, btree.root(), key@, n) is Some,
            target == descend(rd, btree.root(), key@, n0),
            descend(rd, page_id, key@, fuel) == target,
        decreases fuel,
    {
        assert(rd(page_id) == old(pager).read_result(page_id));
        assert(fuel > 0);
        let page = match pager.read_page(page_id) {
            Ok(p) => p,
            Err(e) => {
                return Err(e);
            },
        };
        let node = BTreeNode::from_page(page);
        let is_leaf = match node.is_leaf() {
            Ok(b) => b,
            Err(e) => {
                return Err(e);
            },
        };
        if is_leaf {
            return search_leaf(&node, key);
        }
        page_id = match find_child_page(&node, key) {
            Ok(c) => c,
            Err(e) => {
                return Err(e);
            },
        };
        proof {
            fuel = (fuel - 1) as nat;
        }
    }
}

} // verus!
