//! B+Tree cursor: a position on a leaf cell, for reading records in key
//! order within a leaf.  Moving past a leaf's last cell ends the cursor.
use vstd::prelude::*;
use crate::error::{Error, ErrorView, Result};
use crate::storage::btree::node::{BTreeNode, cell_keys, cells_readable, interior_cell_at, keys_sorted, leaf_cell_at, lower_bound_ok};
use crate::storage::btree::search::{PageReader, descend, descent_ends, find_child_page, reader};
use crate::storage::page::{PageId, PageType, spec_page_header};
use crate::storage::pager::Pager;
use crate::storage::record::Record;
use crate::text::string_of;

verus! {

/// What moving a cursor at `pos` to the next cell gives, and where it
/// leaves the cursor: on no position, `NotFound`; on a page that does not
/// read, the error, in place; on the leaf's last cell or past it, the end
/// (`false`) and no position; else the next cell (`true`).
pub open spec fn next_outcome(pos: Option<(PageId, u16)>, rd: PageReader)
    -> (core::result::Result<bool, ErrorView>, Option<(PageId, u16)>)
{
    match pos {
        None => (Err(ErrorView::NotFound), None),
        Some((pid, i)) => match rd(pid) {
            Err(e) => (Err(e), pos),
            Ok(d) => match spec_page_header(d) {
                Err(m) => (Err(ErrorView::InvalidPage(m)), pos),
                Ok(h) => if i + 1 < h.cell_count {
                    (Ok(true), Some((pid, (i + 1) as u16)))
                } else {
                    (Ok(false), None)
                },
            },
        },
    }
}

/// A cursor's validity and `next`: a move (`true`) leaves the cursor valid
/// and the end (`false`) leaves it invalid; an invalid cursor answers
/// `NotFound` and stays invalid, so once `next` has reported the end, every
/// later `next` answers `NotFound`.
pub proof fn law_next_validity(pos: Option<(PageId, u16)>, rd: PageReader)
    ensures
        next_outcome(pos, rd).0 == Ok::<bool, ErrorView>(true) ==> next_outcome(pos, rd).1 is Some,
        next_outcome(pos, rd).0 == Ok::<bool, ErrorView>(false) ==> next_outcome(pos, rd).1 is None,
        pos is None ==> next_outcome(pos, rd) == (Err::<bool, ErrorView>(ErrorView::NotFound), None::<(PageId, u16)>),
        next_outcome(pos, rd).0 == Ok::<bool, ErrorView>(false)
            ==> next_outcome(next_outcome(pos, rd).1, rd).0 == Err::<bool, ErrorView>(ErrorView::NotFound),
{
}

/// The leftmost leaf under `pid`, within `fuel` levels: each interior node
/// is left by its first cell's left child, or by its right child when it
/// has no cells.
pub open spec fn descend_first(rd: PageReader, pid: PageId, fuel: nat) -> Option<core::result::Result<PageId, ErrorView>>
    decreases fuel,
{
    if fuel == 0 {
        None
    } else {
        match rd(pid) {
            Err(e) => Some(Err(e)),
            Ok(d) => match spec_page_header(d) {
                Err(m) => Some(Err(ErrorView::InvalidPage(m))),
                Ok(h) => if h.page_type == PageType::Leaf {
                    Some(Ok(pid))
                } else if h.cell_count == 0 {
                    descend_first(rd, h.right_child, (fuel - 1) as nat)
                } else {
                    match interior_cell_at(d, 0) {
                        Err(e) => Some(Err(e)),
                        Ok((_, l)) => descend_first(rd, l, (fuel - 1) as nat),
                    }
                },
            },
        }
    }
}

/// Whether the leftmost descent from `pid` reaches a leaf or an error.
pub open spec fn first_descent_ends(rd: PageReader, pid: PageId) -> bool {
    exists|n: nat| #[trigger] descend_first(rd, pid, n) is Some
}

/// Where the leftmost descent from `pid` ends.
pub open spec fn first_leaf(rd: PageReader, pid: PageId) -> core::result::Result<PageId, ErrorView> {
    descend_first(rd, pid, choose|n: nat| #[trigger] descend_first(rd, pid, n) is Some)->Some_0
}

/// Whether the leftmost descent from page `root` reaches a leaf, or stops
/// at an error, within `max_levels` levels; reading the pages on the way
/// changes what no page reads.
pub fn first_descends_within(pager: &mut Pager, root: PageId, max_levels: u64) -> (r: bool)
    requires
        old(pager).wf(),
    ensures
        final(pager).wf(),
        forall|q: PageId| #[trigger] final(pager).read_result(q) == old(pager).read_result(q),
        final(pager).hdr() == old(pager).hdr(),
        final(pager).psize() == old(pager).psize(),
        r == descend_first(reader(*old(pager)), root, max_levels as nat) is Some,
{
    let ghost rd = reader(*pager);
    let ghost target = descend_first(rd, root, max_levels as nat);
    let mut page_id = root;
    let mut left: u64 = max_levels;
    while left > 0
        invariant
            pager.wf(),
            forall|q: PageId| #[trigger] pager.read_result(q) == old(pager).read_result(q),
            rd == reader(*old(pager)),
            pager.hdr() == old(pager).hdr(),
            pager.psize() == old(pager).psize(),
            target == descend_first(rd, root, max_levels as nat),
            descend_first(rd, page_id, left as nat) is Some == target is Some,
        decreases left,
    {
        assert(rd(page_id) == old(pager).read_result(page_id));
        let page = match pager.read_page(page_id) {
            Ok(p) => p,
            Err(_) => {
                return true;
            },
        };
        let node = BTreeNode::from_page(page);
        let is_leaf = match node.is_leaf() {
            Ok(b) => b,
            Err(_) => {
                return true;
            },
        };
        if is_leaf {
            return true;
        }
        let cell_count = match node.cell_count() {
            Ok(n) => n,
            Err(_) => {
                return true;
            },
        };
        if cell_count == 0 {
            page_id = match node.right_child() {
                Ok(c) => c,
                Err(_) => {
                    return true;
                },
            };
        } else {
            let cell = match node.get_interior_cell(0) {
                Ok(c) => c,
                Err(_) => {
                    return true;
                },
            };
            page_id = cell.left_child;
        }
        left = left - 1;
    }
    false
}

/// Position within a page
#[derive(Debug, Clone, Copy)]
struct CursorPosition {
    /// Page ID
    page_id: PageId,
    /// Cell index within the page
    cell_index: u16,
}

/// Cursor for scanning a B+Tree
pub struct Cursor {
    /// Current position
    position: Option<CursorPosition>,
    /// Root page ID
    root_page_id: PageId,
}

impl Cursor {
    /// The leaf page and cell the cursor is on, if any.
    pub closed spec fn pos(&self) -> Option<(PageId, u16)> {
        match self.position {
            Some(p) => Some((p.page_id, p.cell_index)),
            None => None,
        }
    }

    /// The root of the scanned tree.
    pub closed spec fn root(&self) -> PageId {
        self.root_page_id
    }

    /// Create a new cursor positioned at the first cell of the leftmost leaf
    pub fn new(pager: &mut Pager, root_page_id: PageId) -> (r: Result<Self>)
        requires
            old(pager).wf(),
            first_descent_ends(reader(*old(pager)), root_page_id),
        ensures
            final(pager).wf(),
            forall|q: PageId| #[trigger] final(pager).read_result(q) == old(pager).read_result(q),
            final(pager).hdr() == old(pager).hdr(),
            final(pager).psize() == old(pager).psize(),
            match first_leaf(reader(*old(pager)), root_page_id) {
                Ok(leaf) => r matches Ok(c) && c.pos() == Some((leaf, 0u16)) && c.root() == root_page_id,
                Err(e) => r matches Err(x) && x@ == e,
            },
    {
        let mut cursor = Cursor { position: None, root_page_id };
        match cursor.move_to_first(pager) {
            Ok(()) => Ok(cursor),
            Err(e) => Err(e),
        }
    }

    /// Move cursor to the first cell of the leftmost leaf
    pub fn move_to_first(&mut self, pager: &mut Pager) -> (r: Result<()>)
        requires
            old(pager).wf(),
            first_descent_ends(reader(*old(pager)), old(self).root()),
        ensures
            final(pager).wf(),
            forall|q: PageId| #[trigger] final(pager).read_result(q) == old(pager).read_result(q),
            final(pager).hdr() == old(pager).hdr(),
            final(pager).psize() == old(pager).psize(),
            final(self).root() == old(self).root(),
            match first_leaf(reader(*old(pager)), old(self).root()) {
                Ok(leaf) => r is Ok && final(self).pos() == Some((leaf, 0u16)),
                Err(e) => r matches Err(x) && x@ == e && final(self).pos() == old(self).pos(),
            },
    {
        let ghost rd = reader(*pager);
        let ghost n0 = choose|n: nat| #[trigger] descend_first(rd, self.root_page_id, n) is Some;
        let ghost target = descend_first(rd, self.root_page_id, n0);
        let mut page_id = self.root_page_id;
        let ghost mut fuel: nat = n0;
        loop
            invariant
                pager.wf(),
                forall|q: PageId| #[trigger] pager.read_result(q) == old(pager).read_result(q),
                rd == reader(*old(pager)),
                pager.hdr() == old(pager).hdr(),
                pager.psize() == old(pager).psize(),
                *self == *old(self),
                target is Some,
                n0 == choose|n: nat| #[trigger] descend_first(rd, self.root(), n) is Some,
                target == descend_first(rd, self.root(), n0),
                descend_first(rd, page_id, fuel) == target,
            decreases fuel,
        {
            assert(rd(page_id) == old(pager).read_result(page_id));
            assert(fuel > 0);
            let page = match pager.read_page(page_id) {
                Ok(p) => p,
                Err(e) => {
                    return Err(e);
                },
            };
            let node = BTreeNode::from_page(page);
            let is_leaf = match node.is_leaf() {
                Ok(b) => b,
                Err(e) => {
                    return Err(e);
                },
            };
            if is_leaf {
                self.position = Some(CursorPosition { page_id, cell_index: 0 });
                return Ok(());
            }
            let cell_count = match node.cell_count() {
                Ok(n) => n,
                Err(e) => {
                    return Err(e);
                },
            };
            if cell_count == 0 {
                page_id = match node.right_child() {
                    Ok(c) => c,
                    Err(e) => {
                        return Err(e);
                    },
                };
            } else {
                let cell = match node.get_interior_cell(0) {
                    Ok(c) => c,
                    Err(e) => {
                        return Err(e);
                    },
                };
                page_id = cell.left_child;
            }
            proof {
                fuel = (fuel - 1) as nat;
            }
        }
    }

    /// Seek to the cell where `key` is or would go, in the leaf the key's
    /// descent reaches
    pub fn seek(&mut self, pager: &mut Pager, key: &[u8]) -> (r: Result<()>)
        requires
            old(pager).wf(),
            descent_ends(reader(*old(pager)), old(self).root(), key@),
        ensures
            final(pager).wf(),
            forall|q: PageId| #[trigger] final(pager).read_result(q) == old(pager).read_result(q),
            final(pager).hdr() == old(pager).hdr(),
            final(pager).psize() == old(pager).psize(),
            final(self).root() == old(self).root(),
            r is Err ==> final(self).pos() == old(self).pos(),
            match descend(reader(*old(pager)), old(self).root(), key@,
                choose|n: nat| #[trigger] descend(reader(*old(pager)), old(self).root(), key@, n) is Some)->Some_0 {
                Ok(leaf) => {
                    let d = old(pager).read_result(leaf)->Ok_0;
                    let ks = cell_keys(d, true);
                    &&& cells_readable(d, true) ==> r is Ok
                    &&& r is Ok ==> (final(self).pos() matches Some((p, i)) && p == leaf && i <= ks.len()
                        && (cells_readable(d, true) && keys_sorted(ks) ==> lower_bound_ok(ks, key@, i as int)))
                },
                Err(e) => r matches Err(x) && x@ == e,
            },
    {
        let ghost rd = reader(*pager);
        let ghost n0 = choose|n: nat| #[trigger] descend(rd, self.root_page_id, key@, n) is Some;
        let ghost target = descend(rd, self.root_page_id, key@, n0);
        let mut page_id = self.root_page_id;
        let ghost mut fuel: nat = n0;
        loop
            invariant
                pager.wf(),
                forall|q: PageId| #[trigger] pager.read_result(q) == old(pager).read_result(q),
                rd == reader(*old(pager)),
                pager.hdr() == old(pager).hdr(),
                pager.psize() == old(pager).psize(),
                *self == *old(self),
                target is Some,
                n0 == choose|n: nat| #[trigger] descend(rd, self.root(), key@, n) is Some,
                target == descend(rd, self.root(), key@, n0),
                descend(rd, page_id, key@, fuel) == target,
            decreases fuel,
        {
            assert(rd(page_id) == old(pager).read_result(page_id));
            assert(fuel > 0);
            let page = match pager.read_page(page_id) {
                Ok(p) => p,
                Err(e) => {
                    return Err(e);
                },
            };
            let node = BTreeNode::from_page(page);
            let is_leaf = match node.is_leaf() {
                Ok(b) => b,
                Err(e) => {
                    return Err(e);
                },
            };
            if is_leaf {
                let cell_index = match node.find_cell_index(key) {
                    Ok(i) => i,
                    Err(e) => {
                        return Err(e);
                    },
                };
                self.position = Some(CursorPosition { page_id, cell_index });
                return Ok(());
            }
            page_id = match find_child_page(&node, key) {
                Ok(c) => c,
                Err(e) => {
                    return Err(e);
                },
            };
            proof {
                fuel = (fuel - 1) as nat;
            }
        }
    }

    /// Get the record at the cursor
    pub fn current(&self, pager: &mut Pager) -> (r: Result<Record>)
        requires
            old(pager).wf(),
        ensures
            final(pager).wf(),
            forall|q: PageId| #[trigger] final(pager).read_result(q) == old(pager).read_result(q),
            final(pager).hdr() == old(pager).hdr(),
            final(pager).psize() == old(pager).psize(),
            match self.pos() {
                None => r matches Err(e) && e@ == ErrorView::NotFound,
                Some((pid, i)) => match old(pager).read_result(pid) {
                    Err(e) => r matches Err(x) && x@ == e,
                    Ok(d) => match spec_page_header(d) {
                        Err(m) => r matches Err(x) && x@ == ErrorView::InvalidPage(m),
                        Ok(h) => if h.page_type != PageType::Leaf {
                            r matches Err(x) && x@ == ErrorView::Internal("Cursor not on leaf page"@)
                        } else if i >= h.cell_count {
                            r matches Err(x) && x@ == ErrorView::NotFound
                        } else {
                            match leaf_cell_at(d, i as int) {
                                Ok(w) => r matches Ok(rec) && rec@ == w,
                                Err(e) => r matches Err(x) && x@ == e,
                            }
                        },
                    },
                },
            },
    {
        let pos = match self.position {
            Some(p) => p,
            None => {
                return Err(Error::NotFound);
            },
        };
        let page = match pager.read_page(pos.page_id) {
            Ok(p) => p,
            Err(e) => {
                return Err(e);
            },
        };
        let node = BTreeNode::from_page(page);
        let is_leaf = match node.is_leaf() {
            Ok(b) => b,
            Err(e) => {
                return Err(e);
            },
        };
        if !is_leaf {
            return Err(Error::Internal(string_of("Cursor not on leaf page")));
        }
        let cell_count = match node.cell_count() {
            Ok(n) => n,
            Err(e) => {
                return Err(e);
            },
        };
        if pos.cell_index >= cell_count {
            return Err(Error::NotFound);
        }
        match node.get_leaf_cell(pos.cell_index) {
            Ok(cell) => Ok(cell.record),
            Err(e) => Err(e),
        }
    }

    /// Move to the next cell of the leaf; past the last one the cursor ends
    pub fn next(&mut self, pager: &mut Pager) -> (r: Result<bool>)
        requires
            old(pager).wf(),
        ensures
            final(pager).wf(),
            forall|q: PageId| #[trigger] final(pager).read_result(q) == old(pager).read_result(q),
            final(pager).hdr() == old(pager).hdr(),
            final(pager).psize() == old(pager).psize(),
            final(self).root() == old(self).root(),
            match r {
                Ok(b) => Ok::<bool, ErrorView>(b),
                Err(e) => Err::<bool, ErrorView>(e@),
            } == next_outcome(old(self).pos(), reader(*old(pager))).0,
            final(self).pos() == next_outcome(old(self).pos(), reader(*old(pager))).1,
    {
        let pos = match self.position {
            Some(p) => p,
            None => {
                return Err(Error::NotFound);
            },
        };
        let page = match pager.read_page(pos.page_id) {
            Ok(p) => p,
            Err(e) => {
                return Err(e);
            },
        };
        let node = BTreeNode::from_page(page);
        let cell_count = match node.cell_count() {
            Ok(n) => n,
            Err(e) => {
                return Err(e);
            },
        };
        if (pos.cell_index as u32) + 1 < cell_count as u32 {
            self.position = Some(CursorPosition { page_id: pos.page_id, cell_index: pos.cell_index + 1 });
            return Ok(true);
        }
        self.position = None;
        Ok(false)
    }

    /// Whether the cursor is on a cell
    pub fn is_valid(&self) -> (b: bool)
        ensures
            b == self.pos() is Some,
    {
        self.position.is_some()
    }
}

} // verus!
