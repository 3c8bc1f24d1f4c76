//! B+Tree implementation for table storage.
use vstd::prelude::*;
use crate::error::{Error, ErrorView, Result};
use crate::storage::page::{PageId, PageType};
use crate::storage::pager::{Pager, lemma_read_frame, reads_kept_but};
use crate::storage::record;
use crate::storage::record::Record;
use crate::text::string_of;

pub mod keys;
pub mod bulk_load;
pub mod node;
pub mod leaf;
pub mod interior;
pub mod split;
pub mod parent;
pub mod deep;
pub mod rebalance;
pub mod search;
pub mod delete;
pub mod cursor;
pub mod insert;

verus! {

/// Writes a node's page back through the pager.  The page is cached, so the
/// write cannot fail.
pub fn write_node(pager: &mut Pager, node: node::BTreeNode) -> (r: Result<()>)
    requires
        old(pager).wf(),
        old(pager).cached().contains_key(node.spec_page().id),
        node.bytes().len() <= old(pager).psize(),
    ensures
        final(pager).wf(),
        r is Ok,
        final(pager).visible(node.spec_page().id) == Some(node.bytes()),
        final(pager).cached().contains_key(node.spec_page().id),
        final(pager).hdr() == old(pager).hdr(),
        final(pager).psize() == old(pager).psize(),
        final(pager).in_txn() == old(pager).in_txn(),
        forall|q: PageId| #[trigger] final(pager).cached().contains_key(q) <==> old(pager).cached().contains_key(q),
        forall|q: PageId| q != node.spec_page().id ==> #[trigger] final(pager).cached()[q] == old(pager).cached()[q],
        reads_kept_but(*old(pager), *final(pager), node.spec_page().id),
{
    proof {
        pager.lemma_cached_page(node.spec_page().id);
    }
    let ghost before = *pager;
    let ghost data = node.bytes();
    let page = node.into_page();
    let r = pager.write_page(page);
    proof {
        lemma_read_frame(before, *pager, node.spec_page().id, data);
    }
    r
}

/// B+Tree structure
pub struct BTree {
    /// Root page ID
    root_page_id: PageId,
}

impl BTree {
    /// The root page.
    pub closed spec fn root(&self) -> PageId {
        self.root_page_id
    }

    /// Create a new B+Tree whose root is a new leaf page, and record that
    /// page as the database's root
    pub fn new(pager: &mut Pager) -> (r: Result<Self>)
        requires
            old(pager).wf(),
            old(pager).psize() >= 64,
            old(pager).can_grow(),
        ensures
            final(pager).wf(),
            final(pager).psize() == old(pager).psize(),
            final(pager).in_txn() == old(pager).in_txn(),
            r matches Ok(t) ==> {
                &&& t.root() == old(pager).hdr().page_count + 1
                &&& final(pager).hdr().root_page == t.root()
                &&& final(pager).hdr().page_count == t.root()
            },
            !old(pager).in_txn() ==> r is Ok,
    {
        let root_page = match pager.allocate_page(PageType::Leaf) {
            Ok(p) => p,
            Err(e) => {
                return Err(e);
            },
        };
        let root_page_id = root_page.id;
        match pager.set_root_page(root_page_id) {
            Ok(()) => {},
            Err(e) => {
                return Err(e);
            },
        }
        Ok(BTree { root_page_id })
    }

    /// Open an existing B+Tree from its root page
    pub fn open(root_page_id: PageId) -> (r: Result<Self>)
        ensures
            root_page_id == 0 ==> (r matches Err(e) && e@ == ErrorView::BTreeError("Invalid root page ID"@)),
            root_page_id != 0 ==> (r matches Ok(t) && t.root() == root_page_id),
    {
        if root_page_id == 0 {
            return Err(Error::BTreeError(string_of("Invalid root page ID")));
        }
        Ok(BTree { root_page_id })
    }

    /// Get root page ID
    pub fn root_page_id(&self) -> (id: PageId)
        ensures
            id == self.root(),
    {
        self.root_page_id
    }

    /// Set root page ID (used during splits)
    pub fn set_root_page_id(&mut self, page_id: PageId)
        ensures
            final(self).root() == page_id,
    {
        self.root_page_id = page_id;
    }

    /// Insert a record into the B+Tree
    pub fn insert(&mut self, pager: &mut Pager, record: Record) -> (r: Result<()>)
        requires
            old(pager).wf(),
            old(pager).psize() >= 64,
            search::descent_ends(search::reader(*old(pager)), old(self).root(), record.key@),
        ensures
            insert::pager_kept(*old(pager), *final(pager)),
            final(self).root() != old(self).root() ==> {
                &&& r is Ok
                &&& final(pager).hdr().root_page == final(self).root()
                &&& final(pager).visible(final(self).root()) is Some
            },
            (delete::leaf_for(search::reader(*old(pager)), old(self).root(), record@.key) matches Ok(leaf)
                && search::reader(*old(pager))(leaf) matches Ok(d) && leaf::leaf_wf(d)
                && record::record_encodable(record@) && leaf::leaf_room(d, record@)) ==> {
                &&& r is Ok
                &&& final(self).root() == old(self).root()
                &&& search::descent_ends(search::reader(*final(pager)), final(self).root(), record@.key)
                &&& search::search_result(search::reader(*final(pager)), final(self).root(), record@.key)
                    == Ok::<record::RecordView, ErrorView>(record@)
                &&& forall|k: Seq<u8>| k != record@.key
                    && #[trigger] delete::leaf_for(search::reader(*old(pager)), old(self).root(), k) is Ok
                    && search::descent_ends(search::reader(*old(pager)), old(self).root(), k) ==> {
                    &&& search::descent_ends(search::reader(*final(pager)), final(self).root(), k)
                    &&& search::search_result(search::reader(*final(pager)), final(self).root(), k)
                        == search::search_result(search::reader(*old(pager)), old(self).root(), k)
                }
            },
            (exists|depth: nat| #[trigger] insert::nested_leaf_splits(*old(pager), old(self).root(), record@, depth)) ==> {
                &&& r is Ok
                &&& final(self).root() == old(self).root()
                &&& search::descent_ends(search::reader(*final(pager)), final(self).root(), record@.key)
                &&& search::search_result(search::reader(*final(pager)), final(self).root(), record@.key)
                    == Ok::<record::RecordView, ErrorView>(record@)
                &&& forall|k: Seq<u8>| k != record@.key ==> {
                    &&& search::descent_ends(search::reader(*final(pager)), final(self).root(), k)
                    &&& #[trigger] search::search_result(search::reader(*final(pager)), final(self).root(), k)
                        == search::search_result(search::reader(*old(pager)), old(self).root(), k)
                }
            },
            insert::root_leaf_splits(*old(pager), old(self).root(), record@) ==> {
                &&& r is Ok
                &&& final(self).root() != old(self).root()
                &&& search::descent_ends(search::reader(*final(pager)), final(self).root(), record@.key)
                &&& search::search_result(search::reader(*final(pager)), final(self).root(), record@.key)
                    == Ok::<record::RecordView, ErrorView>(record@)
                &&& forall|k: Seq<u8>| k != record@.key ==> {
                    &&& search::descent_ends(search::reader(*final(pager)), final(self).root(), k)
                    &&& #[trigger] search::search_result(search::reader(*final(pager)), final(self).root(), k)
                        == search::search_result(search::reader(*old(pager)), old(self).root(), k)
                }
            },
    {
        insert::insert(self, pager, record)
    }

    /// Delete a record from the B+Tree
    pub fn delete(&mut self, pager: &mut Pager, key: &[u8]) -> (r: Result<()>)
        requires
            old(pager).wf(),
            search::descent_ends(search::reader(*old(pager)), old(self).root(), key@),
        ensures
            final(pager).wf(),
            final(self).root() == old(self).root(),
            final(pager).hdr() == old(pager).hdr(),
            final(pager).psize() == old(pager).psize(),
            match delete::spec_delete(search::reader(*old(pager)), old(self).root(), key@) {
                Ok((leaf, bytes)) => r is Ok && final(pager).visible(leaf) == Some(bytes),
                Err(e) => r matches Err(x) && x@ == e,
            },
            (delete::leaf_for(search::reader(*old(pager)), old(self).root(), key@) matches Ok(leaf)
                && search::reader(*old(pager))(leaf) matches Ok(d) && leaf::leaf_wf(d) && r is Ok) ==> {
                &&& search::descent_ends(search::reader(*final(pager)), final(self).root(), key@)
                &&& search::search_result(search::reader(*final(pager)), final(self).root(), key@)
                    == Err::<record::RecordView, ErrorView>(ErrorView::NotFound)
                &&& forall|k: Seq<u8>| k != key@
                    && #[trigger] delete::leaf_for(search::reader(*old(pager)), old(self).root(), k) is Ok
                    && search::descent_ends(search::reader(*old(pager)), old(self).root(), k) ==> {
                    &&& search::descent_ends(search::reader(*final(pager)), final(self).root(), k)
                    &&& search::search_result(search::reader(*final(pager)), final(self).root(), k)
                        == search::search_result(search::reader(*old(pager)), old(self).root(), k)
                }
            },
    {
        delete::delete(self, pager, key)
    }

    /// Create a cursor on the first cell of the leftmost leaf
    pub fn cursor(&self, pager: &mut Pager) -> (r: Result<cursor::Cursor>)
        requires
            old(pager).wf(),
            cursor::first_descent_ends(search::reader(*old(pager)), self.root()),
        ensures
            final(pager).wf(),
            forall|q: PageId| #[trigger] final(pager).read_result(q) == old(pager).read_result(q),
            match cursor::first_leaf(search::reader(*old(pager)), self.root()) {
                Ok(leaf) => r matches Ok(c) && c.pos() == Some((leaf, 0u16)) && c.root() == self.root(),
                Err(e) => r matches Err(x) && x@ == e,
            },
    {
        cursor::Cursor::new(pager, self.root_page_id)
    }

    /// Create a cursor on the first cell of the leftmost leaf, when the
    /// leftmost descent ends within `max_levels` levels; `None`, with nothing
    /// read changed, when it takes more.
    pub fn cursor_within(&self, pager: &mut Pager, max_levels: u64) -> (r: Option<Result<cursor::Cursor>>)
        requires
            old(pager).wf(),
        ensures
            final(pager).wf(),
            forall|q: PageId| #[trigger] final(pager).read_result(q) == old(pager).read_result(q),
            r is Some <==> cursor::descend_first(search::reader(*old(pager)), self.root(), max_levels as nat) is Some,
            r matches Some(x) ==> match cursor::first_leaf(search::reader(*old(pager)), self.root()) {
                Ok(leaf) => x matches Ok(c) && c.pos() == Some((leaf, 0u16)) && c.root() == self.root(),
                Err(e) => x matches Err(y) && y@ == e,
            },
    {
        let ghost p0 = *pager;
        if !cursor::first_descends_within(pager, self.root_page_id, max_levels) {
            return None;
        }
        proof {
            assert(search::reader(*pager) =~= search::reader(p0));
        }
        Some(self.cursor(pager))
    }

    /// Search for a record by key, when the descent for the key ends within
    /// `max_levels` levels; `None`, with nothing read changed, when it takes
    /// more.
    pub fn search_within(&self, pager: &mut Pager, key: &[u8], max_levels: u64) -> (r: Option<Result<Record>>)
        requires
            old(pager).wf(),
        ensures
            final(pager).wf(),
            forall|q: PageId| #[trigger] final(pager).read_result(q) == old(pager).read_result(q),
            final(pager).hdr() == old(pager).hdr(),
            r is Some <==> search::descend(search::reader(*old(pager)), self.root(), key@, max_levels as nat) is Some,
            r matches Some(x) ==> match search::search_result(search::reader(*old(pager)), self.root(), key@) {
                Ok(w) => x matches Ok(rec) && rec@ == w,
                Err(e) => x matches Err(y) && y@ == e,
            },
    {
        let ghost p0 = *pager;
        if !search::descends_within(pager, self.root_page_id, key, max_levels) {
            return None;
        }
        proof {
            assert(search::reader(*pager) =~= search::reader(p0));
        }
        Some(search::search(self, pager, key))
    }

    /// Search for a record by key
    pub fn search(&self, pager: &mut Pager, key: &[u8]) -> (r: Result<Record>)
        requires
            old(pager).wf(),
            search::descent_ends(search::reader(*old(pager)), self.root(), key@),
        ensures
            final(pager).wf(),
            forall|q: PageId| #[trigger] final(pager).read_result(q) == old(pager).read_result(q),
            final(pager).image() == old(pager).image(),
            final(pager).hdr() == old(pager).hdr(),
            match search::search_result(search::reader(*old(pager)), self.root(), key@) {
                Ok(w) => r matches Ok(rec) && rec@ == w,
                Err(e) => r matches Err(x) && x@ == e,
            },
    {
        search::search(self, pager, key)
    }
}

} // verus!
