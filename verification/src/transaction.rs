//! Transaction context for tracking page modifications.
//!
//! Shadow paging: the original contents of a page are saved before its
//! first modification, so that a rollback can restore them.
use vstd::prelude::*;
use std::collections::HashMap;
use crate::error::{Error, ErrorView, Result};
use crate::storage::page::{Page, PageId};
use crate::text::string_of;

verus! {

broadcast use vstd::std_specs::hash::group_hash_axioms;

/// Transaction state
#[derive(Debug, Clone, Copy, PartialEq, Eq, Structural)]
pub enum TransactionState {
    /// No active transaction
    Idle,
    /// Transaction in progress
    Active,
    /// Transaction committed
    Committed,
    /// Transaction rolled back
    RolledBack,
}

/// Transaction context tracks all changes during a transaction
pub struct TransactionContext {
    /// Original page data (before modification) for rollback
    original_pages: HashMap<PageId, Vec<u8>>,
    /// Modified pages during this transaction
    modified_pages: HashMap<PageId, Page>,
    /// Transaction state
    state: TransactionState,
}

impl TransactionContext {
    /// The saved originals, by page.
    pub closed spec fn originals(&self) -> Map<PageId, Seq<u8>> {
        self.original_pages@.map_values(|v: Vec<u8>| v@)
    }

    /// The modified pages, by page.
    pub closed spec fn modified(&self) -> Map<PageId, Page> {
        self.modified_pages@
    }

    /// The current state.
    pub closed spec fn spec_state(&self) -> TransactionState {
        self.state
    }

    /// Create a new transaction context
    pub fn new() -> (t: Self)
        ensures
            t.originals() == Map::<PageId, Seq<u8>>::empty(),
            t.modified() == Map::<PageId, Page>::empty(),
            t.spec_state() == TransactionState::Idle,
    {
        let t = TransactionContext {
            original_pages: HashMap::new(),
            modified_pages: HashMap::new(),
            state: TransactionState::Idle,
        };
        assert(t.originals() =~= Map::<PageId, Seq<u8>>::empty());
        t
    }

    /// Begin a transaction
    pub fn begin(&mut self) -> (r: Result<()>)
        ensures
            old(self).spec_state() == TransactionState::Active ==> {
                &&& r matches Err(e) && e@ == ErrorView::Internal("Transaction already active"@)
                &&& *final(self) == *old(self)
            },
            old(self).spec_state() != TransactionState::Active ==> {
                &&& r is Ok
                &&& final(self).originals() == Map::<PageId, Seq<u8>>::empty()
                &&& final(self).modified() == Map::<PageId, Page>::empty()
                &&& final(self).spec_state() == TransactionState::Active
            },
    {
        if self.state == TransactionState::Active {
            return Err(Error::Internal(string_of("Transaction already active")));
        }
        self.original_pages.clear();
        self.modified_pages.clear();
        self.state = TransactionState::Active;
        assert(self.originals() =~= Map::<PageId, Seq<u8>>::empty());
        Ok(())
    }

    /// Save original page data before first modification (only the first
    /// version is kept)
    pub fn save_original(&mut self, page_id: PageId, original_data: Vec<u8>)
        ensures
            final(self).originals() == if old(self).originals().contains_key(page_id) {
                old(self).originals()
            } else {
                old(self).originals().insert(page_id, original_data@)
            },
            final(self).modified() == old(self).modified(),
            final(self).spec_state() == old(self).spec_state(),
    {
        if !self.original_pages.contains_key(&page_id) {
            self.original_pages.insert(page_id, original_data);
            assert(self.originals() =~= old(self).originals().insert(page_id, original_data@));
        }
    }

    /// Track a modified page
    pub fn track_modified_page(&mut self, page: Page)
        ensures
            final(self).modified() == old(self).modified().insert(page.id, page),
            final(self).originals() == old(self).originals(),
            final(self).spec_state() == old(self).spec_state(),
    {
        let id = page.id;
        self.modified_pages.insert(id, page);
    }

    /// Get a modified page (if it exists in transaction)
    pub fn get_modified_page(&self, page_id: PageId) -> (r: Option<&Page>)
        ensures
            match r {
                Some(p) => self.modified().contains_key(page_id) && *p == self.modified()[page_id],
                None => !self.modified().contains_key(page_id),
            },
    {
        self.modified_pages.get(&page_id)
    }

    /// Get all modified pages
    pub fn modified_pages(&self) -> (r: &HashMap<PageId, Page>)
        ensures
            r@ == self.modified(),
    {
        &self.modified_pages
    }

    /// Get original page data for rollback
    pub fn get_original_data(&self, page_id: PageId) -> (r: Option<&Vec<u8>>)
        ensures
            match r {
                Some(d) => self.originals().contains_key(page_id) && d@ == self.originals()[page_id],
                None => !self.originals().contains_key(page_id),
            },
    {
        self.original_pages.get(&page_id)
    }

    /// Commit the transaction
    pub fn commit(&mut self)
        ensures
            final(self).spec_state() == TransactionState::Committed,
            final(self).originals() == Map::<PageId, Seq<u8>>::empty(),
            final(self).modified() == Map::<PageId, Page>::empty(),
    {
        self.state = TransactionState::Committed;
        self.original_pages.clear();
        self.modified_pages.clear();
        assert(self.originals() =~= Map::<PageId, Seq<u8>>::empty());
    }

    /// Rollback the transaction, returning original pages to restore
    pub fn rollback(&mut self) -> (r: HashMap<PageId, Vec<u8>>)
        ensures
            r@.map_values(|v: Vec<u8>| v@) == old(self).originals(),
            final(self).spec_state() == TransactionState::RolledBack,
            final(self).originals() == Map::<PageId, Seq<u8>>::empty(),
            final(self).modified() == Map::<PageId, Page>::empty(),
    {
        self.state = TransactionState::RolledBack;
        self.modified_pages.clear();
        let mut taken: HashMap<PageId, Vec<u8>> = HashMap::new();
        std::mem::swap(&mut taken, &mut self.original_pages);
        assert(self.originals() =~= Map::<PageId, Seq<u8>>::empty());
        taken
    }

    /// Check if transaction is active
    pub fn is_active(&self) -> (b: bool)
        ensures
            b == (self.spec_state() == TransactionState::Active),
    {
        self.state == TransactionState::Active
    }

    /// Get transaction state
    pub fn state(&self) -> (s: TransactionState)
        ensures
            s == self.spec_state(),
    {
        self.state
    }

    /// Clear transaction state
    pub fn clear(&mut self)
        ensures
            final(self).spec_state() == TransactionState::Idle,
            final(self).originals() == Map::<PageId, Seq<u8>>::empty(),
            final(self).modified() == Map::<PageId, Page>::empty(),
    {
        self.original_pages.clear();
        self.modified_pages.clear();
        self.state = TransactionState::Idle;
        assert(self.originals() =~= Map::<PageId, Seq<u8>>::empty());
    }
}

impl Default for TransactionContext {
    fn default() -> (t: Self)
        ensures
            t.originals() == Map::<PageId, Seq<u8>>::empty(),
            t.modified() == Map::<PageId, Page>::empty(),
            t.spec_state() == TransactionState::Idle,
    {
        Self::new()
    }
}

/// A rollback hands back exactly the first saved version of each page:
/// saving a page twice keeps the first copy.
pub proof fn law_first_save_wins(t0: TransactionContext, t1: TransactionContext, t2: TransactionContext,
    id: PageId, a: Seq<u8>, b: Seq<u8>)
    requires
        !t0.originals().contains_key(id),
        t1.originals() == t0.originals().insert(id, a),
        t2.originals() == if t1.originals().contains_key(id) { t1.originals() } else { t1.originals().insert(id, b) },
    ensures
        t2.originals()[id] == a,
{
}

} // verus!
