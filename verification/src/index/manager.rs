//! The set of loaded indexes, by name.
use vstd::prelude::*;
use crate::catalog::schema::IndexSchema;
use crate::error::{Error, ErrorView, Result};
use crate::index::index_btree::{IndexBTree, IndexKeyBuilder, first_id, inserted, removed, values_key, entry_index};
use crate::planner::compiler::{first_index, lemma_first_index, lemma_first_index_none, lemma_first_index_some};
use crate::storage::pager::Pager;
use crate::storage::record::Value;
use crate::text::{push_str, str_eq, string_of};

verus! {

/// Index manager - manages all loaded indexes
pub struct IndexManager {
    /// Loaded indexes by name, each name once
    pub indexes: Vec<(String, IndexBTree)>,
}

/// The message for an index that is not loaded.
pub open spec fn not_found_text(name: Seq<char>) -> Seq<char> {
    "Index '"@ + name + "' not found"@
}

/// What inserting under a key does to an index, as `IndexBTree::insert`
/// states it.
pub open spec fn insert_outcome(before: IndexBTree, after: IndexBTree, r: Result<()>, key: Seq<u8>, id: u64) -> bool {
    &&& after.wf()
    &&& after.root() == before.root()
    &&& after.is_unique_spec() == before.is_unique_spec()
    &&& before.is_unique_spec() && entry_index(before.entries(), key) is Some ==> {
        &&& r matches Err(e) && e@ == ErrorView::Internal("Unique constraint violation"@)
        &&& after.entries() == before.entries()
    }
    &&& !(before.is_unique_spec() && entry_index(before.entries(), key) is Some) ==> {
        &&& r is Ok
        &&& after.entries() == inserted(before.entries(), before.is_unique_spec(), key, id)
    }
}

impl IndexManager {
    /// The names of the loaded indexes, in load order.
    pub open spec fn names(&self) -> Seq<Seq<char>> {
        self.indexes@.map_values(|p: (String, IndexBTree)| p.0@)
    }

    /// Well-formedness: names are distinct and each index is well formed.
    pub open spec fn wf(&self) -> bool {
        &&& forall|i: int, j: int| 0 <= i < self.indexes@.len() && 0 <= j < self.indexes@.len() && i != j
            ==> self.indexes@[i].0@ != self.indexes@[j].0@
        &&& forall|i: int| 0 <= i < self.indexes@.len() ==> (#[trigger] self.indexes@[i]).1.wf()
    }

    /// Only the index at `i` differs between two managers.
    pub open spec fn same_except(a: Seq<(String, IndexBTree)>, b: Seq<(String, IndexBTree)>, i: int) -> bool {
        &&& a.len() == b.len()
        &&& forall|j: int| 0 <= j < a.len() && j != i ==> a[j] == b[j]
        &&& a[i].0 == b[i].0
    }

    /// Create a new index manager
    pub fn new() -> (m: Self)
        ensures
            m.wf(),
            m.indexes@.len() == 0,
    {
        IndexManager { indexes: Vec::new() }
    }

    fn lookup(&self, name: &str) -> (r: Option<usize>)
        ensures
            match (r, first_index(self.names(), name@)) {
                (Some(a), Some(b)) => a == b,
                (None, None) => true,
                _ => false,
            },
    {
        let mut i: usize = 0;
        while i < self.indexes.len()
            invariant
                i <= self.indexes@.len(),
                forall|j: int| 0 <= j < i ==> self.names()[j] != name@,
            decreases self.indexes.len() - i,
        {
            assert(self.names()[i as int] == self.indexes@[i as int].0@);
            if str_eq(self.indexes[i].0.as_str(), name) {
                proof { lemma_first_index(self.names(), name@, i as int); }
                return Some(i);
            }
            i = i + 1;
        }
        proof { lemma_first_index_none(self.names(), name@); }
        None
    }

    /// Load an index: a new, empty index for the schema, under its name,
    /// replacing one loaded under that name
    pub fn load_index(&mut self, schema: &IndexSchema, pager: &mut Pager) -> (r: Result<()>)
        requires
            old(self).wf(),
        ensures
            r is Ok,
            final(self).wf(),
            *final(pager) == *old(pager),
            match first_index(old(self).names(), schema.name@) {
                Some(i) => Self::same_except(old(self).indexes@, final(self).indexes@, i),
                None => final(self).indexes@.len() == old(self).indexes@.len() + 1
                    && final(self).indexes@.take(old(self).indexes@.len() as int) == old(self).indexes@,
            },
            exists|i: int| 0 <= i < final(self).indexes@.len() && #[trigger] final(self).indexes@[i].0@ == schema.name@ && {
                let ix = final(self).indexes@[i].1;
                &&& ix.entries() == Seq::<(Seq<u8>, Seq<u64>)>::empty()
                &&& ix.root() == schema.root_page
                &&& ix.is_unique_spec() == schema.unique
            },
    {
        let index = match IndexBTree::new(pager, schema.root_page, schema.unique) {
            Ok(ix) => ix,
            Err(e) => { return Err(e); },
        };
        match self.lookup(schema.name.as_str()) {
            Some(i) => {
                let (name, _) = self.indexes.remove(i);
                self.indexes.insert(i, (name, index));
                assert(self.indexes@[i as int].0@ == schema.name@);
            },
            None => {
                assert forall|j: int| 0 <= j < old(self).indexes@.len() implies old(self).indexes@[j].0@ != schema.name@ by {
                    if old(self).indexes@[j].0@ == schema.name@ {
                        assert(old(self).names()[j] == schema.name@);
                        lemma_first_index_some(old(self).names(), schema.name@, j);
                    }
                }
                self.indexes.push((schema.name.clone(), index));
                assert(self.indexes@.take(old(self).indexes@.len() as int) =~= old(self).indexes@);
                assert(self.indexes@[old(self).indexes@.len() as int].0@ == schema.name@);
            },
        }
        Ok(())
    }

    /// Get an index by name
    pub fn get_index(&mut self, name: &str) -> (r: Option<&mut IndexBTree>)
        requires
            old(self).wf(),
        ensures
            match first_index(old(self).names(), name@) {
                Some(i) => r matches Some(ix) && *ix == old(self).indexes@[i].1
                    && final(self).indexes@ == old(self).indexes@.update(i, (old(self).indexes@[i].0, *final(ix))),
                None => r is None && final(self).indexes@ == old(self).indexes@,
            },
    {
        match self.lookup(name) {
            Some(i) => Some(&mut self.indexes[i].1),
            None => None,
        }
    }

    fn not_found(name: &str) -> (e: Error)
        ensures
            e@ == ErrorView::Internal(not_found_text(name@)),
    {
        let mut m = string_of("Index '");
        push_str(&mut m, name);
        push_str(&mut m, "' not found");
        Error::Internal(m)
    }

    /// Insert a row id into an index, under the key of the values
    pub fn insert_into_index(&mut self, index_name: &str, values: &[Value], row_id: u64, pager: &mut Pager) -> (r: Result<()>)
        requires
            old(self).wf(),
        ensures
            final(self).wf(),
            *final(pager) == *old(pager),
            match first_index(old(self).names(), index_name@) {
                Some(i) => Self::same_except(old(self).indexes@, final(self).indexes@, i)
                    && insert_outcome(old(self).indexes@[i].1, final(self).indexes@[i].1, r, values_key(values@.map_values(|v: Value| v@)), row_id),
                None => (r matches Err(e) && e@ == ErrorView::Internal(not_found_text(index_name@)))
                    && final(self).indexes@ == old(self).indexes@,
            },
    {
        match self.lookup(index_name) {
            Some(i) => {
                let key = IndexKeyBuilder::build_key(values);
                let (name, mut index) = self.indexes.remove(i);
                let r = index.insert(pager, key.as_slice(), row_id);
                self.indexes.insert(i, (name, index));
                r
            },
            None => Err(Self::not_found(index_name)),
        }
    }

    /// Delete the key of the values from an index
    pub fn delete_from_index(&mut self, index_name: &str, values: &[Value], pager: &mut Pager) -> (r: Result<()>)
        requires
            old(self).wf(),
        ensures
            final(self).wf(),
            *final(pager) == *old(pager),
            match first_index(old(self).names(), index_name@) {
                Some(i) => Self::same_except(old(self).indexes@, final(self).indexes@, i) && r is Ok && {
                    let (a, b) = (old(self).indexes@[i].1, final(self).indexes@[i].1);
                    &&& b.wf()
                    &&& b.entries() == removed(a.entries(), values_key(values@.map_values(|v: Value| v@)))
                    &&& b.root() == a.root()
                    &&& b.is_unique_spec() == a.is_unique_spec()
                },
                None => (r matches Err(e) && e@ == ErrorView::Internal(not_found_text(index_name@)))
                    && final(self).indexes@ == old(self).indexes@,
            },
    {
        match self.lookup(index_name) {
            Some(i) => {
                let key = IndexKeyBuilder::build_key(values);
                let (name, mut index) = self.indexes.remove(i);
                let r = index.delete(pager, key.as_slice());
                self.indexes.insert(i, (name, index));
                r
            },
            None => Err(Self::not_found(index_name)),
        }
    }

    /// Search an index for the key of the values: the first row id under it
    pub fn search_index(&mut self, index_name: &str, values: &[Value], pager: &mut Pager) -> (r: Result<Option<u64>>)
        requires
            old(self).wf(),
        ensures
            final(self).indexes@ == old(self).indexes@,
            *final(pager) == *old(pager),
            match first_index(old(self).names(), index_name@) {
                Some(i) => r == Ok::<Option<u64>, Error>(first_id(old(self).indexes@[i].1.entries(), values_key(values@.map_values(|v: Value| v@)))),
                None => r matches Err(e) && e@ == ErrorView::Internal(not_found_text(index_name@)),
            },
    {
        match self.lookup(index_name) {
            Some(i) => {
                let key = IndexKeyBuilder::build_key(values);
                let (name, mut index) = self.indexes.remove(i);
                let r = index.search(pager, key.as_slice());
                self.indexes.insert(i, (name, index));
                assert(self.indexes@ =~= old(self).indexes@);
                r
            },
            None => Err(Self::not_found(index_name)),
        }
    }

    /// Update an index entry: delete the old values' key, then insert the
    /// row id under the new values' key
    pub fn update_index(
        &mut self,
        index_name: &str,
        old_values: &[Value],
        new_values: &[Value],
        row_id: u64,
        pager: &mut Pager,
    ) -> (r: Result<()>)
        requires
            old(self).wf(),
        ensures
            final(self).wf(),
            *final(pager) == *old(pager),
            match first_index(old(self).names(), index_name@) {
                Some(i) => Self::same_except(old(self).indexes@, final(self).indexes@, i) && {
                    let a = old(self).indexes@[i].1;
                    let b = final(self).indexes@[i].1;
                    let k_old = values_key(old_values@.map_values(|v: Value| v@));
                    let k_new = values_key(new_values@.map_values(|v: Value| v@));
                    let mid = removed(a.entries(), k_old);
                    &&& b.wf()
                    &&& b.root() == a.root()
                    &&& b.is_unique_spec() == a.is_unique_spec()
                    &&& a.is_unique_spec() && entry_index(mid, k_new) is Some ==> {
                        &&& r matches Err(e) && e@ == ErrorView::Internal("Unique constraint violation"@)
                        &&& b.entries() == mid
                    }
                    &&& !(a.is_unique_spec() && entry_index(mid, k_new) is Some) ==> {
                        &&& r is Ok
                        &&& b.entries() == inserted(mid, a.is_unique_spec(), k_new, row_id)
                    }
                },
                None => (r matches Err(e) && e@ == ErrorView::Internal(not_found_text(index_name@)))
                    && final(self).indexes@ == old(self).indexes@,
            },
    {
        match self.delete_from_index(index_name, old_values, pager) {
            Err(e) => { return Err(e); },
            Ok(_) => {},
        }
        assert(self.names() =~= old(self).names());
        self.insert_into_index(index_name, new_values, row_id, pager)
    }

    /// The names of the indexes, in load order; every loaded index is
    /// listed, whatever its table
    pub fn get_table_indexes(&self, _table_name: &str) -> (r: Vec<String>)
        ensures
            r@.map_values(|s: String| s@) == self.names(),
    {
        let mut out: Vec<String> = Vec::new();
        let mut i: usize = 0;
        while i < self.indexes.len()
            invariant
                i <= self.indexes@.len(),
                out@.len() == i,
                forall|j: int| 0 <= j < i ==> (#[trigger] out@[j])@ == self.indexes@[j].0@,
            decreases self.indexes.len() - i,
        {
            out.push(self.indexes[i].0.clone());
            i = i + 1;
        }
        assert(out@.map_values(|s: String| s@) =~= self.names());
        out
    }
}

impl Default for IndexManager {
    fn default() -> (m: Self)
        ensures
            m.wf(),
            m.indexes@.len() == 0,
    {
        Self::new()
    }
}

} // verus!
