//! An index from keys (encoded column values) to row ids.
use vstd::prelude::*;
use crate::error::{Error, ErrorView, Result};
use crate::storage::btree::keys::bytes_eq;
use crate::storage::codec::{be32_bytes, be64_bytes, push_all, push_be32, push_be64};
use crate::storage::pager::Pager;
use crate::storage::record::{Value, ValueView};
use crate::text::string_of;

verus! {

/// An index: for each key, the row ids stored under it, in insertion order
pub struct IndexBTree {
    /// Root page of the index
    root_page: u32,
    /// Whether this is a unique index
    unique: bool,
    /// The keys, each once, with their row ids
    index_map: Vec<(Vec<u8>, Vec<u64>)>,
}

/// The position of a key among the entries.
pub open spec fn entry_index(es: Seq<(Seq<u8>, Seq<u64>)>, key: Seq<u8>) -> Option<int> {
    if exists|i: int| 0 <= i < es.len() && es[i].0 == key {
        Some(choose|i: int| 0 <= i < es.len() && es[i].0 == key)
    } else {
        None
    }
}

/// No key occurs twice.
pub open spec fn distinct_keys(es: Seq<(Seq<u8>, Seq<u64>)>) -> bool {
    forall|i: int, j: int| 0 <= i < es.len() && 0 <= j < es.len() && i != j ==> es[i].0 != es[j].0
}

pub proof fn lemma_entry_index(es: Seq<(Seq<u8>, Seq<u64>)>, key: Seq<u8>, i: int)
    requires
        distinct_keys(es),
        0 <= i < es.len(),
        es[i].0 == key,
    ensures
        entry_index(es, key) == Some(i),
{
}

/// Searching a key just inserted into an index finds its first row id:
/// the inserted id when the key was absent, the key's first id otherwise.
pub proof fn law_insert_then_search(es: Seq<(Seq<u8>, Seq<u64>)>, unique: bool, key: Seq<u8>, id: u64)
    requires
        distinct_keys(es),
    ensures
        distinct_keys(inserted(es, unique, key, id)),
        first_id(inserted(es, unique, key, id), key) == match entry_index(es, key) {
            Some(i) => if es[i].1.len() > 0 { Some(es[i].1[0]) } else { Some(id) },
            None => Some(id),
        },
{
    let r = inserted(es, unique, key, id);
    match entry_index(es, key) {
        Some(i) => {
            assert(r[i].0 == key);
            lemma_entry_index(r, key, i);
        },
        None => {
            assert forall|j: int| 0 <= j < es.len() implies es[j].0 != key by {
                if es[j].0 == key {
                    assert(exists|k: int| 0 <= k < es.len() && es[k].0 == key);
                }
            }
            assert(r[es.len() as int].0 == key);
            lemma_entry_index(r, key, es.len() as int);
        },
    }
}

/// A key deleted from an index is no longer found.
pub proof fn law_delete_then_search(es: Seq<(Seq<u8>, Seq<u64>)>, key: Seq<u8>)
    requires
        distinct_keys(es),
    ensures
        distinct_keys(removed(es, key)),
        first_id(removed(es, key), key) is None,
{
    let r = removed(es, key);
    match entry_index(es, key) {
        Some(i) => {
            assert forall|j: int| 0 <= j < r.len() implies r[j].0 != key by {
                if j < i {
                    assert(r[j] == es[j]);
                } else {
                    assert(r[j] == es[j + 1]);
                }
            }
        },
        None => {
            assert forall|j: int| 0 <= j < es.len() implies es[j].0 != key by {
                if es[j].0 == key {
                    assert(exists|k: int| 0 <= k < es.len() && es[k].0 == key);
                }
            }
        },
    }
}

/// The row ids of all entries, in entry order.
pub open spec fn all_ids(es: Seq<(Seq<u8>, Seq<u64>)>) -> Seq<u64>
    decreases es.len(),
{
    if es.len() == 0 { Seq::empty() } else { all_ids(es.drop_last()) + es.last().1 }
}

/// The entries after inserting a row id under a key: a unique index holds
/// one id per key; another appends the id to the key's list.
pub open spec fn inserted(es: Seq<(Seq<u8>, Seq<u64>)>, unique: bool, key: Seq<u8>, id: u64) -> Seq<(Seq<u8>, Seq<u64>)> {
    match entry_index(es, key) {
        Some(i) => es.update(i, (key, es[i].1.push(id))),
        None => es.push((key, seq![id])),
    }
}

/// The entries after removing a key.
pub open spec fn removed(es: Seq<(Seq<u8>, Seq<u64>)>, key: Seq<u8>) -> Seq<(Seq<u8>, Seq<u64>)> {
    match entry_index(es, key) {
        Some(i) => es.remove(i),
        None => es,
    }
}

/// The first row id stored under a key.
pub open spec fn first_id(es: Seq<(Seq<u8>, Seq<u64>)>, key: Seq<u8>) -> Option<u64> {
    match entry_index(es, key) {
        Some(i) => if es[i].1.len() > 0 { Some(es[i].1[0]) } else { None },
        None => None,
    }
}

/// The index key of one value: a type marker, then the value's bytes
/// (integers and reals as 8 big-endian bytes, text NUL-terminated, blobs
/// after a 4-byte big-endian length).
pub open spec fn value_key(v: ValueView) -> Seq<u8> {
    match v {
        ValueView::Null => seq![0u8],
        ValueView::Integer(i) => seq![1u8] + be64_bytes(i as u64),
        ValueView::Real(b) => seq![2u8] + be64_bytes(b),
        ValueView::Text(s) => seq![3u8] + vstd::utf8::encode_utf8(s) + seq![0u8],
        ValueView::Blob(b) => seq![4u8] + be32_bytes(b.len() as u32) + b,
    }
}

/// The index key of a list of values: their keys one after another.
pub open spec fn values_key(vs: Seq<ValueView>) -> Seq<u8>
    decreases vs.len(),
{
    if vs.len() == 0 { Seq::empty() } else { values_key(vs.drop_last()) + value_key(vs.last()) }
}

impl IndexBTree {
    /// The entries: each key with its row ids.
    pub closed spec fn entries(&self) -> Seq<(Seq<u8>, Seq<u64>)> {
        self.index_map@.map_values(|p: (Vec<u8>, Vec<u64>)| (p.0@, p.1@))
    }

    /// The root page the index was opened with.
    pub closed spec fn root(&self) -> u32 {
        self.root_page
    }

    /// Whether the index is unique.
    pub closed spec fn is_unique_spec(&self) -> bool {
        self.unique
    }

    /// Well-formedness: no key occurs twice.
    pub closed spec fn wf(&self) -> bool {
        distinct_keys(self.entries())
    }

    /// Create a new, empty index
    pub fn new(_pager: &mut Pager, root_page: u32, unique: bool) -> (r: Result<Self>)
        ensures
            r matches Ok(ix) && ix.wf() && ix.entries() == Seq::<(Seq<u8>, Seq<u64>)>::empty()
                && ix.root() == root_page && ix.is_unique_spec() == unique,
            *final(_pager) == *old(_pager),
    {
        let ix = IndexBTree { root_page, unique, index_map: Vec::new() };
        assert(ix.entries() =~= Seq::<(Seq<u8>, Seq<u64>)>::empty());
        Ok(ix)
    }

    fn find(&self, key: &[u8]) -> (r: Option<usize>)
        requires
            self.wf(),
        ensures
            match (r, entry_index(self.entries(), key@)) {
                (Some(a), Some(b)) => a == b,
                (None, None) => true,
                _ => false,
            },
    {
        let mut i: usize = 0;
        while i < self.index_map.len()
            invariant
                i <= self.index_map@.len(),
                self.wf(),
                forall|j: int| 0 <= j < i ==> self.entries()[j].0 != key@,
            decreases self.index_map.len() - i,
        {
            assert(self.entries()[i as int].0 == self.index_map@[i as int].0@);
            if bytes_eq(self.index_map[i].0.as_slice(), key) {
                proof { lemma_entry_index(self.entries(), key@, i as int); }
                return Some(i);
            }
            i = i + 1;
        }
        None
    }

    /// Insert a row id under a key; a unique index refuses a key it holds
    pub fn insert(&mut self, _pager: &mut Pager, key: &[u8], row_id: u64) -> (r: Result<()>)
        requires
            old(self).wf(),
        ensures
            final(self).wf(),
            final(self).root() == old(self).root(),
            final(self).is_unique_spec() == old(self).is_unique_spec(),
            *final(_pager) == *old(_pager),
            old(self).is_unique_spec() && entry_index(old(self).entries(), key@) is Some ==> {
                &&& r matches Err(e) && e@ == ErrorView::Internal("Unique constraint violation"@)
                &&& final(self).entries() == old(self).entries()
            },
            !(old(self).is_unique_spec() && entry_index(old(self).entries(), key@) is Some) ==> {
                &&& r is Ok
                &&& final(self).entries() == inserted(old(self).entries(), old(self).is_unique_spec(), key@, row_id)
            },
    {
        let ghost es = self.entries();
        match self.find(key) {
            Some(i) => {
                if self.unique {
                    return Err(Error::Internal(string_of("Unique constraint violation")));
                }
                let mut entry = self.index_map.remove(i);
                entry.1.push(row_id);
                self.index_map.insert(i, entry);
                assert(self.entries() =~= es.update(i as int, (key@, es[i as int].1.push(row_id))));
            },
            None => {
                let mut ids: Vec<u64> = Vec::new();
                ids.push(row_id);
                let mut k: Vec<u8> = Vec::new();
                push_all(&mut k, key);
                assert(k@ =~= key@);
                self.index_map.push((k, ids));
                assert(self.entries() =~= es.push((key@, seq![row_id])));
            },
        }
        Ok(())
    }

    /// Delete a key and its row ids
    pub fn delete(&mut self, _pager: &mut Pager, key: &[u8]) -> (r: Result<()>)
        requires
            old(self).wf(),
        ensures
            r is Ok,
            final(self).wf(),
            final(self).entries() == removed(old(self).entries(), key@),
            final(self).root() == old(self).root(),
            final(self).is_unique_spec() == old(self).is_unique_spec(),
            *final(_pager) == *old(_pager),
    {
        let ghost es = self.entries();
        match self.find(key) {
            Some(i) => {
                self.index_map.remove(i);
                assert(self.entries() =~= es.remove(i as int));
            },
            None => {},
        }
        Ok(())
    }

    /// Search for a key: the first row id stored under it
    pub fn search(&mut self, _pager: &mut Pager, key: &[u8]) -> (r: Result<Option<u64>>)
        requires
            old(self).wf(),
        ensures
            r == Ok::<Option<u64>, Error>(first_id(old(self).entries(), key@)),
            *final(self) == *old(self),
            *final(_pager) == *old(_pager),
    {
        match self.find(key) {
            Some(i) => {
                if self.index_map[i].1.len() > 0 {
                    Ok(Some(self.index_map[i].1[0]))
                } else {
                    Ok(None)
                }
            },
            None => Ok(None),
        }
    }

    /// Scan the index: every row id, key by key
    pub fn scan_range(&mut self, _pager: &mut Pager, _start_key: Option<&[u8]>, _end_key: Option<&[u8]>) -> (r: Result<Vec<u64>>)
        ensures
            r matches Ok(v) && v@ == all_ids(old(self).entries()),
            *final(self) == *old(self),
            *final(_pager) == *old(_pager),
    {
        let mut out: Vec<u64> = Vec::new();
        let mut i: usize = 0;
        while i < self.index_map.len()
            invariant
                i <= self.index_map@.len(),
                out@ == all_ids(self.entries().take(i as int)),
            decreases self.index_map.len() - i,
        {
            let ids = &self.index_map[i].1;
            push_ids(&mut out, ids);
            proof {
                assert(self.entries().take(i + 1).drop_last() =~= self.entries().take(i as int));
                assert(self.entries().take(i + 1).last() == (self.index_map@[i as int].0@, ids@));
            }
            i = i + 1;
        }
        assert(self.entries().take(self.index_map@.len() as int) =~= self.entries());
        Ok(out)
    }

    /// Check if this is a unique index
    pub fn is_unique(&self) -> (b: bool)
        ensures
            b == self.is_unique_spec(),
    {
        self.unique
    }
}

fn push_ids(out: &mut Vec<u64>, ids: &Vec<u64>)
    ensures
        final(out)@ == old(out)@ + ids@,
{
    let mut i: usize = 0;
    while i < ids.len()
        invariant
            i <= ids.len(),
            out@ == old(out)@ + ids@.take(i as int),
        decreases ids.len() - i,
    {
        out.push(ids[i]);
        assert(ids@.take(i + 1) =~= ids@.take(i as int).push(ids@[i as int]));
        i = i + 1;
    }
    assert(ids@.take(ids.len() as int) =~= ids@);
}

/// Index key builder - converts values to index keys
pub struct IndexKeyBuilder;

impl IndexKeyBuilder {
    /// Build an index key from values
    pub fn build_key(values: &[Value]) -> (r: Vec<u8>)
        ensures
            r@ == values_key(values@.map_values(|v: Value| v@)),
    {
        let ghost vs = values@.map_values(|v: Value| v@);
        let mut key: Vec<u8> = Vec::new();
        let mut i: usize = 0;
        while i < values.len()
            invariant
                i <= values.len(),
                vs == values@.map_values(|v: Value| v@),
                key@ == values_key(vs.take(i as int)),
            decreases values.len() - i,
        {
            let ghost before = key@;
            match &values[i] {
                Value::Null => {
                    key.push(0);
                },
                Value::Integer(n) => {
                    key.push(1);
                    push_be64(&mut key, *n as u64);
                },
                Value::Real(b) => {
                    key.push(2);
                    push_be64(&mut key, *b);
                },
                Value::Text(s) => {
                    key.push(3);
                    push_all(&mut key, s.as_str().as_bytes());
                    key.push(0);
                },
                Value::Blob(b) => {
                    key.push(4);
                    push_be32(&mut key, b.len() as u32);
                    push_all(&mut key, b.as_slice());
                },
            }
            proof {
                assert(vs.take(i + 1).drop_last() =~= vs.take(i as int));
                assert(vs.take(i + 1).last() == values@[i as int]@);
                assert(key@ =~= before + value_key(values@[i as int]@));
            }
            i = i + 1;
        }
        assert(vs.take(values.len() as int) =~= vs);
        key
    }
}

} // verus!
