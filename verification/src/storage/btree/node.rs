//! B+Tree node operations: reading and writing cells of leaf and interior
//! pages.
//!
//! A node page holds the page header, then an array of big-endian 16-bit
//! cell pointers (starting at byte 12), and cell contents growing downward
//! from the end of the page.
use vstd::prelude::*;
use crate::error::{Error, ErrorView, Result};
use crate::storage::btree::keys::{bytes_lt, key_lt};
use crate::storage::codec::{be16_at, be16_bytes, be32_at, be32_bytes, lemma_be32_roundtrip, push_all, push_be32, read_be32};
use crate::storage::page::{header_read_is, overwrite, page_header_bytes, spec_page_header, write_bytes,
    Page, PageHeader, PageId, PageType};
use crate::storage::record::{record_bytes, spec_record_parse, Record, RecordView};
use crate::storage::varint::{lemma_varint_roundtrip, spec_varint_decode, varint_bytes, Varint};
use crate::text::string_of;

verus! {

/// Cell in a leaf page (contains full record)
#[derive(Debug, Clone)]
pub struct LeafCell {
    /// Record key
    pub key: Vec<u8>,
    /// Full record
    pub record: Record,
}

impl LeafCell {
    /// Serialize leaf cell to bytes
    pub fn serialize(&self) -> (r: Vec<u8>)
        ensures
            r@ == record_bytes(self.record@),
    {
        self.record.serialize()
    }

    /// Deserialize leaf cell from bytes
    pub fn deserialize(bytes: &[u8]) -> (r: Result<Self>)
        ensures
            match (r, spec_record_parse(bytes@)) {
                (Ok(c), Ok((w, _))) => c.record@ == w && c.key@ == w.key,
                (Err(e), Err(m)) => e@ == ErrorView::RecordError(m),
                _ => false,
            },
    {
        let record = match Record::deserialize(bytes) {
            Ok(r) => r,
            Err(e) => return Err(e),
        };
        let key = vstd::slice::slice_to_vec(record.key.as_slice());
        Ok(LeafCell { key, record })
    }
}

/// Cell in an interior page (contains key and child pointer)
#[derive(Debug, Clone)]
pub struct InteriorCell {
    /// Key (smallest key in right child subtree)
    pub key: Vec<u8>,
    /// Left child page ID
    pub left_child: PageId,
}

/// The bytes of an interior cell: child pointer, key length, key.
pub open spec fn interior_cell_bytes(key: Seq<u8>, left_child: u32) -> Seq<u8> {
    be32_bytes(left_child) + varint_bytes(key.len()) + key
}

/// What decoding an interior cell at the start of `b` gives.
pub open spec fn spec_interior_parse(b: Seq<u8>) -> core::result::Result<(Seq<u8>, u32), ErrorView> {
    if b.len() < 4 {
        Err(ErrorView::BTreeError("Interior cell too short"@))
    } else {
        match spec_varint_decode(b.subrange(4, b.len() as int)) {
            Err(m) => Err(ErrorView::RecordError(m)),
            Ok((l, c)) => if b.len() < 4 + c + l {
                Err(ErrorView::BTreeError("Interior cell key truncated"@))
            } else {
                Ok((b.subrange((4 + c) as int, (4 + c + l) as int), be32_at(b, 0)))
            },
        }
    }
}

impl InteriorCell {
    /// Serialize interior cell to bytes
    pub fn serialize(&self) -> (r: Vec<u8>)
        ensures
            r@ == interior_cell_bytes(self.key@, self.left_child),
    {
        let mut bytes: Vec<u8> = Vec::new();
        push_be32(&mut bytes, self.left_child);
        let e = Varint::encode(self.key.len() as u64);
        push_all(&mut bytes, e.as_slice());
        push_all(&mut bytes, self.key.as_slice());
        bytes
    }

    /// Deserialize interior cell from bytes
    pub fn deserialize(bytes: &[u8]) -> (r: Result<Self>)
        ensures
            match (r, spec_interior_parse(bytes@)) {
                (Ok(c), Ok((k, l))) => c.key@ == k && c.left_child == l,
                (Err(e), Err(s)) => e@ == s,
                _ => false,
            },
    {
        if bytes.len() < 4 {
            return Err(Error::BTreeError(string_of("Interior cell too short")));
        }
        let left_child = read_be32(bytes, 0);
        let rest = vstd::slice::slice_subrange(bytes, 4, bytes.len());
        let (key_len, consumed) = match Varint::decode(rest) {
            Ok(p) => p,
            Err(e) => return Err(e),
        };
        let key_offset = 4 + consumed;
        let avail = bytes.len() - key_offset;
        if key_len > avail as u64 {
            return Err(Error::BTreeError(string_of("Interior cell key truncated")));
        }
        let end = key_offset + key_len as usize;
        let key = vstd::slice::slice_to_vec(vstd::slice::slice_subrange(bytes, key_offset, end));
        Ok(InteriorCell { key, left_child })
    }
}

/// Decoding what `InteriorCell::serialize` wrote, whatever follows, gives
/// the cell back.
pub proof fn lemma_interior_cell_roundtrip(key: Seq<u8>, left_child: u32, rest: Seq<u8>)
    requires
        key.len() <= u64::MAX,
    ensures
        spec_interior_parse(interior_cell_bytes(key, left_child) + rest)
            == Ok::<(Seq<u8>, u32), ErrorView>((key, left_child)),
{
    let b = interior_cell_bytes(key, left_child) + rest;
    let l = key.len() as u64;
    let e = varint_bytes(l as nat);
    let p = be32_bytes(left_child);
    assert(b.subrange(4, b.len() as int) =~= e + (key + rest));
    lemma_varint_roundtrip(l, key + rest);
    assert(b.subrange((4 + e.len()) as int, (4 + e.len() + l) as int) =~= key);
    assert(b[0] == p[0] && b[1] == p[1] && b[2] == p[2] && b[3] == p[3]);
    lemma_be32_roundtrip(left_child, b, 0);
}

/// The cell pointer with index `i` of a page.
pub open spec fn pointer_at(d: Seq<u8>, i: int) -> int {
    be16_at(d, 12 + 2 * i) as int
}

/// Where a cell's bytes start: the pointer, or the error for a bad one.
pub open spec fn cell_start(d: Seq<u8>, i: int) -> core::result::Result<int, ErrorView> {
    if 12 + 2 * i + 2 > d.len() {
        Err(ErrorView::InvalidPage("Cell pointer out of bounds"@))
    } else if pointer_at(d, i) >= d.len() {
        Err(ErrorView::InvalidPage("Cell data out of bounds"@))
    } else {
        Ok(pointer_at(d, i))
    }
}

/// The leaf cell with index `i` of a page, as `get_leaf_cell` reads it.
pub open spec fn leaf_cell_at(d: Seq<u8>, i: int) -> core::result::Result<RecordView, ErrorView> {
    match cell_start(d, i) {
        Err(e) => Err(e),
        Ok(p) => match spec_record_parse(d.subrange(p, d.len() as int)) {
            Ok((r, _)) => Ok(r),
            Err(m) => Err(ErrorView::RecordError(m)),
        },
    }
}

/// The interior cell with index `i` of a page, as `get_interior_cell` reads it.
pub open spec fn interior_cell_at(d: Seq<u8>, i: int) -> core::result::Result<(Seq<u8>, u32), ErrorView> {
    match cell_start(d, i) {
        Err(e) => Err(e),
        Ok(p) => spec_interior_parse(d.subrange(p, d.len() as int)),
    }
}

/// The key of the cell with index `i`, for either kind of node.
pub open spec fn cell_key_at(d: Seq<u8>, leaf: bool, i: int) -> core::result::Result<Seq<u8>, ErrorView> {
    if leaf {
        match leaf_cell_at(d, i) { Ok(r) => Ok(r.key), Err(e) => Err(e) }
    } else {
        match interior_cell_at(d, i) { Ok((k, _)) => Ok(k), Err(e) => Err(e) }
    }
}

/// The header of a page, when it parses.
pub open spec fn header_of(d: Seq<u8>) -> PageHeader {
    spec_page_header(d)->Ok_0
}

/// Every cell of a page can be read.
pub open spec fn cells_readable(d: Seq<u8>, leaf: bool) -> bool {
    &&& spec_page_header(d) is Ok
    &&& forall|i: int| 0 <= i < header_of(d).cell_count ==> #[trigger] cell_key_at(d, leaf, i) is Ok
}

/// The keys of a page's cells.
pub open spec fn cell_keys(d: Seq<u8>, leaf: bool) -> Seq<Seq<u8>> {
    Seq::new(header_of(d).cell_count as nat, |i: int| cell_key_at(d, leaf, i)->Ok_0)
}

/// Keys in strictly ascending order.
pub open spec fn keys_sorted(ks: Seq<Seq<u8>>) -> bool {
    forall|i: int, j: int| 0 <= i < j < ks.len() ==> key_lt(#[trigger] ks[i], #[trigger] ks[j])
}

/// Keys in ascending order, equal keys allowed.
pub open spec fn keys_nondecreasing(ks: Seq<Seq<u8>>) -> bool {
    forall|i: int, j: int| 0 <= i < j < ks.len() ==> !key_lt(#[trigger] ks[j], #[trigger] ks[i])
}

/// Keys in strictly ascending order are in ascending order.
pub proof fn lemma_sorted_nondecreasing(ks: Seq<Seq<u8>>)
    ensures
        keys_sorted(ks) ==> keys_nondecreasing(ks),
{
    if keys_sorted(ks) {
        assert forall|i: int, j: int| 0 <= i < j < ks.len() implies !key_lt(#[trigger] ks[j], #[trigger] ks[i]) by {
            crate::storage::btree::keys::lemma_key_lt_asymmetric(ks[i], ks[j]);
        }
    }
}

/// In ascending keys, the keys up to one below `key` are all below it.
proof fn lemma_below_key(ks: Seq<Seq<u8>>, mid: int, key: Seq<u8>)
    requires
        keys_nondecreasing(ks),
        0 <= mid < ks.len(),
        key_lt(ks[mid], key),
    ensures
        forall|j: int| 0 <= j <= mid ==> key_lt(#[trigger] ks[j], key),
{
    assert forall|j: int| 0 <= j <= mid implies key_lt(#[trigger] ks[j], key) by {
        if j < mid {
            assert(!key_lt(ks[mid], ks[j]));
            crate::storage::btree::keys::lemma_key_lt_total(ks[j], ks[mid]);
            if key_lt(ks[j], ks[mid]) {
                crate::storage::btree::keys::lemma_key_lt_transitive(ks[j], ks[mid], key);
            }
        }
    }
}

/// In ascending keys, the keys from one not below `key` on are not below it.
proof fn lemma_not_below_key(ks: Seq<Seq<u8>>, mid: int, key: Seq<u8>)
    requires
        keys_nondecreasing(ks),
        0 <= mid < ks.len(),
        !key_lt(ks[mid], key),
    ensures
        forall|j: int| mid <= j < ks.len() ==> !key_lt(#[trigger] ks[j], key),
{
    assert forall|j: int| mid <= j < ks.len() implies !key_lt(#[trigger] ks[j], key) by {
        if j > mid && key_lt(ks[j], key) {
            assert(!key_lt(ks[j], ks[mid]));
            crate::storage::btree::keys::lemma_key_lt_total(ks[mid], ks[j]);
            if key_lt(ks[mid], ks[j]) {
                crate::storage::btree::keys::lemma_key_lt_transitive(ks[mid], ks[j], key);
            }
        }
    }
}

/// The bytes after the pointer array has been shifted up by one slot
/// between `index` and `count` (the old slots `index..count` now sit at
/// `index+1..count+1`).
pub open spec fn shift_up(d: Seq<u8>, index: int, count: int) -> Seq<u8> {
    Seq::new(d.len(), |k: int| if 12 + 2 * (index + 1) <= k < 12 + 2 * (count + 1) { d[k - 2] } else { d[k] })
}

/// The bytes after the pointer array has been shifted down by one slot
/// (the old slots `index+1..count` now sit at `index..count-1`).
pub open spec fn shift_down(d: Seq<u8>, index: int, count: int) -> Seq<u8> {
    Seq::new(d.len(), |k: int| if 12 + 2 * index <= k < 12 + 2 * (count - 1) { d[k + 2] } else { d[k] })
}

/// The page bytes after inserting a cell's bytes at `index`.
pub open spec fn after_insert_cell(d: Seq<u8>, index: int, cell: Seq<u8>) -> Seq<u8> {
    let h = header_of(d);
    let new_off = (h.cell_content_offset - cell.len()) as u16;
    let d1 = overwrite(d, new_off as int, cell);
    let d2 = shift_up(d1, index, h.cell_count as int);
    let d3 = overwrite(d2, 12 + 2 * index, be16_bytes(new_off));
    let h2 = PageHeader { cell_count: (h.cell_count + 1) as u16, cell_content_offset: new_off, ..h };
    overwrite(d3, 0, page_header_bytes(h2))
}

/// The page bytes after deleting the cell at `index`.
pub open spec fn after_delete_cell(d: Seq<u8>, index: int) -> Seq<u8> {
    let h = header_of(d);
    let d1 = shift_down(d, index, h.cell_count as int);
    let h2 = PageHeader { cell_count: (h.cell_count - 1) as u16, ..h };
    overwrite(d1, 0, page_header_bytes(h2))
}

/// B+Tree node wrapper for page operations
pub struct BTreeNode {
    /// Underlying page
    page: Page,
}

impl BTreeNode {
    /// The page this node wraps.
    pub closed spec fn spec_page(&self) -> Page {
        self.page
    }

    /// The bytes of the node's page.
    pub open spec fn bytes(&self) -> Seq<u8> {
        self.spec_page().data@
    }

    /// Create node from page
    pub fn from_page(page: Page) -> (n: Self)
        ensures
            n.spec_page() == page,
    {
        BTreeNode { page }
    }

    /// Get underlying page
    pub fn page(&self) -> (p: &Page)
        ensures
            *p == self.spec_page(),
    {
        &self.page
    }

    /// Get mutable page
    pub fn page_mut(&mut self) -> (p: &mut Page)
        ensures
            *p == old(self).spec_page(),
            final(self).spec_page() == *final(p),
    {
        &mut self.page
    }

    /// Take ownership of the page
    pub fn into_page(self) -> (p: Page)
        ensures
            p == self.spec_page(),
    {
        self.page
    }

    /// Get page ID
    pub fn page_id(&self) -> (id: PageId)
        ensures
            id == self.spec_page().id,
    {
        self.page.id
    }

    /// Check if this is a leaf node
    pub fn is_leaf(&self) -> (r: Result<bool>)
        ensures
            match (r, spec_page_header(self.bytes())) {
                (Ok(b), Ok(h)) => b == (h.page_type == PageType::Leaf),
                (Err(e), Err(m)) => e@ == ErrorView::InvalidPage(m),
                _ => false,
            },
    {
        let header = match self.page.header() {
            Ok(h) => h,
            Err(e) => return Err(e),
        };
        Ok(header.page_type == PageType::Leaf)
    }

    /// Get number of cells
    pub fn cell_count(&self) -> (r: Result<u16>)
        ensures
            match (r, spec_page_header(self.bytes())) {
                (Ok(n), Ok(h)) => n == h.cell_count,
                (Err(e), Err(m)) => e@ == ErrorView::InvalidPage(m),
                _ => false,
            },
    {
        let header = match self.page.header() {
            Ok(h) => h,
            Err(e) => return Err(e),
        };
        Ok(header.cell_count)
    }

    fn cell_bytes(&self, index: u16) -> (r: Result<&[u8]>)
        ensures
            match (r, cell_start(self.bytes(), index as int)) {
                (Ok(s), Ok(p)) => s@ == self.bytes().subrange(p, self.bytes().len() as int),
                (Err(e), Err(m)) => e@ == m,
                _ => false,
            },
    {
        let pointer = match self.page.get_cell_pointer(index) {
            Ok(p) => p,
            Err(e) => return Err(e),
        };
        self.page.get_cell_data(pointer)
    }

    /// Get leaf cell at index
    pub fn get_leaf_cell(&self, index: u16) -> (r: Result<LeafCell>)
        ensures
            match (r, leaf_cell_at(self.bytes(), index as int)) {
                (Ok(c), Ok(w)) => c.record@ == w && c.key@ == w.key,
                (Err(e), Err(m)) => e@ == m,
                _ => false,
            },
    {
        let data = match self.cell_bytes(index) {
            Ok(d) => d,
            Err(e) => return Err(e),
        };
        LeafCell::deserialize(data)
    }

    /// Get interior cell at index
    pub fn get_interior_cell(&self, index: u16) -> (r: Result<InteriorCell>)
        ensures
            match (r, interior_cell_at(self.bytes(), index as int)) {
                (Ok(c), Ok((k, l))) => c.key@ == k && c.left_child == l,
                (Err(e), Err(m)) => e@ == m,
                _ => false,
            },
    {
        let data = match self.cell_bytes(index) {
            Ok(d) => d,
            Err(e) => return Err(e),
        };
        InteriorCell::deserialize(data)
    }

    /// The key of the cell at `index`, read as a leaf or an interior cell.
    fn cell_key(&self, leaf: bool, index: u16) -> (r: Result<Vec<u8>>)
        ensures
            match (r, cell_key_at(self.bytes(), leaf, index as int)) {
                (Ok(k), Ok(w)) => k@ == w,
                (Err(e), Err(m)) => e@ == m,
                _ => false,
            },
    {
        if leaf {
            match self.get_leaf_cell(index) {
                Ok(c) => Ok(c.key),
                Err(e) => Err(e),
            }
        } else {
            match self.get_interior_cell(index) {
                Ok(c) => Ok(c.key),
                Err(e) => Err(e),
            }
        }
    }
}

/// The pointer slots that an insertion at `index` writes fit in the page.
pub open spec fn insert_fits(d: Seq<u8>, index: int) -> bool {
    let count = header_of(d).cell_count as int;
    14 + 2 * (if index > count { index } else { count }) <= d.len()
}

/// The free space between the pointer array (with room for one more
/// pointer) and the cell content area.
pub open spec fn free_space(h: PageHeader) -> int {
    let end = 12 + (h.cell_count + 1) * 2;
    if h.cell_content_offset > end { h.cell_content_offset - end } else { 0 }
}

/// The number of keys in `ks` that are below `key`, for sorted `ks`.
pub open spec fn lower_bound_ok(ks: Seq<Seq<u8>>, key: Seq<u8>, i: int) -> bool {
    &&& 0 <= i <= ks.len()
    &&& forall|j: int| 0 <= j < i ==> key_lt(#[trigger] ks[j], key)
    &&& forall|j: int| i <= j < ks.len() ==> !key_lt(#[trigger] ks[j], key)
}

impl BTreeNode {
    /// Insert cell data at index
    fn insert_cell(&mut self, index: u16, cell_data: &[u8]) -> (r: Result<()>)
        requires
            spec_page_header(old(self).bytes()) is Ok ==> {
                &&& cell_data@.len() <= header_of(old(self).bytes()).cell_content_offset
                &&& header_of(old(self).bytes()).cell_content_offset <= old(self).bytes().len()
                &&& header_of(old(self).bytes()).cell_count < 65535
            },
        ensures
            final(self).bytes().len() == old(self).bytes().len(),
            final(self).spec_page().id == old(self).spec_page().id,
            match spec_page_header(old(self).bytes()) {
                Err(m) => r matches Err(e) && e@ == ErrorView::InvalidPage(m) && *final(self) == *old(self),
                Ok(h) => if insert_fits(old(self).bytes(), index as int) {
                    &&& r is Ok
                    &&& final(self).bytes() == after_insert_cell(old(self).bytes(), index as int, cell_data@)
                    &&& final(self).spec_page().dirty
                } else {
                    r matches Err(e) && e@ == ErrorView::InvalidPage("Cell pointer out of bounds"@)
                },
            },
    {
        let ghost d = self.bytes();
        let mut header = match self.page.header() {
            Ok(h) => h,
            Err(e) => return Err(e),
        };
        let ghost h = header;
        let new_content_offset: u16 = header.cell_content_offset - cell_data.len() as u16;
        let content_start = new_content_offset as usize;
        write_bytes(&mut self.page.data, content_start, cell_data);
        let ghost d1 = self.bytes();
        assert(d1 == overwrite(d, new_content_offset as int, cell_data@));
        let count = header.cell_count;
        let mut i: u16 = count;
        assert(shift_up(d1, count as int, count as int) =~= d1);
        while i > index
            invariant
                index <= i <= count || i == count,
                i <= count,
                count == h.cell_count,
                spec_page_header(d) == Ok::<PageHeader, Seq<char>>(h),
                d == old(self).bytes(),
                i < count ==> 14 + 2 * count <= d.len(),
                index < count ==> (index <= i),
                insert_fits(d, index as int) ==> 14 + 2 * count <= d.len() || index >= count,
                self.page.id == old(self).page.id,
                self.page.data@.len() == d.len(),
                d1.len() == d.len(),
                self.bytes() == shift_up(d1, i as int, count as int),
                i < count ==> self.page.dirty,
            decreases i,
        {
            i = i - 1;
            let ghost before = self.bytes();
            let old_pointer = match self.page.get_cell_pointer(i) {
                Ok(p) => p,
                Err(e) => {
                    assert(!insert_fits(d, index as int));
                    return Err(e);
                },
            };
            assert(old_pointer == be16_at(d1, 12 + 2 * i));
            match self.page.set_cell_pointer(i + 1, old_pointer) {
                Ok(_) => {},
                Err(e) => {
                    assert(!insert_fits(d, index as int));
                    return Err(e);
                },
            }
            proof {
                let after = self.bytes();
                assert forall|k: int| 0 <= k < d.len() implies after[k] == shift_up(d1, i as int, count as int)[k] by {
                    if 12 + 2 * (i + 1) <= k < 12 + 2 * (i + 2) {
                        assert(after[k] == be16_bytes(old_pointer)[k - (12 + 2 * (i + 1))]);
                    }
                }
                assert(after =~= shift_up(d1, i as int, count as int));
            }
        }
        let ghost d2 = self.bytes();
        assert(d2 == shift_up(d1, index as int, count as int));
        match self.page.set_cell_pointer(index, new_content_offset) {
            Ok(_) => {},
            Err(e) => return Err(e),
        }
        let ghost d3 = self.bytes();
        assert(d3 == overwrite(d2, 12 + 2 * index, be16_bytes(new_content_offset)));
        header.cell_count = header.cell_count + 1;
        header.cell_content_offset = new_content_offset;
        assert(header == PageHeader { cell_count: (h.cell_count + 1) as u16, cell_content_offset: new_content_offset, ..h });
        match self.page.set_header(&header) {
            Ok(_) => {},
            Err(e) => return Err(e),
        }
        assert(header_of(d) == h);
        assert(self.bytes() == after_insert_cell(d, index as int, cell_data@));
        Ok(())
    }

    /// Insert a leaf cell
    pub fn insert_leaf_cell(&mut self, index: u16, cell: &LeafCell) -> (r: Result<()>)
        requires
            spec_page_header(old(self).bytes()) is Ok ==> {
                &&& record_bytes(cell.record@).len() <= header_of(old(self).bytes()).cell_content_offset
                &&& header_of(old(self).bytes()).cell_content_offset <= old(self).bytes().len()
                &&& header_of(old(self).bytes()).cell_count < 65535
            },
        ensures
            final(self).bytes().len() == old(self).bytes().len(),
            final(self).spec_page().id == old(self).spec_page().id,
            match spec_page_header(old(self).bytes()) {
                Err(m) => r matches Err(e) && e@ == ErrorView::InvalidPage(m) && *final(self) == *old(self),
                Ok(h) => if insert_fits(old(self).bytes(), index as int) {
                    &&& r is Ok
                    &&& final(self).bytes() == after_insert_cell(old(self).bytes(), index as int, record_bytes(cell.record@))
                    &&& final(self).spec_page().dirty
                } else {
                    r matches Err(e) && e@ == ErrorView::InvalidPage("Cell pointer out of bounds"@)
                },
            },
    {
        let cell_data = cell.serialize();
        self.insert_cell(index, cell_data.as_slice())
    }

    /// Insert an interior cell
    pub fn insert_interior_cell(&mut self, index: u16, cell: &InteriorCell) -> (r: Result<()>)
        requires
            spec_page_header(old(self).bytes()) is Ok ==> {
                &&& interior_cell_bytes(cell.key@, cell.left_child).len() <= header_of(old(self).bytes()).cell_content_offset
                &&& header_of(old(self).bytes()).cell_content_offset <= old(self).bytes().len()
                &&& header_of(old(self).bytes()).cell_count < 65535
            },
        ensures
            final(self).bytes().len() == old(self).bytes().len(),
            final(self).spec_page().id == old(self).spec_page().id,
            match spec_page_header(old(self).bytes()) {
                Err(m) => r matches Err(e) && e@ == ErrorView::InvalidPage(m) && *final(self) == *old(self),
                Ok(h) => if insert_fits(old(self).bytes(), index as int) {
                    &&& r is Ok
                    &&& final(self).bytes() == after_insert_cell(old(self).bytes(), index as int,
                        interior_cell_bytes(cell.key@, cell.left_child))
                    &&& final(self).spec_page().dirty
                } else {
                    r matches Err(e) && e@ == ErrorView::InvalidPage("Cell pointer out of bounds"@)
                },
            },
    {
        let cell_data = cell.serialize();
        self.insert_cell(index, cell_data.as_slice())
    }

    /// Delete cell at index (the cell's space is not reclaimed)
    pub fn delete_cell(&mut self, index: u16) -> (r: Result<()>)
        ensures
            final(self).bytes().len() == old(self).bytes().len(),
            final(self).spec_page().id == old(self).spec_page().id,
            match spec_page_header(old(self).bytes()) {
                Err(m) => r matches Err(e) && e@ == ErrorView::InvalidPage(m) && *final(self) == *old(self),
                Ok(h) => if index >= h.cell_count {
                    &&& r matches Err(e) && e@ == ErrorView::BTreeError("Cell index out of bounds"@)
                    &&& *final(self) == *old(self)
                } else if index + 1 == h.cell_count || 12 + 2 * h.cell_count <= old(self).bytes().len() {
                    &&& r is Ok
                    &&& final(self).bytes() == after_delete_cell(old(self).bytes(), index as int)
                    &&& final(self).spec_page().dirty
                } else {
                    r matches Err(e) && e@ == ErrorView::InvalidPage("Cell pointer out of bounds"@)
                },
            },
    {
        let ghost d = self.bytes();
        let mut header = match self.page.header() {
            Ok(h) => h,
            Err(e) => return Err(e),
        };
        let ghost h = header;
        if index >= header.cell_count {
            return Err(Error::BTreeError(string_of("Cell index out of bounds")));
        }
        let count = header.cell_count;
        let mut i: u16 = index;
        assert(shift_down(d, index as int, index as int + 1) =~= d);
        while i < count - 1
            invariant
                index <= i <= count - 1,
                index < count,
                count == h.cell_count,
                spec_page_header(d) == Ok::<PageHeader, Seq<char>>(h),
                d == old(self).bytes(),
                i > index ==> 12 + 2 * i + 2 <= d.len(),
                d.len() >= 12,
                self.page.id == old(self).page.id,
                self.page.data@.len() == d.len(),
                self.bytes() == shift_down(d, index as int, i as int + 1),
                i > index ==> self.page.dirty,
            decreases count - i,
        {
            let pointer = match self.page.get_cell_pointer(i + 1) {
                Ok(p) => p,
                Err(e) => return Err(e),
            };
            assert(pointer == be16_at(d, 12 + 2 * (i + 1)));
            match self.page.set_cell_pointer(i, pointer) {
                Ok(_) => {},
                Err(e) => return Err(e),
            }
            proof {
                let after = self.bytes();
                assert forall|k: int| 0 <= k < d.len() implies after[k] == shift_down(d, index as int, i as int + 2)[k] by {
                    if 12 + 2 * i <= k < 12 + 2 * (i + 1) {
                        assert(after[k] == be16_bytes(pointer)[k - (12 + 2 * i)]);
                    }
                }
                assert(after =~= shift_down(d, index as int, i as int + 2));
            }
            i = i + 1;
        }
        let ghost d1 = self.bytes();
        assert(d1 == shift_down(d, index as int, count as int));
        header.cell_count = header.cell_count - 1;
        assert(header == PageHeader { cell_count: (h.cell_count - 1) as u16, ..h });
        match self.page.set_header(&header) {
            Ok(_) => {},
            Err(e) => return Err(e),
        }
        assert(header_of(d) == h);
        assert(self.bytes() == after_delete_cell(d, index as int));
        Ok(())
    }

    /// Find the index where a key should be inserted (binary search)
    pub fn find_cell_index(&self, key: &[u8]) -> (r: Result<u16>)
        ensures
            spec_page_header(self.bytes()) is Err ==> r is Err,
            r matches Ok(i) ==> i <= header_of(self.bytes()).cell_count,
            ({
                let leaf = header_of(self.bytes()).page_type == PageType::Leaf;
                cells_readable(self.bytes(), leaf) ==> {
                    &&& r is Ok
                    &&& keys_sorted(cell_keys(self.bytes(), leaf)) ==>
                        lower_bound_ok(cell_keys(self.bytes(), leaf), key@, r->Ok_0 as int)
                    &&& keys_nondecreasing(cell_keys(self.bytes(), leaf)) ==>
                        lower_bound_ok(cell_keys(self.bytes(), leaf), key@, r->Ok_0 as int)
                }
            }),
    {
        let cell_count = match self.cell_count() {
            Ok(n) => n,
            Err(e) => return Err(e),
        };
        if cell_count == 0 {
            return Ok(0);
        }
        let is_leaf = match self.is_leaf() {
            Ok(b) => b,
            Err(e) => return Err(e),
        };
        let ghost d = self.bytes();
        let ghost ks = cell_keys(d, is_leaf);
        proof {
            lemma_sorted_nondecreasing(ks);
        }
        let mut left: u16 = 0;
        let mut right: u16 = cell_count;
        while left < right
            invariant
                left <= right <= cell_count,
                cell_count == header_of(d).cell_count,
                d == self.bytes(),
                spec_page_header(d) is Ok,
                is_leaf == (header_of(d).page_type == PageType::Leaf),
                ks == cell_keys(d, is_leaf),
                cells_readable(d, is_leaf) && keys_nondecreasing(ks) ==> {
                    &&& forall|j: int| 0 <= j < left ==> key_lt(#[trigger] ks[j], key@)
                    &&& forall|j: int| right <= j < cell_count ==> !key_lt(#[trigger] ks[j], key@)
                },
            decreases right - left,
        {
            let mid = left + (right - left) / 2;
            let cell_key = match self.cell_key(is_leaf, mid) {
                Ok(k) => k,
                Err(e) => {
                    proof {
                        assert(cell_key_at(d, is_leaf, mid as int) is Err);
                    }
                    return Err(e);
                },
            };
            proof {
                if cells_readable(d, is_leaf) {
                    assert(cell_key_at(d, is_leaf, mid as int) is Ok);
                    assert(ks[mid as int] == cell_key@);
                }
            }
            if bytes_lt(cell_key.as_slice(), key) {
                proof {
                    if cells_readable(d, is_leaf) && keys_nondecreasing(ks) {
                        lemma_below_key(ks, mid as int, key@);
                    }
                }
                left = mid + 1;
            } else {
                proof {
                    if cells_readable(d, is_leaf) && keys_nondecreasing(ks) {
                        lemma_not_below_key(ks, mid as int, key@);
                    }
                }
                right = mid;
            }
        }
        Ok(left)
    }

    /// Get right-most child pointer (for interior nodes)
    pub fn right_child(&self) -> (r: Result<PageId>)
        ensures
            match (r, spec_page_header(self.bytes())) {
                (Ok(c), Ok(h)) => c == h.right_child,
                (Err(e), Err(m)) => e@ == ErrorView::InvalidPage(m),
                _ => false,
            },
    {
        let header = match self.page.header() {
            Ok(h) => h,
            Err(e) => return Err(e),
        };
        Ok(header.right_child)
    }

    /// Set right-most child pointer (for interior nodes)
    pub fn set_right_child(&mut self, page_id: PageId) -> (r: Result<()>)
        ensures
            final(self).bytes().len() == old(self).bytes().len(),
            final(self).spec_page().id == old(self).spec_page().id,
            match spec_page_header(old(self).bytes()) {
                Err(m) => r matches Err(e) && e@ == ErrorView::InvalidPage(m) && *final(self) == *old(self),
                Ok(h) => {
                    &&& r is Ok
                    &&& final(self).bytes() == overwrite(old(self).bytes(), 0,
                        page_header_bytes(PageHeader { right_child: page_id, ..h }))
                    &&& final(self).spec_page().dirty
                },
            },
    {
        let mut header = match self.page.header() {
            Ok(h) => h,
            Err(e) => return Err(e),
        };
        header.right_child = page_id;
        self.page.set_header(&header)
    }

    /// Check if node has space for a new cell
    pub fn has_space_for_cell(&self, cell_size: usize) -> (r: Result<bool>)
        requires
            cell_size <= usize::MAX - 2,
        ensures
            match (r, spec_page_header(self.bytes())) {
                (Ok(b), Ok(h)) => b == (free_space(h) >= 2 + cell_size),
                (Err(e), Err(m)) => e@ == ErrorView::InvalidPage(m),
                _ => false,
            },
    {
        let header = match self.page.header() {
            Ok(h) => h,
            Err(e) => return Err(e),
        };
        let pointer_array_end: usize = 12 + (header.cell_count as usize + 1) * 2;
        let content_start = header.cell_content_offset as usize;
        let free_space: usize = if content_start > pointer_array_end {
            content_start - pointer_array_end
        } else {
            0
        };
        Ok(free_space >= 2 + cell_size)
    }
}

} // verus!
