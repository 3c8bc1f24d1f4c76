//! Page types and structures.
//!
//! DeepSQL uses fixed-size pages as the basic unit of storage.
use vstd::prelude::*;
use crate::error::{Error, Result};
use crate::storage::codec::{be16_at, be16_bytes, be32_at, be32_bytes, lemma_be16_roundtrip,
    lemma_be32_roundtrip, push_be16, push_be32, read_be16, read_be32};
use crate::text::{decimal, push_str, string_of, u64_to_decimal};

verus! {

/// Page ID type (1-indexed, 0 means NULL)
pub type PageId = u32;

/// Cell pointer (offset to cell content)
pub type CellPointer = u16;

/// Size of the page header area in bytes.
pub const PAGE_HEADER_SIZE: usize = 12;

/// Page types in DeepSQL
#[derive(Debug, Clone, Copy, PartialEq, Eq, Structural)]
pub enum PageType {
    /// Header page (always page 1)
    Header,
    /// Leaf page in B+Tree (contains actual data records)
    Leaf,
    /// Interior page in B+Tree (contains keys and pointers)
    Interior,
    /// Overflow page (for large records)
    Overflow,
    /// Free page (on freelist)
    Free,
}

/// The byte that stands for a page type.
pub open spec fn page_type_byte(t: PageType) -> u8 {
    match t {
        PageType::Header => 0,
        PageType::Leaf => 1,
        PageType::Interior => 2,
        PageType::Overflow => 3,
        PageType::Free => 4,
    }
}

/// The page type a byte stands for.
pub open spec fn page_type_of(v: u8) -> Option<PageType> {
    if v == 0 { Some(PageType::Header) }
    else if v == 1 { Some(PageType::Leaf) }
    else if v == 2 { Some(PageType::Interior) }
    else if v == 3 { Some(PageType::Overflow) }
    else if v == 4 { Some(PageType::Free) }
    else { None }
}

impl PageType {
    /// Convert from u8
    pub fn from_u8(value: u8) -> (r: Result<Self>)
        ensures
            match (r, page_type_of(value)) {
                (Ok(t), Some(s)) => t == s,
                (Err(Error::InvalidPage(m)), None) => m@ == "Invalid page type: "@ + decimal(value as nat),
                _ => false,
            },
    {
        match value {
            0 => Ok(PageType::Header),
            1 => Ok(PageType::Leaf),
            2 => Ok(PageType::Interior),
            3 => Ok(PageType::Overflow),
            4 => Ok(PageType::Free),
            _ => {
                let mut m = string_of("Invalid page type: ");
                let d = u64_to_decimal(value as u64);
                push_str(&mut m, d.as_str());
                Err(Error::InvalidPage(m))
            },
        }
    }

    /// The byte that stands for this page type.
    pub fn to_u8(&self) -> (b: u8)
        ensures
            b == page_type_byte(*self),
            page_type_of(b) == Some(*self),
    {
        match self {
            PageType::Header => 0,
            PageType::Leaf => 1,
            PageType::Interior => 2,
            PageType::Overflow => 3,
            PageType::Free => 4,
        }
    }
}

/// Page header structure (common to all page types except Header)
#[derive(Debug, Clone)]
pub struct PageHeader {
    /// Type of this page
    pub page_type: PageType,
    /// Number of cells (records/keys) in this page
    pub cell_count: u16,
    /// Offset to start of cell content area
    pub cell_content_offset: u16,
    /// Number of fragmented free bytes
    pub fragmented_free_bytes: u16,
    /// Right-most child pointer (for interior pages only)
    pub right_child: PageId,
}

/// The 11 bytes that `PageHeader::to_bytes` produces.
pub open spec fn page_header_bytes(h: PageHeader) -> Seq<u8> {
    seq![page_type_byte(h.page_type)] + be16_bytes(h.cell_count) + be16_bytes(h.cell_content_offset)
        + be16_bytes(h.fragmented_free_bytes) + be32_bytes(h.right_child)
}

/// The header read from the start of some bytes.
pub open spec fn spec_page_header(b: Seq<u8>) -> core::result::Result<PageHeader, Seq<char>> {
    if b.len() < 12 {
        Err("Page header too short"@)
    } else {
        match page_type_of(b[0]) {
            None => Err("Invalid page type: "@ + decimal(b[0] as nat)),
            Some(t) => Ok(PageHeader {
                page_type: t,
                cell_count: be16_at(b, 1),
                cell_content_offset: be16_at(b, 3),
                fragmented_free_bytes: be16_at(b, 5),
                right_child: be32_at(b, 7),
            }),
        }
    }
}

/// Whether a header read from bytes equals the expected one.
pub open spec fn header_read_is(r: Result<PageHeader>, s: core::result::Result<PageHeader, Seq<char>>) -> bool {
    match (r, s) {
        (Ok(h), Ok(t)) => h == t,
        (Err(Error::InvalidPage(m)), Err(sm)) => m@ == sm,
        _ => false,
    }
}

impl PageHeader {
    /// Size of page header in bytes
    pub const SIZE: usize = 12;

    /// Create a new page header
    pub fn new(page_type: PageType) -> (h: Self)
        ensures
            h == (PageHeader { page_type, cell_count: 0, cell_content_offset: 0,
                fragmented_free_bytes: 0, right_child: 0 }),
    {
        PageHeader {
            page_type,
            cell_count: 0,
            cell_content_offset: 0,
            fragmented_free_bytes: 0,
            right_child: 0,
        }
    }

    /// Serialize page header to bytes
    pub fn to_bytes(&self) -> (r: Vec<u8>)
        ensures
            r@ == page_header_bytes(*self),
            r@.len() == 11,
    {
        let mut bytes: Vec<u8> = Vec::with_capacity(12);
        bytes.push(self.page_type.to_u8());
        push_be16(&mut bytes, self.cell_count);
        push_be16(&mut bytes, self.cell_content_offset);
        push_be16(&mut bytes, self.fragmented_free_bytes);
        push_be32(&mut bytes, self.right_child);
        assert(bytes@ =~= page_header_bytes(*self));
        bytes
    }

    /// Deserialize page header from bytes
    pub fn from_bytes(bytes: &[u8]) -> (r: Result<Self>)
        ensures
            header_read_is(r, spec_page_header(bytes@)),
    {
        if bytes.len() < 12 {
            return Err(Error::InvalidPage(string_of("Page header too short")));
        }
        let page_type = match PageType::from_u8(bytes[0]) {
            Ok(t) => t,
            Err(e) => return Err(e),
        };
        Ok(PageHeader {
            page_type,
            cell_count: read_be16(bytes, 1),
            cell_content_offset: read_be16(bytes, 3),
            fragmented_free_bytes: read_be16(bytes, 5),
            right_child: read_be32(bytes, 7),
        })
    }
}

/// Writing a header's bytes at the start of a page and reading them back
/// gives the header.
pub proof fn lemma_page_header_roundtrip(h: PageHeader, b: Seq<u8>)
    requires
        b.len() >= 12,
        b.subrange(0, 11) == page_header_bytes(h),
    ensures
        spec_page_header(b) == Ok::<PageHeader, Seq<char>>(h),
{
    let hb = page_header_bytes(h);
    assert forall|i: int| 0 <= i < 11 implies b[i] == hb[i] by {
        assert(b.subrange(0, 11)[i] == b[i]);
    }
    let c = be16_bytes(h.cell_count);
    let o = be16_bytes(h.cell_content_offset);
    let f = be16_bytes(h.fragmented_free_bytes);
    let r = be32_bytes(h.right_child);
    assert(hb[1] == c[0] && hb[2] == c[1]);
    assert(hb[3] == o[0] && hb[4] == o[1]);
    assert(hb[5] == f[0] && hb[6] == f[1]);
    assert(hb[7] == r[0] && hb[8] == r[1] && hb[9] == r[2] && hb[10] == r[3]);
    lemma_be16_roundtrip(h.cell_count, b, 1);
    lemma_be16_roundtrip(h.cell_content_offset, b, 3);
    lemma_be16_roundtrip(h.fragmented_free_bytes, b, 5);
    lemma_be32_roundtrip(h.right_child, b, 7);
}

/// In-memory representation of a page
#[derive(Debug)]
pub struct Page {
    /// Page ID
    pub id: PageId,
    /// Raw page data
    pub data: Vec<u8>,
    /// Whether this page has been modified
    pub dirty: bool,
}

/// The bytes `b` with `w` written at position `off`.
pub open spec fn overwrite(b: Seq<u8>, off: int, w: Seq<u8>) -> Seq<u8> {
    b.subrange(0, off) + w + b.subrange(off + w.len(), b.len() as int)
}

/// The offset of the cell pointer with the given index.
pub open spec fn cell_pointer_offset(index: int) -> int {
    12 + index * 2
}

/// Writes bytes into a vector at an offset.
pub fn write_bytes(v: &mut Vec<u8>, off: usize, w: &[u8])
    requires
        off + w@.len() <= old(v)@.len(),
    ensures
        final(v)@ == overwrite(old(v)@, off as int, w@),
{
    let mut i: usize = 0;
    while i < w.len()
        invariant
            i <= w@.len(),
            off + w@.len() <= v@.len(),
            v@.len() == old(v)@.len(),
            v@ == overwrite(old(v)@, off as int, w@.subrange(0, i as int)),
        decreases w@.len() - i,
    {
        let n = v.len();
        assert(off + i < n);
        v.set(off + i, w[i]);
        i = i + 1;
        assert(v@ =~= overwrite(old(v)@, off as int, w@.subrange(0, i as int)));
    }
    assert(w@.subrange(0, i as int) =~= w@);
}

impl Clone for Page {
    fn clone(&self) -> (p: Self)
        ensures
            p.id == self.id,
            p.data@ == self.data@,
            p.dirty == self.dirty,
    {
        Page { id: self.id, data: self.data.clone(), dirty: self.dirty }
    }
}

impl Page {
    /// Create a new empty page
    pub fn new(id: PageId, size: usize) -> (p: Self)
        ensures
            p.id == id,
            p.data@ == Seq::new(size as nat, |i: int| 0u8),
            !p.dirty,
    {
        let data = vec![0u8; size];
        assert(data@ =~= Seq::new(size as nat, |i: int| 0u8));
        Page { id, data, dirty: false }
    }

    /// Create a page from raw data
    pub fn from_data(id: PageId, data: Vec<u8>) -> (p: Self)
        ensures
            p.id == id,
            p.data == data,
            !p.dirty,
    {
        Page { id, data, dirty: false }
    }

    /// Get page header
    pub fn header(&self) -> (r: Result<PageHeader>)
        ensures
            header_read_is(r, spec_page_header(self.data@)),
    {
        PageHeader::from_bytes(self.data.as_slice())
    }

    /// Set page header
    pub fn set_header(&mut self, header: &PageHeader) -> (r: Result<()>)
        ensures
            final(self).id == old(self).id,
            old(self).data@.len() >= 11 ==> {
                &&& r is Ok
                &&& final(self).data@ == overwrite(old(self).data@, 0, page_header_bytes(*header))
                &&& final(self).dirty
            },
            old(self).data@.len() < 11 ==> {
                &&& (r matches Err(Error::InvalidPage(m)) && m@ == "Page too small for header"@)
                &&& *final(self) == *old(self)
            },
    {
        let bytes = header.to_bytes();
        if bytes.len() > self.data.len() {
            return Err(Error::InvalidPage(string_of("Page too small for header")));
        }
        write_bytes(&mut self.data, 0, bytes.as_slice());
        self.dirty = true;
        Ok(())
    }

    /// Get cell pointer at index
    pub fn get_cell_pointer(&self, index: u16) -> (r: Result<CellPointer>)
        ensures
            cell_pointer_offset(index as int) + 2 <= self.data@.len() ==>
                r == Ok::<u16, Error>(be16_at(self.data@, cell_pointer_offset(index as int))),
            cell_pointer_offset(index as int) + 2 > self.data@.len() ==>
                (r matches Err(Error::InvalidPage(m)) && m@ == "Cell pointer out of bounds"@),
    {
        let offset = PAGE_HEADER_SIZE + (index as usize) * 2;
        if offset + 2 > self.data.len() {
            return Err(Error::InvalidPage(string_of("Cell pointer out of bounds")));
        }
        Ok(read_be16(self.data.as_slice(), offset))
    }

    /// Set cell pointer at index
    pub fn set_cell_pointer(&mut self, index: u16, pointer: CellPointer) -> (r: Result<()>)
        ensures
            final(self).id == old(self).id,
            cell_pointer_offset(index as int) + 2 <= old(self).data@.len() ==> {
                &&& r is Ok
                &&& final(self).data@ == overwrite(old(self).data@, cell_pointer_offset(index as int), be16_bytes(pointer))
                &&& final(self).dirty
            },
            cell_pointer_offset(index as int) + 2 > old(self).data@.len() ==> {
                &&& (r matches Err(Error::InvalidPage(m)) && m@ == "Cell pointer out of bounds"@)
                &&& *final(self) == *old(self)
            },
    {
        let offset = PAGE_HEADER_SIZE + (index as usize) * 2;
        if offset + 2 > self.data.len() {
            return Err(Error::InvalidPage(string_of("Cell pointer out of bounds")));
        }
        let mut w: Vec<u8> = Vec::new();
        push_be16(&mut w, pointer);
        write_bytes(&mut self.data, offset, w.as_slice());
        self.dirty = true;
        Ok(())
    }

    /// Get cell data at pointer offset
    pub fn get_cell_data(&self, pointer: CellPointer) -> (r: Result<&[u8]>)
        ensures
            (pointer as int) < self.data@.len() ==>
                (r matches Ok(s) && s@ == self.data@.subrange(pointer as int, self.data@.len() as int)),
            (pointer as int) >= self.data@.len() ==>
                (r matches Err(Error::InvalidPage(m)) && m@ == "Cell data out of bounds"@),
    {
        let offset = pointer as usize;
        if offset >= self.data.len() {
            return Err(Error::InvalidPage(string_of("Cell data out of bounds")));
        }
        Ok(vstd::slice::slice_subrange(self.data.as_slice(), offset, self.data.len()))
    }

    /// Get mutable cell data at a pointer; the page becomes dirty.
    pub fn get_cell_data_mut(&mut self, pointer: CellPointer) -> (r: Result<&mut [u8]>)
        ensures
            final(self).id == old(self).id,
            (pointer as int) < old(self).data@.len() ==> {
                &&& r matches Ok(s) && s@ == old(self).data@.subrange(pointer as int, old(self).data@.len() as int)
                &&& final(self).dirty
                &&& final(self).data@ == old(self).data@.subrange(0, pointer as int) + final(r->Ok_0)@
            },
            (pointer as int) >= old(self).data@.len() ==> {
                &&& r matches Err(Error::InvalidPage(m)) && m@ == "Cell data out of bounds"@
                &&& *final(self) == *old(self)
            },
    {
        let offset = pointer as usize;
        if offset >= self.data.len() {
            return Err(Error::InvalidPage(string_of("Cell data out of bounds")));
        }
        self.dirty = true;
        let all = self.data.as_mut_slice();
        let (_, rest) = all.split_at_mut(offset);
        Ok(rest)
    }

    /// Initialize page as a specific type
    pub fn initialize(&mut self, page_type: PageType, page_size: usize) -> (r: Result<()>)
        ensures
            final(self).id == old(self).id,
            old(self).data@.len() >= 11 ==> {
                &&& r is Ok
                &&& final(self).data@ == overwrite(old(self).data@, 0, page_header_bytes(
                    PageHeader { page_type, cell_count: 0, cell_content_offset: page_size as u16,
                        fragmented_free_bytes: 0, right_child: 0 }))
                &&& final(self).dirty
            },
            old(self).data@.len() < 11 ==> {
                &&& (r matches Err(Error::InvalidPage(m)) && m@ == "Page too small for header"@)
                &&& *final(self) == *old(self)
            },
    {
        let mut header = PageHeader::new(page_type);
        header.cell_content_offset = page_size as u16;
        self.set_header(&header)
    }
}

} // verus!
