//! Database file format: the header stored in the first page.
//!
//! The file consists of fixed-size pages, the first of which holds the
//! database header.
use vstd::prelude::*;
use crate::error::{Error, Result};
use crate::storage::codec::{be32_at, be32_bytes, lemma_be32_roundtrip, push_all, push_be32, read_be32};
use crate::text::{push_str, string_of, u64_to_decimal, decimal};

verus! {

/// Magic number identifying a DeepSQL database file: "DSQLv1\0\0"
pub const MAGIC_BYTES: [u8; 8] = [68u8, 83u8, 81u8, 76u8, 118u8, 49u8, 0u8, 0u8];

/// Database file format version
pub const FORMAT_VERSION: u32 = 1;

/// Default page size (4KB)
pub const DEFAULT_PAGE_SIZE: usize = 4096;

/// Minimum page size (512 bytes)
pub const MIN_PAGE_SIZE: usize = 512;

/// Maximum page size (64KB)
pub const MAX_PAGE_SIZE: usize = 65536;

/// Header page is always page 1 (first page in file)
pub const HEADER_PAGE_ID: u32 = 1;

/// The magic bytes as a sequence.
pub open spec fn magic_seq() -> Seq<u8> {
    seq![68u8, 83u8, 81u8, 76u8, 118u8, 49u8, 0u8, 0u8]
}

/// A number is a power of two.
pub open spec fn is_power_of_two(n: nat) -> bool
    decreases n,
{
    if n == 1 {
        true
    } else if n == 0 || n % 2 == 1 {
        false
    } else {
        is_power_of_two(n / 2)
    }
}

/// Database header structure stored in the first page
#[derive(Debug, Clone)]
pub struct DatabaseHeader {
    /// Magic bytes for file identification
    pub magic: [u8; 8],
    /// File format version
    pub version: u32,
    /// Page size in bytes (must be power of 2)
    pub page_size: u32,
    /// Total number of pages in the database
    pub page_count: u32,
    /// First free page (freelist head)
    pub first_free_page: u32,
    /// Root page of the main table B+Tree
    pub root_page: u32,
    /// Schema version (incremented on schema changes)
    pub schema_version: u32,
    /// Reserved for future use
    pub reserved: [u8; 32],
}

/// The 64 bytes that `to_bytes` produces for a header.
pub open spec fn header_bytes(h: DatabaseHeader) -> Seq<u8> {
    h.magic@ + be32_bytes(h.version) + be32_bytes(h.page_size) + be32_bytes(h.page_count)
        + be32_bytes(h.first_free_page) + be32_bytes(h.root_page) + be32_bytes(h.schema_version)
        + h.reserved@
}

/// The header decoded from bytes, the way `from_bytes` reads it.
pub open spec fn spec_header_from_bytes(b: Seq<u8>) -> core::result::Result<DatabaseHeader, Seq<char>> {
    if b.len() < 96 {
        Err("Header too short"@)
    } else if b.subrange(0, 8) != magic_seq() {
        Err("Invalid magic bytes"@)
    } else if be32_at(b, 8) != 1 {
        Err("Unsupported format version: "@ + decimal(be32_at(b, 8) as nat))
    } else {
        Ok(DatabaseHeader {
            magic: arbitrary(),
            version: be32_at(b, 8),
            page_size: be32_at(b, 12),
            page_count: be32_at(b, 16),
            first_free_page: be32_at(b, 20),
            root_page: be32_at(b, 24),
            schema_version: be32_at(b, 28),
            reserved: arbitrary(),
        })
    }
}

/// Two headers agree on every numeric field.
pub open spec fn same_fields(a: DatabaseHeader, b: DatabaseHeader) -> bool {
    &&& a.version == b.version
    &&& a.page_size == b.page_size
    &&& a.page_count == b.page_count
    &&& a.first_free_page == b.first_free_page
    &&& a.root_page == b.root_page
    &&& a.schema_version == b.schema_version
}

fn is_pow2(n: u32) -> (r: bool)
    ensures
        r == is_power_of_two(n as nat),
{
    let mut x = n;
    while x > 1 && x % 2 == 0
        invariant
            is_power_of_two(x as nat) == is_power_of_two(n as nat),
        decreases x,
    {
        x = x / 2;
    }
    x == 1
}

impl DatabaseHeader {
    /// Size of the serialized header in bytes
    pub const SIZE: usize = 96;

    /// Create a new database header with default values
    pub fn new(page_size: u32) -> (r: Result<Self>)
        ensures
            match r {
                Ok(h) => {
                    &&& is_power_of_two(page_size as nat)
                    &&& 512 <= page_size <= 65536
                    &&& h.magic@ == magic_seq()
                    &&& h.version == 1
                    &&& h.page_size == page_size
                    &&& h.page_count == 1
                    &&& h.first_free_page == 0
                    &&& h.root_page == 0
                    &&& h.schema_version == 0
                    &&& h.reserved@ == Seq::new(32, |i: int| 0u8)
                },
                Err(e) => {
                    &&& e is InvalidArgument
                    &&& !is_power_of_two(page_size as nat) ==> e->InvalidArgument_0@
                        == "Page size must be a power of 2"@
                    &&& is_power_of_two(page_size as nat) ==> {
                        &&& !(512 <= page_size <= 65536)
                        &&& e->InvalidArgument_0@ == "Page size must be between 512 and 65536 bytes"@
                    }
                },
            },
    {
        if !is_pow2(page_size) {
            return Err(Error::InvalidArgument(string_of("Page size must be a power of 2")));
        }
        if (page_size as usize) < MIN_PAGE_SIZE || (page_size as usize) > MAX_PAGE_SIZE {
            return Err(Error::InvalidArgument(string_of("Page size must be between 512 and 65536 bytes")));
        }
        let h = DatabaseHeader {
            magic: MAGIC_BYTES,
            version: FORMAT_VERSION,
            page_size,
            page_count: 1,
            first_free_page: 0,
            root_page: 0,
            schema_version: 0,
            reserved: [0u8; 32],
        };
        assert(h.magic@ =~= magic_seq());
        assert(h.reserved@ =~= Seq::new(32, |i: int| 0u8));
        Ok(h)
    }

    /// Serialize header to bytes (64 bytes; the rest of the header area is zero)
    pub fn to_bytes(&self) -> (r: Vec<u8>)
        ensures
            r@ == header_bytes(*self),
    {
        let mut bytes: Vec<u8> = Vec::with_capacity(96);
        push_all(&mut bytes, self.magic.as_slice());
        push_be32(&mut bytes, self.version);
        push_be32(&mut bytes, self.page_size);
        push_be32(&mut bytes, self.page_count);
        push_be32(&mut bytes, self.first_free_page);
        push_be32(&mut bytes, self.root_page);
        push_be32(&mut bytes, self.schema_version);
        push_all(&mut bytes, self.reserved.as_slice());
        bytes
    }

    /// Deserialize header from bytes
    pub fn from_bytes(bytes: &[u8]) -> (r: Result<Self>)
        ensures
            match (r, spec_header_from_bytes(bytes@)) {
                (Ok(h), Ok(s)) => {
                    &&& same_fields(h, s)
                    &&& h.magic@ == bytes@.subrange(0, 8)
                    &&& h.reserved@ == bytes@.subrange(32, 64)
                },
                (Err(Error::Corruption(m)), Err(sm)) => m@ == sm,
                _ => false,
            },
    {
        if bytes.len() < 96 {
            return Err(Error::Corruption(string_of("Header too short")));
        }
        let mut i: usize = 0;
        while i < 8
            invariant
                i <= 8,
                bytes@.len() >= 96,
                forall|j: int| 0 <= j < i ==> bytes@[j] == magic_seq()[j],
            decreases 8 - i,
        {
            if bytes[i] != MAGIC_BYTES[i] {
                assert(bytes@.subrange(0, 8)[i as int] != magic_seq()[i as int]);
                return Err(Error::Corruption(string_of("Invalid magic bytes")));
            }
            i = i + 1;
        }
        assert(bytes@.subrange(0, 8) =~= magic_seq());
        let version = read_be32(bytes, 8);
        if version != FORMAT_VERSION {
            let mut m = string_of("Unsupported format version: ");
            let d = u64_to_decimal(version as u64);
            push_str(&mut m, d.as_str());
            return Err(Error::Corruption(m));
        }
        let magic: [u8; 8] = [bytes[0], bytes[1], bytes[2], bytes[3], bytes[4], bytes[5], bytes[6], bytes[7]];
        let reserved: [u8; 32] = [
            bytes[32], bytes[33], bytes[34], bytes[35], bytes[36], bytes[37], bytes[38], bytes[39],
            bytes[40], bytes[41], bytes[42], bytes[43], bytes[44], bytes[45], bytes[46], bytes[47],
            bytes[48], bytes[49], bytes[50], bytes[51], bytes[52], bytes[53], bytes[54], bytes[55],
            bytes[56], bytes[57], bytes[58], bytes[59], bytes[60], bytes[61], bytes[62], bytes[63],
        ];
        assert(magic@ =~= bytes@.subrange(0, 8));
        assert(reserved@ =~= bytes@.subrange(32, 64));
        Ok(DatabaseHeader {
            magic,
            version,
            page_size: read_be32(bytes, 12),
            page_count: read_be32(bytes, 16),
            first_free_page: read_be32(bytes, 20),
            root_page: read_be32(bytes, 24),
            schema_version: read_be32(bytes, 28),
            reserved,
        })
    }
}

/// Reading back what `to_bytes` wrote (padded to the header area) gives the
/// same header, provided it carries the magic bytes and the current version.
pub proof fn lemma_header_roundtrip(h: DatabaseHeader, padded: Seq<u8>)
    requires
        h.magic@ == magic_seq(),
        h.version == 1,
        padded.len() >= 96,
        padded.subrange(0, 64) == header_bytes(h),
    ensures
        spec_header_from_bytes(padded) is Ok,
        same_fields(spec_header_from_bytes(padded)->Ok_0, h),
        padded.subrange(0, 8) == h.magic@,
        padded.subrange(32, 64) == h.reserved@,
{
    let b = header_bytes(h);
    assert(h.magic@.len() == 8);
    assert(h.reserved@.len() == 32);
    assert(padded.subrange(0, 8) =~= b.subrange(0, 8));
    assert(b.subrange(0, 8) =~= h.magic@);
    assert(padded.subrange(32, 64) =~= b.subrange(32, 64));
    assert(b.subrange(32, 64) =~= h.reserved@);
    assert forall|i: int| 0 <= i < 64 implies padded[i] == b[i] by {
        assert(padded.subrange(0, 64)[i] == padded[i]);
    }
    let m = h.magic@;
    let v = be32_bytes(h.version);
    let ps = be32_bytes(h.page_size);
    let pc = be32_bytes(h.page_count);
    let ff = be32_bytes(h.first_free_page);
    let rp = be32_bytes(h.root_page);
    let sv = be32_bytes(h.schema_version);
    assert(b[8] == v[0] && b[9] == v[1] && b[10] == v[2] && b[11] == v[3]);
    assert(b[12] == ps[0] && b[13] == ps[1] && b[14] == ps[2] && b[15] == ps[3]);
    assert(b[16] == pc[0] && b[17] == pc[1] && b[18] == pc[2] && b[19] == pc[3]);
    assert(b[20] == ff[0] && b[21] == ff[1] && b[22] == ff[2] && b[23] == ff[3]);
    assert(b[24] == rp[0] && b[25] == rp[1] && b[26] == rp[2] && b[27] == rp[3]);
    assert(b[28] == sv[0] && b[29] == sv[1] && b[30] == sv[2] && b[31] == sv[3]);
    lemma_be32_roundtrip(h.version, padded, 8);
    lemma_be32_roundtrip(h.page_size, padded, 12);
    lemma_be32_roundtrip(h.page_count, padded, 16);
    lemma_be32_roundtrip(h.first_free_page, padded, 20);
    lemma_be32_roundtrip(h.root_page, padded, 24);
    lemma_be32_roundtrip(h.schema_version, padded, 28);
}

} // verus!
