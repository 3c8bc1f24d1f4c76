//! Page manager: reads and writes fixed-size pages of a database file,
//! keeps a page cache, allocates pages, and keeps shadow copies while a
//! transaction is open.
//!
//! The pager works on the database file's bytes held in memory (its
//! image); the program that owns the pager loads the image from disk and
//! stores it back.  A page `p` (counted from 1) lives at offset
//! `(p - 1) * page_size`.  The cache keeps every page it has seen.
use vstd::prelude::*;
use std::collections::HashMap;
use crate::error::{Error, ErrorView, Result};
use crate::storage::file_format::{
    DEFAULT_PAGE_SIZE, DatabaseHeader, HEADER_PAGE_ID, header_bytes, same_fields,
    spec_header_from_bytes,
};
use crate::storage::page::{Page, PageHeader, PageId, PageType, overwrite, page_header_bytes};
use crate::storage::codec::be32_bytes;
use crate::text::{decimal, push_str, string_of, u64_to_decimal};

verus! {

broadcast use vstd::std_specs::hash::group_hash_axioms;

/// Maximum number of pages to keep in memory cache
pub const DEFAULT_CACHE_SIZE: usize = 256;

/// `n` zero bytes.
pub open spec fn zeros(n: nat) -> Seq<u8> {
    Seq::new(n, |i: int| 0u8)
}

/// The file after writing `data` at offset `off`: a file shorter than the
/// offset is first extended with zeros, and the file grows as needed.
pub open spec fn write_at(file: Seq<u8>, off: nat, data: Seq<u8>) -> Seq<u8> {
    let base = if file.len() < off { file + zeros((off - file.len()) as nat) } else { file };
    if off + data.len() <= base.len() {
        base.subrange(0, off as int) + data + base.subrange((off + data.len()) as int, base.len() as int)
    } else {
        base.subrange(0, off as int) + data
    }
}

/// The `n` bytes at offset `off`, if the file holds them all.
pub open spec fn read_at(file: Seq<u8>, off: nat, n: nat) -> Option<Seq<u8>> {
    if off + n <= file.len() { Some(file.subrange(off as int, (off + n) as int)) } else { None }
}

/// The offset of a page in the file.
pub open spec fn page_offset(pid: PageId, ps: nat) -> nat {
    ((pid - 1) * ps) as nat
}

/// The header page: the header's bytes, then zeros up to the page size.
pub open spec fn header_page(h: DatabaseHeader, ps: nat) -> Seq<u8> {
    header_bytes(h) + zeros((ps - 64) as nat)
}

/// The message of a read past the end of the file.
pub open spec fn short_read() -> Seq<char> {
    "failed to fill whole buffer"@
}

/// The content and dirty flag of a page.
pub open spec fn page_view(p: Page) -> (Seq<u8>, bool) {
    (p.data@, p.dirty)
}

/// The file after writing the given pages in order, each at its own offset.
pub open spec fn write_pages(file: Seq<u8>, ps: nat, pages: Seq<(PageId, Seq<u8>)>) -> Seq<u8>
    decreases pages.len(),
{
    if pages.len() == 0 {
        file
    } else {
        let last = pages.last();
        write_at(write_pages(file, ps, pages.drop_last()), page_offset(last.0, ps), last.1)
    }
}

proof fn lemma_offset(pid: nat, ps: nat)
    requires
        pid >= 1,
    ensures
        ((pid - 1) * ps) as int + ps == pid * ps,
        (pid - 1) * ps >= 0,
        pid * ps >= 0,
{
    assert(((pid - 1) * ps) as int + ps == pid * ps) by (nonlinear_arith)
        requires
            pid >= 1,
    ;
    assert((pid - 1) * ps >= 0) by (nonlinear_arith)
        requires
            pid >= 1,
    ;
    assert(pid * ps >= 0) by (nonlinear_arith);
}

proof fn lemma_mul_mono(a: nat, b: nat, ps: nat)
    requires
        a <= b,
    ensures
        a * ps <= b * ps,
        (b + 2) * ps == b * ps + 2 * ps,
        (b + 1) * ps == b * ps + ps,
{
    assert((b + 2) * ps == b * ps + 2 * ps) by (nonlinear_arith);
    assert((b + 1) * ps == b * ps + ps) by (nonlinear_arith);
    assert(a * ps <= b * ps) by (nonlinear_arith)
        requires
            a <= b,
    ;
}

/// Writing one page's bytes leaves the bytes of every other page that the
/// file already held as they were.
proof fn lemma_write_other_page(f: Seq<u8>, p: PageId, q: PageId, ps: nat, data: Seq<u8>)
    requires
        p >= 1,
        q >= 1,
        p != q,
        data.len() <= ps,
        read_at(f, page_offset(q, ps), ps) is Some,
    ensures
        read_at(write_at(f, page_offset(p, ps), data), page_offset(q, ps), ps) == read_at(f, page_offset(q, ps), ps),
{
    lemma_offset(p as nat, ps);
    lemma_offset(q as nat, ps);
    let op = page_offset(p, ps);
    let oq = page_offset(q, ps);
    if q < p {
        lemma_mul_mono(q as nat, (p - 1) as nat, ps);
        assert(oq + ps <= op);
    } else {
        lemma_mul_mono(p as nat, (q - 1) as nat, ps);
        assert(op + ps <= oq);
    }
    let g = write_at(f, op, data);
    assert(g.len() >= f.len());
    assert(g.subrange(oq as int, (oq + ps) as int) =~= f.subrange(oq as int, (oq + ps) as int));
}

/// Every page other than `x` that read well from `a` reads the same from
/// `b`.
#[verifier::opaque]
pub open spec fn reads_kept_but(a: Pager, b: Pager, x: PageId) -> bool {
    forall|q: PageId| q != x && #[trigger] a.read_result(q) is Ok ==> b.read_result(q) == a.read_result(q)
}

/// Within a transaction begun on `base`: every page the transaction saved
/// was saved with what `base` showed of it, and every other page shows what
/// `base` showed.
pub open spec fn txn_snapshot(p: Pager, base: Pager) -> bool {
    &&& forall|q: PageId| #[trigger] p.shadows().contains_key(q) ==> base.visible(q) == Some(p.shadows()[q])
    &&& forall|q: PageId| !p.shadows().contains_key(q) ==> #[trigger] p.visible(q) == base.visible(q)
}

/// A step of a transaction: saved originals stay, a page saved now is
/// saved with what it showed, and every page not saved shows the same.
pub open spec fn txn_kept(a: Pager, b: Pager) -> bool {
    &&& forall|q: PageId| #[trigger] a.shadows().contains_key(q)
        ==> b.shadows().contains_key(q) && b.shadows()[q] == a.shadows()[q]
    &&& forall|q: PageId| #[trigger] b.shadows().contains_key(q) && !a.shadows().contains_key(q)
        ==> a.visible(q) == Some(b.shadows()[q])
    &&& forall|q: PageId| !b.shadows().contains_key(q) ==> #[trigger] b.visible(q) == a.visible(q)
}

/// After a rollback from `p` to `r`: each saved page shows its original, and
/// every other page that showed something shows the same.
pub open spec fn rolled_back(p: Pager, r: Pager) -> bool {
    &&& forall|q: PageId| #[trigger] p.shadows().contains_key(q) ==> r.visible(q) == Some(p.shadows()[q])
    &&& forall|q: PageId| q >= 1 && !p.shadows().contains_key(q) && #[trigger] p.visible(q) is Some
        ==> r.visible(q) == p.visible(q)
}

/// A step that keeps a transaction's saved originals keeps its snapshot.
pub proof fn lemma_txn_step(p: Pager, p2: Pager, base: Pager)
    requires
        txn_snapshot(p, base),
        txn_kept(p, p2),
    ensures
        txn_snapshot(p2, base),
{
    assert forall|q: PageId| #[trigger] p2.shadows().contains_key(q) implies base.visible(q) == Some(p2.shadows()[q]) by {
        if !p.shadows().contains_key(q) {
            assert(p.visible(q) == base.visible(q));
        }
    }
    assert forall|q: PageId| !p2.shadows().contains_key(q) implies #[trigger] p2.visible(q) == base.visible(q) by {
        assert(!p.shadows().contains_key(q));
        assert(p.visible(q) == base.visible(q));
    }
}

/// Two steps that each keep a transaction's saved originals keep them.
pub proof fn lemma_txn_kept_trans(a: Pager, b: Pager, c: Pager)
    requires
        txn_kept(a, b),
        txn_kept(b, c),
    ensures
        txn_kept(a, c),
{
    assert forall|q: PageId| #[trigger] c.shadows().contains_key(q) && !a.shadows().contains_key(q)
        implies a.visible(q) == Some(c.shadows()[q]) by {
        if b.shadows().contains_key(q) {
            assert(c.shadows()[q] == b.shadows()[q]);
        } else {
            assert(b.visible(q) == a.visible(q));
        }
    }
    assert forall|q: PageId| !c.shadows().contains_key(q) implies #[trigger] c.visible(q) == a.visible(q) by {
        assert(!b.shadows().contains_key(q));
        assert(b.visible(q) == a.visible(q));
    }
}

/// Rolling a transaction back shows every page that showed something when
/// the transaction began as it was then.
pub proof fn law_rollback_restores(base: Pager, p: Pager, r: Pager)
    requires
        txn_snapshot(p, base),
        rolled_back(p, r),
    ensures
        forall|q: PageId| q >= 1 && #[trigger] base.visible(q) is Some ==> r.visible(q) == base.visible(q),
{
    assert forall|q: PageId| q >= 1 && #[trigger] base.visible(q) is Some implies r.visible(q) == base.visible(q) by {
        if !p.shadows().contains_key(q) {
            assert(p.visible(q) == base.visible(q));
        }
    }
}

/// When the header stays, and the cache and the file change at most at page
/// `pid`, with bytes that fit in a page, every other page that read well
/// before reads the same.
pub proof fn lemma_read_frame(a: Pager, b: Pager, pid: PageId, data: Seq<u8>)
    requires
        b.hdr() == a.hdr(),
        b.psize() == a.psize(),
        pid >= 1,
        data.len() <= a.psize(),
        forall|q: PageId| q != pid ==> (#[trigger] b.cached().contains_key(q) <==> a.cached().contains_key(q)),
        forall|q: PageId| q != pid && a.cached().contains_key(q) ==> #[trigger] b.cached()[q] == a.cached()[q],
        b.image() == a.image() || b.image() == write_at(a.image(), page_offset(pid, a.psize()), data),
    ensures
        reads_kept_but(a, b, pid),
{
    reveal(reads_kept_but);
    assert forall|q: PageId| q != pid && #[trigger] a.read_result(q) is Ok implies b.read_result(q) == a.read_result(q) by {
        if !a.cached().contains_key(q) && b.image() != a.image() {
            lemma_write_other_page(a.image(), pid, q, a.psize(), data);
        }
    }
}

/// A change that kept every page but `x` after reads that changed nothing
/// kept them from before those reads.
pub proof fn lemma_reads_kept_before(p0: Pager, p1: Pager, p2: Pager, x: PageId)
    requires
        forall|q: PageId| #[trigger] p1.read_result(q) == p0.read_result(q),
        reads_kept_but(p1, p2, x),
    ensures
        reads_kept_but(p0, p2, x),
{
    reveal(reads_kept_but);
    assert forall|q: PageId| q != x && #[trigger] p0.read_result(q) is Ok implies p2.read_result(q) == p0.read_result(q) by {
        assert(p1.read_result(q) == p0.read_result(q));
    }
}

proof fn lemma_no_dup_push(ids: Seq<PageId>, id: PageId)
    requires
        ids.no_duplicates(),
        !ids.contains(id),
    ensures
        ids.push(id).no_duplicates(),
{
    assert forall|i: int, j: int| 0 <= i < ids.push(id).len() && 0 <= j < ids.push(id).len() && i != j implies ids.push(id)[i]
        != ids.push(id)[j] by {
        if i == ids.len() {
            assert(ids[j] == ids.push(id)[j]);
        } else if j == ids.len() {
            assert(ids[i] == ids.push(id)[i]);
        }
    }
}


/// The cache after the given pages are put in it, clean, in order.
pub open spec fn cache_after(c: Map<PageId, (Seq<u8>, bool)>, pages: Seq<(PageId, Seq<u8>)>) -> Map<PageId, (Seq<u8>, bool)>
    decreases pages.len(),
{
    if pages.len() == 0 {
        c
    } else {
        cache_after(c, pages.drop_last()).insert(pages.last().0, (pages.last().1, false))
    }
}

/// The dirty pages of a cache, in the given order, with their contents.
pub open spec fn dirty_writes(c: Map<PageId, (Seq<u8>, bool)>, order: Seq<PageId>) -> Seq<(PageId, Seq<u8>)>
    decreases order.len(),
{
    if order.len() == 0 {
        Seq::empty()
    } else {
        let rest = dirty_writes(c, order.drop_last());
        let id = order.last();
        if c[id].1 { rest.push((id, c[id].0)) } else { rest }
    }
}

/// The bytes of a page after it is freed: an empty free page whose first
/// four bytes link to the previous first free page.
pub open spec fn freed_page(d: Seq<u8>, ps: nat, next_free: u32) -> Seq<u8> {
    overwrite(
        overwrite(d, 0, page_header_bytes(PageHeader {
            page_type: PageType::Free,
            cell_count: 0,
            cell_content_offset: ps as u16,
            fragmented_free_bytes: 0,
            right_child: 0,
        })),
        0,
        be32_bytes(next_free),
    )
}

/// Writes bytes into a file image at an offset, growing it as needed.
fn write_file(file: &mut Vec<u8>, off: usize, data: &[u8])
    requires
        off + data@.len() <= usize::MAX,
    ensures
        final(file)@ == write_at(old(file)@, off as nat, data@),
{
    let ghost f0 = old(file)@;
    while file.len() < off
        invariant
            f0.len() <= off ==> file@.len() <= off && file@ == f0 + zeros((file@.len() - f0.len()) as nat),
            f0.len() > off ==> file@ == f0,
            file@.len() >= f0.len(),
        decreases off - file@.len(),
    {
        file.push(0u8);
        proof {
            assert(file@ =~= f0 + zeros((file@.len() - f0.len()) as nat));
        }
    }
    let ghost base = file@;
    assert(base == (if f0.len() < off { f0 + zeros((off - f0.len()) as nat) } else { f0 })) by {
        if f0.len() < off {
            assert(base =~= f0 + zeros((off - f0.len()) as nat));
        } else if f0.len() == off {
            assert(base =~= f0 + zeros(0));
            assert(f0 + zeros(0) =~= f0);
        } else {
            assert(base =~= f0);
        }
    }
    let mut i: usize = 0;
    while i < data.len()
        invariant
            off <= base.len(),
            off + data@.len() <= usize::MAX,
            i <= data@.len(),
            file@ == write_at(base, off as nat, data@.subrange(0, i as int)),
            file@.len() == if off + i <= base.len() { base.len() as int } else { off + i },
        decreases data@.len() - i,
    {
        let ghost prev = file@;
        if off + i < file.len() {
            file.set(off + i, data[i]);
        } else {
            file.push(data[i]);
        }
        i = i + 1;
        proof {
            let d = data@.subrange(0, i as int);
            assert(file@ =~= write_at(base, off as nat, d));
        }
    }
    assert(data@.subrange(0, i as int) =~= data@);
}


/// Page Manager - handles page I/O and caching
pub struct Pager {
    /// The database file's bytes
    file: Vec<u8>,
    /// Database header
    header: DatabaseHeader,
    /// In-memory page cache
    cache: HashMap<PageId, Page>,
    /// The cached pages' ids, in the order they were first cached
    cache_ids: Vec<PageId>,
    /// The cache size the pager was opened with
    cache_size: usize,
    /// Page size in bytes
    page_size: usize,
    /// Transaction mode flag
    transaction_mode: bool,
    /// Shadow pages for transaction (page_id -> original_data)
    shadow_pages: HashMap<PageId, Vec<u8>>,
    /// The shadowed pages' ids, in the order they were saved
    shadow_ids: Vec<PageId>,
    /// Modified pages in transaction
    modified_pages: HashMap<PageId, Page>,
    /// The modified pages' ids, in the order they were first modified
    modified_ids: Vec<PageId>,
}

/// Whether a list of ids is exactly the keys of a map, each once.
pub open spec fn ids_match<V>(ids: Seq<PageId>, m: Map<PageId, V>) -> bool {
    &&& ids.no_duplicates()
    &&& forall|k: PageId| m.contains_key(k) <==> ids.contains(k)
}

impl Pager {
    /// The database file's bytes.
    pub closed spec fn image(&self) -> Seq<u8> {
        self.file@
    }

    /// The database header.
    pub closed spec fn hdr(&self) -> DatabaseHeader {
        self.header
    }

    /// The page size.
    pub closed spec fn psize(&self) -> nat {
        self.page_size as nat
    }

    /// The cached pages: content and dirty flag, by id.
    pub closed spec fn cached(&self) -> Map<PageId, (Seq<u8>, bool)> {
        self.cache@.map_values(|p: Page| page_view(p))
    }

    /// Whether a transaction is open.
    pub closed spec fn in_txn(&self) -> bool {
        self.transaction_mode
    }

    /// The saved originals of the pages changed in the transaction.
    pub closed spec fn shadows(&self) -> Map<PageId, Seq<u8>> {
        self.shadow_pages@.map_values(|v: Vec<u8>| v@)
    }

    /// The pages changed in the transaction.
    pub closed spec fn modified(&self) -> Map<PageId, (Seq<u8>, bool)> {
        self.modified_pages@.map_values(|p: Page| page_view(p))
    }

    /// The order in which modified pages are written at commit.
    pub closed spec fn modified_order(&self) -> Seq<PageId> {
        self.modified_ids@
    }

    /// The order in which shadow copies are restored at rollback.
    pub closed spec fn shadow_order(&self) -> Seq<PageId> {
        self.shadow_ids@
    }

    /// The order in which cached pages are visited by `flush`.
    pub closed spec fn cache_order(&self) -> Seq<PageId> {
        self.cache_ids@
    }

    /// The cache size the pager was opened with.
    pub closed spec fn cache_capacity(&self) -> nat {
        self.cache_size as nat
    }

    /// What reading a page gives: its cached copy, else its bytes in the
    /// file, if the file holds the whole page.
    pub open spec fn visible(&self, pid: PageId) -> Option<Seq<u8>> {
        if self.cached().contains_key(pid) {
            Some(self.cached()[pid].0)
        } else {
            read_at(self.image(), page_offset(pid, self.psize()), self.psize())
        }
    }

    /// What `read_page` gives for a page: its cached copy; else, for a page
    /// the header counts, its bytes in the file; else an error.
    pub open spec fn read_result(&self, pid: PageId) -> core::result::Result<Seq<u8>, ErrorView> {
        if self.cached().contains_key(pid) {
            Ok(self.cached()[pid].0)
        } else if pid == 0 {
            Err(ErrorView::InvalidPage("Page ID cannot be 0"@))
        } else if pid > self.hdr().page_count {
            Err(ErrorView::InvalidPage(
                "Page "@ + decimal(pid as nat) + " does not exist (max: "@ + decimal(self.hdr().page_count as nat) + ")"@,
            ))
        } else {
            match self.visible(pid) {
                Some(d) => Ok(d),
                None => Err(ErrorView::Io(short_read())),
            }
        }
    }

    /// The pager's invariant: the page size is the header's, the id lists
    /// are the maps' keys, every page is stored under its own id, and the
    /// pages counted by the header fit in memory.
    pub closed spec fn wf(&self) -> bool {
        &&& self.page_size == self.header.page_size as usize
        &&& ids_match(self.cache_ids@, self.cache@)
        &&& ids_match(self.shadow_ids@, self.shadow_pages@)
        &&& ids_match(self.modified_ids@, self.modified_pages@)
        &&& forall|k: PageId| #[trigger] self.cache@.contains_key(k) ==> self.cache@[k].id == k
        &&& forall|k: PageId| #[trigger] self.modified_pages@.contains_key(k) ==> self.modified_pages@[k].id == k
        &&& (self.header.page_count as int + 2) * self.page_size <= usize::MAX
        &&& forall|k: PageId| #[trigger] self.cache@.contains_key(k) ==> {
            &&& self.cache@[k].data@.len() <= self.page_size
            &&& k >= 1
            &&& (k as int) * self.page_size + self.page_size <= usize::MAX
        }
        &&& forall|k: PageId| #[trigger] self.modified_pages@.contains_key(k) ==> {
            &&& self.modified_pages@[k].data@.len() <= self.page_size
            &&& k >= 1
            &&& (k as int) * self.page_size + self.page_size <= usize::MAX
        }
        &&& forall|k: PageId| #[trigger] self.shadow_pages@.contains_key(k) ==> {
            &&& self.shadow_pages@[k]@.len() <= self.page_size
            &&& k >= 1
            &&& (k as int) * self.page_size + self.page_size <= usize::MAX
        }
    }

    /// Whether a page's offset and extent fit in memory.
    pub open spec fn addressable(&self, pid: PageId) -> bool {
        (pid as int) * self.psize() + self.psize() <= usize::MAX
    }

    /// Opens a database from the bytes of its file, with the given cache
    /// size: a file of at least one default page holds a header to read;
    /// a shorter one becomes a new database of one header page.
    pub fn open_image(image: Vec<u8>, cache_size: usize) -> (r: Result<Self>)
        ensures
            image@.len() >= 4096 ==> match (r, spec_header_from_bytes(image@.subrange(0, 4096))) {
                (Ok(p), Ok(h)) => {
                    &&& same_fields(p.hdr(), h)
                    &&& p.image() == image@
                    &&& p.psize() == h.page_size
                },
                (Err(Error::Corruption(m)), Err(sm)) => m@ == sm,
                (Err(Error::InvalidArgument(m)), Ok(h)) => m@ == "Page count too large for memory"@,
                _ => false,
            },
            image@.len() < 4096 ==> match r {
                Ok(p) => {
                    &&& p.hdr().page_count == 1
                    &&& p.hdr().page_size == 4096
                    &&& p.hdr().root_page == 0
                    &&& p.hdr().first_free_page == 0
                    &&& p.image() == write_at(image@, 0, header_page(p.hdr(), 4096))
                    &&& p.psize() == 4096
                },
                Err(_) => false,
            },
            r matches Ok(p) ==> {
                &&& p.wf()
                &&& p.cached().dom() == Set::<PageId>::empty()
                &&& !p.in_txn()
                &&& p.shadows().dom() == Set::<PageId>::empty()
                &&& p.modified().dom() == Set::<PageId>::empty()
                &&& p.cache_capacity() == cache_size
            },
    {
        let mut file = image;
        let header: DatabaseHeader;
        if file.len() >= DEFAULT_PAGE_SIZE {
            let h = match DatabaseHeader::from_bytes(vstd::slice::slice_subrange(file.as_slice(), 0, DEFAULT_PAGE_SIZE)) {
                Ok(h) => h,
                Err(e) => {
                    return Err(e);
                },
            };
            proof {
                assert((h.page_count as u128 + 2) * (h.page_size as u128) <= 0x1_0000_0001u128 * 0xffff_ffffu128)
                    by (nonlinear_arith)
                    requires
                        h.page_count <= 0xffff_ffffu32,
                        h.page_size <= 0xffff_ffffu32,
                ;
            }
            if (h.page_count as u128 + 2) * (h.page_size as u128) > usize::MAX as u128 {
                return Err(Error::InvalidArgument(string_of("Page count too large for memory")));
            }
            header = h;
        } else {
            proof {
                reveal_with_fuel(crate::storage::file_format::is_power_of_two, 13);
            }
            let h = match DatabaseHeader::new(4096) {
                Ok(h) => h,
                Err(e) => {
                    return Err(e);
                },
            };
            let page = header_page_bytes(&h, 4096);
            write_file(&mut file, 0, page.as_slice());
            header = h;
        }
        let page_size = header.page_size as usize;
        let p = Pager {
            file,
            header,
            cache: HashMap::new(),
            cache_ids: Vec::new(),
            cache_size,
            page_size,
            transaction_mode: false,
            shadow_pages: HashMap::new(),
            shadow_ids: Vec::new(),
            modified_pages: HashMap::new(),
            modified_ids: Vec::new(),
        };
        assert(p.cached().dom() =~= Set::<PageId>::empty());
        assert(p.shadows().dom() =~= Set::<PageId>::empty());
        assert(p.modified().dom() =~= Set::<PageId>::empty());
        Ok(p)
    }

    /// The database file's bytes, to be stored
    pub fn file_image(&self) -> (b: &Vec<u8>)
        ensures
            b@ == self.image(),
    {
        &self.file
    }

    /// Enable transaction mode
    pub fn begin_transaction_mode(&mut self)
        requires
            old(self).wf(),
        ensures
            final(self).wf(),
            final(self).in_txn(),
            txn_snapshot(*final(self), *old(self)),
            final(self).shadows().dom() == Set::<PageId>::empty(),
            final(self).modified().dom() == Set::<PageId>::empty(),
            final(self).image() == old(self).image(),
            final(self).hdr() == old(self).hdr(),
            final(self).cached() == old(self).cached(),
            final(self).psize() == old(self).psize(),
            final(self).cache_order() == old(self).cache_order(),
    {
        self.transaction_mode = true;
        self.clear_transaction_state();
    }

    /// Disable transaction mode and clear state
    pub fn end_transaction_mode(&mut self)
        requires
            old(self).wf(),
        ensures
            final(self).wf(),
            !final(self).in_txn(),
            final(self).shadows().dom() == Set::<PageId>::empty(),
            final(self).modified().dom() == Set::<PageId>::empty(),
            final(self).image() == old(self).image(),
            final(self).hdr() == old(self).hdr(),
            final(self).cached() == old(self).cached(),
            final(self).psize() == old(self).psize(),
            final(self).cache_order() == old(self).cache_order(),
    {
        self.transaction_mode = false;
        self.clear_transaction_state();
    }

    fn clear_transaction_state(&mut self)
        requires
            old(self).wf(),
        ensures
            final(self).wf(),
            final(self).in_txn() == old(self).in_txn(),
            final(self).shadows().dom() == Set::<PageId>::empty(),
            final(self).modified().dom() == Set::<PageId>::empty(),
            final(self).image() == old(self).image(),
            final(self).hdr() == old(self).hdr(),
            final(self).cached() == old(self).cached(),
            final(self).psize() == old(self).psize(),
            final(self).cache_order() == old(self).cache_order(),
    {
        self.shadow_pages.clear();
        self.shadow_ids = Vec::new();
        self.modified_pages.clear();
        self.modified_ids = Vec::new();
        assert(self.shadows().dom() =~= Set::<PageId>::empty());
        assert(self.modified().dom() =~= Set::<PageId>::empty());
    }

    /// Get modified pages from transaction
    pub fn modified_pages(&self) -> (m: &HashMap<PageId, Page>)
        ensures
            m@.map_values(|p: Page| page_view(p)) == self.modified(),
    {
        &self.modified_pages
    }

    /// Get shadow pages for rollback
    pub fn shadow_pages(&self) -> (m: &HashMap<PageId, Vec<u8>>)
        ensures
            m@.map_values(|v: Vec<u8>| v@) == self.shadows(),
    {
        &self.shadow_pages
    }

    /// Get database header
    pub fn header(&self) -> (h: &DatabaseHeader)
        ensures
            *h == self.hdr(),
    {
        &self.header
    }

    /// Get page size
    pub fn page_size(&self) -> (n: usize)
        ensures
            n == self.psize(),
    {
        self.page_size
    }

    /// Get number of pages in database
    pub fn page_count(&self) -> (n: u32)
        ensures
            n == self.hdr().page_count,
    {
        self.header.page_count
    }

    /// Get root page
    pub fn root_page(&self) -> (n: PageId)
        ensures
            n == self.hdr().root_page,
    {
        self.header.root_page
    }

    /// Get the size of the database file
    pub fn file_size(&self) -> (r: Result<u64>)
        ensures
            r == Ok::<u64, Error>(self.image().len() as u64),
    {
        Ok(self.file.len() as u64)
    }

    /// Clear the cache
    pub fn clear_cache(&mut self)
        requires
            old(self).wf(),
        ensures
            final(self).wf(),
            final(self).cached().dom() == Set::<PageId>::empty(),
            final(self).image() == old(self).image(),
            final(self).hdr() == old(self).hdr(),
            final(self).psize() == old(self).psize(),
            final(self).in_txn() == old(self).in_txn(),
            final(self).shadows() == old(self).shadows(),
            final(self).modified() == old(self).modified(),
            final(self).modified_order() == old(self).modified_order(),
            final(self).shadow_order() == old(self).shadow_order(),
    {
        self.cache.clear();
        self.cache_ids = Vec::new();
        assert(self.cached().dom() =~= Set::<PageId>::empty());
    }


    /// A cached page can be written back: its id is a page id, its place in
    /// the file fits in memory, and its bytes fit in a page.
    pub proof fn lemma_cached_page(&self, k: PageId)
        requires
            self.wf(),
            self.cached().contains_key(k),
        ensures
            k >= 1,
            self.addressable(k),
            self.cached()[k].0.len() <= self.psize(),
    {
        assert(self.cache@.contains_key(k));
    }

    /// Whether the header's page count can grow by one page that still fits
    /// in memory.
    pub open spec fn can_grow(&self) -> bool {
        &&& self.hdr().page_count < u32::MAX
        &&& (self.hdr().page_count as int + 3) * self.psize() <= usize::MAX
    }

    /// Writes the header page at the start of the file.
    fn write_header(&mut self) -> (r: Result<()>)
        requires
            old(self).wf(),
            old(self).psize() >= 64,
        ensures
            final(self).wf(),
            r is Ok,
            final(self).image() == write_at(old(self).image(), 0, header_page(old(self).hdr(), old(self).psize())),
            final(self).hdr() == old(self).hdr(),
            final(self).psize() == old(self).psize(),
            final(self).in_txn() == old(self).in_txn(),
            final(self).cached() == old(self).cached(),
            final(self).shadows() == old(self).shadows(),
            final(self).modified() == old(self).modified(),
            final(self).modified_order() == old(self).modified_order(),
            final(self).shadow_order() == old(self).shadow_order(),
            final(self).cache_order() == old(self).cache_order(),
    {
        proof {
            lemma_mul_mono(0, self.header.page_count as nat, self.page_size as nat);
        }
        let page = header_page_bytes(&self.header, self.page_size);
        write_file(&mut self.file, 0, page.as_slice());
        Ok(())
    }

    /// Set root page
    pub fn set_root_page(&mut self, root_page: PageId) -> (r: Result<()>)
        requires
            old(self).wf(),
            old(self).psize() >= 64,
        ensures
            final(self).wf(),
            r is Ok,
            final(self).hdr() == (DatabaseHeader { root_page, ..old(self).hdr() }),
            final(self).image() == write_at(old(self).image(), 0, header_page(final(self).hdr(), old(self).psize())),
            final(self).psize() == old(self).psize(),
            final(self).in_txn() == old(self).in_txn(),
            final(self).cached() == old(self).cached(),
            final(self).shadows() == old(self).shadows(),
            final(self).modified() == old(self).modified(),
    {
        self.header.root_page = root_page;
        self.write_header()
    }

    /// Allocate a new page at the end of the file, of the given type
    pub fn allocate_page(&mut self, page_type: PageType) -> (r: Result<Page>)
        requires
            old(self).wf(),
            old(self).psize() >= 64,
            old(self).can_grow(),
        ensures
            final(self).wf(),
            final(self).hdr() == (DatabaseHeader { page_count: (old(self).hdr().page_count + 1) as u32, ..old(self).hdr() }),
            final(self).psize() == old(self).psize(),
            final(self).in_txn() == old(self).in_txn(),
            forall|q: PageId| #[trigger] old(self).cached().contains_key(q) ==> final(self).cached().contains_key(q),
            forall|q: PageId| q != old(self).hdr().page_count + 1 && old(self).cached().contains_key(q)
                ==> #[trigger] final(self).cached()[q] == old(self).cached()[q],
            r matches Ok(p) ==> {
                &&& p.id == old(self).hdr().page_count + 1
                &&& final(self).cached().contains_key(p.id)
                &&& p.data@.len() == old(self).psize()
                &&& p.data@ == overwrite(zeros(old(self).psize()), 0, page_header_bytes(PageHeader {
                    page_type,
                    cell_count: 0,
                    cell_content_offset: old(self).psize() as u16,
                    fragmented_free_bytes: 0,
                    right_child: 0,
                }))
                &&& p.dirty
                &&& final(self).visible(p.id) == Some(p.data@)
            },
            !old(self).in_txn() ==> r is Ok,
    {
        proof {
            lemma_mul_mono(self.header.page_count as nat, (self.header.page_count + 1) as nat, self.page_size as nat);
            lemma_mul_mono((self.header.page_count + 1) as nat, (self.header.page_count + 1) as nat, self.page_size as nat);
        }
        let page_id = self.header.page_count + 1;
        let mut page = Page::new(page_id, self.page_size);
        assert(page.data@ =~= zeros(self.page_size as nat));
        match page.initialize(page_type, self.page_size) {
            Ok(()) => {},
            Err(e) => {
                return Err(e);
            },
        }
        self.header.page_count = page_id;
        match self.write_header() {
            Ok(()) => {},
            Err(e) => {
                return Err(e);
            },
        }
        match self.write_page(page.clone()) {
            Ok(()) => {},
            Err(e) => {
                return Err(e);
            },
        }
        Ok(page)
    }


    /// The pages a commit writes, in order, with their contents.
    pub open spec fn modified_writes(&self) -> Seq<(PageId, Seq<u8>)> {
        self.modified_order().map_values(|id: PageId| (id, self.modified()[id].0))
    }

    /// The pages a rollback restores, in order, with their original contents.
    pub open spec fn shadow_writes(&self) -> Seq<(PageId, Seq<u8>)> {
        self.shadow_order().map_values(|id: PageId| (id, self.shadows()[id]))
    }

    /// Writes a page's bytes to the file and caches it clean.
    fn store_page(&mut self, page_id: PageId, data: Vec<u8>)
        requires
            old(self).wf(),
            page_id >= 1,
            old(self).addressable(page_id),
            data@.len() <= old(self).psize(),
        ensures
            final(self).wf(),
            final(self).image() == write_at(old(self).image(), page_offset(page_id, old(self).psize()), data@),
            final(self).cached() == old(self).cached().insert(page_id, (data@, false)),
            final(self).hdr() == old(self).hdr(),
            final(self).psize() == old(self).psize(),
            final(self).in_txn() == old(self).in_txn(),
            final(self).shadows() == old(self).shadows(),
            final(self).modified() == old(self).modified(),
            final(self).modified_order() == old(self).modified_order(),
            final(self).shadow_order() == old(self).shadow_order(),
            old(self).cached().contains_key(page_id) ==> final(self).cache_order() == old(self).cache_order(),
    {
        proof {
            lemma_offset(page_id as nat, self.page_size as nat);
        }
        let offset = (page_id - 1) as usize * self.page_size;
        write_file(&mut self.file, offset, data.as_slice());
        let page = Page::from_data(page_id, data);
        self.add_to_cache(page);
    }

    /// Commit transaction: write all modified pages to the file
    pub fn commit_transaction_pages(&mut self) -> (r: Result<()>)
        requires
            old(self).wf(),
        ensures
            final(self).wf(),
            r is Ok,
            final(self).image() == write_pages(old(self).image(), old(self).psize(), old(self).modified_writes()),
            forall|q: PageId| #[trigger] old(self).modified().contains_key(q)
                ==> final(self).visible(q) == Some(old(self).modified()[q].0),
            final(self).cached() == cache_after(old(self).cached(), old(self).modified_writes()),
            final(self).hdr() == old(self).hdr(),
            final(self).psize() == old(self).psize(),
            final(self).in_txn() == old(self).in_txn(),
            final(self).shadows() == old(self).shadows(),
            final(self).modified() == old(self).modified(),
    {
        let ghost writes = self.modified_writes();
        let ghost file0 = self.image();
        let ghost cache0 = self.cached();
        let mut i: usize = 0;
        while i < self.modified_ids.len()
            invariant
                self.wf(),
                0 <= i <= self.modified_ids@.len(),
                writes == self.modified_writes(),
                writes.len() == self.modified_ids@.len(),
                self.image() == write_pages(file0, self.psize(), writes.take(i as int)),
                self.cached() == cache_after(cache0, writes.take(i as int)),
                self.hdr() == old(self).hdr(),
                self.psize() == old(self).psize(),
                self.in_txn() == old(self).in_txn(),
                self.shadows() == old(self).shadows(),
                self.modified() == old(self).modified(),
                self.modified_order() == old(self).modified_order(),
                forall|q: PageId| #[trigger] self.modified_ids@.take(i as int).contains(q)
                    ==> self.cached().contains_key(q) && self.cached()[q].0 == old(self).modified()[q].0,
            decreases self.modified_ids@.len() - i,
        {
            let id = self.modified_ids[i];
            assert(self.modified_ids@.contains(id));
            let data = match self.modified_pages.get(&id) {
                Some(p) => p.data.clone(),
                None => Vec::new(),
            };
            proof {
                assert(writes[i as int] == (id, data@));
                assert(writes.take(i + 1).drop_last() =~= writes.take(i as int));
            }
            self.store_page(id, data);
            proof {
                assert forall|q: PageId| #[trigger] self.modified_ids@.take(i + 1).contains(q)
                    implies self.cached().contains_key(q) && self.cached()[q].0 == old(self).modified()[q].0 by {
                    if q != id {
                        assert(self.modified_ids@.take(i + 1) =~= self.modified_ids@.take(i as int).push(id));
                        assert(self.modified_ids@.take(i as int).contains(q));
                    }
                }
            }
            i = i + 1;
        }
        assert(writes.take(i as int) =~= writes);
        proof {
            assert forall|q: PageId| #[trigger] old(self).modified().contains_key(q)
                implies self.visible(q) == Some(old(self).modified()[q].0) by {
                assert(self.modified_ids@.contains(q));
                assert(self.modified_ids@.take(i as int) =~= self.modified_ids@);
            }
        }
        Ok(())
    }

    /// Rollback transaction: restore the original pages, in the cache and in
    /// the file
    pub fn rollback_transaction_pages(&mut self) -> (r: Result<()>)
        requires
            old(self).wf(),
        ensures
            final(self).wf(),
            r is Ok,
            final(self).image() == write_pages(old(self).image(), old(self).psize(), old(self).shadow_writes()),
            rolled_back(*old(self), *final(self)),
            final(self).cached() == cache_after(old(self).cached(), old(self).shadow_writes()),
            final(self).hdr() == old(self).hdr(),
            final(self).psize() == old(self).psize(),
            final(self).in_txn() == old(self).in_txn(),
            final(self).shadows() == old(self).shadows(),
            final(self).modified() == old(self).modified(),
    {
        let ghost writes = self.shadow_writes();
        let ghost file0 = self.image();
        let ghost cache0 = self.cached();
        let mut i: usize = 0;
        while i < self.shadow_ids.len()
            invariant
                self.wf(),
                0 <= i <= self.shadow_ids@.len(),
                writes == self.shadow_writes(),
                writes.len() == self.shadow_ids@.len(),
                self.image() == write_pages(file0, self.psize(), writes.take(i as int)),
                self.cached() == cache_after(cache0, writes.take(i as int)),
                self.hdr() == old(self).hdr(),
                self.psize() == old(self).psize(),
                self.in_txn() == old(self).in_txn(),
                self.shadows() == old(self).shadows(),
                self.modified() == old(self).modified(),
                self.shadow_order() == old(self).shadow_order(),
                forall|q: PageId| #[trigger] self.shadow_ids@.take(i as int).contains(q)
                    ==> self.cached().contains_key(q) && self.cached()[q].0 == old(self).shadows()[q],
                forall|q: PageId| q >= 1 && !old(self).shadows().contains_key(q) && #[trigger] old(self).visible(q) is Some
                    ==> self.visible(q) == old(self).visible(q),
            decreases self.shadow_ids@.len() - i,
        {
            let ghost before = *self;
            let id = self.shadow_ids[i];
            assert(self.shadow_ids@.contains(id));
            let data = match self.shadow_pages.get(&id) {
                Some(d) => d.clone(),
                None => Vec::new(),
            };
            proof {
                assert(writes[i as int] == (id, data@));
                assert(writes.take(i + 1).drop_last() =~= writes.take(i as int));
            }
            self.store_page(id, data);
            proof {
                assert forall|q: PageId| #[trigger] self.shadow_ids@.take(i + 1).contains(q)
                    implies self.cached().contains_key(q) && self.cached()[q].0 == old(self).shadows()[q] by {
                    if q != id {
                        assert(self.shadow_ids@.take(i + 1) =~= self.shadow_ids@.take(i as int).push(id));
                        assert(self.shadow_ids@.take(i as int).contains(q));
                    }
                }
                assert forall|q: PageId| q >= 1 && !old(self).shadows().contains_key(q) && #[trigger] old(self).visible(q) is Some
                    implies self.visible(q) == old(self).visible(q) by {
                    assert(q != id);
                    if !before.cached().contains_key(q) {
                        lemma_write_other_page(before.image(), id, q, before.psize(), data@);
                    }
                }
            }
            i = i + 1;
        }
        assert(writes.take(i as int) =~= writes);
        proof {
            assert forall|q: PageId| #[trigger] old(self).shadows().contains_key(q)
                implies self.visible(q) == Some(old(self).shadows()[q]) by {
                assert(self.shadow_ids@.contains(q));
                assert(self.shadow_ids@.take(i as int) =~= self.shadow_ids@);
            }
        }
        Ok(())
    }

    /// Flush all dirty cached pages
    pub fn flush(&mut self) -> (r: Result<()>)
        requires
            old(self).wf(),
        ensures
            final(self).wf(),
            final(self).hdr() == old(self).hdr(),
            final(self).psize() == old(self).psize(),
            final(self).in_txn() == old(self).in_txn(),
            !old(self).in_txn() ==> {
                &&& r is Ok
                &&& final(self).image() == write_pages(old(self).image(), old(self).psize(), dirty_writes(old(self).cached(), old(self).cache_order()))
                &&& final(self).cached() == cache_after(old(self).cached(), dirty_writes(old(self).cached(), old(self).cache_order()))
                &&& final(self).shadows() == old(self).shadows()
                &&& final(self).modified() == old(self).modified()
            },
            old(self).in_txn() ==> final(self).image() == old(self).image(),
            old(self).in_txn() ==> txn_kept(*old(self), *final(self)),
    {
        let ghost order = self.cache_order();
        let ghost cache0 = self.cached();
        let ghost file0 = self.image();
        let mut i: usize = 0;
        while i < self.cache_ids.len()
            invariant
                self.wf(),
                0 <= i <= order.len(),
                self.cache_order() == order,
                self.hdr() == old(self).hdr(),
                self.psize() == old(self).psize(),
                self.in_txn() == old(self).in_txn(),
                cache0 == old(self).cached(),
                order == old(self).cache_order(),
                file0 == old(self).image(),
                !self.in_txn() ==> {
                    &&& self.image() == write_pages(file0, self.psize(), dirty_writes(cache0, order.take(i as int)))
                    &&& self.cached() == cache_after(cache0, dirty_writes(cache0, order.take(i as int)))
                    &&& self.shadows() == old(self).shadows()
                    &&& self.modified() == old(self).modified()
                },
                forall|j: int| i <= j < order.len() ==> #[trigger] self.cached()[order[j]] == cache0[order[j]],
                self.in_txn() ==> self.image() == file0,
                self.in_txn() ==> txn_kept(*old(self), *self),
            decreases order.len() - i,
        {
            let id = self.cache_ids[i];
            assert(self.cache_ids@.contains(id));
            let page = match self.cache.get(&id) {
                Some(p) => p.clone(),
                None => Page::from_data(id, Vec::new()),
            };
            proof {
                assert(order.take(i + 1).drop_last() =~= order.take(i as int));
                assert(order[i as int] == id);
                assert(self.cached()[id] == cache0[id]);
                assert(self.cache_ids@.no_duplicates());
            }
            let ghost dw = dirty_writes(cache0, order.take(i as int));
            let ghost pd = page.data@;
            let dirty = page.dirty;
            if dirty {
                let ghost mid = *self;
                let w = self.write_page(page);
                proof {
                    if self.in_txn() {
                        lemma_txn_kept_trans(*old(self), mid, *self);
                    }
                }
                match w {
                    Ok(()) => {},
                    Err(e) => {
                        return Err(e);
                    },
                }
            }
            proof {
                let t1 = order.take(i + 1);
                assert(t1.last() == id);
                assert(t1.drop_last() =~= order.take(i as int));
                if dirty {
                    assert(dirty_writes(cache0, t1) == dw.push((id, cache0[id].0)));
                    assert(dw.push((id, pd)).drop_last() =~= dw);
                    assert(dw.push((id, pd)).last() == (id, pd));
                } else {
                    assert(dirty_writes(cache0, t1) == dw);
                }
            }
            i = i + 1;
        }
        assert(order.take(i as int) =~= order);
        Ok(())
    }

    /// Free a page: it becomes an empty free page at the head of the free
    /// list
    pub fn free_page(&mut self, page_id: PageId) -> (r: Result<()>)
        requires
            old(self).wf(),
            old(self).psize() >= 64,
        ensures
            final(self).wf(),
            final(self).psize() == old(self).psize(),
            final(self).in_txn() == old(self).in_txn(),
            page_id == HEADER_PAGE_ID ==> {
                &&& r matches Err(e) && e@ == ErrorView::InvalidArgument("Cannot free header page"@)
                &&& final(self).hdr() == old(self).hdr()
                &&& final(self).image() == old(self).image()
                &&& final(self).cached() == old(self).cached()
            },
            r is Ok ==> {
                &&& final(self).hdr() == (DatabaseHeader { first_free_page: page_id, ..old(self).hdr() })
                &&& old(self).visible(page_id) is Some
                &&& final(self).visible(page_id) == Some(freed_page(old(self).visible(page_id)->Some_0, old(self).psize(), old(self).hdr().first_free_page))
            },
            page_id != HEADER_PAGE_ID && !old(self).in_txn() ==> (r is Ok <==> (
                page_id != 0 && page_id <= old(self).hdr().page_count && old(self).visible(page_id) is Some
                    && old(self).visible(page_id)->Some_0.len() >= 11) || (old(self).cached().contains_key(page_id)
                    && old(self).cached()[page_id].0.len() >= 11)),
    {
        if page_id == HEADER_PAGE_ID {
            return Err(Error::InvalidArgument(string_of("Cannot free header page")));
        }
        let mut page = match self.read_page(page_id) {
            Ok(p) => p,
            Err(e) => {
                return Err(e);
            },
        };
        let ghost d0 = page.data@;
        match page.initialize(PageType::Free, self.page_size) {
            Ok(()) => {},
            Err(e) => {
                return Err(e);
            },
        }
        let next_free = self.header.first_free_page;
        let mut bytes: Vec<u8> = Vec::new();
        crate::storage::codec::push_be32(&mut bytes, next_free);
        assert(bytes@ =~= be32_bytes(next_free));
        crate::storage::page::write_bytes(&mut page.data, 0, bytes.as_slice());
        proof {
            assert(page.data@ == freed_page(d0, self.page_size as nat, next_free));
        }
        match self.write_page(page) {
            Ok(()) => {},
            Err(e) => {
                return Err(e);
            },
        }
        self.header.first_free_page = page_id;
        self.write_header()
    }

    /// Puts a page in the cache, under its id.
    fn add_to_cache(&mut self, page: Page)
        requires
            old(self).wf(),
            page.id >= 1,
            old(self).addressable(page.id),
            page.data@.len() <= old(self).psize(),
        ensures
            final(self).wf(),
            final(self).cached() == old(self).cached().insert(page.id, page_view(page)),
            final(self).image() == old(self).image(),
            final(self).hdr() == old(self).hdr(),
            final(self).psize() == old(self).psize(),
            final(self).in_txn() == old(self).in_txn(),
            final(self).shadows() == old(self).shadows(),
            final(self).modified() == old(self).modified(),
            final(self).modified_order() == old(self).modified_order(),
            final(self).shadow_order() == old(self).shadow_order(),
            old(self).cached().contains_key(page.id) ==> final(self).cache_order() == old(self).cache_order(),
    {
        let id = page.id;
        if !self.cache.contains_key(&id) {
            proof {
                lemma_no_dup_push(self.cache_ids@, id);
            }
            self.cache_ids.push(id);
        }
        let ghost pv = page_view(page);
        self.cache.insert(id, page);
        proof {
            assert(self.cached() =~= old(self).cached().insert(id, pv));
            assert forall|k: PageId| self.cache@.contains_key(k) <==> self.cache_ids@.contains(k) by {
                if k == id {
                    if !old(self).cache@.contains_key(id) {
                        assert(self.cache_ids@[self.cache_ids@.len() - 1] == id);
                    }
                } else if old(self).cache_ids@.contains(k) {
                    let j = choose|j: int| 0 <= j < old(self).cache_ids@.len() && old(self).cache_ids@[j] == k;
                    assert(self.cache_ids@[j] == k);
                }
            }
        }
    }

    /// Reads the bytes of a page from the file.
    fn read_from_file(&self, page_id: PageId) -> (r: Result<Vec<u8>>)
        requires
            self.wf(),
            page_id >= 1,
            self.addressable(page_id),
        ensures
            match read_at(self.image(), page_offset(page_id, self.psize()), self.psize()) {
                Some(d) => r matches Ok(v) && v@ == d,
                None => r matches Err(e) && e@ == ErrorView::Io(short_read()),
            },
    {
        proof {
            lemma_offset(page_id as nat, self.page_size as nat);
        }
        let offset = (page_id - 1) as usize * self.page_size;
        if offset > self.file.len() || self.file.len() - offset < self.page_size {
            return Err(Error::Io(string_of("failed to fill whole buffer")));
        }
        let mut data: Vec<u8> = Vec::new();
        let end: usize = offset + self.page_size;
        let mut i: usize = 0;
        while i < self.page_size
            invariant
                end == offset + self.page_size,
                end <= self.file@.len(),
                i <= self.page_size,
                data@ == self.file@.subrange(offset as int, offset + i),
            decreases self.page_size - i,
        {
            data.push(self.file[offset + i]);
            i = i + 1;
            assert(data@ =~= self.file@.subrange(offset as int, offset + i));
        }
        Ok(data)
    }

    /// Read a page from the cache, or else from the file
    pub fn read_page(&mut self, page_id: PageId) -> (r: Result<Page>)
        requires
            old(self).wf(),
        ensures
            final(self).wf(),
            final(self).image() == old(self).image(),
            final(self).hdr() == old(self).hdr(),
            final(self).psize() == old(self).psize(),
            final(self).in_txn() == old(self).in_txn(),
            final(self).shadows() == old(self).shadows(),
            final(self).modified() == old(self).modified(),
            final(self).modified_order() == old(self).modified_order(),
            final(self).shadow_order() == old(self).shadow_order(),
            forall|q: PageId| #[trigger] final(self).visible(q) == old(self).visible(q),
            txn_kept(*old(self), *final(self)),
            old(self).cached().contains_key(page_id) ==> {
                &&& r matches Ok(p) && p.id == page_id && page_view(p) == old(self).cached()[page_id]
                &&& final(self).cached() == old(self).cached()
                &&& *final(self) == *old(self)
            },
            !old(self).cached().contains_key(page_id) ==> {
                if page_id == 0 {
                    r matches Err(e) && e@ == ErrorView::InvalidPage("Page ID cannot be 0"@)
                } else if page_id > old(self).hdr().page_count {
                    r matches Err(e) && e@ == ErrorView::InvalidPage(
                        "Page "@ + decimal(page_id as nat) + " does not exist (max: "@ + decimal(
                            old(self).hdr().page_count as nat,
                        ) + ")"@,
                    )
                } else {
                    match old(self).visible(page_id) {
                        Some(d) => {
                            &&& r matches Ok(p) && p.id == page_id && p.data@ == d && !p.dirty
                            &&& final(self).cached() == old(self).cached().insert(page_id, (d, false))
                        },
                        None => r matches Err(e) && e@ == ErrorView::Io(short_read()),
                    }
                }
            },
            r is Err ==> final(self).cached() == old(self).cached(),
            match old(self).read_result(page_id) {
                Ok(d) => r matches Ok(p) && p.data@ == d,
                Err(e) => r matches Err(x) && x@ == e,
            },
            forall|q: PageId| #[trigger] final(self).read_result(q) == old(self).read_result(q),
            forall|q: PageId| #[trigger] old(self).cached().contains_key(q) ==> final(self).cached().contains_key(q),
            r matches Ok(p) ==> {
                &&& final(self).cached().contains_key(page_id)
                &&& p.id == page_id
                &&& Some(p.data@) == old(self).visible(page_id)
                &&& page_id >= 1
                &&& old(self).addressable(page_id)
                &&& p.data@.len() <= old(self).psize()
            },
    {
        if let Some(page) = self.cache.get(&page_id) {
            return Ok(page.clone());
        }
        if page_id == 0 {
            return Err(Error::InvalidPage(string_of("Page ID cannot be 0")));
        }
        if page_id > self.header.page_count {
            let mut m = string_of("Page ");
            push_str(&mut m, u64_to_decimal(page_id as u64).as_str());
            push_str(&mut m, " does not exist (max: ");
            push_str(&mut m, u64_to_decimal(self.header.page_count as u64).as_str());
            push_str(&mut m, ")");
            return Err(Error::InvalidPage(m));
        }
        proof {
            lemma_mul_mono(page_id as nat, self.header.page_count as nat, self.page_size as nat);
            lemma_offset(page_id as nat, self.page_size as nat);
        }
        let data = match self.read_from_file(page_id) {
            Ok(d) => d,
            Err(e) => {
                return Err(e);
            },
        };
        let page = Page::from_data(page_id, data);
        let ghost pv = page_view(page);
        self.add_to_cache(page.clone());
        Ok(page)
    }

    /// Write a page: straight to the file, or, in a transaction, into the
    /// transaction's set after saving the page's original once
    pub fn write_page(&mut self, page: Page) -> (r: Result<()>)
        requires
            old(self).wf(),
            old(self).addressable(page.id),
            page.data@.len() <= old(self).psize(),
        ensures
            final(self).wf(),
            final(self).hdr() == old(self).hdr(),
            final(self).psize() == old(self).psize(),
            final(self).in_txn() == old(self).in_txn(),
            old(self).in_txn() ==> txn_kept(*old(self), *final(self)),
            page.id == 0 ==> {
                &&& r matches Err(e) && e@ == ErrorView::InvalidPage("Page ID cannot be 0"@)
                &&& final(self).cached() == old(self).cached()
                &&& final(self).image() == old(self).image()
                &&& final(self).shadows() == old(self).shadows()
                &&& final(self).modified() == old(self).modified()
            },
            page.id != 0 && !old(self).in_txn() ==> {
                &&& r is Ok
                &&& final(self).image() == write_at(old(self).image(), page_offset(page.id, old(self).psize()), page.data@)
                &&& final(self).cached() == old(self).cached().insert(page.id, (page.data@, false))
                &&& final(self).shadows() == old(self).shadows()
                &&& final(self).modified() == old(self).modified()
            },
            page.id != 0 && old(self).in_txn() ==> {
                &&& final(self).image() == old(self).image()
                &&& if !old(self).shadows().contains_key(page.id) && old(self).visible(page.id) is None {
                    &&& r matches Err(e) && e@ == ErrorView::Io(short_read())
                    &&& final(self).cached() == old(self).cached()
                    &&& final(self).shadows() == old(self).shadows()
                    &&& final(self).modified() == old(self).modified()
                } else {
                    &&& r is Ok
                    &&& final(self).shadows() == if old(self).shadows().contains_key(page.id) {
                        old(self).shadows()
                    } else {
                        old(self).shadows().insert(page.id, old(self).visible(page.id)->Some_0)
                    }
                    &&& final(self).modified() == old(self).modified().insert(page.id, page_view(page))
                    &&& final(self).cached() == old(self).cached().insert(page.id, page_view(page))
                }
            },
            r is Ok ==> final(self).visible(page.id) == Some(page.data@),
            old(self).cached().contains_key(page.id) ==> final(self).cache_order() == old(self).cache_order(),
    {
        let page_id = page.id;
        if page_id == 0 {
            return Err(Error::InvalidPage(string_of("Page ID cannot be 0")));
        }
        if self.transaction_mode {
            if !self.shadow_pages.contains_key(&page_id) {
                let original = match self.cache.get(&page_id) {
                    Some(cached) => cached.data.clone(),
                    None => match self.read_from_file(page_id) {
                        Ok(d) => d,
                        Err(e) => {
                            return Err(e);
                        },
                    },
                };
                self.save_shadow(page_id, original);
            }
            self.track_modified(page.clone());
            self.add_to_cache(page);
        } else {
            proof {
                lemma_offset(page_id as nat, self.page_size as nat);
            }
            let offset = (page_id - 1) as usize * self.page_size;
            write_file(&mut self.file, offset, page.data.as_slice());
            let mut cached_page = page;
            cached_page.dirty = false;
            self.add_to_cache(cached_page);
        }
        Ok(())
    }

    fn save_shadow(&mut self, page_id: PageId, original: Vec<u8>)
        requires
            old(self).wf(),
            page_id >= 1,
            old(self).addressable(page_id),
            original@.len() <= old(self).psize(),
            !old(self).shadows().contains_key(page_id),
        ensures
            final(self).wf(),
            final(self).shadows() == old(self).shadows().insert(page_id, original@),
            final(self).shadow_order() == old(self).shadow_order().push(page_id),
            final(self).image() == old(self).image(),
            final(self).hdr() == old(self).hdr(),
            final(self).psize() == old(self).psize(),
            final(self).in_txn() == old(self).in_txn(),
            final(self).cached() == old(self).cached(),
            final(self).cache_order() == old(self).cache_order(),
            final(self).modified() == old(self).modified(),
            final(self).modified_order() == old(self).modified_order(),
    {
        let ghost ov = original@;
        proof {
            lemma_no_dup_push(self.shadow_ids@, page_id);
        }
        self.shadow_ids.push(page_id);
        self.shadow_pages.insert(page_id, original);
        proof {
            assert(self.shadows() =~= old(self).shadows().insert(page_id, ov));
            assert forall|k: PageId| self.shadow_pages@.contains_key(k) <==> self.shadow_ids@.contains(k) by {
                if k == page_id {
                    assert(self.shadow_ids@[self.shadow_ids@.len() - 1] == page_id);
                } else if old(self).shadow_ids@.contains(k) {
                    let j = choose|j: int| 0 <= j < old(self).shadow_ids@.len() && old(self).shadow_ids@[j] == k;
                    assert(self.shadow_ids@[j] == k);
                }
            }
        }
    }

    fn track_modified(&mut self, page: Page)
        requires
            old(self).wf(),
            page.id >= 1,
            old(self).addressable(page.id),
            page.data@.len() <= old(self).psize(),
        ensures
            final(self).wf(),
            final(self).modified() == old(self).modified().insert(page.id, page_view(page)),
            final(self).image() == old(self).image(),
            final(self).hdr() == old(self).hdr(),
            final(self).psize() == old(self).psize(),
            final(self).in_txn() == old(self).in_txn(),
            final(self).cached() == old(self).cached(),
            final(self).cache_order() == old(self).cache_order(),
            final(self).shadows() == old(self).shadows(),
            final(self).shadow_order() == old(self).shadow_order(),
    {
        let id = page.id;
        if !self.modified_pages.contains_key(&id) {
            proof {
                lemma_no_dup_push(self.modified_ids@, id);
            }
            self.modified_ids.push(id);
        }
        let ghost pv = page_view(page);
        self.modified_pages.insert(id, page);
        proof {
            assert(self.modified() =~= old(self).modified().insert(id, pv));
            assert forall|k: PageId| self.modified_pages@.contains_key(k) <==> self.modified_ids@.contains(k) by {
                if k == id {
                    if !old(self).modified_pages@.contains_key(id) {
                        assert(self.modified_ids@[self.modified_ids@.len() - 1] == id);
                    }
                } else if old(self).modified_ids@.contains(k) {
                    let j = choose|j: int| 0 <= j < old(self).modified_ids@.len() && old(self).modified_ids@[j] == k;
                    assert(self.modified_ids@[j] == k);
                }
            }
        }
    }
}

/// The header page of a header, as bytes.
fn header_page_bytes(h: &DatabaseHeader, page_size: usize) -> (v: Vec<u8>)
    requires
        page_size >= 64,
    ensures
        v@ == header_page(*h, page_size as nat),
{
    let mut v = h.to_bytes();
    let mut i: usize = 64;
    while i < page_size
        invariant
            64 <= i <= page_size,
            v@ == header_bytes(*h) + zeros((i - 64) as nat),
        decreases page_size - i,
    {
        v.push(0u8);
        i = i + 1;
        assert(v@ =~= header_bytes(*h) + zeros((i - 64) as nat));
    }
    v
}

} // verus!
