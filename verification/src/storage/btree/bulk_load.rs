//! Bottom-up construction of a B+Tree from records sorted by key.
//!
//! Pages are filled up to a target number of bytes; the caller derives the
//! target from the page size and a fill factor.
use vstd::prelude::*;
use crate::error::{Error, ErrorView, Result};
use crate::storage::btree::BTree;
use crate::storage::btree::insert::{allocate, cell_fits, pager_kept, lemma_kept_trans};
use crate::storage::btree::keys::{bytes_lt, key_lt};
use crate::storage::btree::node::{BTreeNode, InteriorCell, LeafCell, after_insert_cell, cell_key_at, cell_keys, header_of, insert_fits, interior_cell_at, interior_cell_bytes, leaf_cell_at};
use crate::storage::btree::interior::{law_interior_insert, law_leaf_insert, lemma_header_keeps_cells, pointers_within};
use crate::storage::btree::leaf::{leaf_wf, lemma_insert_bytes, lemma_insert_cells, lemma_leaf_insert, lemma_leaf_lookup_cases};
use crate::storage::btree::search::{descend, descent_ends, reader, search_result};
use crate::storage::page::{PageHeader, PageId, PageType, lemma_page_header_roundtrip, overwrite, page_header_bytes, spec_page_header};
use crate::storage::pager::{Pager, zeros};
use crate::storage::record::{Record, RecordView, record_bytes, record_encodable};
use crate::text::string_of;

verus! {

/// Whether keys never decrease from one record to the next.
pub open spec fn keys_ascending(rs: Seq<RecordView>) -> bool {
    forall|i: int| 1 <= i < rs.len() ==> !key_lt(#[trigger] rs[i].key, rs[i - 1].key)
}

pub open spec fn records_view(rs: Seq<Record>) -> Seq<RecordView> {
    rs.map_values(|r: Record| r@)
}

/// Check if records are sorted by key
pub fn is_sorted(records: &Vec<Record>) -> (r: bool)
    ensures
        r == keys_ascending(records_view(records@)),
{
    let ghost rv = records_view(records@);
    let mut i: usize = 1;
    while i < records.len()
        invariant
            1 <= i,
            rv == records_view(records@),
            forall|j: int| 1 <= j < i && j < rv.len() ==> !key_lt(#[trigger] rv[j].key, rv[j - 1].key),
        decreases records.len() - i,
    {
        assert(rv[i as int].key == records@[i as int].key@);
        assert(rv[i - 1].key == records@[i - 1].key@);
        if bytes_lt(records[i].key.as_slice(), records[i - 1].key.as_slice()) {
            return false;
        }
        i = i + 1;
    }
    true
}

/// Where a record goes among records sorted by key: after every record
/// whose key is not greater.
pub open spec fn key_insert_pos(sorted: Seq<RecordView>, r: RecordView) -> nat
    decreases sorted.len(),
{
    if sorted.len() == 0 {
        0
    } else if key_lt(r.key, sorted.last().key) {
        key_insert_pos(sorted.drop_last(), r)
    } else {
        sorted.len()
    }
}

/// The records stably sorted by key.
pub open spec fn sorted_by_key(rs: Seq<RecordView>) -> Seq<RecordView>
    decreases rs.len(),
{
    if rs.len() == 0 {
        Seq::empty()
    } else {
        let s = sorted_by_key(rs.drop_last());
        s.insert(key_insert_pos(s, rs.last()) as int, rs.last())
    }
}

/// Sort records by key, keeping records with equal keys in their order
pub fn sort_records(records: Vec<Record>) -> (r: Vec<Record>)
    ensures
        records_view(r@) == sorted_by_key(records_view(records@)),
{
    let ghost all = records_view(records@);
    let ghost n = all.len();
    let total: usize = records.len();
    let mut input = records;
    let mut out: Vec<Record> = Vec::new();
    let mut k: usize = 0;
    while input.len() > 0
        invariant
            n == all.len(),
            n == total,
            k + input@.len() == n,
            records_view(input@) == all.skip(k as int),
            records_view(out@) == sorted_by_key(all.take(k as int)),
        decreases input.len(),
    {
        let ghost pre = input@;
        let rec = input.remove(0);
        let ghost sv = records_view(out@);
        proof {
            assert(records_view(pre)[0] == rec@);
            assert forall|i: int| 0 <= i < input@.len() implies (#[trigger] input@[i])@ == all.skip(k + 1)[i] by {
                assert(input@[i] == pre[i + 1]);
                assert(records_view(pre)[i + 1] == pre[i + 1]@);
            }
            assert(records_view(input@) =~= all.skip(k + 1));
            assert(all.take(k + 1).drop_last() =~= all.take(k as int));
            assert(all.take(k + 1).last() == rec@);
        }
        assert(sv.take(out@.len() as int) =~= sv);
        let mut j: usize = out.len();
        while j > 0 && bytes_lt(rec.key.as_slice(), out[j - 1].key.as_slice())
            invariant
                j <= out@.len(),
                sv == records_view(out@),
                key_insert_pos(sv, rec@) == key_insert_pos(sv.take(j as int), rec@),
            decreases j,
        {
            proof {
                assert(sv.take(j as int).last() == sv[j - 1]);
                assert(sv[j - 1].key == out@[j - 1].key@);
                assert(sv.take(j as int).drop_last() =~= sv.take(j - 1));
            }
            j = j - 1;
        }
        proof {
            if j > 0 {
                assert(sv.take(j as int).last() == sv[j - 1]);
                assert(sv[j - 1].key == out@[j - 1].key@);
            }
        }
        out.insert(j, rec);
        assert(records_view(out@) =~= sv.insert(j as int, rec@));
        k = k + 1;
    }
    assert(all.take(n as int) =~= all);
    out
}

/// A leaf header with the given cell count and content offset.
pub open spec fn leaf_header(count: nat, offset: nat) -> PageHeader {
    PageHeader {
        page_type: PageType::Leaf,
        cell_count: count as u16,
        cell_content_offset: offset as u16,
        fragmented_free_bytes: 0,
        right_child: 0,
    }
}

/// When the leaf level can be built without error: outside a transaction,
/// with a target fill within a page of at most 65535 bytes, room in the
/// page count and in memory for one page per record and one more, and every
/// record's cell leaving room for the page header and one pointer.
pub open spec fn leaf_level_can_build(p: Pager, rs: Seq<RecordView>, target_fill: usize) -> bool {
    &&& !p.in_txn()
    &&& target_fill <= p.psize() <= 65535
    &&& p.hdr().page_count + rs.len() + 1 < u32::MAX
    &&& (p.hdr().page_count + rs.len() + 4) * p.psize() <= usize::MAX
    &&& forall|i: int| 0 <= i < rs.len() ==> #[trigger] record_bytes(rs[i]).len() + 14 <= p.psize()
}

/// The bytes that records' cells and their pointers take in a leaf.
pub open spec fn cells_room(rs: Seq<RecordView>) -> nat
    decreases rs.len(),
{
    if rs.len() == 0 {
        0
    } else {
        cells_room(rs.drop_last()) + record_bytes(rs.last()).len() + 2
    }
}

/// Keys in strictly ascending order.
pub open spec fn keys_strictly_ascending(rs: Seq<RecordView>) -> bool {
    forall|i: int, j: int| 0 <= i < j < rs.len() ==> key_lt(#[trigger] rs[i].key, #[trigger] rs[j].key)
}

/// Records that all fit in one leaf within the target fill, with distinct
/// keys in ascending order, each of which can be encoded.
pub open spec fn one_leaf_load(p: Pager, rs: Seq<RecordView>, target_fill: usize) -> bool {
    &&& rs.len() > 0
    &&& leaf_level_can_build(p, rs, target_fill)
    &&& 12 + cells_room(rs) <= target_fill
    &&& keys_strictly_ascending(rs)
    &&& forall|i: int| 0 <= i < rs.len() ==> record_encodable(#[trigger] rs[i])
}

/// A page that reads as a well-formed leaf holding exactly the records, in
/// order.
pub open spec fn leaf_holds(d: Seq<u8>, rs: Seq<RecordView>) -> bool {
    &&& leaf_wf(d)
    &&& header_of(d).cell_count == rs.len()
    &&& forall|j: int| 0 <= j < rs.len() ==> #[trigger] leaf_cell_at(d, j) == Ok::<RecordView, ErrorView>(rs[j])
}

/// The records before `k` take no more room than all of them.
pub proof fn lemma_cells_room_prefix(rs: Seq<RecordView>, k: int)
    requires
        0 <= k <= rs.len(),
    ensures
        cells_room(rs.take(k)) <= cells_room(rs),
        k < rs.len() ==> cells_room(rs.take(k + 1)) == cells_room(rs.take(k)) + record_bytes(rs[k]).len() + 2,
    decreases rs.len() - k,
{
    if k < rs.len() {
        assert(rs.take(k + 1).drop_last() =~= rs.take(k));
        lemma_cells_room_prefix(rs, k + 1);
    } else {
        assert(rs.take(k) =~= rs);
    }
}

/// Appending the next record of strictly ascending records to a leaf that
/// holds the ones before it, with room for its cell, gives a leaf that holds
/// them all.
pub proof fn lemma_one_leaf_step(d: Seq<u8>, rs: Seq<RecordView>, count: int)
    requires
        0 <= count < rs.len(),
        leaf_holds(d, rs.take(count)),
        keys_strictly_ascending(rs),
        record_encodable(rs[count]),
        header_of(d).cell_count < 65535,
        12 + 2 * (header_of(d).cell_count + 1) + record_bytes(rs[count]).len() <= header_of(d).cell_content_offset,
    ensures
        leaf_holds(after_insert_cell(d, count, record_bytes(rs[count])), rs.take(count + 1)),
{
    let r = rs[count];
    let ks = cell_keys(d, true);
    assert forall|j: int| 0 <= j < count implies key_lt(#[trigger] ks[j], r.key) by {
        assert(leaf_cell_at(d, j) == Ok::<RecordView, ErrorView>(rs.take(count)[j]));
    }
    lemma_leaf_insert(d, count, r);
    lemma_insert_cells(d, count, r);
    let e = after_insert_cell(d, count, record_bytes(r));
    assert forall|j: int| 0 <= j < count + 1 implies #[trigger] leaf_cell_at(e, j)
        == Ok::<RecordView, ErrorView>(rs.take(count + 1)[j]) by {
        if j < count {
            assert(leaf_cell_at(d, j) == Ok::<RecordView, ErrorView>(rs.take(count)[j]));
        }
    }
}

/// An empty leaf whose content starts at the end of the page is well formed
/// and holds no records.
pub proof fn lemma_empty_leaf_holds(d: Seq<u8>, ps: nat)
    requires
        64 <= ps,
        d.len() == ps,
        spec_page_header(d) == Ok::<PageHeader, Seq<char>>(leaf_header(0, ps)),
        ps <= 65535,
    ensures
        leaf_holds(d, Seq::<RecordView>::empty()),
{
    assert(cell_keys(d, true) =~= Seq::<Seq<u8>>::empty());
}

/// What a search for `k` among records gives: the record with that key, or
/// nothing.
pub open spec fn record_for(rs: Seq<RecordView>, k: Seq<u8>) -> core::result::Result<RecordView, ErrorView> {
    if exists|j: int| 0 <= j < rs.len() && #[trigger] rs[j].key == k {
        Ok(rs[choose|j: int| 0 <= j < rs.len() && #[trigger] rs[j].key == k])
    } else {
        Err(ErrorView::NotFound)
    }
}

/// A search from a page that reads as a leaf holding strictly ascending
/// records ends, and finds the record with the key or nothing.
proof fn lemma_search_one_leaf(p: Pager, pid: PageId, rs: Seq<RecordView>, k: Seq<u8>)
    requires
        p.read_result(pid) is Ok,
        leaf_holds(p.read_result(pid)->Ok_0, rs),
        keys_strictly_ascending(rs),
    ensures
        descent_ends(reader(p), pid, k),
        search_result(reader(p), pid, k) == record_for(rs, k),
{
    let d = p.read_result(pid)->Ok_0;
    let rd = reader(p);
    assert(descend(rd, pid, k, 1) is Some);
    let n = choose|n: nat| #[trigger] descend(rd, pid, k, n) is Some;
    assert(descend(rd, pid, k, n) == Some(Ok::<PageId, ErrorView>(pid)));
    lemma_leaf_lookup_cases(d, k);
    if exists|j: int| 0 <= j < rs.len() && #[trigger] rs[j].key == k {
        let j = choose|j: int| 0 <= j < rs.len() && #[trigger] rs[j].key == k;
        assert(cell_key_at(d, true, j) is Ok);
        assert(cell_keys(d, true)[j] == k);
    } else {
        assert forall|j: int| 0 <= j < header_of(d).cell_count implies #[trigger] cell_keys(d, true)[j] != k by {
            assert(cell_key_at(d, true, j) is Ok);
            assert(rs[j].key != k);
        }
    }
}

/// A search for any key from a page that reads as a leaf holding strictly
/// ascending records ends, and finds the record with the key or nothing.
proof fn lemma_search_all_one_leaf(p: Pager, pid: PageId, rs: Seq<RecordView>)
    requires
        p.read_result(pid) is Ok,
        leaf_holds(p.read_result(pid)->Ok_0, rs),
        keys_strictly_ascending(rs),
    ensures
        forall|k: Seq<u8>| {
            &&& descent_ends(reader(p), pid, k)
            &&& #[trigger] search_result(reader(p), pid, k) == record_for(rs, k)
        },
{
    assert forall|k: Seq<u8>| {
        &&& descent_ends(reader(p), pid, k)
        &&& #[trigger] search_result(reader(p), pid, k) == record_for(rs, k)
    } by {
        lemma_search_one_leaf(p, pid, rs, k);
    }
}

/// Strictly ascending keys are ascending.
proof fn lemma_strictly_ascending(rs: Seq<RecordView>)
    requires
        keys_strictly_ascending(rs),
    ensures
        keys_ascending(rs),
{
    assert forall|i: int| 1 <= i < rs.len() implies !key_lt(#[trigger] rs[i].key, rs[i - 1].key) by {
        assert(key_lt(rs[i - 1].key, rs[i].key));
        crate::storage::btree::keys::lemma_key_lt_asymmetric(rs[i - 1].key, rs[i].key);
    }
}

/// A freshly allocated leaf reads as an empty leaf whose content starts at
/// the end of the page.
pub proof fn lemma_fresh_leaf(ps: nat)
    requires
        64 <= ps <= 65535,
    ensures
        spec_page_header(overwrite(zeros(ps), 0, page_header_bytes(leaf_header(0, ps))))
            == Ok::<PageHeader, Seq<char>>(leaf_header(0, ps)),
{
    let b = overwrite(zeros(ps), 0, page_header_bytes(leaf_header(0, ps)));
    assert(b.subrange(0, 11) =~= page_header_bytes(leaf_header(0, ps)));
    lemma_page_header_roundtrip(leaf_header(0, ps), b);
}

/// Growing the page count by at most `k` more pages keeps room in memory.
proof fn lemma_room_mono(a: int, b: int, ps: int)
    requires
        0 <= a <= b,
        ps >= 0,
    ensures
        a * ps <= b * ps,
{
    assert(a * ps <= b * ps) by (nonlinear_arith)
        requires
            0 <= a <= b,
            ps >= 0,
    ;
}


/// Build the leaf level: records go into leaf pages in order, a new page
/// being started when the next cell would take a page past the target
/// fill; the ids of the written pages
#[verifier::spinoff_prover]
#[verifier::rlimit(100)]
fn build_leaf_level(pager: &mut Pager, records: Vec<Record>, target_fill: usize) -> (r: Result<Vec<PageId>>)
    requires
        old(pager).wf(),
        old(pager).psize() >= 64,
    ensures
        pager_kept(*old(pager), *final(pager)),
        r matches Ok(v) ==> (records@.len() > 0 ==> v@.len() >= 1),
        r matches Ok(v) ==> {
            &&& v@.len() <= records@.len()
            &&& forall|k: int| 0 <= k < v@.len() ==> fresh_page(*old(pager), *final(pager), #[trigger] v@[k])
            &&& forall|i: int, j: int| 0 <= i < j < v@.len() ==> #[trigger] v@[i] < #[trigger] v@[j]
        },
        records@.len() == 0 && old(pager).can_grow() && !old(pager).in_txn() ==> (r matches Ok(v) && v@.len() == 0),
        leaf_level_can_build(*old(pager), records_view(records@), target_fill) ==> r is Ok,
        leaf_level_can_build(*old(pager), records_view(records@), target_fill) && records@.len() > 0
            && 12 + cells_room(records_view(records@)) <= target_fill ==> (r matches Ok(v) && v@.len() == 1),
        one_leaf_load(*old(pager), records_view(records@), target_fill) ==> (r matches Ok(v)
            && final(pager).read_result(v@[0]) matches Ok(d) && leaf_holds(d, records_view(records@))),
        two_level_load(*old(pager), records_view(records@), target_fill) ==> (r matches Ok(v) && {
            &&& forall|k: int| #![trigger v@[k]] 0 <= k < v@.len() ==> first_reads(*final(pager), v@[k])
            &&& level_room(*final(pager), v@, v@.len()) <= keys_room(records_view(records@))
            &&& final(pager).hdr().page_count <= old(pager).hdr().page_count + records@.len() + 1
        }),
{
    let ghost two = two_level_load(*pager, records_view(records@), target_fill);
    let ghost mut cur_start: int = 0;
    let ghost ok = leaf_level_can_build(*pager, records_view(records@), target_fill);
    let ghost rv = records_view(records@);
    let ghost ps = pager.psize();
    proof {
        if ok {
            lemma_room_mono(pager.hdr().page_count + 3, pager.hdr().page_count + rv.len() + 4, ps as int);
        }
    }
    let first = match allocate(pager, PageType::Leaf) {
        Ok(p) => p,
        Err(e) => { return Err(e); },
    };
    proof {
        if ok {
            lemma_fresh_leaf(ps);
            assert(rv.take(0) =~= Seq::<RecordView>::empty());
        }
    }
    let mut current_node = BTreeNode::from_page(first);
    proof {
        if ok {
            lemma_empty_leaf_holds(current_node.bytes(), ps);
        }
    }
    let mut current_size: usize = 12;
    let mut count: usize = 0;
    let ghost mut used: nat = 0;
    let mut leaf_pages: Vec<PageId> = Vec::new();
    let total: usize = records.len();
    let mut input = records;
    while input.len() > 0
        invariant
            pager_kept(*old(pager), *pager),
            old(pager).psize() >= 64,
            pager.cached().contains_key(current_node.spec_page().id),
            current_node.bytes().len() == pager.psize(),
            count <= total - input@.len(),
            input@.len() <= total,
            input@.len() < total ==> count > 0,
            total == records@.len(),
            leaf_pages@.len() + count <= total - input@.len(),
            pager.hdr().page_count >= old(pager).hdr().page_count,
            fresh_page(*old(pager), *pager, current_node.spec_page().id),
            forall|k: int| 0 <= k < leaf_pages@.len() ==> fresh_page(*old(pager), *pager, #[trigger] leaf_pages@[k]),
            forall|k: int| 0 <= k < leaf_pages@.len() ==> #[trigger] leaf_pages@[k] < current_node.spec_page().id,
            forall|i: int, j: int| 0 <= i < j < leaf_pages@.len() ==> #[trigger] leaf_pages@[i] < #[trigger] leaf_pages@[j],
            ok == leaf_level_can_build(*old(pager), records_view(records@), target_fill),
            rv == records_view(records@),
            ps == pager.psize(),
            ok ==> {
                &&& records_view(input@) == rv.skip(total - input@.len())
                &&& pager.hdr().page_count == old(pager).hdr().page_count + 1 + leaf_pages@.len()
                &&& spec_page_header(current_node.bytes()) == Ok::<PageHeader, Seq<char>>(leaf_header(count as nat, (ps - used) as nat))
                &&& current_size == 12 + used + 2 * count
                &&& 12 + used + 2 * count <= ps
                &&& count == 0 ==> used == 0
                &&& 12 + cells_room(rv) <= target_fill ==> {
                    &&& leaf_pages@.len() == 0
                    &&& used + 2 * count == cells_room(rv.take(total - input@.len()))
                    &&& count == total - input@.len()
                }
                &&& one_leaf_load(*old(pager), rv, target_fill) ==> leaf_holds(current_node.bytes(), rv.take(count as int))
            },
            two == two_level_load(*old(pager), rv, target_fill),
            two ==> {
                &&& 0 <= cur_start
                &&& cur_start + count == total - input@.len()
                &&& pointers_within(current_node.bytes(), count as int, ps - used)
                &&& count > 0 ==> leaf_cell_at(current_node.bytes(), 0) == Ok::<RecordView, ErrorView>(rv[cur_start])
                &&& forall|k: int| #![trigger leaf_pages@[k]] 0 <= k < leaf_pages@.len() ==> first_reads(*pager, leaf_pages@[k])
                &&& level_room(*pager, leaf_pages@, leaf_pages@.len()) <= keys_room(rv.take(cur_start))
            },
        decreases input.len(),
    {
        let ghost consumed = total - input@.len();
        proof {
            if ok {
                assert(records_view(input@)[0] == rv[consumed]);
            }
        }
        let ghost pre = input@;
        let record = input.remove(0);
        proof {
            if ok {
                assert forall|k: int| 0 <= k < input@.len() implies #[trigger] records_view(input@)[k] == rv.skip(consumed + 1)[k] by {
                    assert(input@[k] == pre[k + 1]);
                    assert(records_view(pre)[k + 1] == rv.skip(consumed as int)[k + 1]);
                }
                assert(records_view(input@) =~= rv.skip(consumed + 1));
                assert(record@ == rv[consumed]);
            }
        }
        let cell = LeafCell { key: record.key.clone(), record };
        let cell_size = cell.serialize().len();
        proof {
            if ok {
                lemma_cells_room_prefix(rv, consumed as int);
                lemma_cells_room_prefix(rv, consumed + 1);
            }
        }
        if current_size.saturating_add(cell_size).saturating_add(2) > target_fill && count > 0 {
            let page_id = current_node.page_id();
            let ghost before = *pager;
            let ghost written = current_node.bytes();
            let ghost lp0 = leaf_pages@;
            match crate::storage::btree::write_node(pager, current_node) {
                Ok(()) => {},
                Err(e) => { return Err(e); },
            }
            assert(pager_kept(before, *pager));
            proof {
                lemma_kept_trans(*old(pager), before, *pager);
                if two {
                    lemma_leaf_written(before, *pager, lp0, page_id, written, rv, cur_start, consumed as int);
                }
            }
            leaf_pages.push(page_id);
            let ghost mid = *pager;
            proof {
                if ok {
                    lemma_room_mono(mid.hdr().page_count + 3, old(pager).hdr().page_count + rv.len() + 4, ps as int);
                }
            }
            let page = match allocate(pager, PageType::Leaf) {
                Ok(p) => p,
                Err(e) => {
                    proof { lemma_kept_trans(*old(pager), mid, *pager); }
                    return Err(e);
                },
            };
            proof {
                lemma_kept_trans(*old(pager), mid, *pager);
                if ok {
                    lemma_fresh_leaf(ps);
                    used = 0;
                }
                if two {
                    assert forall|k: int| #![trigger leaf_pages@[k]] 0 <= k < leaf_pages@.len() implies
                        pager.cached().contains_key(leaf_pages@[k]) && pager.cached()[leaf_pages@[k]]
                        == mid.cached()[leaf_pages@[k]] by {
                        assert(fresh_page(*old(pager), mid, leaf_pages@[k]));
                    }
                    lemma_leaves_kept(mid, *pager, leaf_pages@);
                    cur_start = consumed as int;
                }
            }
            current_node = BTreeNode::from_page(page);
            current_size = 12;
            count = 0;
        }
        match cell_fits(&current_node, cell_size) {
            Ok(true) => {},
            Ok(false) => { return Err(Error::BTreeError(string_of("Cell does not fit in page"))); },
            Err(e) => { return Err(e); },
        }
        let index = match current_node.cell_count() {
            Ok(n) => n,
            Err(e) => { return Err(e); },
        };
        let ghost d = current_node.bytes();
        match current_node.insert_leaf_cell(index, &cell) {
            Ok(()) => {},
            Err(e) => { return Err(e); },
        }
        proof {
            if two {
                law_leaf_insert(d, index as int, cell.record@);
            }
            if ok {
                lemma_insert_bytes(d, index as int, record_bytes(cell.record@));
                if one_leaf_load(*old(pager), rv, target_fill) {
                    lemma_one_leaf_step(d, rv, count as int);
                }
                used = (used + cell_size) as nat;
            }
        }
        current_size = current_size.saturating_add(cell_size).saturating_add(2);
        count = count + 1;
    }
    if count > 0 {
        let page_id = current_node.page_id();
        let ghost before = *pager;
        let ghost written = current_node.bytes();
        let ghost lp0 = leaf_pages@;
        match crate::storage::btree::write_node(pager, current_node) {
            Ok(()) => {},
            Err(e) => { return Err(e); },
        }
        assert(pager_kept(before, *pager));
        proof {
            lemma_kept_trans(*old(pager), before, *pager);
            if two {
                lemma_leaf_written(before, *pager, lp0, page_id, written, rv, cur_start, total as int);
            }
        }
        leaf_pages.push(page_id);
    }
    proof {
        if two {
            assert(rv.take(total as int) =~= rv);
        }
    }
    Ok(leaf_pages)
}

/// The first key a page's bytes give, as `first_key` reads it: none for a
/// page without cells.
pub open spec fn first_key_of(d: Seq<u8>) -> Option<Seq<u8>> {
    let h = header_of(d);
    if h.cell_count == 0 {
        None
    } else if h.page_type == PageType::Leaf {
        Some(leaf_cell_at(d, 0)->Ok_0.key)
    } else {
        Some(interior_cell_at(d, 0)->Ok_0.0)
    }
}

/// A page from which `first_key` reads without error.
pub open spec fn first_key_reads(d: Seq<u8>) -> bool {
    &&& spec_page_header(d) is Ok
    &&& header_of(d).cell_count > 0 ==> if header_of(d).page_type == PageType::Leaf {
        leaf_cell_at(d, 0) is Ok
    } else {
        interior_cell_at(d, 0) is Ok
    }
}

/// The bytes the cells for the first `k` children take in an interior page,
/// pointers included; a child without cells takes none.
pub open spec fn level_room(p: Pager, cs: Seq<PageId>, k: nat) -> nat
    decreases k,
{
    if k == 0 {
        0
    } else {
        level_room(p, cs, (k - 1) as nat) + match first_key_of(p.cached()[cs[k - 1]].0) {
            Some(key) => interior_cell_bytes(key, cs[k - 1]).len() + 2,
            None => 0,
        }
    }
}

/// The cells an interior page above the first `k` children holds: for each
/// of them with cells, its first key with the child as left child, in order.
pub open spec fn level_cells(p: Pager, cs: Seq<PageId>, k: nat) -> Seq<(Seq<u8>, u32)>
    decreases k,
{
    if k == 0 {
        Seq::empty()
    } else {
        level_cells(p, cs, (k - 1) as nat) + match first_key_of(p.cached()[cs[k - 1]].0) {
            Some(key) => seq![(key, cs[k - 1])],
            None => Seq::empty(),
        }
    }
}

/// The right child of the page above the children: the last child, when it
/// has cells; else none (0).
pub open spec fn level_right(p: Pager, cs: Seq<PageId>) -> u32 {
    if first_key_of(p.cached()[cs[cs.len() - 1]].0) is Some { cs[cs.len() - 1] } else { 0 }
}

/// A page that reads as an interior page holding exactly these cells, in
/// order, with this right child.
pub open spec fn interior_page_holds(d: Seq<u8>, cells: Seq<(Seq<u8>, u32)>, right: u32) -> bool {
    &&& spec_page_header(d) is Ok
    &&& header_of(d).page_type == PageType::Interior
    &&& header_of(d).cell_count == cells.len()
    &&& header_of(d).right_child == right
    &&& forall|j: int| 0 <= j < cells.len() ==> #[trigger] interior_cell_at(d, j)
        == Ok::<(Seq<u8>, u32), ErrorView>(cells[j])
}

/// The bytes an interior cell for a key takes, with its pointer.
pub open spec fn key_cell_room(key: Seq<u8>) -> nat {
    interior_cell_bytes(key, 0).len() + 2
}

/// The bytes interior cells for all the records' keys take, pointers
/// included.
pub open spec fn keys_room(rs: Seq<RecordView>) -> nat
    decreases rs.len(),
{
    if rs.len() == 0 {
        0
    } else {
        keys_room(rs.drop_last()) + key_cell_room(rs.last().key)
    }
}

/// A load whose leaf level can be built, whose records can be encoded, and
/// all of whose keys would fit as cells in one interior page within the
/// target fill: one interior page then takes the leaves.
pub open spec fn two_level_load(p: Pager, rs: Seq<RecordView>, target_fill: usize) -> bool {
    &&& leaf_level_can_build(p, rs, target_fill)
    &&& forall|i: int| 0 <= i < rs.len() ==> record_encodable(#[trigger] rs[i])
    &&& 16 + keys_room(rs) <= target_fill
}

/// A cached page that has cells and whose first key reads.
pub open spec fn first_reads(p: Pager, id: PageId) -> bool {
    &&& p.cached().contains_key(id)
    &&& first_key_reads(p.cached()[id].0)
    &&& header_of(p.cached()[id].0).cell_count > 0
}

/// The keys of later records take no less room, by at least the cell of
/// the first one left out.
proof fn lemma_keys_room_prefix(rs: Seq<RecordView>, a: int, b: int)
    requires
        0 <= a < b <= rs.len(),
    ensures
        keys_room(rs.take(a)) + key_cell_room(rs[a].key) <= keys_room(rs.take(b)),
    decreases b,
{
    assert(rs.take(b).drop_last() =~= rs.take(b - 1));
    assert(rs.take(b).last() == rs[b - 1]);
    if b > a + 1 {
        lemma_keys_room_prefix(rs, a, b - 1);
    }
}

/// The room of the first `k` children is the same with one more child
/// after them, and in a pager whose pages for them are the same.
proof fn lemma_level_room_same(p: Pager, q: Pager, cs: Seq<PageId>, ds: Seq<PageId>, k: nat)
    requires
        k <= cs.len(),
        k <= ds.len(),
        forall|i: int| 0 <= i < k ==> #[trigger] ds[i] == cs[i],
        forall|i: int| 0 <= i < k ==> #[trigger] q.cached()[cs[i]] == p.cached()[cs[i]],
    ensures
        level_room(q, ds, k) == level_room(p, cs, k),
    decreases k,
{
    if k > 0 {
        lemma_level_room_same(p, q, cs, ds, (k - 1) as nat);
        assert(ds[k - 1] == cs[k - 1]);
        assert(q.cached()[cs[k - 1]] == p.cached()[cs[k - 1]]);
    }
}

/// After the current leaf, with cells and the record `cur` first, is
/// written and its id appended, every written leaf still has cells whose
/// first key reads, and their keys' room is within that of the records
/// before `next`.
#[verifier::rlimit(40)]
proof fn lemma_leaf_written(p: Pager, p2: Pager, lp: Seq<PageId>, id: PageId, d: Seq<u8>, rv: Seq<RecordView>, cur: int, next: int)
    requires
        forall|k: int| #![trigger lp[k]] 0 <= k < lp.len() ==> first_reads(p, lp[k]) && lp[k] != id,
        forall|q: PageId| q != id && p.cached().contains_key(q) ==> #[trigger] p2.cached().contains_key(q)
            && p2.cached()[q] == p.cached()[q],
        p2.cached().contains_key(id),
        p2.cached()[id].0 == d,
        spec_page_header(d) is Ok,
        header_of(d).page_type == PageType::Leaf,
        header_of(d).cell_count > 0,
        leaf_cell_at(d, 0) == Ok::<RecordView, ErrorView>(rv[cur]),
        level_room(p, lp, lp.len()) <= keys_room(rv.take(cur)),
        0 <= cur < next <= rv.len(),
    ensures
        forall|k: int| #![trigger lp.push(id)[k]] 0 <= k < lp.push(id).len() ==> first_reads(p2, lp.push(id)[k]),
        level_room(p2, lp.push(id), lp.len() + 1) <= keys_room(rv.take(next)),
{
    let lq = lp.push(id);
    assert forall|k: int| 0 <= k < lp.len() implies #[trigger] p2.cached().contains_key(lp[k])
        && p2.cached()[lp[k]] == p.cached()[lp[k]] by {
        assert(first_reads(p, lp[k]) && lp[k] != id);
    }
    lemma_leaves_kept(p, p2, lp);
    assert forall|k: int| 0 <= k < lq.len() implies first_reads(p2, #[trigger] lq[k]) by {
        if k < lp.len() {
            assert(lq[k] == lp[k]);
            assert(first_reads(p2, lp[k]));
        }
    }
    assert forall|i: int| 0 <= i < lp.len() implies #[trigger] lq[i] == lp[i] by {}
    lemma_level_room_same(p2, p2, lp, lq, lp.len());
    assert(lq[lp.len() as int] == id);
    assert(first_key_of(d) == Some(rv[cur].key));
    lemma_keys_room_prefix(rv, cur, next);
}

/// Pages whose cached copies stay keep having cells with first keys that
/// read, and the same room.
proof fn lemma_leaves_kept(p: Pager, p2: Pager, lp: Seq<PageId>)
    requires
        forall|k: int| #![trigger lp[k]] 0 <= k < lp.len() ==> first_reads(p, lp[k]),
        forall|k: int| #![trigger lp[k]] 0 <= k < lp.len() ==> p2.cached().contains_key(lp[k])
            && p2.cached()[lp[k]] == p.cached()[lp[k]],
    ensures
        forall|k: int| #![trigger lp[k]] 0 <= k < lp.len() ==> first_reads(p2, lp[k]),
        level_room(p2, lp, lp.len()) == level_room(p, lp, lp.len()),
{
    lemma_level_room_same(p, p2, lp, lp, lp.len());
}

/// When one interior page above the children is the whole level: the pager
/// can grow by a page outside a transaction; the children are cached pages
/// the header counts, whose first keys read; one of them but the last has
/// cells; and all their cells fit in a page within the target fill.
pub open spec fn one_level_page(p: Pager, cs: Seq<PageId>, target_fill: usize) -> bool {
    &&& cs.len() >= 2
    &&& p.can_grow()
    &&& !p.in_txn()
    &&& target_fill <= p.psize() <= 65535
    &&& forall|i: int| 0 <= i < cs.len() ==> {
        &&& p.cached().contains_key(#[trigger] cs[i])
        &&& cs[i] <= p.hdr().page_count
        &&& first_key_reads(p.cached()[cs[i]].0)
    }
    &&& exists|i: int| 0 <= i < cs.len() - 1 && #[trigger] header_of(p.cached()[cs[i]].0).cell_count > 0
    &&& 16 + level_room(p, cs, (cs.len() - 1) as nat) <= target_fill
}

/// An interior header with the given cell count and content offset.
pub open spec fn interior_header(count: nat, offset: nat) -> PageHeader {
    PageHeader {
        page_type: PageType::Interior,
        cell_count: count as u16,
        cell_content_offset: offset as u16,
        fragmented_free_bytes: 0,
        right_child: 0,
    }
}

/// A freshly allocated interior page reads as an empty one whose content
/// starts at the end of the page.
pub proof fn lemma_fresh_interior(ps: nat)
    requires
        64 <= ps <= 65535,
    ensures
        spec_page_header(overwrite(zeros(ps), 0, page_header_bytes(interior_header(0, ps))))
            == Ok::<PageHeader, Seq<char>>(interior_header(0, ps)),
{
    let b = overwrite(zeros(ps), 0, page_header_bytes(interior_header(0, ps)));
    assert(b.subrange(0, 11) =~= page_header_bytes(interior_header(0, ps)));
    lemma_page_header_roundtrip(interior_header(0, ps), b);
}

/// The room of more children is no less.
proof fn lemma_level_room_mono(p: Pager, cs: Seq<PageId>, a: nat, b: nat)
    requires
        a <= b,
    ensures
        level_room(p, cs, a) <= level_room(p, cs, b),
    decreases b,
{
    if a < b {
        lemma_level_room_mono(p, cs, a, (b - 1) as nat);
    }
}

/// Writing a header into a page's first bytes makes it read as that header.
pub proof fn lemma_header_written(d: Seq<u8>, h: PageHeader)
    requires
        d.len() >= 12,
    ensures
        spec_page_header(overwrite(d, 0, page_header_bytes(h))) == Ok::<PageHeader, Seq<char>>(h),
{
    let b = overwrite(d, 0, page_header_bytes(h));
    assert(b.subrange(0, 11) =~= page_header_bytes(h));
    lemma_page_header_roundtrip(h, b);
}

/// A page that a pager counts and caches now but did not count before.
pub open spec fn fresh_page(before: Pager, after: Pager, id: PageId) -> bool {
    &&& before.hdr().page_count < id <= after.hdr().page_count
    &&& after.cached().contains_key(id)
}

/// The first key of a page: of its first leaf or interior cell; `None` for
/// a page without cells
fn first_key(pager: &mut Pager, page_id: PageId) -> (r: Result<Option<Vec<u8>>>)
    requires
        old(pager).wf(),
    ensures
        pager_kept(*old(pager), *final(pager)),
        final(pager).hdr() == old(pager).hdr(),
        forall|q: PageId| #[trigger] final(pager).read_result(q) == old(pager).read_result(q),
        match old(pager).read_result(page_id) {
            Err(e) => r matches Err(x) && x@ == e,
            Ok(d) => match spec_page_header(d) {
                Err(m) => r matches Err(x) && x@ == ErrorView::InvalidPage(m),
                Ok(h) => if h.cell_count == 0 {
                    r matches Ok(None)
                } else if h.page_type == PageType::Leaf {
                    match leaf_cell_at(d, 0) {
                        Ok(w) => r matches Ok(Some(k)) && k@ == w.key,
                        Err(e) => r matches Err(x) && x@ == e,
                    }
                } else {
                    match interior_cell_at(d, 0) {
                        Ok((key, _)) => r matches Ok(Some(k)) && k@ == key,
                        Err(e) => r matches Err(x) && x@ == e,
                    }
                },
            },
        },
{
    let page = match pager.read_page(page_id) {
        Ok(p) => p,
        Err(e) => { return Err(e); },
    };
    let node = BTreeNode::from_page(page);
    let leaf = match node.is_leaf() {
        Ok(b) => b,
        Err(e) => { return Err(e); },
    };
    let count = match node.cell_count() {
        Ok(n) => n,
        Err(e) => { return Err(e); },
    };
    if count == 0 {
        return Ok(None);
    }
    if leaf {
        match node.get_leaf_cell(0) {
            Ok(c) => Ok(Some(c.key)),
            Err(e) => Err(e),
        }
    } else {
        match node.get_interior_cell(0) {
            Ok(c) => Ok(Some(c.key)),
            Err(e) => Err(e),
        }
    }
}

/// Closes a page of a level with `right` as its right child, writes it,
/// and starts a new interior page: the new page, after the closed page's id
/// is appended to `parents`.
fn close_page(pager: &mut Pager, node: BTreeNode, right: PageId, parents: &mut Vec<PageId>) -> (r: Result<BTreeNode>)
    requires
        old(pager).wf(),
        old(pager).psize() >= 64,
        old(pager).cached().contains_key(node.spec_page().id),
        node.bytes().len() == old(pager).psize(),
    ensures
        pager_kept(*old(pager), *final(pager)),
        final(pager).hdr().page_count >= old(pager).hdr().page_count,
        r matches Ok(n2) ==> {
            &&& final(parents)@ == old(parents)@.push(node.spec_page().id)
            &&& n2.spec_page().id == final(pager).hdr().page_count
            &&& final(pager).hdr().page_count == old(pager).hdr().page_count + 1
            &&& final(pager).cached().contains_key(n2.spec_page().id)
            &&& n2.bytes().len() == old(pager).psize()
        },
{
    let mut node = node;
    match node.set_right_child(right) {
        Ok(()) => {},
        Err(e) => { return Err(e); },
    }
    let page_id = node.page_id();
    let ghost before = *pager;
    match crate::storage::btree::write_node(pager, node) {
        Ok(()) => {},
        Err(e) => { return Err(e); },
    }
    parents.push(page_id);
    let ghost mid = *pager;
    let page = match allocate(pager, PageType::Interior) {
        Ok(p) => p,
        Err(e) => {
            proof { lemma_kept_trans(before, mid, *pager); }
            return Err(e);
        },
    };
    proof { lemma_kept_trans(before, mid, *pager); }
    Ok(BTreeNode::from_page(page))
}

/// Build the interior levels bottom-up: each level holds, for every child
/// but the last, a cell with the child's first key, the last child being
/// the right child; a new page is started when the next cell would take a
/// page past the target fill.  The root's id.
#[verifier::spinoff_prover]
#[verifier::rlimit(100)]
fn build_interior_levels(pager: &mut Pager, child_pages: Vec<PageId>, target_fill: usize) -> (r: Result<PageId>)
    requires
        old(pager).wf(),
        old(pager).psize() >= 64,
        child_pages@.len() >= 1,
    ensures
        pager_kept(*old(pager), *final(pager)),
        final(pager).hdr().page_count >= old(pager).hdr().page_count,
        child_pages@.len() == 1 ==> r == Ok::<PageId, Error>(child_pages@[0]) && *final(pager) == *old(pager),
        child_pages@.len() >= 2 ==> (r matches Ok(root) ==> fresh_page(*old(pager), *final(pager), root)
            && root == final(pager).hdr().page_count),
        one_level_page(*old(pager), child_pages@, target_fill) ==> (r matches Ok(root)
            && final(pager).read_result(root) matches Ok(d)
            && interior_page_holds(d, level_cells(*old(pager), child_pages@, (child_pages@.len() - 1) as nat),
                level_right(*old(pager), child_pages@))),
    decreases child_pages@.len(),
{
    if child_pages.len() == 1 {
        return Ok(child_pages[0]);
    }
    let ghost good = one_level_page(*pager, child_pages@, target_fill);
    let ghost cs = child_pages@;
    let ghost ps = pager.psize();
    let ghost p0 = *pager;
    let first = match allocate(pager, PageType::Interior) {
        Ok(p) => p,
        Err(e) => { return Err(e); },
    };
    proof {
        if good {
            lemma_fresh_interior(ps);
            assert forall|j: int| 0 <= j < cs.len() implies #[trigger] pager.read_result(cs[j])
                == Ok::<Seq<u8>, ErrorView>(p0.cached()[cs[j]].0) by {
                assert(p0.cached().contains_key(cs[j]));
            }
        }
    }
    let ghost mut used: nat = 0;
    let mut current_node = BTreeNode::from_page(first);
    let mut current_size: usize = 16;
    let mut count: usize = 0;
    let ghost mut cells: nat = 0;
    let mut parent_pages: Vec<PageId> = Vec::new();
    let n = child_pages.len();
    let mut i: usize = 0;
    while i < n
        invariant
            n == child_pages@.len(),
            n >= 2,
            i <= n,
            pager_kept(*old(pager), *pager),
            old(pager).psize() >= 64,
            pager.cached().contains_key(current_node.spec_page().id),
            current_node.bytes().len() == pager.psize(),
            parent_pages@.len() + (if count > 0 { 1int } else { 0int }) <= cells,
            pager.hdr().page_count >= old(pager).hdr().page_count,
            fresh_page(*old(pager), *pager, current_node.spec_page().id),
            current_node.spec_page().id == pager.hdr().page_count,
            parent_pages@.len() > 0 ==> count > 0,
            forall|k: int| 0 <= k < parent_pages@.len() ==> fresh_page(*old(pager), *pager, #[trigger] parent_pages@[k]),
            cells <= i,
            cells <= n - 1,
            count <= cells,
            good == one_level_page(*old(pager), child_pages@, target_fill),
            cs == child_pages@,
            ps == pager.psize(),
            p0 == *old(pager),
            good ==> {
                &&& parent_pages@.len() == 0
                &&& forall|j: int| 0 <= j < cs.len() ==> #[trigger] pager.read_result(cs[j])
                    == Ok::<Seq<u8>, ErrorView>(p0.cached()[cs[j]].0)
                &&& spec_page_header(current_node.bytes()) is Ok
                &&& header_of(current_node.bytes()).page_type == PageType::Interior
                &&& header_of(current_node.bytes()).cell_count == count
                &&& header_of(current_node.bytes()).cell_content_offset == ps - used
                &&& current_size == 16 + used + 2 * count
                &&& used + 2 * count == level_room(p0, cs, if i < n - 1 { i as nat } else { (n - 1) as nat })
                &&& (count > 0 || forall|j: int| 0 <= j < i && j < n - 1
                    ==> #[trigger] header_of(p0.cached()[cs[j]].0).cell_count == 0)
                &&& count == level_cells(p0, cs, if i < n - 1 { i as nat } else { (n - 1) as nat }).len()
                &&& used <= ps
                &&& pointers_within(current_node.bytes(), count as int, ps - used)
                &&& forall|j: int| 0 <= j < count ==> #[trigger] interior_cell_at(current_node.bytes(), j)
                    == Ok::<(Seq<u8>, u32), ErrorView>(
                        level_cells(p0, cs, if i < n - 1 { i as nat } else { (n - 1) as nat })[j])
                &&& header_of(current_node.bytes()).right_child
                    == (if i == n && first_key_of(p0.cached()[cs[n - 1]].0) is Some { cs[n - 1] } else { 0 })
            },
        decreases n - i,
    {
        let child_id = child_pages[i];
        let ghost before_read = *pager;
        proof {
            if good {
                assert(p0.cached().contains_key(cs[i as int]));
                if i < n - 1 {
                    lemma_level_room_mono(p0, cs, (i + 1) as nat, (n - 1) as nat);
                }
            }
        }
        let key = match first_key(pager, child_id) {
            Ok(Some(k)) => k,
            Ok(None) => {
                proof {
                    lemma_kept_trans(*old(pager), before_read, *pager);
                    if good && i < n - 1 {
                        assert(level_cells(p0, cs, (i + 1) as nat) == level_cells(p0, cs, i as nat));
                    }
                }
                i = i + 1;
                continue;
            },
            Err(e) => {
                proof { lemma_kept_trans(*old(pager), before_read, *pager); }
                return Err(e);
            },
        };
        proof { lemma_kept_trans(*old(pager), before_read, *pager); }
        if i < n - 1 {
            let cell = InteriorCell { left_child: child_id, key };
            let cell_size = cell.serialize().len();
            if current_size.saturating_add(cell_size).saturating_add(2) > target_fill && count > 0 {
                let ghost before = *pager;
                current_node = match close_page(pager, current_node, child_pages[i], &mut parent_pages) {
                    Ok(nd) => nd,
                    Err(e) => {
                        proof { lemma_kept_trans(*old(pager), before, *pager); }
                        return Err(e);
                    },
                };
                proof { lemma_kept_trans(*old(pager), before, *pager); }
                current_size = 16;
                count = 0;
            }
            match cell_fits(&current_node, cell_size) {
                Ok(true) => {},
                Ok(false) => { return Err(Error::BTreeError(string_of("Cell does not fit in page"))); },
                Err(e) => { return Err(e); },
            }
            let index = match current_node.cell_count() {
                Ok(c) => c,
                Err(e) => { return Err(e); },
            };
            let ghost d = current_node.bytes();
            match current_node.insert_interior_cell(index, &cell) {
                Ok(()) => {},
                Err(e) => { return Err(e); },
            }
            proof {
                if good {
                    lemma_insert_bytes(d, index as int, interior_cell_bytes(cell.key@, cell.left_child));
                    law_interior_insert(d, index as int, cell.key@, cell.left_child);
                    assert(level_cells(p0, cs, (i + 1) as nat)
                        == level_cells(p0, cs, i as nat) + seq![(cell.key@, child_id)]);
                    used = (used + cell_size) as nat;
                }
            }
            current_size = current_size.saturating_add(cell_size).saturating_add(2);
            count = count + 1;
            proof { cells = cells + 1; }
        } else {
            let ghost d = current_node.bytes();
            match current_node.set_right_child(child_id) {
                Ok(()) => {},
                Err(e) => { return Err(e); },
            }
            proof {
                if good {
                    lemma_header_written(d, PageHeader { right_child: child_id, ..header_of(d) });
                    lemma_header_keeps_cells(d, PageHeader { right_child: child_id, ..header_of(d) }, count as int);
                }
            }
        }
        i = i + 1;
    }
    let ghost written = current_node.bytes();
    let ghost written_id = current_node.spec_page().id;
    if count > 0 {
        let page_id = current_node.page_id();
        let ghost before = *pager;
        match crate::storage::btree::write_node(pager, current_node) {
            Ok(()) => {},
            Err(e) => { return Err(e); },
        }
        assert(pager_kept(before, *pager));
        proof { lemma_kept_trans(*old(pager), before, *pager); }
        parent_pages.push(page_id);
    }
    if parent_pages.len() == 0 {
        return Err(Error::Internal(string_of("No page of the level below holds a key")));
    }
    let ghost before = *pager;
    proof {
        if good {
            assert(parent_pages@ == seq![written_id]);
            assert(pager.read_result(written_id) == Ok::<Seq<u8>, ErrorView>(written));
        }
    }
    let r = build_interior_levels(pager, parent_pages, target_fill);
    proof { lemma_kept_trans(*old(pager), before, *pager); }
    r
}

/// Leaves built for a load whose keys all fit in one interior page get one
/// interior page above them.
proof fn lemma_one_level_after_leaves(p0: Pager, p1: Pager, rv: Seq<RecordView>, v: Seq<PageId>, target_fill: usize)
    requires
        two_level_load(p0, rv, target_fill),
        pager_kept(p0, p1),
        v.len() >= 2,
        forall|k: int| 0 <= k < v.len() ==> fresh_page(p0, p1, #[trigger] v[k]),
        forall|k: int| #![trigger v[k]] 0 <= k < v.len() ==> first_reads(p1, v[k]),
        level_room(p1, v, v.len()) <= keys_room(rv),
        p1.hdr().page_count <= p0.hdr().page_count + rv.len() + 1,
    ensures
        one_level_page(p1, v, target_fill),
{
    lemma_room_mono(p1.hdr().page_count + 3, p0.hdr().page_count + rv.len() + 4, p0.psize() as int);
    lemma_level_room_mono(p1, v, (v.len() - 1) as nat, v.len());
    assert(first_reads(p1, v[0]));
    assert(header_of(p1.cached()[v[0]].0).cell_count > 0);
    assert forall|i: int| 0 <= i < v.len() implies {
        &&& p1.cached().contains_key(#[trigger] v[i])
        &&& v[i] <= p1.hdr().page_count
        &&& first_key_reads(p1.cached()[v[i]].0)
    } by {
        assert(first_reads(p1, v[i]));
        assert(fresh_page(p0, p1, v[i]));
    }
}

/// Bulk load records sorted by key into a B+Tree, filling pages up to
/// `target_fill` bytes; the number of records loaded
#[verifier::rlimit(40)]
pub fn bulk_load_with_target(btree: &mut BTree, pager: &mut Pager, records: Vec<Record>, target_fill: usize) -> (r: Result<usize>)
    requires
        old(pager).wf(),
        old(pager).psize() >= 64,
    ensures
        pager_kept(*old(pager), *final(pager)),
        records@.len() == 0 ==> r == Ok::<usize, Error>(0) && *final(pager) == *old(pager) && *final(btree) == *old(btree),
        records@.len() > 0 && !keys_ascending(records_view(records@)) ==> {
            &&& r matches Err(e) && e@ == ErrorView::InvalidArgument("Records must be sorted by key for bulk loading"@)
            &&& *final(pager) == *old(pager)
            &&& *final(btree) == *old(btree)
        },
        r matches Ok(n) ==> n == records@.len(),
        r is Ok && records@.len() > 0 ==> final(btree).root() == final(pager).hdr().root_page,
        records@.len() > 0 && keys_ascending(records_view(records@))
            && leaf_level_can_build(*old(pager), records_view(records@), target_fill)
            && 12 + cells_room(records_view(records@)) <= target_fill ==> r == Ok::<usize, Error>(records.len()),
        records@.len() > 0 && keys_ascending(records_view(records@))
            && two_level_load(*old(pager), records_view(records@), target_fill) ==> r == Ok::<usize, Error>(records.len()),
        one_leaf_load(*old(pager), records_view(records@), target_fill) ==> forall|k: Seq<u8>| {
            &&& descent_ends(reader(*final(pager)), final(btree).root(), k)
            &&& #[trigger] search_result(reader(*final(pager)), final(btree).root(), k) == record_for(records_view(records@), k)
        },
{
    if records.len() == 0 {
        return Ok(0);
    }
    proof {
        if one_leaf_load(*pager, records_view(records@), target_fill) {
            lemma_strictly_ascending(records_view(records@));
        }
    }
    if !is_sorted(&records) {
        return Err(Error::InvalidArgument(string_of("Records must be sorted by key for bulk loading")));
    }
    let record_count = records.len();
    let ghost p0 = *pager;
    let ghost rv = records_view(records@);
    let leaf_nodes = match build_leaf_level(pager, records, target_fill) {
        Ok(v) => v,
        Err(e) => { return Err(e); },
    };
    let ghost p1 = *pager;
    proof {
        if two_level_load(p0, rv, target_fill) && leaf_nodes@.len() >= 2 {
            lemma_one_level_after_leaves(p0, p1, rv, leaf_nodes@, target_fill);
        }
    }
    let root_id = match build_interior_levels(pager, leaf_nodes, target_fill) {
        Ok(id) => id,
        Err(e) => {
            proof { lemma_kept_trans(p0, p1, *pager); }
            return Err(e);
        },
    };
    proof { lemma_kept_trans(p0, p1, *pager); }
    let ghost p2 = *pager;
    btree.set_root_page_id(root_id);
    match pager.set_root_page(root_id) {
        Ok(()) => {},
        Err(e) => { return Err(e); },
    }
    assert(pager_kept(p2, *pager));
    proof {
        lemma_kept_trans(p0, p2, *pager);
        if one_leaf_load(p0, rv, target_fill) {
            assert(pager.read_result(root_id) == p2.read_result(root_id));
            lemma_search_all_one_leaf(*pager, root_id, rv);
        }
    }
    Ok(record_count)
}

} // verus!
