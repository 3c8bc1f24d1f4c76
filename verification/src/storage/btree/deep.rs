//! Searches through the interior pages above a change: a search from an
//! interior page gives what the search from the child it routes to gives,
//! and a subtree that a change leaves apart is searched as before.
use vstd::prelude::*;
use crate::error::ErrorView;
use crate::storage::btree::node::{header_of, interior_cell_at};
use crate::storage::btree::parent::{icells, lemma_child_for_scan, lemma_scan_child, scan};
use crate::storage::btree::search::{PageReader, child_for, descend, descent_ends, lemma_descend_fuel, reader, search_result, spec_search};
use crate::storage::page::{PageId, PageType, spec_page_header};
use crate::storage::pager::Pager;
use crate::storage::record::RecordView;

verus! {

/// The child that the cached page `g` routes `k` to.
pub open spec fn route(m: Map<PageId, (Seq<u8>, bool)>, g: PageId, k: Seq<u8>) -> u32 {
    scan(icells(m[g].0), header_of(m[g].0).right_child, k)
}

/// The page `depth` levels below `g` on the path of `k`.
pub open spec fn split_site(m: Map<PageId, (Seq<u8>, bool)>, g: PageId, k: Seq<u8>, depth: nat) -> PageId
    decreases depth,
{
    if depth == 0 {
        g
    } else {
        split_site(m, route(m, g, k), k, (depth - 1) as nat)
    }
}

/// The pages that splitting the leaf under `split_site` writes: that page,
/// the leaf it routes `k` to, and the page allocated after the `count`
/// pages there are.
pub open spec fn touched(m: Map<PageId, (Seq<u8>, bool)>, count: u32, g: PageId, k: Seq<u8>, depth: nat) -> Set<PageId> {
    let s = split_site(m, g, k, depth);
    set![s, route(m, s, k), (count + 1) as u32]
}

/// Whether the pages under `q`, down `f` levels, are all cached, outside
/// `s`, and read with a header, the interior ones with cells that read.
pub open spec fn subtree_outside(m: Map<PageId, (Seq<u8>, bool)>, q: PageId, s: Set<PageId>, f: nat) -> bool
    decreases f,
{
    if f == 0 {
        false
    } else {
        let d = m[q].0;
        let count = header_of(d).cell_count;
        &&& m.contains_key(q)
        &&& !s.contains(q)
        &&& spec_page_header(d) is Ok
        &&& header_of(d).page_type != PageType::Leaf ==> {
            &&& forall|j: int| 0 <= j < count ==> #[trigger] interior_cell_at(d, j) is Ok
            &&& forall|j: int| 0 <= j < count ==> subtree_outside(m, #[trigger] icells(d)[j].1, s, (f - 1) as nat)
            &&& subtree_outside(m, header_of(d).right_child, s, (f - 1) as nat)
        }
    }
}

/// A search whose descent ends within `m` levels gives what it gives there.
pub proof fn lemma_search_at(rd: PageReader, pid: PageId, k: Seq<u8>, m: nat)
    requires
        descend(rd, pid, k, m) is Some,
    ensures
        descent_ends(rd, pid, k),
        search_result(rd, pid, k) == spec_search(rd, pid, k, m)->Some_0,
{
    let n = choose|n: nat| #[trigger] descend(rd, pid, k, n) is Some;
    if n <= m {
        lemma_descend_fuel(rd, pid, k, n, m);
    } else {
        lemma_descend_fuel(rd, pid, k, m, n);
    }
}

/// A search from an interior page that routes the key to `c` goes on from
/// `c`, one level deeper, and gives what the search from `c` gives.
pub proof fn lemma_search_through(rd: PageReader, g: PageId, d: Seq<u8>, k: Seq<u8>, c: PageId, m: nat)
    requires
        rd(g) == Ok::<Seq<u8>, ErrorView>(d),
        spec_page_header(d) is Ok,
        header_of(d).page_type != PageType::Leaf,
        child_for(d, k) == Ok::<PageId, ErrorView>(c),
        descend(rd, c, k, m) is Some,
    ensures
        descend(rd, g, k, m + 1) == descend(rd, c, k, m),
        descent_ends(rd, g, k),
        descent_ends(rd, c, k),
        search_result(rd, g, k) == search_result(rd, c, k),
        search_result(rd, c, k) == spec_search(rd, c, k, m)->Some_0,
{
    assert(descend(rd, g, k, m + 1) == descend(rd, c, k, m));
    lemma_search_at(rd, g, k, m + 1);
    lemma_search_at(rd, c, k, m);
}

/// A descent that reaches a leaf goes the same way, to a leaf that reads
/// the same, once every page that read well reads the same.
pub proof fn lemma_descend_kept(rd: PageReader, rd2: PageReader, pid: PageId, k: Seq<u8>, m: nat)
    requires
        descend(rd, pid, k, m) matches Some(Ok(_)),
        forall|q: PageId| #[trigger] rd(q) is Ok ==> rd2(q) == rd(q),
    ensures
        descend(rd2, pid, k, m) == descend(rd, pid, k, m),
        rd2(descend(rd, pid, k, m)->Some_0->Ok_0) == rd(descend(rd, pid, k, m)->Some_0->Ok_0),
    decreases m,
{
    assert(rd(pid) is Ok);
    let d = rd(pid)->Ok_0;
    if spec_page_header(d)->Ok_0.page_type != PageType::Leaf {
        let c = child_for(d, k)->Ok_0;
        lemma_descend_kept(rd, rd2, c, k, (m - 1) as nat);
    }
}

/// A descent into a subtree apart from `s` reaches a leaf within `f`
/// levels, and goes the same way, to a leaf that reads the same, once the
/// cached pages outside `s` keep their bytes.
pub proof fn lemma_outside_frame(p0: Pager, p1: Pager, q: PageId, s: Set<PageId>, f: nat, k: Seq<u8>)
    requires
        subtree_outside(p0.cached(), q, s, f),
        forall|x: PageId| !s.contains(x) && p0.cached().contains_key(x) ==> #[trigger] p1.cached().contains_key(x)
            && p1.cached()[x].0 == p0.cached()[x].0,
    ensures
        descend(reader(p0), q, k, f) matches Some(Ok(_)),
        descend(reader(p1), q, k, f) == descend(reader(p0), q, k, f),
        reader(p1)(descend(reader(p0), q, k, f)->Some_0->Ok_0) == reader(p0)(descend(reader(p0), q, k, f)->Some_0->Ok_0),
    decreases f,
{
    let d = p0.cached()[q].0;
    assert(p1.cached().contains_key(q));
    assert(reader(p0)(q) == Ok::<Seq<u8>, ErrorView>(d));
    assert(reader(p1)(q) == Ok::<Seq<u8>, ErrorView>(d));
    if header_of(d).page_type != PageType::Leaf {
        lemma_child_for_scan(d, k);
        let right = header_of(d).right_child;
        let c = scan(icells(d), right, k);
        lemma_scan_child(icells(d), right, k);
        if c != right {
            let j = choose|j: int| 0 <= j < icells(d).len() && #[trigger] icells(d)[j].1 == c;
            assert(subtree_outside(p0.cached(), icells(d)[j].1, s, (f - 1) as nat));
        }
        lemma_outside_frame(p0, p1, c, s, (f - 1) as nat, k);
        assert(descend(reader(p0), q, k, f) == descend(reader(p0), c, k, (f - 1) as nat));
        assert(descend(reader(p1), q, k, f) == descend(reader(p1), c, k, (f - 1) as nat));
    }
}

/// Whether the descents for `k` from `g`, by both readers, reach a leaf
/// within `depth + 2` levels.
pub open spec fn reaches_leaves(rd0: PageReader, rd1: PageReader, g: PageId, k: Seq<u8>, depth: nat) -> bool {
    &&& descend(rd0, g, k, depth + 2) matches Some(Ok(_))
    &&& descend(rd1, g, k, depth + 2) matches Some(Ok(_))
}

/// After an insert that split a leaf `depth + 1` levels below `g`, whose
/// page above took the separator: from `g`, the record's key finds the
/// record, every other key finds what it found before, and every key's
/// descent reaches a leaf within `depth + 2` levels, before and after; the
/// cached pages the split does not write keep their bytes.
#[verifier::opaque]
pub open spec fn searches_kept(p0: Pager, pf: Pager, g: PageId, rv: RecordView, depth: nat) -> bool {
    let s = touched(p0.cached(), p0.hdr().page_count, g, rv.key, depth);
    &&& descent_ends(reader(pf), g, rv.key)
    &&& search_result(reader(pf), g, rv.key) == Ok::<RecordView, ErrorView>(rv)
    &&& forall|k: Seq<u8>| k != rv.key ==> #[trigger] search_result(reader(pf), g, k) == search_result(reader(p0), g, k)
    &&& forall|k: Seq<u8>| #[trigger] reaches_leaves(reader(p0), reader(pf), g, k, depth)
    &&& forall|q: PageId| !s.contains(q) && p0.cached().contains_key(q) ==> #[trigger] pf.cached().contains_key(q)
        && pf.cached()[q].0 == p0.cached()[q].0
}

/// A key routed from the interior page `g` the way the record's key is:
/// its search from `g`, once `g` is written back with its own bytes, gives
/// what the search from the child gives.
#[verifier::spinoff_prover]
#[verifier::rlimit(40)]
proof fn lemma_key_on_path(p0: Pager, p2: Pager, pf: Pager, g: PageId, rv: RecordView, depth: nat, k: Seq<u8>)
    requires
        depth > 0,
        p0.cached().contains_key(g),
        spec_page_header(p0.cached()[g].0) is Ok,
        header_of(p0.cached()[g].0).page_type != PageType::Leaf,
        forall|j: int| 0 <= j < header_of(p0.cached()[g].0).cell_count ==> #[trigger] interior_cell_at(p0.cached()[g].0, j) is Ok,
        route(p0.cached(), g, k) == route(p0.cached(), g, rv.key),
        searches_kept(p0, p2, route(p0.cached(), g, rv.key), rv, (depth - 1) as nat),
        forall|q: PageId| #[trigger] p2.read_result(q) is Ok ==> pf.read_result(q) == p2.read_result(q),
        pf.cached().contains_key(g),
        pf.cached()[g].0 == p0.cached()[g].0,
    ensures
        k == rv.key ==> descent_ends(reader(pf), g, k) && search_result(reader(pf), g, k) == Ok::<RecordView, ErrorView>(rv),
        k != rv.key ==> search_result(reader(pf), g, k) == search_result(reader(p0), g, k),
        descend(reader(pf), g, k, depth + 2) matches Some(Ok(_)),
        descend(reader(p0), g, k, depth + 2) matches Some(Ok(_)),
{
    let d = p0.cached()[g].0;
    let c = route(p0.cached(), g, rv.key);
    let rd0 = reader(p0);
    let rd2 = reader(p2);
    let rdf = reader(pf);
    assert(rd0(g) == Ok::<Seq<u8>, ErrorView>(d));
    assert(rdf(g) == Ok::<Seq<u8>, ErrorView>(d));
    lemma_child_for_scan(d, k);
    let f = (depth + 1) as nat;
    assert(((depth - 1) as nat) + 2 == f);
    assert((descend(rd2, c, k, f) matches Some(Ok(_))) && (descend(rd0, c, k, f) matches Some(Ok(_)))
        && (k != rv.key ==> search_result(rd2, c, k) == search_result(rd0, c, k))
        && (k == rv.key ==> search_result(rd2, c, k) == Ok::<RecordView, ErrorView>(rv))) by {
        reveal(searches_kept);
        assert(reaches_leaves(reader(p0), reader(p2), c, k, (depth - 1) as nat));
    }
    lemma_descend_kept(rd2, rdf, c, k, f);
    lemma_search_through(rdf, g, d, k, c, f);
    lemma_search_through(rd0, g, d, k, c, f);
    lemma_search_at(rd2, c, k, f);
}

/// A key routed from the interior page `g` to a child apart from the pages
/// a split writes: its search from `g` gives what it gave.
#[verifier::spinoff_prover]
#[verifier::rlimit(40)]
proof fn lemma_key_apart(p0: Pager, pf: Pager, g: PageId, rv: RecordView, s: Set<PageId>, depth: nat, k: Seq<u8>)
    requires
        p0.cached().contains_key(g),
        spec_page_header(p0.cached()[g].0) is Ok,
        header_of(p0.cached()[g].0).page_type != PageType::Leaf,
        forall|j: int| 0 <= j < header_of(p0.cached()[g].0).cell_count ==> #[trigger] interior_cell_at(p0.cached()[g].0, j) is Ok,
        route(p0.cached(), g, k) != route(p0.cached(), g, rv.key),
        forall|j: int| #![trigger icells(p0.cached()[g].0)[j]] 0 <= j < header_of(p0.cached()[g].0).cell_count
            && icells(p0.cached()[g].0)[j].1 != route(p0.cached(), g, rv.key)
            ==> subtree_outside(p0.cached(), icells(p0.cached()[g].0)[j].1, s, depth + 1),
        header_of(p0.cached()[g].0).right_child != route(p0.cached(), g, rv.key)
            ==> subtree_outside(p0.cached(), header_of(p0.cached()[g].0).right_child, s, depth + 1),
        forall|q: PageId| !s.contains(q) && p0.cached().contains_key(q) ==> #[trigger] pf.cached().contains_key(q)
            && pf.cached()[q].0 == p0.cached()[q].0,
        pf.cached().contains_key(g),
        pf.cached()[g].0 == p0.cached()[g].0,
    ensures
        k != rv.key,
        search_result(reader(pf), g, k) == search_result(reader(p0), g, k),
        descend(reader(pf), g, k, depth + 2) matches Some(Ok(_)),
        descend(reader(p0), g, k, depth + 2) matches Some(Ok(_)),
{
    let m0 = p0.cached();
    let d = m0[g].0;
    let rd0 = reader(p0);
    let rdf = reader(pf);
    assert(rd0(g) == Ok::<Seq<u8>, ErrorView>(d));
    assert(rdf(g) == Ok::<Seq<u8>, ErrorView>(d));
    lemma_child_for_scan(d, k);
    let ck = route(m0, g, k);
    let f = (depth + 1) as nat;
    let right = header_of(d).right_child;
    lemma_scan_child(icells(d), right, k);
    if ck != right {
        let j = choose|j: int| 0 <= j < icells(d).len() && #[trigger] icells(d)[j].1 == ck;
        assert(subtree_outside(m0, icells(d)[j].1, s, f));
    }
    lemma_outside_frame(p0, pf, ck, s, f, k);
    lemma_search_through(rdf, g, d, k, ck, f);
    lemma_search_through(rd0, g, d, k, ck, f);
}

/// What `searches_kept` says, from its parts.
pub proof fn lemma_kept_intro(p0: Pager, pf: Pager, g: PageId, rv: RecordView, depth: nat)
    requires
        descent_ends(reader(pf), g, rv.key),
        search_result(reader(pf), g, rv.key) == Ok::<RecordView, ErrorView>(rv),
        forall|k: Seq<u8>| k != rv.key ==> #[trigger] search_result(reader(pf), g, k) == search_result(reader(p0), g, k),
        forall|k: Seq<u8>| #[trigger] reaches_leaves(reader(p0), reader(pf), g, k, depth),
        forall|q: PageId| !touched(p0.cached(), p0.hdr().page_count, g, rv.key, depth).contains(q) && p0.cached().contains_key(q)
            ==> #[trigger] pf.cached().contains_key(q) && pf.cached()[q].0 == p0.cached()[q].0,
    ensures
        searches_kept(p0, pf, g, rv, depth),
{
    reveal(searches_kept);
}

/// The cached pages a split below `c` writes back: those outside what it
/// touched keep their bytes.
pub proof fn lemma_kept_frame(p0: Pager, p2: Pager, c: PageId, rv: RecordView, depth: nat)
    requires
        searches_kept(p0, p2, c, rv, depth),
    ensures
        forall|q: PageId| !touched(p0.cached(), p0.hdr().page_count, c, rv.key, depth).contains(q) && p0.cached().contains_key(q)
            ==> #[trigger] p2.cached().contains_key(q) && p2.cached()[q].0 == p0.cached()[q].0,
{
    reveal(searches_kept);
}

/// One key's search from the interior page `g` above the split.
proof fn lemma_step_key(p0: Pager, p2: Pager, pf: Pager, g: PageId, rv: RecordView, depth: nat, k: Seq<u8>)
    requires
        depth > 0,
        p0.cached().contains_key(g),
        spec_page_header(p0.cached()[g].0) is Ok,
        header_of(p0.cached()[g].0).page_type != PageType::Leaf,
        forall|j: int| 0 <= j < header_of(p0.cached()[g].0).cell_count ==> #[trigger] interior_cell_at(p0.cached()[g].0, j) is Ok,
        forall|j: int| #![trigger icells(p0.cached()[g].0)[j]] 0 <= j < header_of(p0.cached()[g].0).cell_count
            && icells(p0.cached()[g].0)[j].1 != route(p0.cached(), g, rv.key)
            ==> subtree_outside(p0.cached(), icells(p0.cached()[g].0)[j].1,
                touched(p0.cached(), p0.hdr().page_count, route(p0.cached(), g, rv.key), rv.key, (depth - 1) as nat), depth + 1),
        header_of(p0.cached()[g].0).right_child != route(p0.cached(), g, rv.key)
            ==> subtree_outside(p0.cached(), header_of(p0.cached()[g].0).right_child,
                touched(p0.cached(), p0.hdr().page_count, route(p0.cached(), g, rv.key), rv.key, (depth - 1) as nat), depth + 1),
        searches_kept(p0, p2, route(p0.cached(), g, rv.key), rv, (depth - 1) as nat),
        forall|q: PageId| #[trigger] p2.read_result(q) is Ok ==> pf.read_result(q) == p2.read_result(q),
        forall|q: PageId| !touched(p0.cached(), p0.hdr().page_count, route(p0.cached(), g, rv.key), rv.key, (depth - 1) as nat).contains(q)
            && p0.cached().contains_key(q) ==> #[trigger] pf.cached().contains_key(q) && pf.cached()[q].0 == p0.cached()[q].0,
        pf.cached().contains_key(g),
        pf.cached()[g].0 == p0.cached()[g].0,
    ensures
        k == rv.key ==> descent_ends(reader(pf), g, k) && search_result(reader(pf), g, k) == Ok::<RecordView, ErrorView>(rv),
        k != rv.key ==> search_result(reader(pf), g, k) == search_result(reader(p0), g, k),
        descend(reader(pf), g, k, depth + 2) matches Some(Ok(_)),
        descend(reader(p0), g, k, depth + 2) matches Some(Ok(_)),
{
    let s = touched(p0.cached(), p0.hdr().page_count, route(p0.cached(), g, rv.key), rv.key, (depth - 1) as nat);
    if route(p0.cached(), g, k) == route(p0.cached(), g, rv.key) {
        lemma_key_on_path(p0, p2, pf, g, rv, depth, k);
    } else {
        lemma_key_apart(p0, pf, g, rv, s, depth, k);
    }
}

/// One level up: the interior page `g`, routing the record's key to `c`,
/// none of the pages the split below writes, its other children rooting
/// subtrees apart from them, and written back with its own bytes, searches
/// as `searches_kept` says once `c` did.
#[verifier::spinoff_prover]
#[verifier::rlimit(40)]
pub proof fn lemma_nested_step(p0: Pager, p2: Pager, pf: Pager, g: PageId, rv: RecordView, depth: nat)
    requires
        depth > 0,
        p0.cached().contains_key(g),
        spec_page_header(p0.cached()[g].0) is Ok,
        header_of(p0.cached()[g].0).page_type != PageType::Leaf,
        forall|j: int| 0 <= j < header_of(p0.cached()[g].0).cell_count ==> #[trigger] interior_cell_at(p0.cached()[g].0, j) is Ok,
        !touched(p0.cached(), p0.hdr().page_count, route(p0.cached(), g, rv.key), rv.key, (depth - 1) as nat).contains(g),
        forall|j: int| #![trigger icells(p0.cached()[g].0)[j]] 0 <= j < header_of(p0.cached()[g].0).cell_count
            && icells(p0.cached()[g].0)[j].1 != route(p0.cached(), g, rv.key)
            ==> subtree_outside(p0.cached(), icells(p0.cached()[g].0)[j].1,
                touched(p0.cached(), p0.hdr().page_count, route(p0.cached(), g, rv.key), rv.key, (depth - 1) as nat), depth + 1),
        header_of(p0.cached()[g].0).right_child != route(p0.cached(), g, rv.key)
            ==> subtree_outside(p0.cached(), header_of(p0.cached()[g].0).right_child,
                touched(p0.cached(), p0.hdr().page_count, route(p0.cached(), g, rv.key), rv.key, (depth - 1) as nat), depth + 1),
        searches_kept(p0, p2, route(p0.cached(), g, rv.key), rv, (depth - 1) as nat),
        forall|q: PageId| #[trigger] p2.read_result(q) is Ok ==> pf.read_result(q) == p2.read_result(q),
        forall|q: PageId| q != g && #[trigger] p2.cached().contains_key(q) ==> pf.cached().contains_key(q)
            && pf.cached()[q] == p2.cached()[q],
        pf.cached().contains_key(g),
        pf.cached()[g].0 == p0.cached()[g].0,
    ensures
        searches_kept(p0, pf, g, rv, depth),
{
    let m0 = p0.cached();
    let c = route(m0, g, rv.key);
    let s = touched(m0, p0.hdr().page_count, c, rv.key, (depth - 1) as nat);
    assert(split_site(m0, g, rv.key, depth) == split_site(m0, c, rv.key, (depth - 1) as nat));
    assert(touched(m0, p0.hdr().page_count, g, rv.key, depth) == s);
    lemma_kept_frame(p0, p2, c, rv, (depth - 1) as nat);
    assert forall|q: PageId| !s.contains(q) && m0.contains_key(q) implies #[trigger] pf.cached().contains_key(q)
        && pf.cached()[q].0 == m0[q].0 by {
        if q != g {
            assert(p2.cached().contains_key(q));
        }
    }
    lemma_step_key(p0, p2, pf, g, rv, depth, rv.key);
    assert forall|k: Seq<u8>| k != rv.key implies #[trigger] search_result(reader(pf), g, k) == search_result(reader(p0), g, k) by {
        lemma_step_key(p0, p2, pf, g, rv, depth, k);
    }
    assert forall|k: Seq<u8>| #[trigger] reaches_leaves(reader(p0), reader(pf), g, k, depth) by {
        lemma_step_key(p0, p2, pf, g, rv, depth, k);
    }
    lemma_kept_intro(p0, pf, g, rv, depth);
}

/// What `searches_kept` says of searches from `g`: the record's key finds
/// the record, and every other key's search ends and finds what it found.
pub proof fn lemma_kept_law(p0: Pager, pf: Pager, g: PageId, rv: RecordView, depth: nat)
    requires
        searches_kept(p0, pf, g, rv, depth),
    ensures
        descent_ends(reader(pf), g, rv.key),
        search_result(reader(pf), g, rv.key) == Ok::<RecordView, ErrorView>(rv),
        forall|k: Seq<u8>| k != rv.key ==> {
            &&& descent_ends(reader(pf), g, k)
            &&& #[trigger] search_result(reader(pf), g, k) == search_result(reader(p0), g, k)
        },
{
    reveal(searches_kept);
    assert forall|k: Seq<u8>| k != rv.key implies {
        &&& descent_ends(reader(pf), g, k)
        &&& #[trigger] search_result(reader(pf), g, k) == search_result(reader(p0), g, k)
    } by {
        assert(reaches_leaves(reader(p0), reader(pf), g, k, depth));
        assert(descend(reader(pf), g, k, depth + 2) is Some);
    }
}

} // verus!
