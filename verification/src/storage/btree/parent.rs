//! How an interior page routes keys to its children, cell by cell, and how
//! that routing changes when a child's separator goes into the page.
use vstd::prelude::*;
use crate::error::ErrorView;
use crate::storage::btree::keys::key_lt;
use crate::storage::btree::bulk_load::interior_page_holds;
use crate::storage::btree::interior::{law_delete_cells, law_interior_insert, pointers_within};
use crate::storage::btree::leaf::lemma_delete_bytes;
use crate::storage::btree::node::{after_delete_cell, after_insert_cell, header_of, interior_cell_at, interior_cell_bytes, pointer_at};
use crate::storage::page::{PageHeader, PageType};
use crate::storage::btree::search::{PageReader, child_for, child_scan, descend, descent_ends, leaf_lookup, lemma_descend_fuel, reader, search_result};
use crate::storage::btree::split::lookup_with;
use crate::storage::pager::Pager;
use crate::storage::record::RecordView;
use crate::storage::page::{PageId, spec_page_header};

verus! {

/// The cells of an interior page: key and left child, in order.
pub open spec fn icells(d: Seq<u8>) -> Seq<(Seq<u8>, u32)> {
    Seq::new(header_of(d).cell_count as nat, |j: int| interior_cell_at(d, j)->Ok_0)
}

/// The child that cells route `k` to: the left child of the first cell
/// whose key is above `k`, else `right`.
pub open spec fn scan(cs: Seq<(Seq<u8>, u32)>, right: u32, k: Seq<u8>) -> u32
    decreases cs.len(),
{
    if cs.len() == 0 {
        right
    } else if key_lt(k, cs[0].0) {
        cs[0].1
    } else {
        scan(cs.drop_first(), right, k)
    }
}

/// The left child of the first cell whose key is above `k`, if any.
pub open spec fn scan_first(cs: Seq<(Seq<u8>, u32)>, k: Seq<u8>) -> Option<u32>
    decreases cs.len(),
{
    if cs.len() == 0 {
        None
    } else if key_lt(k, cs[0].0) {
        Some(cs[0].1)
    } else {
        scan_first(cs.drop_first(), k)
    }
}

/// Reading the cells from index `i` on routes as scanning them does.
proof fn lemma_child_scan_from(d: Seq<u8>, k: Seq<u8>, i: nat)
    requires
        spec_page_header(d) is Ok,
        forall|j: int| 0 <= j < header_of(d).cell_count ==> #[trigger] interior_cell_at(d, j) is Ok,
        i <= header_of(d).cell_count,
    ensures
        child_scan(d, k, i, header_of(d).cell_count as nat)
            == Ok::<PageId, ErrorView>(scan(icells(d).skip(i as int), header_of(d).right_child, k)),
    decreases header_of(d).cell_count - i,
{
    let n = header_of(d).cell_count as nat;
    let cs = icells(d).skip(i as int);
    if i < n {
        lemma_child_scan_from(d, k, i + 1);
        assert(cs[0] == interior_cell_at(d, i as int)->Ok_0);
        assert(cs.drop_first() =~= icells(d).skip((i + 1) as int));
    } else {
        assert(cs.len() == 0);
    }
}

/// An interior page whose cells all read routes a key as scanning its
/// cells does.
pub proof fn lemma_child_for_scan(d: Seq<u8>, k: Seq<u8>)
    requires
        spec_page_header(d) is Ok,
        forall|j: int| 0 <= j < header_of(d).cell_count ==> #[trigger] interior_cell_at(d, j) is Ok,
    ensures
        child_for(d, k) == Ok::<PageId, ErrorView>(scan(icells(d), header_of(d).right_child, k)),
{
    lemma_child_scan_from(d, k, 0);
    assert(icells(d).skip(0) =~= icells(d));
}

/// Scanning cells that follow others: the first ones decide when one of
/// their keys is above `k`.
pub proof fn lemma_scan_append(a: Seq<(Seq<u8>, u32)>, b: Seq<(Seq<u8>, u32)>, right: u32, k: Seq<u8>)
    ensures
        scan(a + b, right, k) == match scan_first(a, k) {
            Some(c) => c,
            None => scan(b, right, k),
        },
    decreases a.len(),
{
    if a.len() == 0 {
        assert(a + b =~= b);
    } else {
        assert((a + b)[0] == a[0]);
        assert((a + b).drop_first() =~= a.drop_first() + b);
        lemma_scan_append(a.drop_first(), b, right, k);
    }
}

/// What a scan gives is the right child or one of the cells' children.
pub proof fn lemma_scan_child(cs: Seq<(Seq<u8>, u32)>, right: u32, k: Seq<u8>)
    ensures
        scan(cs, right, k) == right || exists|j: int| 0 <= j < cs.len() && #[trigger] cs[j].1 == scan(cs, right, k),
        scan_first(cs, k) matches Some(c) ==> exists|j: int| 0 <= j < cs.len() && #[trigger] cs[j].1 == c,
    decreases cs.len(),
{
    if cs.len() > 0 {
        lemma_scan_child(cs.drop_first(), right, k);
        if !key_lt(k, cs[0].0) {
            if scan(cs.drop_first(), right, k) != right {
                let j = choose|j: int| 0 <= j < cs.drop_first().len() && #[trigger] cs.drop_first()[j].1 == scan(cs.drop_first(), right, k);
                assert(cs[j + 1] == cs.drop_first()[j]);
            }
            if scan_first(cs.drop_first(), k) is Some {
                let j = choose|j: int| 0 <= j < cs.drop_first().len() && #[trigger] cs.drop_first()[j].1 == scan_first(cs.drop_first(), k)->Some_0;
                assert(cs[j + 1] == cs.drop_first()[j]);
            }
        } else {
            assert(cs[0].1 == scan(cs, right, k));
        }
    }
}

/// The cells of a parent after its child at `i` split, with the separator
/// `sep` and the new page `n`: the separator's cell keeps the child, and
/// the cell that followed, or the right child, takes the new page.
pub open spec fn parent_cells(cs: Seq<(Seq<u8>, u32)>, i: int, sep: Seq<u8>, child: u32, n: u32) -> Seq<(Seq<u8>, u32)> {
    if i < cs.len() {
        cs.take(i) + seq![(sep, child), (cs[i].0, n)] + cs.skip(i + 1)
    } else {
        cs.push((sep, child))
    }
}

/// The right child of such a parent.
pub open spec fn parent_right(cs: Seq<(Seq<u8>, u32)>, right: u32, i: int, n: u32) -> u32 {
    if i < cs.len() { right } else { n }
}

/// Whether cells route `k` to the child at `i`: no key before `i` is above
/// it, and the key at `i`, if any, is.
pub open spec fn routed_at(cs: Seq<(Seq<u8>, u32)>, i: int, k: Seq<u8>) -> bool {
    &&& scan_first(cs.take(i), k) is None
    &&& i < cs.len() ==> key_lt(k, cs[i].0)
}

/// After a child's separator goes in: a key routed to that child goes to
/// it when below the separator and to the new page otherwise; any other
/// key goes where it went, which is not the child at `i`.
pub proof fn law_parent_route(cs: Seq<(Seq<u8>, u32)>, right: u32, i: int, sep: Seq<u8>, child: u32, n: u32, k: Seq<u8>)
    requires
        0 <= i <= cs.len(),
        i < cs.len() ==> cs[i].1 == child && key_lt(sep, cs[i].0),
        i == cs.len() ==> right == child,
    ensures
        routed_at(cs, i, k) ==> {
            &&& scan(cs, right, k) == child
            &&& scan(parent_cells(cs, i, sep, child, n), parent_right(cs, right, i, n), k)
                == if key_lt(k, sep) { child } else { n }
        },
        !routed_at(cs, i, k) ==> {
            &&& scan(parent_cells(cs, i, sep, child, n), parent_right(cs, right, i, n), k) == scan(cs, right, k)
            &&& (i < cs.len() && scan(cs, right, k) == right)
                || exists|j: int| 0 <= j < cs.len() && j != i && #[trigger] cs[j].1 == scan(cs, right, k)
        },
{
    let a = cs.take(i);
    let cs2 = parent_cells(cs, i, sep, child, n);
    let r2 = parent_right(cs, right, i, n);
    if i < cs.len() {
        let rest = cs.skip(i + 1);
        let mid_old = seq![cs[i]];
        let mid_new = seq![(sep, child), (cs[i].0, n)];
        assert(cs =~= a + (mid_old + rest));
        assert(cs2 =~= a + (mid_new + rest));
        lemma_scan_append(a, mid_old + rest, right, k);
        lemma_scan_append(a, mid_new + rest, right, k);
        lemma_scan_append(mid_old, rest, right, k);
        lemma_scan_append(mid_new, rest, right, k);
        assert(mid_old.drop_first() =~= Seq::<(Seq<u8>, u32)>::empty());
        assert(mid_new.drop_first() =~= seq![(cs[i].0, n)]);
        assert(mid_new.drop_first().drop_first() =~= Seq::<(Seq<u8>, u32)>::empty());
        assert(scan_first(mid_old.drop_first(), k) is None);
        assert(scan_first(mid_old, k) == if key_lt(k, cs[i].0) { Some(child) } else { None::<u32> });
        assert(scan_first(mid_new.drop_first().drop_first(), k) is None);
        assert(scan_first(mid_new.drop_first(), k) == if key_lt(k, cs[i].0) { Some(n) } else { None::<u32> });
        assert(scan_first(mid_new, k) == if key_lt(k, sep) { Some(child) } else { scan_first(mid_new.drop_first(), k) });
        assert(cs.take(i) =~= a);
        if key_lt(k, sep) && !key_lt(k, cs[i].0) {
            crate::storage::btree::keys::lemma_key_lt_total(k, cs[i].0);
            if k != cs[i].0 {
                crate::storage::btree::keys::lemma_key_lt_transitive(cs[i].0, k, sep);
                crate::storage::btree::keys::lemma_key_lt_asymmetric(sep, cs[i].0);
            } else {
                crate::storage::btree::keys::lemma_key_lt_asymmetric(sep, cs[i].0);
            }
        }
        lemma_scan_child(a, right, k);
        lemma_scan_child(rest, right, k);
        if scan_first(a, k) is Some {
            let j = choose|j: int| 0 <= j < a.len() && #[trigger] a[j].1 == scan_first(a, k)->Some_0;
            assert(cs[j] == a[j]);
        } else if !key_lt(k, cs[i].0) && scan(rest, right, k) != right {
            let j = choose|j: int| 0 <= j < rest.len() && #[trigger] rest[j].1 == scan(rest, right, k);
            assert(cs[i + 1 + j] == rest[j]);
        }
    } else {
        assert(a =~= cs);
        assert(cs2 =~= cs + seq![(sep, child)]);
        lemma_scan_append(cs, seq![(sep, child)], r2, k);
        lemma_scan_append(cs, Seq::<(Seq<u8>, u32)>::empty(), right, k);
        assert(cs + Seq::<(Seq<u8>, u32)>::empty() =~= cs);
        assert(seq![(sep, child)].drop_first() =~= Seq::<(Seq<u8>, u32)>::empty());
        assert(scan(seq![(sep, child)].drop_first(), r2, k) == n);
        assert(scan(seq![(sep, child)], r2, k) == if key_lt(k, sep) { child } else { n });
        assert(scan(Seq::<(Seq<u8>, u32)>::empty(), right, k) == right);
        assert(cs.take(i) =~= cs);
        lemma_scan_child(cs, right, k);
        if scan_first(cs, k) is Some {
            let j = choose|j: int| 0 <= j < cs.len() && #[trigger] cs[j].1 == scan_first(cs, k)->Some_0;
        }
    }
}

/// Deleting a cell keeps the others in the content area, reading as
/// before, one place down after it.
pub proof fn lemma_delete_keeps(e1: Seq<u8>, index: int, count: int, off: int)
    requires
        spec_page_header(e1) is Ok,
        header_of(e1).cell_count == count,
        0 <= index < count,
        12 + 2 * count <= off <= e1.len(),
        pointers_within(e1, count, off),
    ensures
        ({
            let e2 = after_delete_cell(e1, index);
            &&& e2.len() == e1.len()
            &&& spec_page_header(e2) == Ok::<PageHeader, Seq<char>>(PageHeader { cell_count: (count - 1) as u16, ..header_of(e1) })
            &&& pointers_within(e2, count - 1, off)
            &&& forall|j: int| 0 <= j < count - 1 ==> #[trigger] interior_cell_at(e2, j)
                == interior_cell_at(e1, if j < index { j } else { j + 1 })
        }),
{
    let e2 = after_delete_cell(e1, index);
    assert(pointers_within(e1, count, 12 + 2 * count));
    law_delete_cells(e1, index);
    lemma_delete_bytes(e1, index);
    assert forall|j: int| 0 <= j < count - 1 implies off <= #[trigger] pointer_at(e2, j) < e2.len() by {
        if j < index {
            assert(off <= pointer_at(e1, j) < e1.len());
        } else {
            assert(off <= pointer_at(e1, j + 1) < e1.len());
        }
    }
}

/// Deleting the cell at `index` and putting another in its place keeps
/// every other cell.
#[verifier::spinoff_prover]
#[verifier::rlimit(40)]
pub proof fn lemma_replace_cell(e1: Seq<u8>, index: int, count: int, off: int, key: Seq<u8>, n: u32)
    requires
        spec_page_header(e1) is Ok,
        header_of(e1).cell_count == count,
        header_of(e1).cell_content_offset == off,
        0 <= index < count < 65535,
        12 + 2 * count + interior_cell_bytes(key, n).len() <= off <= e1.len(),
        pointers_within(e1, count, off),
        key.len() <= u64::MAX,
    ensures
        ({
            let e3 = after_insert_cell(after_delete_cell(e1, index), index, interior_cell_bytes(key, n));
            &&& spec_page_header(e3) == Ok::<PageHeader, Seq<char>>(PageHeader {
                cell_content_offset: (off - interior_cell_bytes(key, n).len()) as u16,
                ..header_of(e1)
            })
            &&& forall|j: int| 0 <= j < count ==> #[trigger] interior_cell_at(e3, j)
                == if j == index { Ok::<(Seq<u8>, u32), ErrorView>((key, n)) } else { interior_cell_at(e1, j) }
        }),
{
    let e2 = after_delete_cell(e1, index);
    let e3 = after_insert_cell(e2, index, interior_cell_bytes(key, n));
    lemma_delete_keeps(e1, index, count, off);
    law_interior_insert(e2, index, key, n);
    assert forall|j: int| 0 <= j < count implies #[trigger] interior_cell_at(e3, j)
        == if j == index { Ok::<(Seq<u8>, u32), ErrorView>((key, n)) } else { interior_cell_at(e1, j) } by {
        if j < index {
            assert(interior_cell_at(e3, j) == interior_cell_at(e2, j));
            assert(interior_cell_at(e2, j) == interior_cell_at(e1, j));
        } else if j > index {
            assert(interior_cell_at(e3, j) == interior_cell_at(e2, j - 1));
            assert(interior_cell_at(e2, j - 1) == interior_cell_at(e1, j));
        }
    }
}

/// Where the cells of a parent after a child's split come from.
pub proof fn lemma_parent_cells_index(cs: Seq<(Seq<u8>, u32)>, i: int, sep: Seq<u8>, child: u32, n: u32)
    requires
        0 <= i < cs.len(),
    ensures
        parent_cells(cs, i, sep, child, n).len() == cs.len() + 1,
        forall|j: int| 0 <= j < i ==> #[trigger] parent_cells(cs, i, sep, child, n)[j] == cs[j],
        parent_cells(cs, i, sep, child, n)[i] == (sep, child),
        parent_cells(cs, i, sep, child, n)[i + 1] == (cs[i].0, n),
        forall|j: int| i + 1 < j <= cs.len() ==> #[trigger] parent_cells(cs, i, sep, child, n)[j] == cs[j - 1],
{
    let a = cs.take(i);
    let m = seq![(sep, child), (cs[i].0, n)];
    let r = cs.skip(i + 1);
    assert(parent_cells(cs, i, sep, child, n) == a + m + r);
    assert forall|j: int| 0 <= j < i implies #[trigger] (a + m + r)[j] == cs[j] by {}
    assert forall|j: int| i + 1 < j <= cs.len() implies #[trigger] (a + m + r)[j] == cs[j - 1] by {
        assert((a + m + r)[j] == r[j - i - 2]);
    }
}

/// The parent after the separator went in at `i` and the cell after it was
/// replaced by one with the same key and the new page.
#[verifier::rlimit(40)]
pub proof fn lemma_parent_cells_mid(dp: Seq<u8>, e1: Seq<u8>, e3: Seq<u8>, i: int, sep: Seq<u8>, child: u32, n: u32)
    requires
        spec_page_header(dp) is Ok,
        0 <= i < header_of(dp).cell_count,
        forall|j: int| 0 <= j < header_of(dp).cell_count ==> #[trigger] interior_cell_at(dp, j) is Ok,
        spec_page_header(e3) is Ok,
        header_of(dp).page_type == crate::storage::page::PageType::Interior,
        header_of(e3).page_type == header_of(dp).page_type,
        header_of(e3).cell_count == header_of(dp).cell_count + 1,
        header_of(e3).right_child == header_of(dp).right_child,
        interior_cell_at(e1, i) == Ok::<(Seq<u8>, u32), ErrorView>((sep, child)),
        forall|j: int| 0 <= j < i ==> #[trigger] interior_cell_at(e1, j) == interior_cell_at(dp, j),
        forall|j: int| i < j <= header_of(dp).cell_count ==> #[trigger] interior_cell_at(e1, j) == interior_cell_at(dp, j - 1),
        forall|j: int| 0 <= j <= header_of(dp).cell_count ==> #[trigger] interior_cell_at(e3, j)
            == if j == i + 1 { Ok::<(Seq<u8>, u32), ErrorView>((icells(dp)[i].0, n)) } else { interior_cell_at(e1, j) },
    ensures
        interior_page_holds(e3, parent_cells(icells(dp), i, sep, child, n), parent_right(icells(dp), header_of(dp).right_child, i, n)),
{
    let cs = icells(dp);
    let cs2 = parent_cells(cs, i, sep, child, n);
    lemma_parent_cells_index(cs, i, sep, child, n);
    assert forall|j: int| 0 <= j < cs2.len() implies #[trigger] interior_cell_at(e3, j)
        == Ok::<(Seq<u8>, u32), ErrorView>(cs2[j]) by {
        assert(interior_cell_at(e3, j) == if j == i + 1 { Ok::<(Seq<u8>, u32), ErrorView>((cs[i].0, n)) } else { interior_cell_at(e1, j) });
        if j < i {
            assert(interior_cell_at(dp, j) is Ok);
            assert(cs[j] == interior_cell_at(dp, j)->Ok_0);
            assert(cs2[j] == cs[j]);
        } else if j == i {
            assert(cs2[j] == (sep, child));
        } else if j == i + 1 {
            assert(cs2[j] == (cs[i].0, n));
        } else {
            assert(interior_cell_at(dp, j - 1) is Ok);
            assert(cs[j - 1] == interior_cell_at(dp, j - 1)->Ok_0);
            assert(cs2[j] == cs[j - 1]);
        }
    }
}


/// The index of the cell that routes `k`: the first whose key is above it,
/// else the cell count (the right child).
pub open spec fn route_index(cs: Seq<(Seq<u8>, u32)>, k: Seq<u8>) -> int
    decreases cs.len(),
{
    if cs.len() == 0 {
        0
    } else if key_lt(k, cs[0].0) {
        0
    } else {
        1 + route_index(cs.drop_first(), k)
    }
}

/// No key of cells that route nothing is above the key.
pub proof fn lemma_scan_first_none(cs: Seq<(Seq<u8>, u32)>, k: Seq<u8>)
    requires
        scan_first(cs, k) is None,
    ensures
        forall|j: int| 0 <= j < cs.len() ==> !key_lt(k, #[trigger] cs[j].0),
    decreases cs.len(),
{
    if cs.len() > 0 {
        lemma_scan_first_none(cs.drop_first(), k);
        assert forall|j: int| 0 <= j < cs.len() implies !key_lt(k, #[trigger] cs[j].0) by {
            if j > 0 {
                assert(cs[j] == cs.drop_first()[j - 1]);
            }
        }
    }
}

/// A key is routed at its route index, to the child there.
pub proof fn lemma_route_index(cs: Seq<(Seq<u8>, u32)>, right: u32, k: Seq<u8>)
    ensures
        0 <= route_index(cs, k) <= cs.len(),
        routed_at(cs, route_index(cs, k), k),
        scan(cs, right, k) == if route_index(cs, k) < cs.len() { cs[route_index(cs, k)].1 } else { right },
    decreases cs.len(),
{
    let i = route_index(cs, k);
    if cs.len() > 0 {
        if key_lt(k, cs[0].0) {
            assert(cs.take(0) =~= Seq::<(Seq<u8>, u32)>::empty());
        } else {
            let t = cs.drop_first();
            lemma_route_index(t, right, k);
            assert(cs.take(i) =~= seq![cs[0]] + t.take(i - 1));
            lemma_scan_append(seq![cs[0]], t.take(i - 1), right, k);
            assert(seq![cs[0]].drop_first() =~= Seq::<(Seq<u8>, u32)>::empty());
            assert(seq![cs[0]][0] == cs[0]);
            assert(scan_first(Seq::<(Seq<u8>, u32)>::empty(), k) is None);
            assert(scan_first(seq![cs[0]].drop_first(), k) is None);
            assert(scan_first(seq![cs[0]], k) is None);
            lemma_scan_first_append(seq![cs[0]], t.take(i - 1), k);
            if i < cs.len() {
                assert(cs[i] == t[i - 1]);
            }
        }
    } else {
        assert(cs.take(0) =~= cs);
    }
}

/// The first-above of cells that follow others is the first ones' when
/// they have one.
pub proof fn lemma_scan_first_append(a: Seq<(Seq<u8>, u32)>, b: Seq<(Seq<u8>, u32)>, k: Seq<u8>)
    ensures
        scan_first(a + b, k) == match scan_first(a, k) {
            Some(c) => Some(c),
            None => scan_first(b, k),
        },
    decreases a.len(),
{
    if a.len() == 0 {
        assert(a + b =~= b);
    } else {
        assert((a + b)[0] == a[0]);
        assert((a + b).drop_first() =~= a.drop_first() + b);
        lemma_scan_first_append(a.drop_first(), b, k);
    }
}

/// Children that are pairwise distinct: the cells' left children and the
/// right child.
pub open spec fn children_distinct(cs: Seq<(Seq<u8>, u32)>, right: u32) -> bool {
    &&& forall|a: int, b: int| 0 <= a < b < cs.len() ==> #[trigger] cs[a].1 != #[trigger] cs[b].1
    &&& forall|a: int| 0 <= a < cs.len() ==> #[trigger] cs[a].1 != right
}

/// With distinct children, two keys routed to the same child have the same
/// route index.
pub proof fn lemma_same_route(cs: Seq<(Seq<u8>, u32)>, right: u32, k1: Seq<u8>, k2: Seq<u8>)
    requires
        children_distinct(cs, right),
        scan(cs, right, k1) == scan(cs, right, k2),
    ensures
        route_index(cs, k1) == route_index(cs, k2),
{
    lemma_route_index(cs, right, k1);
    lemma_route_index(cs, right, k2);
}


/// A page that a pager caches, that is not `root`, and that reads as a leaf.
pub open spec fn leafy(p: Pager, root: PageId, c: u32) -> bool {
    &&& p.cached().contains_key(c)
    &&& c != root
    &&& spec_page_header(p.cached()[c].0) is Ok
    &&& header_of(p.cached()[c].0).page_type == PageType::Leaf
}

/// A search from an interior page that routes the key to a leaf ends there
/// and looks the key up in it.
pub proof fn lemma_two_level(rd: PageReader, root: PageId, d: Seq<u8>, k: Seq<u8>, c: PageId)
    requires
        rd(root) == Ok::<Seq<u8>, ErrorView>(d),
        spec_page_header(d) is Ok,
        header_of(d).page_type != PageType::Leaf,
        child_for(d, k) == Ok::<PageId, ErrorView>(c),
        rd(c) is Ok,
        spec_page_header(rd(c)->Ok_0) is Ok,
        header_of(rd(c)->Ok_0).page_type == PageType::Leaf,
    ensures
        descent_ends(rd, root, k),
        descend(rd, root, k, 2) == Some(Ok::<PageId, ErrorView>(c)),
        search_result(rd, root, k) == leaf_lookup(rd(c)->Ok_0, k),
{
    assert(descend(rd, c, k, 1) == Some(Ok::<PageId, ErrorView>(c)));
    assert(descend(rd, root, k, 2) == descend(rd, c, k, 1));
    let n = choose|n: nat| #[trigger] descend(rd, root, k, n) is Some;
    if n <= 2 {
        lemma_descend_fuel(rd, root, k, n, 2);
    } else {
        lemma_descend_fuel(rd, root, k, 2, n);
    }
}

/// What a search for one key gives after a leaf under the root split and
/// the root took the separator: for a key routed to the leaf, what the leaf
/// with the record gives; for any other key, what it gave before.
#[verifier::spinoff_prover]
#[verifier::rlimit(80)]
pub proof fn lemma_parent_split_key(p0: Pager, pf: Pager, root: PageId, rv: RecordView, sep: Seq<u8>, child: u32, n: u32, k: Seq<u8>)
    requires
        p0.cached().contains_key(root),
        spec_page_header(p0.cached()[root].0) is Ok,
        header_of(p0.cached()[root].0).page_type == PageType::Interior,
        forall|j: int| 0 <= j < header_of(p0.cached()[root].0).cell_count ==> #[trigger] interior_cell_at(p0.cached()[root].0, j) is Ok,
        child == scan(icells(p0.cached()[root].0), header_of(p0.cached()[root].0).right_child, rv.key),
        route_index(icells(p0.cached()[root].0), rv.key) < icells(p0.cached()[root].0).len() ==> key_lt(sep,
            icells(p0.cached()[root].0)[route_index(icells(p0.cached()[root].0), rv.key)].0),
        children_distinct(icells(p0.cached()[root].0), header_of(p0.cached()[root].0).right_child),
        forall|j: int| 0 <= j < icells(p0.cached()[root].0).len() ==> #[trigger] leafy(p0, root, icells(p0.cached()[root].0)[j].1)
            && icells(p0.cached()[root].0)[j].1 != n,
        leafy(p0, root, header_of(p0.cached()[root].0).right_child),
        header_of(p0.cached()[root].0).right_child != n,
        n != root,
        pf.cached().contains_key(root),
        interior_page_holds(pf.cached()[root].0,
            parent_cells(icells(p0.cached()[root].0), route_index(icells(p0.cached()[root].0), rv.key), sep, child, n),
            parent_right(icells(p0.cached()[root].0), header_of(p0.cached()[root].0).right_child,
                route_index(icells(p0.cached()[root].0), rv.key), n)),
        leafy(pf, root, child),
        leafy(pf, root, n),
        forall|k: Seq<u8>| key_lt(k, sep) ==> #[trigger] leaf_lookup(pf.cached()[child].0, k) == lookup_with(p0.cached()[child].0, rv, k),
        forall|k: Seq<u8>| !key_lt(k, sep) ==> #[trigger] leaf_lookup(pf.cached()[n].0, k) == lookup_with(p0.cached()[child].0, rv, k),
        forall|q: PageId| q != root && q != child && q != n && p0.cached().contains_key(q) ==> #[trigger] pf.cached().contains_key(q)
            && pf.cached()[q] == p0.cached()[q],
    ensures
        descent_ends(reader(pf), root, k),
        descend(reader(pf), root, k, 2) matches Some(Ok(_)),
        descend(reader(p0), root, k, 2) matches Some(Ok(_)),
        search_result(reader(pf), root, k) == if routed_at(icells(p0.cached()[root].0), route_index(icells(p0.cached()[root].0), rv.key), k) {
            lookup_with(p0.cached()[child].0, rv, k)
        } else {
            search_result(reader(p0), root, k)
        },
        routed_at(icells(p0.cached()[root].0), route_index(icells(p0.cached()[root].0), rv.key), k)
            ==> search_result(reader(p0), root, k) == leaf_lookup(p0.cached()[child].0, k),
{
    let dp = p0.cached()[root].0;
    let cs = icells(dp);
    let right = header_of(dp).right_child;
    let i = route_index(cs, rv.key);
    let e = pf.cached()[root].0;
    let cs2 = parent_cells(cs, i, sep, child, n);
    let r2 = parent_right(cs, right, i, n);
    lemma_route_index(cs, right, rv.key);
    assert(icells(e) =~= cs2);
    let rd0 = reader(p0);
    let rdf = reader(pf);
    lemma_child_for_scan(dp, k);
    lemma_child_for_scan(e, k);
    law_parent_route(cs, right, i, sep, child, n, k);
    let c = scan(cs, right, k);
    lemma_scan_child(cs, right, k);
    if c != right {
        let j = choose|j: int| 0 <= j < cs.len() && #[trigger] cs[j].1 == c;
        assert(leafy(p0, root, cs[j].1));
    }
    assert(rd0(root) == Ok::<Seq<u8>, ErrorView>(dp));
    assert(rd0(c) == Ok::<Seq<u8>, ErrorView>(p0.cached()[c].0));
    lemma_two_level(rd0, root, dp, k, c);
    assert(rdf(root) == Ok::<Seq<u8>, ErrorView>(e));
    let c2 = scan(cs2, r2, k);
    if routed_at(cs, i, k) {
        assert(rdf(c2) == Ok::<Seq<u8>, ErrorView>(pf.cached()[c2].0));
        lemma_two_level(rdf, root, e, k, c2);
    } else {
        if i < cs.len() && c == right {
        } else {
            let j = choose|j: int| 0 <= j < cs.len() && j != i && #[trigger] cs[j].1 == c;
            if i < cs.len() {
                assert(cs[i].1 == child);
            }
        }
        assert(c != child);
        assert(pf.cached()[c] == p0.cached()[c]);
        assert(rdf(c) == Ok::<Seq<u8>, ErrorView>(pf.cached()[c].0));
        lemma_two_level(rdf, root, e, k, c);
    }
}

/// After a leaf under the root split and the root took the separator: a
/// search for the record's key finds it, and one for any other key finds
/// what it found before.
#[verifier::spinoff_prover]
#[verifier::rlimit(40)]
pub proof fn law_parent_split_search(p0: Pager, pf: Pager, root: PageId, rv: RecordView, sep: Seq<u8>, child: u32, n: u32)
    requires
        p0.cached().contains_key(root),
        spec_page_header(p0.cached()[root].0) is Ok,
        header_of(p0.cached()[root].0).page_type == PageType::Interior,
        forall|j: int| 0 <= j < header_of(p0.cached()[root].0).cell_count ==> #[trigger] interior_cell_at(p0.cached()[root].0, j) is Ok,
        child == scan(icells(p0.cached()[root].0), header_of(p0.cached()[root].0).right_child, rv.key),
        route_index(icells(p0.cached()[root].0), rv.key) < icells(p0.cached()[root].0).len() ==> key_lt(sep,
            icells(p0.cached()[root].0)[route_index(icells(p0.cached()[root].0), rv.key)].0),
        children_distinct(icells(p0.cached()[root].0), header_of(p0.cached()[root].0).right_child),
        forall|j: int| 0 <= j < icells(p0.cached()[root].0).len() ==> #[trigger] leafy(p0, root, icells(p0.cached()[root].0)[j].1)
            && icells(p0.cached()[root].0)[j].1 != n,
        leafy(p0, root, header_of(p0.cached()[root].0).right_child),
        header_of(p0.cached()[root].0).right_child != n,
        n != root,
        pf.cached().contains_key(root),
        interior_page_holds(pf.cached()[root].0,
            parent_cells(icells(p0.cached()[root].0), route_index(icells(p0.cached()[root].0), rv.key), sep, child, n),
            parent_right(icells(p0.cached()[root].0), header_of(p0.cached()[root].0).right_child,
                route_index(icells(p0.cached()[root].0), rv.key), n)),
        leafy(pf, root, child),
        leafy(pf, root, n),
        forall|k: Seq<u8>| key_lt(k, sep) ==> #[trigger] leaf_lookup(pf.cached()[child].0, k) == lookup_with(p0.cached()[child].0, rv, k),
        forall|k: Seq<u8>| !key_lt(k, sep) ==> #[trigger] leaf_lookup(pf.cached()[n].0, k) == lookup_with(p0.cached()[child].0, rv, k),
        forall|q: PageId| q != root && q != child && q != n && p0.cached().contains_key(q) ==> #[trigger] pf.cached().contains_key(q)
            && pf.cached()[q] == p0.cached()[q],
    ensures
        descent_ends(reader(pf), root, rv.key),
        search_result(reader(pf), root, rv.key) == Ok::<RecordView, ErrorView>(rv),
        forall|k: Seq<u8>| k != rv.key ==> {
            &&& descent_ends(reader(pf), root, k)
            &&& #[trigger] search_result(reader(pf), root, k) == search_result(reader(p0), root, k)
        },
        forall|k: Seq<u8>| #[trigger] descend(reader(pf), root, k, 2) matches Some(Ok(_))
            && descend(reader(p0), root, k, 2) matches Some(Ok(_)),
{
    let cs = icells(p0.cached()[root].0);
    let i = route_index(cs, rv.key);
    lemma_route_index(cs, header_of(p0.cached()[root].0).right_child, rv.key);
    lemma_parent_split_key(p0, pf, root, rv, sep, child, n, rv.key);
    assert forall|k: Seq<u8>| k != rv.key implies {
        &&& descent_ends(reader(pf), root, k)
        &&& #[trigger] search_result(reader(pf), root, k) == search_result(reader(p0), root, k)
    } by {
        lemma_parent_split_key(p0, pf, root, rv, sep, child, n, k);
    }
    assert forall|k: Seq<u8>| #[trigger] descend(reader(pf), root, k, 2) matches Some(Ok(_))
        && descend(reader(p0), root, k, 2) matches Some(Ok(_)) by {
        lemma_parent_split_key(p0, pf, root, rv, sep, child, n, k);
    }
}

} // verus!
