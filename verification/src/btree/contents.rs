//! What a B-tree holds, and what an insert does to it.
//!
//! The value a tree gives for a key is found by following the separators
//! from the root down: at each interior page, the child after the last
//! separator at or below the key; at the leaf, the cell with the key.
//! A copy-on-write insert that does not split its leaf gives a tree that
//! maps the inserted key to the inserted value and every other key as the
//! old tree did, and keeps it in order, while the old tree stays as it was.
//! Inserts that split, in trees of any height, are in `bounded`, which
//! builds on the pieces here.

use vstd::prelude::*;
use crate::buffer_pool::{BufferPoolView, page_image};
use crate::keys::{key_le, key_lt};
use crate::page::PageId;
use crate::page::interior::{
    InteriorCellView, icells_view, interior_cell_size, interior_cells_encodable, interior_cells_size,
    interior_fits, interior_image, interior_sorted, parse_interior, route_pos,
};
use crate::page::leaf::{
    LeafCellView, LeafValueView, cells_view, leaf_cell_size, leaf_cells_encodable, leaf_cells_size, leaf_fits,
    leaf_image, leaf_sorted, parse_leaf,
};
use super::{promoted_node, replaced_node, sep_keys};
use super::cursor::{NodeRead, child_or_right, pool_pages, read_node, tree_finite};
use super::insert::{InsertPlan, leaf_upsert, planned, planned_cells, upsert_by};
use super::split::{PathNodeView, cow_up, lemma_cow_up_ids, new_views};
use super::tree::{interiors_written, key_route, leaves_written, route_links};

verus! {

/// `pos` splits the separator keys `keys` into those at or below `key`
/// and those above it.
pub open spec fn key_pos(keys: Seq<Seq<u8>>, key: Seq<u8>, pos: int) -> bool {
    &&& 0 <= pos <= keys.len()
    &&& forall|i: int| 0 <= i < pos ==> key_le(#[trigger] keys[i], key)
    &&& forall|i: int| pos <= i < keys.len() ==> !key_le(#[trigger] keys[i], key)
}

/// The child position that separator keys `keys` give for `key`.
pub open spec fn route_of(keys: Seq<Seq<u8>>, key: Seq<u8>) -> int {
    choose|pos: int| key_pos(keys, key, pos)
}

/// The value of the cell with key `key`, if a cell has it.
pub open spec fn leaf_get(cells: Seq<LeafCellView>, key: Seq<u8>) -> Option<LeafValueView> {
    if exists|i: int| 0 <= i < cells.len() && #[trigger] cells[i].key == key {
        Some(cells[choose|i: int| 0 <= i < cells.len() && #[trigger] cells[i].key == key].value)
    } else {
        None
    }
}

/// The value that the tree at page `p`, over the pages `pages` holds, gives
/// for `key`, looking at most `d` pages down (`None` for a null page).
pub open spec fn tree_get(
    pages: spec_fn(PageId) -> Option<Seq<u8>>,
    page_size: int,
    p: PageId,
    key: Seq<u8>,
    d: nat,
) -> Option<LeafValueView>
    decreases d,
{
    if d == 0 || p.0 == 0 || pages(p) is None {
        None
    } else {
        match read_node(pages(p).unwrap(), page_size) {
            NodeRead::Interior(iv) => {
                let pos = route_of(sep_keys(iv.cells), key);
                if 0 <= pos <= iv.cells.len() {
                    tree_get(pages, page_size, child_or_right(iv.cells, iv.right_child, pos), key, (d - 1) as nat)
                } else {
                    None
                }
            },
            NodeRead::Leaf(lv) => leaf_get(lv.cells, key),
            NodeRead::Fail => None,
        }
    }
}

/// Every page of the tree at `p` within `d` pages is in order: the
/// separators of each interior page strictly ascend, and so do the keys of
/// each leaf.
pub open spec fn tree_sorted(pages: spec_fn(PageId) -> Option<Seq<u8>>, page_size: int, p: PageId, d: nat) -> bool
    decreases d,
{
    if d == 0 || pages(p) is None {
        true
    } else {
        match read_node(pages(p).unwrap(), page_size) {
            NodeRead::Interior(iv) => interior_sorted(iv.cells) && forall|k: int|
                0 <= k <= iv.cells.len() ==> tree_sorted(
                    pages,
                    page_size,
                    #[trigger] child_or_right(iv.cells, iv.right_child, k),
                    (d - 1) as nat,
                ),
            NodeRead::Leaf(lv) => leaf_sorted(lv.cells),
            NodeRead::Fail => true,
        }
    }
}

/// A split position for `key` is the one the separators give.
pub proof fn lemma_route_of(cells: Seq<InteriorCellView>, key: Seq<u8>, pos: int)
    requires
        route_pos(cells, key, pos),
    ensures
        route_of(sep_keys(cells), key) == pos,
{
    let keys = sep_keys(cells);
    assert forall|i: int| 0 <= i < pos implies key_le(#[trigger] keys[i], key) by {
        assert(keys[i] == cells[i].key);
    }
    assert forall|i: int| pos <= i < keys.len() implies !key_le(#[trigger] keys[i], key) by {
        assert(keys[i] == cells[i].key);
    }
    assert(key_pos(keys, key, pos));
    let c = route_of(keys, key);
    assert(key_pos(keys, key, c));
    assert forall|i: int| 0 <= i < c implies key_le(#[trigger] cells[i].key, key) by {
        assert(keys[i] == cells[i].key);
    }
    assert forall|i: int| c <= i < cells.len() implies !key_le(#[trigger] cells[i].key, key) by {
        assert(keys[i] == cells[i].key);
    }
    assert(route_pos(cells, key, c));
    if c < pos {
        assert(key_le(cells[c].key, key));
    } else if pos < c {
        assert(key_le(cells[pos].key, key));
    }
}

/// In cells with strictly ascending keys, the cell with a key gives its
/// value.
pub(crate) proof fn lemma_leaf_get_at(cells: Seq<LeafCellView>, i: int, key: Seq<u8>)
    requires
        leaf_sorted(cells),
        0 <= i < cells.len(),
        cells[i].key == key,
    ensures
        leaf_get(cells, key) == Some(cells[i].value),
{
    let j = choose|j: int| 0 <= j < cells.len() && #[trigger] cells[j].key == key;
    if j < i {
        assert(key_lt(cells[j].key, cells[i].key));
        crate::keys::lemma_key_order_facts(cells[j].key, cells[i].key);
    } else if i < j {
        assert(key_lt(cells[i].key, cells[j].key));
        crate::keys::lemma_key_order_facts(cells[i].key, cells[j].key);
    }
}

/// A leaf that took the inserted cell gives its value for its key and the
/// old value for every other key.
pub(crate) proof fn lemma_leaf_upsert_get(
    old: Seq<LeafCellView>,
    c: LeafCellView,
    replaced: Option<LeafCellView>,
    new: Seq<LeafCellView>,
    k: Seq<u8>,
)
    requires
        leaf_upsert(old, c, replaced, new),
        leaf_sorted(old),
        leaf_sorted(new),
    ensures
        leaf_get(new, k) == if k == c.key {
            Some(c.value)
        } else {
            leaf_get(old, k)
        },
{
    let (base, pos) = choose|base: Seq<LeafCellView>, pos: int| #[trigger] upsert_by(old, c, replaced, new, base, pos);
    assert(new[pos] == c);
    if k == c.key {
        lemma_leaf_get_at(new, pos, k);
    } else {
        // Each cell of `base` is a cell of `old` with another key than `c`'s
        // or a cell of `old`; map indices between `old`, `base` and `new`.
        let ri: int = match replaced {
            Some(rc) => choose|i: int| 0 <= i < old.len() && old[i] == rc && base == old.remove(i),
            None => old.len() as int,
        };
        let to_old = |b: int| if b < ri { b } else { b + 1 };
        let to_new = |b: int| if b < pos { b } else { b + 1 };
        if exists|i: int| 0 <= i < old.len() && #[trigger] old[i].key == k {
            let i = choose|i: int| 0 <= i < old.len() && #[trigger] old[i].key == k;
            lemma_leaf_get_at(old, i, k);
            let b = if i < ri { i } else { i - 1 };
            if replaced is Some {
                assert(i != ri);
            }
            assert(base[b] == old[i]);
            let n = to_new(b);
            assert(new[n] == base[b]);
            lemma_leaf_get_at(new, n, k);
        } else {
            if exists|j: int| 0 <= j < new.len() && #[trigger] new[j].key == k {
                let j = choose|j: int| 0 <= j < new.len() && #[trigger] new[j].key == k;
                assert(j != pos);
                let b = if j < pos { j } else { j - 1 };
                assert(new[j] == base[b]);
                let o = to_old(b);
                assert(base[b] == old[o]);
                assert(old[o].key == k);
            }
        }
    }
}

/// A tree whose pages the pages `new` all hold as `old` does gives the same
/// value for every key over both.
pub proof fn lemma_get_same(
    old: spec_fn(PageId) -> Option<Seq<u8>>,
    new: spec_fn(PageId) -> Option<Seq<u8>>,
    pool_page_size: int,
    page_size: int,
    p: PageId,
    key: Seq<u8>,
    d: nat,
)
    requires
        tree_finite(old, pool_page_size, page_size, p, d),
        forall|q: PageId| q.0 != 0 && old(q) is Some ==> #[trigger] new(q) == old(q),
    ensures
        tree_get(new, page_size, p, key, d) == tree_get(old, page_size, p, key, d),
    decreases d,
{
    assert(new(p) == old(p));
    if let NodeRead::Interior(iv) = read_node(old(p).unwrap(), page_size) {
        assert(parse_interior(old(p).unwrap(), page_size) == Some(iv));
        let pos = route_of(sep_keys(iv.cells), key);
        if 0 <= pos <= iv.cells.len() {
            lemma_get_same(
                old,
                new,
                pool_page_size,
                page_size,
                child_or_right(iv.cells, iv.right_child, pos),
                key,
                (d - 1) as nat,
            );
        }
    }
}

/// The cells of a leaf that fits a page of at most 64 KiB have lengths that
/// its 16-bit fields can hold.
pub(crate) proof fn lemma_leaf_fits_encodable(cells: Seq<LeafCellView>, page_size: int)
    requires
        leaf_fits(cells, page_size),
        page_size <= 0x10000,
    ensures
        leaf_cells_encodable(cells),
{
    assert forall|i: int| 0 <= i < cells.len() implies {
        &&& (#[trigger] cells[i]).key.len() <= 0xFFFF
        &&& cells[i].value matches LeafValueView::Inline(v) ==> v.len() < 0xFFFF
    } by {
        crate::page::leaf::lemma_prefix_size_step(cells, i);
        crate::page::leaf::lemma_prefix_size_mono(cells, i + 1, cells.len() as int);
        crate::page::leaf::lemma_cells_size_nonneg(cells.take(i));
        crate::page::leaf::lemma_take_full(cells);
    }
}

/// The cells of an interior page that fits a page of at most 64 KiB have
/// key lengths that its 16-bit fields can hold.
pub(crate) proof fn lemma_interior_fits_encodable(cells: Seq<InteriorCellView>, page_size: int)
    requires
        interior_fits(cells, page_size),
        page_size <= 0x10000,
    ensures
        interior_cells_encodable(cells),
{
    assert forall|i: int| 0 <= i < cells.len() implies (#[trigger] cells[i]).key.len() <= 0xFFFF by {
        crate::page::interior::lemma_iprefix_size_step(cells, i);
        crate::page::interior::lemma_iprefix_size_mono(cells, i + 1, cells.len() as int);
        crate::page::interior::lemma_icells_size_nonneg(cells.take(i));
        crate::page::interior::lemma_itake_full(cells);
    }
}

/// An interior page image reads back as an interior node with its cells and
/// right child.
pub(crate) proof fn lemma_interior_image_reads(
    page: Seq<u8>,
    page_id: PageId,
    txn_id: u64,
    cells: Seq<InteriorCellView>,
    right_child: PageId,
    page_size: int,
)
    requires
        interior_image(page, page_id, txn_id, cells, right_child, page_size),
        page_size <= 0x10000,
    ensures
        read_node(page, page_size) matches NodeRead::Interior(iv) && iv.cells == cells && iv.right_child
            == right_child,
{
    crate::page::interior::lemma_icells_size_nonneg(cells);
    lemma_interior_fits_encodable(cells, page_size);
    crate::page::interior::lemma_interior_build_parse_round_trip(page, page_id, txn_id, cells, right_child, page_size);
}

/// A leaf page image reads back as a leaf with its cells.
pub(crate) proof fn lemma_leaf_image_reads(
    page: Seq<u8>,
    page_id: PageId,
    txn_id: u64,
    cells: Seq<LeafCellView>,
    next_leaf: PageId,
    prev_leaf: PageId,
    page_size: int,
)
    requires
        leaf_image(page, page_id, txn_id, cells, next_leaf, prev_leaf, page_size),
        page_size <= 0x10000,
    ensures
        read_node(page, page_size) matches NodeRead::Leaf(lv) && lv.cells == cells,
{
    lemma_leaf_fits_encodable(cells, page_size);
    crate::page::leaf::lemma_leaf_build_parse_round_trip(page, page_id, txn_id, cells, next_leaf, prev_leaf, page_size);
}

/// The `j`-th page that copying `i` nodes up writes: a copy of node
/// `i - 1 - j` with its child redirected to the page below.
pub(crate) proof fn lemma_cow_up_at(path: Seq<PathNodeView>, i: int, child: PageId, next: int, j: int)
    requires
        0 <= j < i,
    ensures
        ({
            let e = path[i - 1 - j];
            let below = if j == 0 {
                child
            } else {
                PageId((next + j - 1) as u64)
            };
            let (cells, rc) = replaced_node(e.cells, e.right_child, e.child_index, below);
            &&& cow_up(path, i, child, next).0[j].page_id == PageId((next + j) as u64)
            &&& cow_up(path, i, child, next).0[j].cells == cells
            &&& cow_up(path, i, child, next).0[j].right_child == rc
        }),
    decreases i,
{
    lemma_cow_up_ids(path, i - 1, PageId(next as u64), next + 1);
    if j > 0 {
        lemma_cow_up_at(path, i - 1, PageId(next as u64), next + 1, j - 1);
        let rest = cow_up(path, i - 1, PageId(next as u64), next + 1);
        assert(cow_up(path, i, child, next).0[j] == rest.0[j - 1]);
    }
}

/// The page at path level `k` of the new tree (the new leaf past the last
/// level), when nodes were copied up from page id `n0`.
pub open spec fn new_at(n0: int, len: int, k: int) -> PageId {
    if k == len {
        PageId(n0 as u64)
    } else {
        PageId((n0 + len - k) as u64)
    }
}

/// The page at path level `k` of the old tree (the leaf past the last level).
pub open spec fn old_at(path: Seq<PathNodeView>, leaf_id: PageId, k: int) -> PageId {
    if k == path.len() {
        leaf_id
    } else {
        path[k].page_id
    }
}

/// What a plan that keeps its leaf whole gives: the new leaf at `n0` with
/// the upserted cells, and the copies of the path above it.
pub(crate) proof fn lemma_planned_whole_leaf(
    path: Seq<PathNodeView>,
    leaf_id: PageId,
    leaf: crate::page::leaf::LeafPageView,
    cell: LeafCellView,
    n0: int,
    page_size: int,
    plan: InsertPlan,
    nx: int,
)
    requires
        planned(path, leaf_id, leaf, cell, n0, page_size, plan, nx),
        plan.leaves@.len() == 1,
    ensures
        plan.leaves@[0].page_id == PageId(n0 as u64),
        leaf_upsert(
            leaf.cells,
            cell,
            match plan.replaced {
                Some(c) => Some(c@),
                None => None,
            },
            cells_view(plan.leaves@[0].cells@),
        ),
        leaf_sorted(leaf.cells) ==> leaf_sorted(cells_view(plan.leaves@[0].cells@)),
        new_views(plan.interiors@) == cow_up(path, path.len() as int, PageId(n0 as u64), n0 + 1).0,
        plan.new_root == cow_up(path, path.len() as int, PageId(n0 as u64), n0 + 1).1,
        nx == cow_up(path, path.len() as int, PageId(n0 as u64), n0 + 1).2,
{
    assert(planned_cells(plan.leaves@) == cells_view(plan.leaves@[0].cells@));
}

/// At the new leaf: it gives the inserted value for the key and the old
/// leaf's value for every other key.
pub(crate) proof fn lemma_leaf_level(
    old: spec_fn(PageId) -> Option<Seq<u8>>,
    new: spec_fn(PageId) -> Option<Seq<u8>>,
    page_size: int,
    leaf_id: PageId,
    leaf: crate::page::leaf::LeafPageView,
    cell: LeafCellView,
    replaced: Option<LeafCellView>,
    np: PageId,
    ncells: Seq<LeafCellView>,
    dk: nat,
)
    requires
        dk >= 1,
        np.0 != 0,
        leaf_id.0 != 0,
        old(leaf_id) is Some,
        read_node(old(leaf_id).unwrap(), page_size) == NodeRead::Leaf(leaf),
        new(np) is Some,
        read_node(new(np).unwrap(), page_size) matches NodeRead::Leaf(lv) && lv.cells == ncells,
        leaf_upsert(leaf.cells, cell, replaced, ncells),
        leaf_sorted(leaf.cells),
        leaf_sorted(ncells),
    ensures
        forall|kk: Seq<u8>|
            #[trigger] tree_get(new, page_size, np, kk, dk) == if kk == cell.key {
                Some(cell.value)
            } else {
                tree_get(old, page_size, leaf_id, kk, dk)
            },
{
    assert forall|kk: Seq<u8>|
        #[trigger] tree_get(new, page_size, np, kk, dk) == if kk == cell.key {
            Some(cell.value)
        } else {
            tree_get(old, page_size, leaf_id, kk, dk)
        } by {
        lemma_leaf_upsert_get(leaf.cells, cell, replaced, ncells, kk);
    }
}

/// At a copied interior page: it routes every key as the page it copies,
/// to the copy below for the child on the path and to the old child for
/// every other.
pub(crate) proof fn lemma_interior_level(
    old: spec_fn(PageId) -> Option<Seq<u8>>,
    new: spec_fn(PageId) -> Option<Seq<u8>>,
    pool_page_size: int,
    page_size: int,
    key: Seq<u8>,
    value: LeafValueView,
    e: PathNodeView,
    op: PageId,
    next_old: PageId,
    np: PageId,
    below: PageId,
    dk: nat,
)
    requires
        dk >= 1,
        np.0 != 0,
        op == e.page_id,
        tree_finite(old, pool_page_size, page_size, op, dk),
        read_node(old(op).unwrap(), page_size) matches NodeRead::Interior(iv) && iv.cells == e.cells
            && iv.right_child == e.right_child,
        0 <= e.child_index <= e.cells.len(),
        route_pos(e.cells, key, e.child_index),
        child_or_right(e.cells, e.right_child, e.child_index) == next_old,
        new(np) is Some,
        ({
            let (ncells, nrc) = replaced_node(e.cells, e.right_child, e.child_index, below);
            read_node(new(np).unwrap(), page_size) matches NodeRead::Interior(jv) && jv.cells == ncells
                && jv.right_child == nrc
        }),
        forall|q: PageId| q.0 != 0 && old(q) is Some ==> #[trigger] new(q) == old(q),
        forall|kk: Seq<u8>|
            #[trigger] tree_get(new, page_size, below, kk, (dk - 1) as nat) == if kk == key {
                Some(value)
            } else {
                tree_get(old, page_size, next_old, kk, (dk - 1) as nat)
            },
    ensures
        forall|kk: Seq<u8>|
            #[trigger] tree_get(new, page_size, np, kk, dk) == if kk == key {
                Some(value)
            } else {
                tree_get(old, page_size, op, kk, dk)
            },
{
    let iv = match read_node(old(op).unwrap(), page_size) {
        NodeRead::Interior(iv) => iv,
        _ => arbitrary(),
    };
    assert(parse_interior(old(op).unwrap(), page_size) == Some(iv));
    let (ncells, nrc) = replaced_node(e.cells, e.right_child, e.child_index, below);
    assert(sep_keys(ncells) =~= sep_keys(e.cells));
    lemma_route_of(e.cells, key, e.child_index);
    assert forall|kk: Seq<u8>|
        #[trigger] tree_get(new, page_size, np, kk, dk) == if kk == key {
            Some(value)
        } else {
            tree_get(old, page_size, op, kk, dk)
        } by {
        let pos = route_of(sep_keys(e.cells), kk);
        if 0 <= pos <= e.cells.len() {
            if pos == e.child_index {
                assert(child_or_right(ncells, nrc, pos) == below);
                assert(tree_get(new, page_size, below, kk, (dk - 1) as nat) == if kk == key {
                    Some(value)
                } else {
                    tree_get(old, page_size, next_old, kk, (dk - 1) as nat)
                });
            } else {
                let ch = child_or_right(e.cells, e.right_child, pos);
                assert(child_or_right(ncells, nrc, pos) == ch);
                assert(tree_finite(old, pool_page_size, page_size, ch, (dk - 1) as nat));
                lemma_get_same(old, new, pool_page_size, page_size, ch, kk, (dk - 1) as nat);
            }
        }
    }
}

/// From level `k` of the path down, the new tree gives the inserted value
/// for the inserted key and the old tree's value for every other key.
#[verifier::spinoff_prover]
#[verifier::rlimit(100)]
pub(crate) proof fn lemma_level(
    old: spec_fn(PageId) -> Option<Seq<u8>>,
    v1: BufferPoolView,
    c1: Seq<u8>,
    pool_page_size: int,
    page_size: int,
    key: Seq<u8>,
    path: Seq<PathNodeView>,
    leaf_id: PageId,
    leaf: crate::page::leaf::LeafPageView,
    cell: LeafCellView,
    n0: int,
    plan: InsertPlan,
    txn_id: u64,
    d: nat,
    k: int,
)
    requires
        route_links(old, page_size, key, path, leaf_id),
        read_node(old(leaf_id).unwrap(), page_size) == NodeRead::Leaf(leaf),
        old(leaf_id) is Some,
        cell.key == key,
        plan.leaves@.len() == 1,
        plan.leaves@[0].page_id == PageId(n0 as u64),
        leaf_upsert(
            leaf.cells,
            cell,
            match plan.replaced {
                Some(c) => Some(c@),
                None => None,
            },
            cells_view(plan.leaves@[0].cells@),
        ),
        leaf_sorted(leaf.cells) ==> leaf_sorted(cells_view(plan.leaves@[0].cells@)),
        new_views(plan.interiors@) == cow_up(path, path.len() as int, PageId(n0 as u64), n0 + 1).0,
        leaves_written(v1, c1, plan.leaves@, txn_id, page_size),
        interiors_written(v1, c1, plan.interiors@, txn_id, page_size),
        forall|q: PageId| q.0 != 0 && old(q) is Some ==> #[trigger] pool_pages(v1, c1)(q) == old(q),
        1 <= n0,
        n0 + path.len() + 1 <= u64::MAX,
        page_size <= 0x10000,
        0 <= k <= path.len(),
        k <= d,
        tree_finite(old, pool_page_size, page_size, old_at(path, leaf_id, k), (d - k) as nat),
        tree_sorted(old, page_size, old_at(path, leaf_id, k), (d - k) as nat),
    ensures
        forall|kk: Seq<u8>|
            #[trigger] tree_get(pool_pages(v1, c1), page_size, new_at(n0, path.len() as int, k), kk, (d - k) as nat)
                == if kk == key {
                Some(cell.value)
            } else {
                tree_get(old, page_size, old_at(path, leaf_id, k), kk, (d - k) as nat)
            },
    decreases path.len() - k,
{
    let new = pool_pages(v1, c1);
    let len = path.len() as int;
    let dk = (d - k) as nat;
    let np = new_at(n0, len, k);
    let op = old_at(path, leaf_id, k);
    if k == len {
        let l = plan.leaves@[0];
        let cells = cells_view(l.cells@);
        assert(page_image(v1, c1, l.page_id) matches Some(img) && leaf_image(
            img,
            l.page_id,
            txn_id,
            cells,
            l.next_leaf,
            l.prev_leaf,
            page_size,
        ));
        let img = new(np).unwrap();
        lemma_leaf_image_reads(img, l.page_id, txn_id, cells, l.next_leaf, l.prev_leaf, page_size);
        assert(leaf_sorted(leaf.cells));
        lemma_leaf_level(
            old,
            new,
            page_size,
            leaf_id,
            leaf,
            cell,
            match plan.replaced {
                Some(c) => Some(c@),
                None => None,
            },
            np,
            cells,
            dk,
        );
    } else {
        let e = path[k];
        assert(old(e.page_id) is Some);
        let next_old = old_at(path, leaf_id, k + 1);
        let iv = match read_node(old(e.page_id).unwrap(), page_size) {
            NodeRead::Interior(iv) => iv,
            _ => arbitrary(),
        };
        assert(parse_interior(old(op).unwrap(), page_size) == Some(iv));
        assert(child_or_right(e.cells, e.right_child, e.child_index) == next_old);
        assert(tree_finite(old, pool_page_size, page_size, next_old, (dk - 1) as nat));
        assert(tree_sorted(old, page_size, next_old, (dk - 1) as nat));
        lemma_level(old, v1, c1, pool_page_size, page_size, key, path, leaf_id, leaf, cell, n0, plan, txn_id, d, k + 1);
        let j = len - 1 - k;
        lemma_cow_up_ids(path, len, PageId(n0 as u64), n0 + 1);
        lemma_cow_up_at(path, len, PageId(n0 as u64), n0 + 1, j);
        let below = new_at(n0, len, k + 1);
        let (ncells, nrc) = replaced_node(e.cells, e.right_child, e.child_index, below);
        let node = plan.interiors@[j];
        assert(new_views(plan.interiors@)[j] == node@);
        assert(page_image(v1, c1, node.page_id) matches Some(img) && interior_image(
            img,
            node.page_id,
            txn_id,
            icells_view(node.cells@),
            node.right_child,
            page_size,
        ));
        let img = new(np).unwrap();
        lemma_interior_image_reads(img, np, txn_id, ncells, nrc, page_size);
        lemma_interior_level(old, new, pool_page_size, page_size, key, cell.value, e, op, next_old, np, below, dk);
    }
}

/// A tree whose pages the pages `new` all hold as `old` does is in order
/// over both or over neither.
pub(crate) proof fn lemma_sorted_same(
    old: spec_fn(PageId) -> Option<Seq<u8>>,
    new: spec_fn(PageId) -> Option<Seq<u8>>,
    pool_page_size: int,
    page_size: int,
    p: PageId,
    d: nat,
)
    requires
        tree_finite(old, pool_page_size, page_size, p, d),
        forall|q: PageId| q.0 != 0 && old(q) is Some ==> #[trigger] new(q) == old(q),
    ensures
        tree_sorted(new, page_size, p, d) == tree_sorted(old, page_size, p, d),
    decreases d,
{
    assert(new(p) == old(p));
    if let NodeRead::Interior(iv) = read_node(old(p).unwrap(), page_size) {
        assert(parse_interior(old(p).unwrap(), page_size) == Some(iv));
        assert forall|k: int| 0 <= k <= iv.cells.len() implies tree_sorted(
            new,
            page_size,
            #[trigger] child_or_right(iv.cells, iv.right_child, k),
            (d - 1) as nat,
        ) == tree_sorted(old, page_size, child_or_right(iv.cells, iv.right_child, k), (d - 1) as nat) by {
            lemma_sorted_same(
                old,
                new,
                pool_page_size,
                page_size,
                child_or_right(iv.cells, iv.right_child, k),
                (d - 1) as nat,
            );
        }
    }
}

/// From level `k` of the path down, the new tree is in order where the old
/// one was.
#[verifier::spinoff_prover]
#[verifier::rlimit(100)]
pub(crate) proof fn lemma_sorted_level(
    old: spec_fn(PageId) -> Option<Seq<u8>>,
    v1: BufferPoolView,
    c1: Seq<u8>,
    pool_page_size: int,
    page_size: int,
    key: Seq<u8>,
    path: Seq<PathNodeView>,
    leaf_id: PageId,
    leaf: crate::page::leaf::LeafPageView,
    cell: LeafCellView,
    n0: int,
    plan: InsertPlan,
    txn_id: u64,
    d: nat,
    k: int,
)
    requires
        route_links(old, page_size, key, path, leaf_id),
        read_node(old(leaf_id).unwrap(), page_size) == NodeRead::Leaf(leaf),
        old(leaf_id) is Some,
        plan.leaves@.len() == 1,
        plan.leaves@[0].page_id == PageId(n0 as u64),
        leaf_sorted(leaf.cells) ==> leaf_sorted(cells_view(plan.leaves@[0].cells@)),
        new_views(plan.interiors@) == cow_up(path, path.len() as int, PageId(n0 as u64), n0 + 1).0,
        leaves_written(v1, c1, plan.leaves@, txn_id, page_size),
        interiors_written(v1, c1, plan.interiors@, txn_id, page_size),
        forall|q: PageId| q.0 != 0 && old(q) is Some ==> #[trigger] pool_pages(v1, c1)(q) == old(q),
        1 <= n0,
        n0 + path.len() + 1 <= u64::MAX,
        page_size <= 0x10000,
        0 <= k <= path.len(),
        k <= d,
        tree_finite(old, pool_page_size, page_size, old_at(path, leaf_id, k), (d - k) as nat),
        tree_sorted(old, page_size, old_at(path, leaf_id, k), (d - k) as nat),
    ensures
        tree_sorted(pool_pages(v1, c1), page_size, new_at(n0, path.len() as int, k), (d - k) as nat),
    decreases path.len() - k,
{
    let new = pool_pages(v1, c1);
    let len = path.len() as int;
    let dk = (d - k) as nat;
    let np = new_at(n0, len, k);
    let op = old_at(path, leaf_id, k);
    if k == len {
        let l = plan.leaves@[0];
        let cells = cells_view(l.cells@);
        assert(page_image(v1, c1, l.page_id) matches Some(img) && leaf_image(
            img,
            l.page_id,
            txn_id,
            cells,
            l.next_leaf,
            l.prev_leaf,
            page_size,
        ));
        let img = new(np).unwrap();
        lemma_leaf_image_reads(img, l.page_id, txn_id, cells, l.next_leaf, l.prev_leaf, page_size);
        assert(leaf_sorted(leaf.cells));
    } else {
        let e = path[k];
        assert(old(e.page_id) is Some);
        let next_old = old_at(path, leaf_id, k + 1);
        let iv = match read_node(old(e.page_id).unwrap(), page_size) {
            NodeRead::Interior(iv) => iv,
            _ => arbitrary(),
        };
        assert(parse_interior(old(op).unwrap(), page_size) == Some(iv));
        assert(child_or_right(e.cells, e.right_child, e.child_index) == next_old);
        assert(tree_finite(old, pool_page_size, page_size, next_old, (dk - 1) as nat));
        assert(tree_sorted(old, page_size, next_old, (dk - 1) as nat));
        lemma_sorted_level(old, v1, c1, pool_page_size, page_size, key, path, leaf_id, leaf, cell, n0, plan, txn_id, d, k + 1);
        let j = len - 1 - k;
        lemma_cow_up_ids(path, len, PageId(n0 as u64), n0 + 1);
        lemma_cow_up_at(path, len, PageId(n0 as u64), n0 + 1, j);
        let below = new_at(n0, len, k + 1);
        let (ncells, nrc) = replaced_node(e.cells, e.right_child, e.child_index, below);
        let node = plan.interiors@[j];
        assert(new_views(plan.interiors@)[j] == node@);
        assert(page_image(v1, c1, node.page_id) matches Some(img) && interior_image(
            img,
            node.page_id,
            txn_id,
            icells_view(node.cells@),
            node.right_child,
            page_size,
        ));
        let img = new(np).unwrap();
        lemma_interior_image_reads(img, np, txn_id, ncells, nrc, page_size);
        assert(interior_sorted(e.cells));
        assert(interior_sorted(ncells)) by {
            assert forall|a: int, b: int| 0 <= a < b < ncells.len() implies key_lt(
                #[trigger] ncells[a].key,
                #[trigger] ncells[b].key,
            ) by {
                assert(ncells[a].key == e.cells[a].key && ncells[b].key == e.cells[b].key);
            }
        }
        assert forall|m: int| 0 <= m <= ncells.len() implies tree_sorted(
            new,
            page_size,
            #[trigger] child_or_right(ncells, nrc, m),
            (dk - 1) as nat,
        ) by {
            if m != e.child_index {
                let ch = child_or_right(e.cells, e.right_child, m);
                assert(child_or_right(ncells, nrc, m) == ch);
                assert(tree_finite(old, pool_page_size, page_size, ch, (dk - 1) as nat));
                assert(tree_sorted(old, page_size, ch, (dk - 1) as nat));
                lemma_sorted_same(old, new, pool_page_size, page_size, ch, (dk - 1) as nat);
            } else {
                assert(child_or_right(ncells, nrc, m) == below);
            }
        }
    }
}

/// A fresh page id is at or above the first fresh id.
pub(crate) proof fn lemma_fresh_ids_above(n0: int, count: int, q: PageId)
    requires
        0 <= n0,
        0 <= count,
        n0 + count <= u64::MAX + 1,
        super::tree::fresh_ids(n0, count).contains(q),
    ensures
        q.0 >= n0,
{
    let k = choose|k: int| 0 <= k < count && super::tree::fresh_ids(n0, count)[k] == q;
    assert(q == PageId((n0 + k) as u64));
}

/// What a B-tree insert is for: when the insert did not split its leaf, the
/// tree at the new root gives the inserted value for the inserted key and,
/// for every other key, what the tree at the old root gave (nothing, for
/// an empty tree). The old tree must be in order and within `d` pages, and
/// its pages of at most 64 KiB.
///
/// The requirements on the pool are what `btree_insert` ensures on success
/// and requires of its pool: `old` and `(v1, c1)` are the pages before and
/// after it, `plan` and `[n0, nx)` its plan and fresh ids.
#[verifier::spinoff_prover]
pub proof fn lemma_insert_then_get(
    v0: BufferPoolView,
    c0: Seq<u8>,
    v1: BufferPoolView,
    c1: Seq<u8>,
    page_size: int,
    root: PageId,
    cell: LeafCellView,
    n0: int,
    plan: InsertPlan,
    nx: int,
    txn_id: u64,
    d: nat,
    kk: Seq<u8>,
)
    requires
        super::tree::insert_planned(pool_pages(v0, c0), page_size, root, cell, n0, plan, nx),
        leaves_written(v1, c1, plan.leaves@, txn_id, page_size),
        interiors_written(v1, c1, plan.interiors@, txn_id, page_size),
        forall|q: PageId|
            q.0 != 0 && !super::tree::fresh_ids(n0, nx - n0).contains(q) && page_image(v0, c0, q) is Some
                ==> #[trigger] page_image(v1, c1, q) == page_image(v0, c0, q),
        forall|q: PageId| q.0 != 0 && #[trigger] page_image(v0, c0, q) is Some ==> q.0 < n0,
        1 <= n0 <= nx <= u64::MAX,
        plan.leaves@.len() == 1,
        page_size <= 0x10000,
        1 <= d,
        root.0 != 0 ==> tree_finite(pool_pages(v0, c0), v0.page_size, page_size, root, d),
        tree_sorted(pool_pages(v0, c0), page_size, root, d),
    ensures
        tree_get(pool_pages(v1, c1), page_size, plan.new_root, kk, d) == if kk == cell.key {
            Some(cell.value)
        } else {
            tree_get(pool_pages(v0, c0), page_size, root, kk, d)
        },
{
    reveal(super::tree::insert_planned);
    let old = pool_pages(v0, c0);
    let new = pool_pages(v1, c1);
    assert forall|q: PageId| q.0 != 0 && old(q) is Some implies #[trigger] new(q) == old(q) by {
        if super::tree::fresh_ids(n0, nx - n0).contains(q) {
            lemma_fresh_ids_above(n0, nx - n0, q);
        }
    }
    if root.0 == 0 {
        let l = plan.leaves@[0];
        let cells = cells_view(l.cells@);
        assert(page_image(v1, c1, l.page_id) matches Some(img) && leaf_image(
            img,
            l.page_id,
            txn_id,
            cells,
            l.next_leaf,
            l.prev_leaf,
            page_size,
        ));
        let img = new(l.page_id).unwrap();
        lemma_leaf_image_reads(img, l.page_id, txn_id, cells, l.next_leaf, l.prev_leaf, page_size);
        assert(cells[0] == cell);
        assert(leaf_sorted(cells));
        lemma_leaf_get_at(cells, 0, cell.key);
        if kk != cell.key {
            assert(!(exists|i: int| 0 <= i < cells.len() && #[trigger] cells[i].key == kk));
        }
    } else {
        let (path, leaf_id, leaf) = choose|path: Seq<PathNodeView>, leaf_id: PageId, leaf: crate::page::leaf::LeafPageView|
            #[trigger] key_route(old, page_size, root, cell.key, path, leaf_id, leaf) && planned(
                path,
                leaf_id,
                leaf,
                cell,
                n0,
                page_size,
                plan,
                nx,
            );
        lemma_planned_whole_leaf(path, leaf_id, leaf, cell, n0, page_size, plan, nx);
        lemma_cow_up_ids(path, path.len() as int, PageId(n0 as u64), n0 + 1);
        assert(old_at(path, leaf_id, 0) == root);
        assert(new_at(n0, path.len() as int, 0) == plan.new_root);
        lemma_level(
            old,
            v1,
            c1,
            v0.page_size,
            page_size,
            cell.key,
            path,
            leaf_id,
            leaf,
            cell,
            n0,
            plan,
            txn_id,
            d,
            0,
        );
        assert(tree_get(new, page_size, new_at(n0, path.len() as int, 0), kk, d) == if kk == cell.key {
            Some(cell.value)
        } else {
            tree_get(old, page_size, old_at(path, leaf_id, 0), kk, d)
        });
    }
}

/// Cutting ascending cells at `mid` into a lower and an upper part: a key
/// below the first upper key is found in the lower part as in the whole,
/// any other key in the upper part.
pub(crate) proof fn lemma_leaf_get_halves(cells: Seq<LeafCellView>, mid: int, kk: Seq<u8>)
    requires
        leaf_sorted(cells),
        0 <= mid < cells.len(),
    ensures
        leaf_sorted(cells.subrange(0, mid)),
        leaf_sorted(cells.subrange(mid, cells.len() as int)),
        key_lt(kk, cells[mid].key) ==> leaf_get(cells.subrange(0, mid), kk) == leaf_get(cells, kk),
        !key_lt(kk, cells[mid].key) ==> leaf_get(cells.subrange(mid, cells.len() as int), kk) == leaf_get(cells, kk),
{
    let lo = cells.subrange(0, mid);
    let hi = cells.subrange(mid, cells.len() as int);
    assert(leaf_sorted(lo)) by {
        assert forall|i: int, j: int| 0 <= i < j < lo.len() implies key_lt(#[trigger] lo[i].key, #[trigger] lo[j].key) by {
            assert(lo[i] == cells[i] && lo[j] == cells[j]);
        }
    }
    assert(leaf_sorted(hi)) by {
        assert forall|i: int, j: int| 0 <= i < j < hi.len() implies key_lt(#[trigger] hi[i].key, #[trigger] hi[j].key) by {
            assert(hi[i] == cells[mid + i] && hi[j] == cells[mid + j]);
        }
    }
    if exists|i: int| 0 <= i < cells.len() && #[trigger] cells[i].key == kk {
        let i = choose|i: int| 0 <= i < cells.len() && #[trigger] cells[i].key == kk;
        lemma_leaf_get_at(cells, i, kk);
        if i < mid {
            assert(key_lt(cells[i].key, cells[mid].key));
            assert(lo[i] == cells[i]);
            lemma_leaf_get_at(lo, i, kk);
        } else {
            if i > mid {
                assert(key_lt(cells[mid].key, cells[i].key));
                crate::keys::lemma_key_order_facts(cells[mid].key, cells[i].key);
            }
            crate::keys::lemma_key_order_facts(kk, cells[mid].key);
            assert(hi[i - mid] == cells[i]);
            lemma_leaf_get_at(hi, i - mid, kk);
        }
    } else {
        assert(!exists|i: int| 0 <= i < lo.len() && #[trigger] lo[i].key == kk) by {
            if exists|i: int| 0 <= i < lo.len() && #[trigger] lo[i].key == kk {
                let i = choose|i: int| 0 <= i < lo.len() && #[trigger] lo[i].key == kk;
                assert(cells[i] == lo[i]);
            }
        }
        assert(!exists|i: int| 0 <= i < hi.len() && #[trigger] hi[i].key == kk) by {
            if exists|i: int| 0 <= i < hi.len() && #[trigger] hi[i].key == kk {
                let i = choose|i: int| 0 <= i < hi.len() && #[trigger] hi[i].key == kk;
                assert(cells[mid + i] == hi[i]);
            }
        }
    }
}




/// An insert that does not split its leaf keeps the tree in order: the
/// tree at the new root has ascending separators in each interior page and
/// ascending keys in each leaf, within the same number of levels, when the
/// old tree had.
///
/// The requirements are those of [`lemma_insert_then_get`].
#[verifier::spinoff_prover]
pub proof fn lemma_insert_keeps_order(
    v0: BufferPoolView,
    c0: Seq<u8>,
    v1: BufferPoolView,
    c1: Seq<u8>,
    page_size: int,
    root: PageId,
    cell: LeafCellView,
    n0: int,
    plan: InsertPlan,
    nx: int,
    txn_id: u64,
    d: nat,
)
    requires
        super::tree::insert_planned(pool_pages(v0, c0), page_size, root, cell, n0, plan, nx),
        leaves_written(v1, c1, plan.leaves@, txn_id, page_size),
        interiors_written(v1, c1, plan.interiors@, txn_id, page_size),
        forall|q: PageId|
            q.0 != 0 && !super::tree::fresh_ids(n0, nx - n0).contains(q) && page_image(v0, c0, q) is Some
                ==> #[trigger] page_image(v1, c1, q) == page_image(v0, c0, q),
        forall|q: PageId| q.0 != 0 && #[trigger] page_image(v0, c0, q) is Some ==> q.0 < n0,
        1 <= n0 <= nx <= u64::MAX,
        plan.leaves@.len() == 1,
        page_size <= 0x10000,
        1 <= d,
        root.0 != 0 ==> tree_finite(pool_pages(v0, c0), v0.page_size, page_size, root, d),
        tree_sorted(pool_pages(v0, c0), page_size, root, d),
    ensures
        tree_sorted(pool_pages(v1, c1), page_size, plan.new_root, d),
{
    reveal(super::tree::insert_planned);
    let old = pool_pages(v0, c0);
    let new = pool_pages(v1, c1);
    assert forall|q: PageId| q.0 != 0 && old(q) is Some implies #[trigger] new(q) == old(q) by {
        if super::tree::fresh_ids(n0, nx - n0).contains(q) {
            lemma_fresh_ids_above(n0, nx - n0, q);
        }
    }
    if root.0 == 0 {
        let l = plan.leaves@[0];
        let cells = cells_view(l.cells@);
        assert(page_image(v1, c1, l.page_id) matches Some(img) && leaf_image(
            img,
            l.page_id,
            txn_id,
            cells,
            l.next_leaf,
            l.prev_leaf,
            page_size,
        ));
        let img = new(l.page_id).unwrap();
        lemma_leaf_image_reads(img, l.page_id, txn_id, cells, l.next_leaf, l.prev_leaf, page_size);
        assert(leaf_sorted(cells));
    } else {
        let (path, leaf_id, leaf) = choose|path: Seq<PathNodeView>, leaf_id: PageId, leaf: crate::page::leaf::LeafPageView|
            #[trigger] key_route(old, page_size, root, cell.key, path, leaf_id, leaf) && planned(
                path,
                leaf_id,
                leaf,
                cell,
                n0,
                page_size,
                plan,
                nx,
            );
        lemma_planned_whole_leaf(path, leaf_id, leaf, cell, n0, page_size, plan, nx);
        lemma_cow_up_ids(path, path.len() as int, PageId(n0 as u64), n0 + 1);
        assert(old_at(path, leaf_id, 0) == root);
        assert(new_at(n0, path.len() as int, 0) == plan.new_root);
        lemma_sorted_level(
            old,
            v1,
            c1,
            v0.page_size,
            page_size,
            cell.key,
            path,
            leaf_id,
            leaf,
            cell,
            n0,
            plan,
            txn_id,
            d,
            0,
        );
    }
}

/// The leaves an insert that splits its leaf writes: the lower and the
/// upper half of the upserted cells, at the first two fresh ids.
pub(crate) proof fn lemma_split_leaf_pages(
    v1: BufferPoolView,
    c1: Seq<u8>,
    page_size: int,
    path: Seq<PathNodeView>,
    leaf_id: PageId,
    leaf: crate::page::leaf::LeafPageView,
    cell: LeafCellView,
    n0: int,
    plan: InsertPlan,
    nx: int,
    txn_id: u64,
)
    requires
        planned(path, leaf_id, leaf, cell, n0, page_size, plan, nx),
        leaves_written(v1, c1, plan.leaves@, txn_id, page_size),
        1 <= n0,
        n0 + 3 <= u64::MAX,
        plan.leaves@.len() == 2,
        page_size <= 0x10000,
    ensures
        ({
            let cells = planned_cells(plan.leaves@);
            let mid = cells.len() / 2;
            let new = pool_pages(v1, c1);
            &&& 0 <= mid < cells.len()
            &&& new(PageId(n0 as u64)) matches Some(img) && read_node(img, page_size) matches NodeRead::Leaf(lv)
                && lv.cells == cells.subrange(0, mid as int)
            &&& new(PageId((n0 + 1) as u64)) matches Some(img) && read_node(img, page_size) matches NodeRead::Leaf(
                lv,
            ) && lv.cells == cells.subrange(mid as int, cells.len() as int)
        }),
{
    let new = pool_pages(v1, c1);
    let cells = planned_cells(plan.leaves@);
    let mid = cells.len() / 2;
    let replaced = match plan.replaced {
        Some(c) => Some(c@),
        None => None,
    };
    let (base, pos) = choose|base: Seq<LeafCellView>, pos: int| #[trigger] upsert_by(leaf.cells, cell, replaced, cells, base, pos);
    assert(cells.len() >= 1);
    let l0 = plan.leaves@[0];
    let l1 = plan.leaves@[1];
    assert(cells_view(l1.cells@) =~= cells.subrange(mid as int, cells.len() as int));
    assert(page_image(v1, c1, l0.page_id) matches Some(img) && leaf_image(
        img,
        l0.page_id,
        txn_id,
        cells_view(l0.cells@),
        l0.next_leaf,
        l0.prev_leaf,
        page_size,
    ));
    lemma_leaf_image_reads(
        new(l0.page_id).unwrap(),
        l0.page_id,
        txn_id,
        cells_view(l0.cells@),
        l0.next_leaf,
        l0.prev_leaf,
        page_size,
    );
    assert(page_image(v1, c1, l1.page_id) matches Some(img) && leaf_image(
        img,
        l1.page_id,
        txn_id,
        cells_view(l1.cells@),
        l1.next_leaf,
        l1.prev_leaf,
        page_size,
    ));
    lemma_leaf_image_reads(
        new(l1.page_id).unwrap(),
        l1.page_id,
        txn_id,
        cells_view(l1.cells@),
        l1.next_leaf,
        l1.prev_leaf,
        page_size,
    );
}

/// Ascending separators split every key somewhere.
pub(crate) proof fn lemma_route_pos_exists(cells: Seq<InteriorCellView>, key: Seq<u8>)
    requires
        interior_sorted(cells),
    ensures
        exists|pos: int| route_pos(cells, key, pos),
    decreases cells.len(),
{
    if cells.len() == 0 {
        assert(route_pos(cells, key, 0));
    } else {
        let init = cells.drop_last();
        assert(interior_sorted(init)) by {
            assert forall|a: int, b: int| 0 <= a < b < init.len() implies key_lt(
                #[trigger] init[a].key,
                #[trigger] init[b].key,
            ) by {
                assert(init[a] == cells[a] && init[b] == cells[b]);
            }
        }
        lemma_route_pos_exists(init, key);
        let p = choose|pos: int| route_pos(init, key, pos);
        let last = cells.len() - 1;
        if key_le(cells[last].key, key) {
            assert forall|i: int| 0 <= i < cells.len() implies key_le(#[trigger] cells[i].key, key) by {
                if i < last {
                    assert(key_lt(cells[i].key, cells[last].key));
                    crate::keys::lemma_key_lt_le_transitive(cells[i].key, cells[last].key, key);
                    crate::keys::lemma_key_order_facts(cells[i].key, key);
                }
            }
            assert(route_pos(cells, key, cells.len() as int));
        } else {
            assert forall|i: int| 0 <= i < p implies key_le(#[trigger] cells[i].key, key) by {
                assert(cells[i] == init[i]);
            }
            assert forall|i: int| p <= i < cells.len() implies !key_le(#[trigger] cells[i].key, key) by {
                if i < last {
                    assert(cells[i] == init[i]);
                }
            }
            assert(route_pos(cells, key, p));
        }
    }
}



/// Putting a separator `pk` that the node sends to child `ci` in at `ci`,
/// between the halves `lp` and `rp` of that child: every key goes where it
/// went before, and a key that went to child `ci` goes to `lp` below `pk`
/// and to `rp` from `pk` on.
pub(crate) proof fn lemma_promoted_route(
    cells: Seq<InteriorCellView>,
    rc: PageId,
    ci: int,
    pk: Seq<u8>,
    lp: PageId,
    rp: PageId,
    kk: Seq<u8>,
    pos: int,
)
    requires
        interior_sorted(cells),
        route_pos(cells, pk, ci),
        route_pos(cells, kk, pos),
    ensures
        ({
            let (nc, nrc) = promoted_node(cells, rc, ci, pk, lp, rp);
            let npos = if pos < ci {
                pos
            } else if pos > ci {
                pos + 1
            } else if key_lt(kk, pk) {
                ci
            } else {
                ci + 1
            };
            &&& route_of(sep_keys(nc), kk) == npos
            &&& route_pos(nc, kk, npos)
            &&& 0 <= npos <= nc.len()
            &&& child_or_right(nc, nrc, npos) == if pos != ci {
                child_or_right(cells, rc, pos)
            } else if key_lt(kk, pk) {
                lp
            } else {
                rp
            }
        }),
{
    let (nc, nrc) = promoted_node(cells, rc, ci, pk, lp, rp);
    let npos = if pos < ci {
        pos
    } else if pos > ci {
        pos + 1
    } else if key_lt(kk, pk) {
        ci
    } else {
        ci + 1
    };
    crate::keys::lemma_key_order_facts(kk, pk);
    assert(nc.len() == cells.len() + 1);
    assert(nc[ci].key == pk && nc[ci].left_child == lp);
    assert forall|i: int| 0 <= i < nc.len() && i != ci implies (#[trigger] nc[i]).key == if i < ci {
        cells[i].key
    } else {
        cells[i - 1].key
    } by {}
    assert forall|i: int| 0 <= i < npos implies key_le(#[trigger] nc[i].key, kk) by {
        if i < ci {
            assert(nc[i].key == cells[i].key);
        } else if i == ci {
            if pos > ci {
                assert(key_le(cells[ci].key, kk));
                assert(!key_le(cells[ci].key, pk));
                crate::keys::lemma_key_order_facts(cells[ci].key, pk);
                crate::keys::lemma_key_lt_le_transitive(pk, cells[ci].key, kk);
            }
        } else {
            assert(nc[i].key == cells[i - 1].key);
        }
    }
    assert forall|i: int| npos <= i < nc.len() implies !key_le(#[trigger] nc[i].key, kk) by {
        if i < ci {
            assert(nc[i].key == cells[i].key);
        } else if i == ci {
            if pos < ci {
                assert(!key_le(cells[pos].key, kk));
                assert(key_le(cells[ci - 1].key, pk));
                if pos < ci - 1 {
                    assert(key_lt(cells[pos].key, cells[ci - 1].key));
                }
                crate::keys::lemma_key_order_facts(cells[pos].key, kk);
                crate::keys::lemma_key_order_facts(cells[ci - 1].key, kk);
                crate::keys::lemma_key_order_facts(cells[pos].key, cells[ci - 1].key);
                crate::keys::lemma_key_order_facts(pk, kk);
                if key_le(pk, kk) {
                    crate::keys::lemma_key_le_transitive(cells[ci - 1].key, pk, kk);
                    if pos < ci - 1 {
                        crate::keys::lemma_key_lt_le_transitive(cells[pos].key, cells[ci - 1].key, kk);
                    }
                }
            }
        } else {
            assert(nc[i].key == cells[i - 1].key);
        }
    }
    assert(route_pos(nc, kk, npos));
    lemma_route_of(nc, kk, npos);
    if ci < cells.len() {
        assert forall|i: int| 0 <= i < nc.len() && i != ci implies (#[trigger] nc[i]).left_child == if i < ci {
            cells[i].left_child
        } else if i == ci + 1 {
            rp
        } else {
            cells[i - 1].left_child
        } by {}
    }
}





/// A written interior page reads back as written.
pub(crate) proof fn lemma_written_interior_reads(
    v1: BufferPoolView,
    c1: Seq<u8>,
    nodes: Seq<super::split::NewInterior>,
    k: int,
    txn_id: u64,
    page_size: int,
)
    requires
        interiors_written(v1, c1, nodes, txn_id, page_size),
        0 <= k < nodes.len(),
        page_size <= 0x10000,
    ensures
        pool_pages(v1, c1)(nodes[k].page_id) matches Some(img) && read_node(img, page_size) matches NodeRead::Interior(
            jv,
        ) && jv.cells == icells_view(nodes[k].cells@) && jv.right_child == nodes[k].right_child,
{
    let node = nodes[k];
    assert(page_image(v1, c1, node.page_id) matches Some(img) && interior_image(
        img,
        node.page_id,
        txn_id,
        icells_view(node.cells@),
        node.right_child,
        page_size,
    ));
    lemma_interior_image_reads(
        pool_pages(v1, c1)(node.page_id).unwrap(),
        node.page_id,
        txn_id,
        icells_view(node.cells@),
        node.right_child,
        page_size,
    );
}



/// The children of a node that took a separator at `ci`: those before
/// `ci` and after `ci + 1` are the old children, `ci` and `ci + 1` the
/// two halves.
pub(crate) proof fn lemma_promoted_children(
    cells: Seq<InteriorCellView>,
    rc: PageId,
    ci: int,
    pk: Seq<u8>,
    lp: PageId,
    rp: PageId,
    k: int,
)
    requires
        0 <= ci <= cells.len(),
        0 <= k <= cells.len() + 1,
    ensures
        ({
            let (nc, nrc) = promoted_node(cells, rc, ci, pk, lp, rp);
            &&& nc.len() == cells.len() + 1
            &&& child_or_right(nc, nrc, k) == if k < ci {
                child_or_right(cells, rc, k)
            } else if k == ci {
                lp
            } else if k == ci + 1 {
                rp
            } else {
                child_or_right(cells, rc, k - 1)
            }
        }),
{
}

/// A node that took, at `ci`, a separator strictly between its neighbours
/// keeps strictly ascending separators.
pub(crate) proof fn lemma_promoted_sorted(cells: Seq<InteriorCellView>, rc: PageId, ci: int, pk: Seq<u8>, lp: PageId, rp: PageId)
    requires
        interior_sorted(cells),
        route_pos(cells, pk, ci),
        ci > 0 ==> key_lt(cells[ci - 1].key, pk),
    ensures
        interior_sorted(promoted_node(cells, rc, ci, pk, lp, rp).0),
{
    let nc = promoted_node(cells, rc, ci, pk, lp, rp).0;
    assert(nc.len() == cells.len() + 1);
    assert forall|i: int| 0 <= i < nc.len() implies (#[trigger] nc[i]).key == if i < ci {
        cells[i].key
    } else if i == ci {
        pk
    } else {
        cells[i - 1].key
    } by {}
    assert forall|a: int, b: int| 0 <= a < b < nc.len() implies key_lt(#[trigger] nc[a].key, #[trigger] nc[b].key) by {
        if a < ci && b < ci {
        } else if a < ci && b == ci {
            if a < ci - 1 {
                crate::keys::lemma_key_lt_transitive(cells[a].key, cells[ci - 1].key, pk);
            }
        } else if a < ci {
            assert(nc[b].key == cells[b - 1].key);
            if a < b - 1 {
            } else {
                assert(a == b - 1);
                assert(false);
            }
        } else if a == ci {
            assert(nc[b].key == cells[b - 1].key);
            assert(!key_le(cells[ci].key, pk));
            crate::keys::lemma_key_order_facts(cells[ci].key, pk);
            if b - 1 > ci {
                crate::keys::lemma_key_lt_transitive(pk, cells[ci].key, cells[b - 1].key);
            }
        } else {
            assert(nc[a].key == cells[a - 1].key && nc[b].key == cells[b - 1].key);
        }
    }
}




/// Copy on write: after an insert the tree at the old root gives, for
/// every key, what it gave before.
#[verifier::spinoff_prover]
pub proof fn lemma_insert_keeps_old_tree(
    v0: BufferPoolView,
    c0: Seq<u8>,
    v1: BufferPoolView,
    c1: Seq<u8>,
    page_size: int,
    root: PageId,
    n0: int,
    nx: int,
    d: nat,
    kk: Seq<u8>,
)
    requires
        forall|q: PageId|
            q.0 != 0 && !super::tree::fresh_ids(n0, nx - n0).contains(q) && page_image(v0, c0, q) is Some
                ==> #[trigger] page_image(v1, c1, q) == page_image(v0, c0, q),
        forall|q: PageId| q.0 != 0 && #[trigger] page_image(v0, c0, q) is Some ==> q.0 < n0,
        1 <= n0 <= nx <= u64::MAX,
        root.0 != 0 ==> tree_finite(pool_pages(v0, c0), v0.page_size, page_size, root, d),
    ensures
        tree_get(pool_pages(v1, c1), page_size, root, kk, d) == tree_get(pool_pages(v0, c0), page_size, root, kk, d),
{
    let old = pool_pages(v0, c0);
    let new = pool_pages(v1, c1);
    assert forall|q: PageId| q.0 != 0 && old(q) is Some implies #[trigger] new(q) == old(q) by {
        if super::tree::fresh_ids(n0, nx - n0).contains(q) {
            lemma_fresh_ids_above(n0, nx - n0, q);
        }
    }
    if root.0 != 0 {
        lemma_get_same(old, new, v0.page_size, page_size, root, kk, d);
    }
}

} // verus!
