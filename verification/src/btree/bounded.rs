//! What an insert does to a B-tree of any height.
//!
//! A tree is bounded when each page's keys lie within the range its
//! parent's separators give it: the keys under the child left of a
//! separator below it, those under the child right of it at or above it.
//! An insert into a bounded tree, whether its leaf splits or not, and
//! however far up the split is carried, gives a tree whose root (at most
//! one level higher) maps the inserted key to the inserted value and every
//! other key to what the old tree gave it, and which is in order when every
//! page written fits its page. The new root is a fresh page, and the pages
//! freed are those on the inserted key's route through the old tree.

use vstd::prelude::*;
use crate::buffer_pool::{BufferPoolView, page_image};
use crate::keys::{key_le, key_lt};
use crate::page::PageId;
use crate::page::interior::{InteriorCellView, interior_fits, interior_sorted, parse_interior, route_pos};
use crate::page::leaf::{LeafCellView, LeafValueView, cells_view, leaf_sorted};
use super::{promoted_node, replaced_node, sep_keys};
use super::contents::{
    leaf_get, lemma_fresh_ids_above, lemma_get_same, lemma_insert_then_get, lemma_interior_level,
    lemma_leaf_get_halves, lemma_leaf_upsert_get, lemma_promoted_route, lemma_route_of, lemma_route_pos_exists,
    lemma_sorted_same, lemma_split_leaf_pages, lemma_written_interior_reads, old_at, route_of, tree_get, tree_sorted,
};
use super::cursor::{NodeRead, child_or_right, pool_pages, read_node, tree_finite};
use super::insert::{InsertPlan, planned, planned_cells, upsert_by};
use super::split::{NewInteriorView, PathNodeView, cow_up, new_views, split_up};
use super::tree::{insert_planned, interiors_written, key_route, leaves_written, route_links};

verus! {

/// `k` lies within the range from `lo` (inclusive) to `hi` (exclusive),
/// a missing end leaving that side open.
pub open spec fn in_bounds(k: Seq<u8>, lo: Option<Seq<u8>>, hi: Option<Seq<u8>>) -> bool {
    &&& lo matches Some(l) ==> key_le(l, k)
    &&& hi matches Some(h) ==> key_lt(k, h)
}

/// The lower end of the range of child `k` of a page with separators
/// `cells` and range starting at `lo`.
pub open spec fn child_lo(cells: Seq<InteriorCellView>, lo: Option<Seq<u8>>, k: int) -> Option<Seq<u8>> {
    if k == 0 {
        lo
    } else {
        Some(cells[k - 1].key)
    }
}

/// The upper end of the range of child `k` of a page with separators
/// `cells` and range ending at `hi`.
pub open spec fn child_hi(cells: Seq<InteriorCellView>, hi: Option<Seq<u8>>, k: int) -> Option<Seq<u8>> {
    if k == cells.len() {
        hi
    } else {
        Some(cells[k].key)
    }
}

/// The tree at `p`, within `d` pages, is in order and within the range
/// from `lo` to `hi`: each interior page has ascending separators within
/// its range, each child within the range its separators give it, and each
/// leaf ascending keys within its range.
pub open spec fn tree_bounded(
    pages: spec_fn(PageId) -> Option<Seq<u8>>,
    page_size: int,
    p: PageId,
    lo: Option<Seq<u8>>,
    hi: Option<Seq<u8>>,
    d: nat,
) -> bool
    decreases d,
{
    if d == 0 || pages(p) is None {
        true
    } else {
        match read_node(pages(p).unwrap(), page_size) {
            NodeRead::Interior(iv) => {
                &&& interior_sorted(iv.cells)
                &&& forall|i: int| 0 <= i < iv.cells.len() ==> in_bounds(#[trigger] iv.cells[i].key, lo, hi)
                &&& forall|k: int|
                    0 <= k <= iv.cells.len() ==> tree_bounded(
                        pages,
                        page_size,
                        #[trigger] child_or_right(iv.cells, iv.right_child, k),
                        child_lo(iv.cells, lo, k),
                        child_hi(iv.cells, hi, k),
                        (d - 1) as nat,
                    )
            },
            NodeRead::Leaf(lv) => {
                &&& leaf_sorted(lv.cells)
                &&& forall|i: int| 0 <= i < lv.cells.len() ==> in_bounds(#[trigger] lv.cells[i].key, lo, hi)
            },
            NodeRead::Fail => true,
        }
    }
}

/// The ranges of the pages of a path, from the root (open on both sides)
/// down: the range of level `k` is the one the page at level `k - 1` gives
/// the child taken.
pub open spec fn path_bounds(path: Seq<PathNodeView>, k: int) -> (Option<Seq<u8>>, Option<Seq<u8>>)
    decreases k,
{
    if k <= 0 {
        (None, None)
    } else {
        let (lo, hi) = path_bounds(path, k - 1);
        let e = path[k - 1];
        (child_lo(e.cells, lo, e.child_index), child_hi(e.cells, hi, e.child_index))
    }
}

/// A bounded tree is in order.
#[verifier::spinoff_prover]
pub proof fn lemma_bounded_sorted(
    pages: spec_fn(PageId) -> Option<Seq<u8>>,
    page_size: int,
    p: PageId,
    lo: Option<Seq<u8>>,
    hi: Option<Seq<u8>>,
    d: nat,
)
    requires
        tree_bounded(pages, page_size, p, lo, hi, d),
    ensures
        tree_sorted(pages, page_size, p, d),
    decreases d,
{
    if d > 0 && pages(p) is Some {
        if let NodeRead::Interior(iv) = read_node(pages(p).unwrap(), page_size) {
            assert forall|k: int| 0 <= k <= iv.cells.len() implies tree_sorted(
                pages,
                page_size,
                #[trigger] child_or_right(iv.cells, iv.right_child, k),
                (d - 1) as nat,
            ) by {
                lemma_bounded_sorted(
                    pages,
                    page_size,
                    child_or_right(iv.cells, iv.right_child, k),
                    child_lo(iv.cells, lo, k),
                    child_hi(iv.cells, hi, k),
                    (d - 1) as nat,
                );
            }
        }
    }
}

/// Sorted separators send a key within the range of child `ci` to `ci`.
#[verifier::spinoff_prover]
pub proof fn lemma_bounds_route(
    cells: Seq<InteriorCellView>,
    lo: Option<Seq<u8>>,
    hi: Option<Seq<u8>>,
    ci: int,
    x: Seq<u8>,
)
    requires
        interior_sorted(cells),
        0 <= ci <= cells.len(),
        in_bounds(x, child_lo(cells, lo, ci), child_hi(cells, hi, ci)),
    ensures
        route_pos(cells, x, ci),
{
    assert forall|i: int| 0 <= i < ci implies key_le(#[trigger] cells[i].key, x) by {
        if i < ci - 1 {
            assert(key_lt(cells[i].key, cells[ci - 1].key));
            crate::keys::lemma_key_lt_le_transitive(cells[i].key, cells[ci - 1].key, x);
            crate::keys::lemma_key_order_facts(cells[i].key, x);
        }
    }
    assert forall|i: int| ci <= i < cells.len() implies !key_le(#[trigger] cells[i].key, x) by {
        crate::keys::lemma_key_order_facts(x, cells[i].key);
        if i > ci {
            assert(key_lt(cells[ci].key, cells[i].key));
            crate::keys::lemma_key_lt_transitive(x, cells[ci].key, cells[i].key);
        }
    }
}

/// A key within the range of a child is within the range of its parent,
/// when the parent's separators are.
#[verifier::spinoff_prover]
pub proof fn lemma_child_bounds_within(
    cells: Seq<InteriorCellView>,
    lo: Option<Seq<u8>>,
    hi: Option<Seq<u8>>,
    ci: int,
    x: Seq<u8>,
)
    requires
        0 <= ci <= cells.len(),
        forall|i: int| 0 <= i < cells.len() ==> in_bounds(#[trigger] cells[i].key, lo, hi),
        in_bounds(x, child_lo(cells, lo, ci), child_hi(cells, hi, ci)),
    ensures
        in_bounds(x, lo, hi),
{
    if ci > 0 {
        if let Some(l) = lo {
            assert(in_bounds(cells[ci - 1].key, lo, hi));
            crate::keys::lemma_key_le_transitive(l, cells[ci - 1].key, x);
        }
    }
    if ci < cells.len() {
        if let Some(h) = hi {
            assert(in_bounds(cells[ci].key, lo, hi));
            crate::keys::lemma_key_lt_transitive(x, cells[ci].key, h);
        }
    }
}

/// Down the route of a key through a bounded tree, each level's page is
/// bounded by the range of the path there, within the levels left, and
/// the key lies within that range.
#[verifier::spinoff_prover]
pub proof fn lemma_route_bounded(
    old: spec_fn(PageId) -> Option<Seq<u8>>,
    pool_page_size: int,
    page_size: int,
    root: PageId,
    key: Seq<u8>,
    path: Seq<PathNodeView>,
    leaf_id: PageId,
    leaf: crate::page::leaf::LeafPageView,
    d: nat,
    k: int,
)
    requires
        key_route(old, page_size, root, key, path, leaf_id, leaf),
        tree_bounded(old, page_size, root, None, None, d),
        tree_finite(old, pool_page_size, page_size, root, d),
        0 <= k <= path.len(),
    ensures
        k < d,
        tree_bounded(old, page_size, old_at(path, leaf_id, k), path_bounds(path, k).0, path_bounds(path, k).1, (d - k) as nat),
        tree_finite(old, pool_page_size, page_size, old_at(path, leaf_id, k), (d - k) as nat),
        in_bounds(key, path_bounds(path, k).0, path_bounds(path, k).1),
        k < path.len() ==> interior_sorted(path[k].cells),
    decreases k,
{
    if k == 0 {
        if path.len() > 0 {
            assert(route_links(old, page_size, key, path, leaf_id));
            assert(old(path[0].page_id) is Some);
        }
    } else {
        lemma_route_bounded(old, pool_page_size, page_size, root, key, path, leaf_id, leaf, d, k - 1);
        let e = path[k - 1];
        let (lo, hi) = path_bounds(path, k - 1);
        assert(route_links(old, page_size, key, path, leaf_id));
        assert(old(e.page_id) is Some);
        let iv = match read_node(old(e.page_id).unwrap(), page_size) {
            NodeRead::Interior(x) => x,
            _ => arbitrary(),
        };
        assert(parse_interior(old(e.page_id).unwrap(), page_size) == Some(iv));
        let ci = e.child_index;
        assert(child_or_right(e.cells, e.right_child, ci) == old_at(path, leaf_id, k));
        assert(tree_bounded(
            old,
            page_size,
            child_or_right(iv.cells, iv.right_child, ci),
            child_lo(iv.cells, lo, ci),
            child_hi(iv.cells, hi, ci),
            (d - k) as nat,
        ));
        assert(tree_finite(old, pool_page_size, page_size, child_or_right(iv.cells, iv.right_child, ci), (d - k) as nat));
        assert(route_pos(e.cells, key, ci));
        if ci > 0 {
            assert(key_le(e.cells[ci - 1].key, key));
        }
        if ci < e.cells.len() {
            assert(!key_le(e.cells[ci].key, key));
            crate::keys::lemma_key_order_facts(e.cells[ci].key, key);
        }
        if k < path.len() {
            assert(old(path[k].page_id) is Some);
            let jv = match read_node(old(path[k].page_id).unwrap(), page_size) {
                NodeRead::Interior(x) => x,
                _ => arbitrary(),
            };
            assert(jv.cells == path[k].cells);
        }
    }
    if k == path.len() {
        assert(old(leaf_id) is Some);
    }
}

/// What the new tree should give for `kk` where the old tree at `o` gave
/// its value within `f` levels: the inserted value for the inserted key.
pub open spec fn expect(
    old: spec_fn(PageId) -> Option<Seq<u8>>,
    page_size: int,
    o: PageId,
    ckey: Seq<u8>,
    cval: LeafValueView,
    kk: Seq<u8>,
    f: nat,
) -> Option<LeafValueView> {
    if kk == ckey {
        Some(cval)
    } else {
        tree_get(old, page_size, o, kk, f)
    }
}

/// The new page `p` gives, within `f` levels, what the new tree should
/// give in place of the old page `o`.
pub open spec fn single_gets(
    new: spec_fn(PageId) -> Option<Seq<u8>>,
    old: spec_fn(PageId) -> Option<Seq<u8>>,
    page_size: int,
    p: PageId,
    o: PageId,
    ckey: Seq<u8>,
    cval: LeafValueView,
    f: nat,
) -> bool {
    forall|kk: Seq<u8>| #[trigger] expect(old, page_size, o, ckey, cval, kk, f) == tree_get(new, page_size, p, kk, f)
}

/// The new page `p` gives, within `f + 1` levels, what the new tree should
/// give in place of the old page `o` within `f` levels: the new tree is one
/// level higher.
pub open spec fn grown_gets(
    new: spec_fn(PageId) -> Option<Seq<u8>>,
    old: spec_fn(PageId) -> Option<Seq<u8>>,
    page_size: int,
    p: PageId,
    o: PageId,
    ckey: Seq<u8>,
    cval: LeafValueView,
    f: nat,
) -> bool {
    forall|kk: Seq<u8>| #[trigger] expect(old, page_size, o, ckey, cval, kk, f) == tree_get(new, page_size, p, kk, f + 1)
}

/// The new pages `left` (keys below `key`) and `right` (the others) give,
/// within `f` levels, what the new tree should give in place of the old
/// page `o`.
pub open spec fn pair_gets(
    new: spec_fn(PageId) -> Option<Seq<u8>>,
    old: spec_fn(PageId) -> Option<Seq<u8>>,
    page_size: int,
    left: PageId,
    right: PageId,
    key: Seq<u8>,
    o: PageId,
    ckey: Seq<u8>,
    cval: LeafValueView,
    f: nat,
) -> bool {
    forall|kk: Seq<u8>|
        #[trigger] expect(old, page_size, o, ckey, cval, kk, f) == tree_get(
            new,
            page_size,
            if key_lt(kk, key) {
                left
            } else {
                right
            },
            kk,
            f,
        )
}

/// Each of `nodes` reads back, through `new`, as the interior page it is.
pub open spec fn nodes_read(
    new: spec_fn(PageId) -> Option<Seq<u8>>,
    page_size: int,
    nodes: Seq<NewInteriorView>,
) -> bool {
    forall|j: int|
        0 <= j < nodes.len() ==> (new((#[trigger] nodes[j]).page_id) matches Some(img) && read_node(img, page_size) matches NodeRead::Interior(
            jv,
        ) && jv.cells == nodes[j].cells && jv.right_child == nodes[j].right_child)
}

/// The facts of the path of the inserted key that the levels above the
/// leaf rest on: each page is an interior page of the old tree with sorted
/// separators, within the levels left, sending the key to the child taken.
pub open spec fn path_facts(
    old: spec_fn(PageId) -> Option<Seq<u8>>,
    pool_page_size: int,
    page_size: int,
    ckey: Seq<u8>,
    path: Seq<PathNodeView>,
    leaf_id: PageId,
    d: nat,
) -> bool {
    &&& route_links(old, page_size, ckey, path, leaf_id)
    &&& path.len() < d
    &&& forall|k: int|
        0 <= k <= path.len() ==> {
            &&& tree_finite(old, pool_page_size, page_size, #[trigger] old_at(path, leaf_id, k), (d - k) as nat)
            &&& tree_bounded(
                old,
                page_size,
                old_at(path, leaf_id, k),
                path_bounds(path, k).0,
                path_bounds(path, k).1,
                (d - k) as nat,
            )
        }
    &&& forall|k: int| 0 <= k < path.len() ==> interior_sorted(#[trigger] path[k].cells)
}

/// Copying the path up from level `j`, over a new page `child` that gives
/// what the new tree should give in place of level `j`: the root of the
/// copies gives it in place of the old root.
#[verifier::spinoff_prover]
pub proof fn lemma_cow_chain(
    old: spec_fn(PageId) -> Option<Seq<u8>>,
    new: spec_fn(PageId) -> Option<Seq<u8>>,
    pool_page_size: int,
    page_size: int,
    ckey: Seq<u8>,
    cval: LeafValueView,
    path: Seq<PathNodeView>,
    leaf_id: PageId,
    d: nat,
    j: int,
    child: PageId,
    next: int,
)
    requires
        path_facts(old, pool_page_size, page_size, ckey, path, leaf_id, d),
        forall|q: PageId| q.0 != 0 && old(q) is Some ==> #[trigger] new(q) == old(q),
        0 <= j <= path.len(),
        1 <= next,
        next + j <= u64::MAX,
        nodes_read(new, page_size, cow_up(path, j, child, next).0),
        single_gets(new, old, page_size, child, old_at(path, leaf_id, j), ckey, cval, (d - j) as nat),
    ensures
        single_gets(new, old, page_size, cow_up(path, j, child, next).1, old_at(path, leaf_id, 0), ckey, cval, d),
    decreases j,
{
    if j > 0 {
        let e = path[j - 1];
        let np = PageId(next as u64);
        let (cells, rc) = replaced_node(e.cells, e.right_child, e.child_index, child);
        let rest = cow_up(path, j - 1, np, next + 1);
        let nodes = cow_up(path, j, child, next).0;
        assert(nodes == seq![NewInteriorView { page_id: np, cells, right_child: rc }] + rest.0);
        assert(nodes[0].page_id == np);
        assert(nodes_read(new, page_size, rest.0)) by {
            assert forall|t: int| 0 <= t < rest.0.len() implies (new((#[trigger] rest.0[t]).page_id) matches Some(img)
                && read_node(img, page_size) matches NodeRead::Interior(jv) && jv.cells == rest.0[t].cells
                && jv.right_child == rest.0[t].right_child) by {
                assert(nodes[t + 1] == rest.0[t]);
            }
        }
        assert(route_links(old, page_size, ckey, path, leaf_id));
        assert(old(e.page_id) is Some);
        assert(old_at(path, leaf_id, j - 1) == e.page_id);
        assert(tree_finite(old, pool_page_size, page_size, old_at(path, leaf_id, j - 1), (d - (j - 1)) as nat));
        assert(interior_sorted(path[j - 1].cells));
        assert(child_or_right(e.cells, e.right_child, e.child_index) == old_at(path, leaf_id, j));
        assert forall|kk: Seq<u8>|
            #[trigger] tree_get(new, page_size, child, kk, ((d - j + 1) - 1) as nat) == if kk == ckey {
                Some(cval)
            } else {
                tree_get(old, page_size, old_at(path, leaf_id, j), kk, ((d - j + 1) - 1) as nat)
            } by {
            assert(expect(old, page_size, old_at(path, leaf_id, j), ckey, cval, kk, (d - j) as nat) == tree_get(
                new,
                page_size,
                child,
                kk,
                (d - j) as nat,
            ));
        }
        lemma_interior_level(
            old,
            new,
            pool_page_size,
            page_size,
            ckey,
            cval,
            e,
            e.page_id,
            old_at(path, leaf_id, j),
            np,
            child,
            (d - j + 1) as nat,
        );
        assert(single_gets(new, old, page_size, np, old_at(path, leaf_id, j - 1), ckey, cval, (d - (j - 1)) as nat)) by {
            assert forall|kk: Seq<u8>| #[trigger] expect(old, page_size, old_at(path, leaf_id, j - 1), ckey, cval, kk, (d - (j - 1)) as nat)
                == tree_get(new, page_size, np, kk, (d - (j - 1)) as nat) by {
                assert(tree_get(new, page_size, np, kk, (d - j + 1) as nat) == if kk == ckey {
                    Some(cval)
                } else {
                    tree_get(old, page_size, e.page_id, kk, (d - j + 1) as nat)
                });
            }
        }
        lemma_cow_chain(old, new, pool_page_size, page_size, ckey, cval, path, leaf_id, d, j - 1, np, next + 1);
    }
}

/// A page that took separator `key` at `ci`, between the new pages `left`
/// and `right` standing for child `ci`: the child its separators send a key
/// to gives what the new tree should give in place of the old page.
#[verifier::spinoff_prover]
pub proof fn lemma_promote_child(
    old: spec_fn(PageId) -> Option<Seq<u8>>,
    new: spec_fn(PageId) -> Option<Seq<u8>>,
    pool_page_size: int,
    page_size: int,
    ckey: Seq<u8>,
    cval: LeafValueView,
    e: PathNodeView,
    o_child: PageId,
    key: Seq<u8>,
    left: PageId,
    right: PageId,
    f: nat,
)
    requires
        old(e.page_id) matches Some(img) && read_node(img, page_size) matches NodeRead::Interior(iv) && iv.cells
            == e.cells && iv.right_child == e.right_child,
        interior_sorted(e.cells),
        tree_finite(old, pool_page_size, page_size, e.page_id, f + 1),
        0 <= e.child_index <= e.cells.len(),
        route_pos(e.cells, key, e.child_index),
        route_pos(e.cells, ckey, e.child_index),
        child_or_right(e.cells, e.right_child, e.child_index) == o_child,
        pair_gets(new, old, page_size, left, right, key, o_child, ckey, cval, f),
        forall|q: PageId| q.0 != 0 && old(q) is Some ==> #[trigger] new(q) == old(q),
    ensures
        forall|kk: Seq<u8>|
            {
                let (nc, nrc) = promoted_node(e.cells, e.right_child, e.child_index, key, left, right);
                let npos = route_of(sep_keys(nc), kk);
                &&& route_pos(nc, kk, npos)
                &&& 0 <= npos <= nc.len()
                &&& tree_get(new, page_size, child_or_right(nc, nrc, npos), kk, f) == #[trigger] expect(
                    old,
                    page_size,
                    e.page_id,
                    ckey,
                    cval,
                    kk,
                    f + 1,
                )
            },
{
    let ci = e.child_index;
    let (nc, nrc) = promoted_node(e.cells, e.right_child, ci, key, left, right);
    let iv = match read_node(old(e.page_id).unwrap(), page_size) {
        NodeRead::Interior(x) => x,
        _ => arbitrary(),
    };
    assert(parse_interior(old(e.page_id).unwrap(), page_size) == Some(iv));
    assert forall|kk: Seq<u8>|
        {
            let npos = route_of(sep_keys(nc), kk);
            &&& route_pos(nc, kk, npos)
            &&& 0 <= npos <= nc.len()
            &&& tree_get(new, page_size, child_or_right(nc, nrc, npos), kk, f) == #[trigger] expect(
                old,
                page_size,
                e.page_id,
                ckey,
                cval,
                kk,
                f + 1,
            )
        } by {
        lemma_route_pos_exists(e.cells, kk);
        let kpos = choose|p: int| route_pos(e.cells, kk, p);
        lemma_route_of(e.cells, kk, kpos);
        lemma_promoted_route(e.cells, e.right_child, ci, key, left, right, kk, kpos);
        let och = child_or_right(e.cells, e.right_child, kpos);
        assert(tree_get(old, page_size, e.page_id, kk, f + 1) == tree_get(old, page_size, och, kk, f));
        if kpos != ci {
            assert(tree_finite(old, pool_page_size, page_size, och, f));
            lemma_get_same(old, new, pool_page_size, page_size, och, kk, f);
            if kk == ckey {
                lemma_route_of(e.cells, kk, ci);
            }
        } else {
            assert(expect(old, page_size, o_child, ckey, cval, kk, f) == tree_get(
                new,
                page_size,
                if key_lt(kk, key) {
                    left
                } else {
                    right
                },
                kk,
                f,
            ));
        }
    }
}

/// Half of the separators `nc` on a page of its own, from position `off`,
/// with right child the child after them: a key the whole sends to a child
/// of that half goes there from the page, one level up.
#[verifier::spinoff_prover]
pub proof fn lemma_half_get(
    new: spec_fn(PageId) -> Option<Seq<u8>>,
    page_size: int,
    nc: Seq<InteriorCellView>,
    nrc: PageId,
    off: int,
    hcells: Seq<InteriorCellView>,
    hrc: PageId,
    p: PageId,
    kk: Seq<u8>,
    npos: int,
    f: nat,
)
    requires
        0 <= off,
        off + hcells.len() <= nc.len(),
        hcells == nc.subrange(off, off + hcells.len()),
        hrc == child_or_right(nc, nrc, off + hcells.len()),
        route_pos(nc, kk, npos),
        off <= npos <= off + hcells.len(),
        p.0 != 0,
        new(p) matches Some(img) && read_node(img, page_size) matches NodeRead::Interior(jv) && jv.cells == hcells
            && jv.right_child == hrc,
    ensures
        tree_get(new, page_size, p, kk, f + 1) == tree_get(new, page_size, child_or_right(nc, nrc, npos), kk, f),
{
    let local = npos - off;
    assert(route_pos(hcells, kk, local)) by {
        assert forall|i: int| 0 <= i < local implies key_le(#[trigger] hcells[i].key, kk) by {
            assert(hcells[i] == nc[off + i]);
        }
        assert forall|i: int| local <= i < hcells.len() implies !key_le(#[trigger] hcells[i].key, kk) by {
            assert(hcells[i] == nc[off + i]);
        }
    }
    lemma_route_of(hcells, kk, local);
    if local < hcells.len() {
        assert(hcells[local] == nc[npos]);
    }
    assert(child_or_right(hcells, hrc, local) == child_or_right(nc, nrc, npos));
}

/// The separators of a page that took `key` at `ci`: the old ones, with
/// `key` in at `ci`.
pub proof fn lemma_promoted_keys(
    cells: Seq<InteriorCellView>,
    rc: PageId,
    ci: int,
    key: Seq<u8>,
    lp: PageId,
    rp: PageId,
    t: int,
)
    requires
        0 <= ci <= cells.len(),
        0 <= t <= cells.len(),
    ensures
        promoted_node(cells, rc, ci, key, lp, rp).0.len() == cells.len() + 1,
        promoted_node(cells, rc, ci, key, lp, rp).0[t].key == if t < ci {
            cells[t].key
        } else if t == ci {
            key
        } else {
            cells[t - 1].key
        },
{
}

/// What the new separators at level `i - 1` of the path give, once the
/// page there takes separator `key` between the new pages `left` and
/// `right` standing for level `i`.
pub open spec fn promoted_gets(
    old: spec_fn(PageId) -> Option<Seq<u8>>,
    new: spec_fn(PageId) -> Option<Seq<u8>>,
    page_size: int,
    ckey: Seq<u8>,
    cval: LeafValueView,
    o: PageId,
    nc: Seq<InteriorCellView>,
    nrc: PageId,
    f: nat,
) -> bool {
    forall|kk: Seq<u8>|
        {
            let npos = route_of(sep_keys(nc), kk);
            &&& route_pos(nc, kk, npos)
            &&& 0 <= npos <= nc.len()
            &&& tree_get(new, page_size, child_or_right(nc, nrc, npos), kk, f) == #[trigger] expect(
                old,
                page_size,
                o,
                ckey,
                cval,
                kk,
                f + 1,
            )
        }
}

/// The step at level `i - 1` of the path: its separators are within its
/// range, `key` goes to the child taken, and the page with `key` put in
/// routes every key to a child that gives what the new tree should give.
#[verifier::spinoff_prover]
pub proof fn lemma_level_setup(
    old: spec_fn(PageId) -> Option<Seq<u8>>,
    new: spec_fn(PageId) -> Option<Seq<u8>>,
    pool_page_size: int,
    page_size: int,
    ckey: Seq<u8>,
    cval: LeafValueView,
    path: Seq<PathNodeView>,
    leaf_id: PageId,
    d: nat,
    i: int,
    key: Seq<u8>,
    left: PageId,
    right: PageId,
)
    requires
        path_facts(old, pool_page_size, page_size, ckey, path, leaf_id, d),
        forall|q: PageId| q.0 != 0 && old(q) is Some ==> #[trigger] new(q) == old(q),
        1 <= i <= path.len(),
        pair_gets(new, old, page_size, left, right, key, old_at(path, leaf_id, i), ckey, cval, (d - i) as nat),
        in_bounds(key, path_bounds(path, i).0, path_bounds(path, i).1),
    ensures
        ({
            let e = path[i - 1];
            let (lo, hi) = path_bounds(path, i - 1);
            let (nc, nrc) = promoted_node(e.cells, e.right_child, e.child_index, key, left, right);
            &&& forall|t: int| 0 <= t < e.cells.len() ==> in_bounds(#[trigger] e.cells[t].key, lo, hi)
            &&& 0 <= e.child_index <= e.cells.len()
            &&& in_bounds(key, child_lo(e.cells, lo, e.child_index), child_hi(e.cells, hi, e.child_index))
            &&& old_at(path, leaf_id, i - 1) == e.page_id
            &&& (d - (i - 1)) as nat == (d - i) as nat + 1
            &&& promoted_gets(old, new, page_size, ckey, cval, e.page_id, nc, nrc, (d - i) as nat)
        }),
{
    let e = path[i - 1];
    let ci = e.child_index;
    let (lo, hi) = path_bounds(path, i - 1);
    assert(route_links(old, page_size, ckey, path, leaf_id));
    assert(old(e.page_id) is Some);
    assert(old_at(path, leaf_id, i - 1) == e.page_id);
    let f = (d - i) as nat;
    assert(tree_finite(old, pool_page_size, page_size, old_at(path, leaf_id, i - 1), (d - (i - 1)) as nat));
    assert(tree_bounded(old, page_size, old_at(path, leaf_id, i - 1), lo, hi, (d - (i - 1)) as nat));
    assert(interior_sorted(path[i - 1].cells));
    let iv = match read_node(old(e.page_id).unwrap(), page_size) {
        NodeRead::Interior(x) => x,
        _ => arbitrary(),
    };
    assert(iv.cells == e.cells);
    assert(forall|t: int| 0 <= t < e.cells.len() ==> in_bounds(#[trigger] e.cells[t].key, lo, hi));
    assert(path_bounds(path, i) == (child_lo(e.cells, lo, ci), child_hi(e.cells, hi, ci)));
    lemma_bounds_route(e.cells, lo, hi, ci, key);
    assert(child_or_right(e.cells, e.right_child, ci) == old_at(path, leaf_id, i));
    lemma_promote_child(old, new, pool_page_size, page_size, ckey, cval, e, old_at(path, leaf_id, i), key, left, right, f);
}

/// Past the root: a new root over `left` and `right`, one level higher,
/// gives what the new tree should give in place of the old root.
#[verifier::spinoff_prover]
pub proof fn lemma_split_top(
    old: spec_fn(PageId) -> Option<Seq<u8>>,
    new: spec_fn(PageId) -> Option<Seq<u8>>,
    page_size: int,
    ckey: Seq<u8>,
    cval: LeafValueView,
    o: PageId,
    d: nat,
    key: Seq<u8>,
    left: PageId,
    right: PageId,
    top: PageId,
)
    requires
        top.0 != 0,
        pair_gets(new, old, page_size, left, right, key, o, ckey, cval, d),
        new(top) matches Some(img) && read_node(img, page_size) matches NodeRead::Interior(jv) && jv.cells
            == seq![InteriorCellView { left_child: left, key }] && jv.right_child == right,
    ensures
        grown_gets(new, old, page_size, top, o, ckey, cval, d),
{
    let tcells = seq![InteriorCellView { left_child: left, key }];
    assert forall|kk: Seq<u8>| #[trigger] expect(old, page_size, o, ckey, cval, kk, d) == tree_get(
        new,
        page_size,
        top,
        kk,
        d + 1,
    ) by {
        let at = if key_le(key, kk) {
            1int
        } else {
            0int
        };
        assert(route_pos(tcells, kk, at));
        lemma_route_of(tcells, kk, at);
        crate::keys::lemma_key_order_facts(kk, key);
        assert(expect(old, page_size, o, ckey, cval, kk, d) == tree_get(
            new,
            page_size,
            if key_lt(kk, key) {
                left
            } else {
                right
            },
            kk,
            d,
        ));
        assert(tree_get(new, page_size, top, kk, d + 1) == tree_get(new, page_size, child_or_right(tcells, right, at), kk, d));
    }
}

/// A page that took the separator and overflows: its two halves, with the
/// middle separator between them, give what the new tree should give in
/// place of the old page.
#[verifier::spinoff_prover]
pub proof fn lemma_split_halves(
    old: spec_fn(PageId) -> Option<Seq<u8>>,
    new: spec_fn(PageId) -> Option<Seq<u8>>,
    page_size: int,
    ckey: Seq<u8>,
    cval: LeafValueView,
    o: PageId,
    nc: Seq<InteriorCellView>,
    nrc: PageId,
    f: nat,
    l: PageId,
    r: PageId,
)
    requires
        promoted_gets(old, new, page_size, ckey, cval, o, nc, nrc, f),
        0 <= nc.len() / 2 < nc.len(),
        l.0 != 0,
        r.0 != 0,
        new(l) matches Some(img) && read_node(img, page_size) matches NodeRead::Interior(jv) && jv.cells
            == nc.subrange(0, (nc.len() / 2) as int) && jv.right_child == nc[(nc.len() / 2) as int].left_child,
        new(r) matches Some(img) && read_node(img, page_size) matches NodeRead::Interior(jv) && jv.cells
            == nc.subrange((nc.len() / 2) as int + 1, nc.len() as int) && jv.right_child == nrc,
    ensures
        pair_gets(new, old, page_size, l, r, nc[(nc.len() / 2) as int].key, o, ckey, cval, f + 1),
{
    let m = (nc.len() / 2) as int;
    let sep = nc[m].key;
    let lcells = nc.subrange(0, m);
    let rcells = nc.subrange(m + 1, nc.len() as int);
    assert forall|kk: Seq<u8>| #[trigger] expect(old, page_size, o, ckey, cval, kk, f + 1) == tree_get(
        new,
        page_size,
        if key_lt(kk, sep) {
            l
        } else {
            r
        },
        kk,
        f + 1,
    ) by {
        let npos = route_of(sep_keys(nc), kk);
        assert(expect(old, page_size, o, ckey, cval, kk, f + 1) == tree_get(new, page_size, child_or_right(nc, nrc, npos), kk, f));
        crate::keys::lemma_key_order_facts(kk, sep);
        if key_lt(kk, sep) {
            assert(!key_le(nc[m].key, kk));
            lemma_half_get(new, page_size, nc, nrc, 0, lcells, nc[m].left_child, l, kk, npos, f);
        } else {
            assert(key_le(nc[m].key, kk));
            lemma_half_get(new, page_size, nc, nrc, m + 1, rcells, nrc, r, kk, npos, f);
        }
    }
}

/// A suffix of pages that read back reads back.
proof fn lemma_nodes_read_skip(
    new: spec_fn(PageId) -> Option<Seq<u8>>,
    page_size: int,
    nodes: Seq<NewInteriorView>,
    rest: Seq<NewInteriorView>,
    k: int,
)
    requires
        nodes_read(new, page_size, nodes),
        0 <= k <= nodes.len(),
        rest == nodes.subrange(k, nodes.len() as int),
    ensures
        nodes_read(new, page_size, rest),
{
    assert forall|t: int| 0 <= t < rest.len() implies (new((#[trigger] rest[t]).page_id) matches Some(img)
        && read_node(img, page_size) matches NodeRead::Interior(jv) && jv.cells == rest[t].cells
        && jv.right_child == rest[t].right_child) by {
        assert(rest[t] == nodes[k + t]);
    }
}

/// The page at level `i - 1` takes the separator and fits: it and the
/// copies of the path above it give a root that gives what the new tree
/// should give in place of the old root.
#[verifier::spinoff_prover]
pub proof fn lemma_split_fit(
    old: spec_fn(PageId) -> Option<Seq<u8>>,
    new: spec_fn(PageId) -> Option<Seq<u8>>,
    pool_page_size: int,
    page_size: int,
    ckey: Seq<u8>,
    cval: LeafValueView,
    path: Seq<PathNodeView>,
    leaf_id: PageId,
    d: nat,
    i: int,
    key: Seq<u8>,
    left: PageId,
    right: PageId,
    next: int,
)
    requires
        path_facts(old, pool_page_size, page_size, ckey, path, leaf_id, d),
        forall|q: PageId| q.0 != 0 && old(q) is Some ==> #[trigger] new(q) == old(q),
        1 <= i <= path.len(),
        1 <= next,
        next + 2 * i + 1 <= u64::MAX,
        ({
            let e = path[i - 1];
            let (nc, nrc) = promoted_node(e.cells, e.right_child, e.child_index, key, left, right);
            &&& interior_fits(nc, page_size)
            &&& old_at(path, leaf_id, i - 1) == e.page_id
            &&& promoted_gets(old, new, page_size, ckey, cval, e.page_id, nc, nrc, (d - i) as nat)
        }),
        nodes_read(new, page_size, split_up(path, i, key, left, right, next, page_size).0),
    ensures
        single_gets(
            new,
            old,
            page_size,
            split_up(path, i, key, left, right, next, page_size).1,
            old_at(path, leaf_id, 0),
            ckey,
            cval,
            d,
        ),
{
    let sp = split_up(path, i, key, left, right, next, page_size);
    let e = path[i - 1];
    let f = (d - i) as nat;
    let (nc, nrc) = promoted_node(e.cells, e.right_child, e.child_index, key, left, right);
    let np = PageId(next as u64);
    let cow = cow_up(path, i - 1, np, next + 1);
    assert(sp.0 == seq![NewInteriorView { page_id: np, cells: nc, right_child: nrc }] + cow.0);
    assert(sp.1 == cow.1);
    assert(sp.0[0].page_id == np);
    assert(cow.0 =~= sp.0.subrange(1, sp.0.len() as int));
    lemma_nodes_read_skip(new, page_size, sp.0, cow.0, 1);
    assert(single_gets(new, old, page_size, np, e.page_id, ckey, cval, f + 1)) by {
        assert forall|kk: Seq<u8>| #[trigger] expect(old, page_size, e.page_id, ckey, cval, kk, f + 1) == tree_get(
            new,
            page_size,
            np,
            kk,
            f + 1,
        ) by {
            assert(expect(old, page_size, e.page_id, ckey, cval, kk, f + 1) == tree_get(
                new,
                page_size,
                child_or_right(nc, nrc, route_of(sep_keys(nc), kk)),
                kk,
                f,
            ));
        }
    }
    assert((d - (i - 1)) as nat == f + 1);
    lemma_cow_chain(old, new, pool_page_size, page_size, ckey, cval, path, leaf_id, d, i - 1, np, next + 1);
}

/// The page at level `i - 1` takes the separator and overflows: its two
/// halves stand for it, with its middle separator between them, to be
/// carried further up.
#[verifier::spinoff_prover]
#[verifier::rlimit(50)]
pub proof fn lemma_split_over(
    old: spec_fn(PageId) -> Option<Seq<u8>>,
    new: spec_fn(PageId) -> Option<Seq<u8>>,
    pool_page_size: int,
    page_size: int,
    ckey: Seq<u8>,
    cval: LeafValueView,
    path: Seq<PathNodeView>,
    leaf_id: PageId,
    d: nat,
    i: int,
    key: Seq<u8>,
    left: PageId,
    right: PageId,
    next: int,
)
    requires
        1 <= i <= path.len(),
        1 <= next,
        next + 2 * i + 1 <= u64::MAX,
        ({
            let e = path[i - 1];
            let (lo, hi) = path_bounds(path, i - 1);
            let (nc, nrc) = promoted_node(e.cells, e.right_child, e.child_index, key, left, right);
            &&& !interior_fits(nc, page_size)
            &&& forall|t: int| 0 <= t < e.cells.len() ==> in_bounds(#[trigger] e.cells[t].key, lo, hi)
            &&& 0 <= e.child_index <= e.cells.len()
            &&& in_bounds(key, child_lo(e.cells, lo, e.child_index), child_hi(e.cells, hi, e.child_index))
            &&& old_at(path, leaf_id, i - 1) == e.page_id
            &&& (d - (i - 1)) as nat == (d - i) as nat + 1
            &&& promoted_gets(old, new, page_size, ckey, cval, e.page_id, nc, nrc, (d - i) as nat)
        }),
        nodes_read(new, page_size, split_up(path, i, key, left, right, next, page_size).0),
    ensures
        ({
            let e = path[i - 1];
            let (nc, nrc) = promoted_node(e.cells, e.right_child, e.child_index, key, left, right);
            let sep = nc[(nc.len() / 2) as int].key;
            let l = PageId(next as u64);
            let r = PageId((next + 1) as u64);
            let rest = split_up(path, i - 1, sep, l, r, next + 2, page_size);
            &&& split_up(path, i, key, left, right, next, page_size).1 == rest.1
            &&& nodes_read(new, page_size, rest.0)
            &&& in_bounds(sep, path_bounds(path, i - 1).0, path_bounds(path, i - 1).1)
            &&& pair_gets(new, old, page_size, l, r, sep, old_at(path, leaf_id, i - 1), ckey, cval, (d - (i - 1)) as nat)
        }),
{
    let sp = split_up(path, i, key, left, right, next, page_size);
    let e = path[i - 1];
    let ci = e.child_index;
    let (lo, hi) = path_bounds(path, i - 1);
    let f = (d - i) as nat;
    let (nc, nrc) = promoted_node(e.cells, e.right_child, ci, key, left, right);
    let m = (nc.len() / 2) as int;
    let l = PageId(next as u64);
    let r = PageId((next + 1) as u64);
    let sep = nc[m].key;
    let rest = split_up(path, i - 1, sep, l, r, next + 2, page_size);
    assert(sp.0 == seq![
        NewInteriorView { page_id: l, cells: nc.subrange(0, m), right_child: nc[m].left_child },
        NewInteriorView { page_id: r, cells: nc.subrange(m + 1, nc.len() as int), right_child: nrc },
    ] + rest.0);
    assert(sp.1 == rest.1);
    assert(sp.0[0].page_id == l && sp.0[1].page_id == r);
    assert(rest.0 =~= sp.0.subrange(2, sp.0.len() as int));
    lemma_nodes_read_skip(new, page_size, sp.0, rest.0, 2);
    lemma_promoted_keys(e.cells, e.right_child, ci, key, left, right, m);
    assert(in_bounds(sep, lo, hi)) by {
        if m == ci {
            lemma_child_bounds_within(e.cells, lo, hi, ci, key);
        } else if m < ci {
            assert(in_bounds(e.cells[m].key, lo, hi));
        } else {
            assert(in_bounds(e.cells[m - 1].key, lo, hi));
        }
    }
    lemma_split_halves(old, new, page_size, ckey, cval, e.page_id, nc, nrc, f, l, r);
}

/// Carrying separator `key` between the new pages `left` and `right`,
/// which stand for level `i` of the path, up the path: the root that comes
/// out gives, within the old tree's levels or one more, what the new tree
/// should give in place of the old root.
#[verifier::spinoff_prover]
#[verifier::rlimit(100)]
pub proof fn lemma_split_chain(
    old: spec_fn(PageId) -> Option<Seq<u8>>,
    new: spec_fn(PageId) -> Option<Seq<u8>>,
    pool_page_size: int,
    page_size: int,
    ckey: Seq<u8>,
    cval: LeafValueView,
    path: Seq<PathNodeView>,
    leaf_id: PageId,
    d: nat,
    i: int,
    key: Seq<u8>,
    left: PageId,
    right: PageId,
    next: int,
)
    requires
        path_facts(old, pool_page_size, page_size, ckey, path, leaf_id, d),
        forall|q: PageId| q.0 != 0 && old(q) is Some ==> #[trigger] new(q) == old(q),
        0 <= i <= path.len(),
        1 <= next,
        next + 2 * i + 1 <= u64::MAX,
        left.0 != 0,
        right.0 != 0,
        pair_gets(new, old, page_size, left, right, key, old_at(path, leaf_id, i), ckey, cval, (d - i) as nat),
        in_bounds(key, path_bounds(path, i).0, path_bounds(path, i).1),
        nodes_read(new, page_size, split_up(path, i, key, left, right, next, page_size).0),
    ensures
        ({
            let root = split_up(path, i, key, left, right, next, page_size).1;
            ||| single_gets(new, old, page_size, root, old_at(path, leaf_id, 0), ckey, cval, d)
            ||| grown_gets(new, old, page_size, root, old_at(path, leaf_id, 0), ckey, cval, d)
        }),
    decreases i,
{
    let sp = split_up(path, i, key, left, right, next, page_size);
    if i == 0 {
        assert(sp.0[0].page_id == PageId(next as u64));
        lemma_split_top(old, new, page_size, ckey, cval, old_at(path, leaf_id, 0), d, key, left, right, PageId(next as u64));
    } else {
        lemma_level_setup(old, new, pool_page_size, page_size, ckey, cval, path, leaf_id, d, i, key, left, right);
        let e = path[i - 1];
        let ci = e.child_index;
        let (lo, hi) = path_bounds(path, i - 1);
        let f = (d - i) as nat;
        let (nc, nrc) = promoted_node(e.cells, e.right_child, ci, key, left, right);
        if interior_fits(nc, page_size) {
            lemma_split_fit(old, new, pool_page_size, page_size, ckey, cval, path, leaf_id, d, i, key, left, right, next);
        } else {
            let m = (nc.len() / 2) as int;
            lemma_split_over(old, new, pool_page_size, page_size, ckey, cval, path, leaf_id, d, i, key, left, right, next);
            lemma_split_chain(
                old,
                new,
                pool_page_size,
                page_size,
                ckey,
                cval,
                path,
                leaf_id,
                d,
                i - 1,
                nc[m].key,
                PageId(next as u64),
                PageId((next + 1) as u64),
                next + 2,
            );
        }
    }
}

/// When the old leaf's keys and the inserted key all lie within a range,
/// so does every key of the upserted cells.
proof fn lemma_upserted_in_bounds(
    old: Seq<LeafCellView>,
    c: LeafCellView,
    replaced: Option<LeafCellView>,
    new: Seq<LeafCellView>,
    lo: Option<Seq<u8>>,
    hi: Option<Seq<u8>>,
    j: int,
)
    requires
        super::insert::leaf_upsert(old, c, replaced, new),
        in_bounds(c.key, lo, hi),
        forall|i: int| 0 <= i < old.len() ==> in_bounds(#[trigger] old[i].key, lo, hi),
        0 <= j < new.len(),
    ensures
        in_bounds(new[j].key, lo, hi),
{
    let (base, pos) = choose|base: Seq<LeafCellView>, pos: int| #[trigger] upsert_by(old, c, replaced, new, base, pos);
    if j != pos {
        let b = if j < pos {
            j
        } else {
            j - 1
        };
        assert(new[j] == base[b]);
        let o: int = match replaced {
            Some(rc) => {
                let ri = choose|i: int| 0 <= i < old.len() && old[i] == rc && base == old.remove(i);
                if b < ri {
                    b
                } else {
                    b + 1
                }
            },
            None => b,
        };
        assert(base[b] == old[o]);
    }
}

/// The two halves of a split leaf give, for each key, what the new tree
/// should give in place of the old leaf.
#[verifier::spinoff_prover]
proof fn lemma_leaf_pair(
    old: spec_fn(PageId) -> Option<Seq<u8>>,
    new: spec_fn(PageId) -> Option<Seq<u8>>,
    page_size: int,
    leaf_id: PageId,
    leaf: crate::page::leaf::LeafPageView,
    cell: LeafCellView,
    replaced: Option<LeafCellView>,
    cells: Seq<LeafCellView>,
    lp: PageId,
    rp: PageId,
    f: nat,
)
    requires
        f >= 1,
        leaf_id.0 != 0,
        lp.0 != 0,
        rp.0 != 0,
        old(leaf_id) matches Some(img) && read_node(img, page_size) == NodeRead::Leaf(leaf),
        leaf_sorted(leaf.cells),
        super::insert::leaf_upsert(leaf.cells, cell, replaced, cells),
        leaf_sorted(cells),
        0 <= cells.len() / 2 < cells.len(),
        new(lp) matches Some(img) && read_node(img, page_size) matches NodeRead::Leaf(lv) && lv.cells
            == cells.subrange(0, (cells.len() / 2) as int),
        new(rp) matches Some(img) && read_node(img, page_size) matches NodeRead::Leaf(lv) && lv.cells
            == cells.subrange((cells.len() / 2) as int, cells.len() as int),
    ensures
        pair_gets(new, old, page_size, lp, rp, cells[(cells.len() / 2) as int].key, leaf_id, cell.key, cell.value, f),
{
    let mid = (cells.len() / 2) as int;
    assert forall|kk: Seq<u8>| #[trigger] expect(old, page_size, leaf_id, cell.key, cell.value, kk, f) == tree_get(
        new,
        page_size,
        if key_lt(kk, cells[mid].key) {
            lp
        } else {
            rp
        },
        kk,
        f,
    ) by {
        lemma_leaf_get_halves(cells, mid, kk);
        lemma_leaf_upsert_get(leaf.cells, cell, replaced, cells, kk);
        assert(tree_get(old, page_size, leaf_id, kk, f) == leaf_get(leaf.cells, kk));
    }
}

/// What a B-tree insert is for: the tree at the new root gives the inserted
/// value for the inserted key and, for every other key, what the old tree
/// gave, whether the leaf split or not and however far up the split was
/// carried; the new tree is as high as the old one or one level higher.
/// The old tree is bounded within `d` levels (an empty tree when `root` is
/// page 0), and the requirements on the pool are what `btree_insert`
/// ensures on success and requires of its pool: `old` and `(v1, c1)` are
/// the pages before and after it, `plan` and `[n0, nx)` its plan and fresh
/// ids.
#[verifier::spinoff_prover]
#[verifier::rlimit(100)]
pub proof fn lemma_insert_gets(
    v0: BufferPoolView,
    c0: Seq<u8>,
    v1: BufferPoolView,
    c1: Seq<u8>,
    page_size: int,
    root: PageId,
    cell: LeafCellView,
    n0: int,
    plan: InsertPlan,
    nx: int,
    txn_id: u64,
    d: nat,
)
    requires
        insert_planned(pool_pages(v0, c0), page_size, root, cell, n0, plan, nx),
        leaves_written(v1, c1, plan.leaves@, txn_id, page_size),
        interiors_written(v1, c1, plan.interiors@, txn_id, page_size),
        forall|q: PageId|
            q.0 != 0 && !super::tree::fresh_ids(n0, nx - n0).contains(q) && page_image(v0, c0, q) is Some
                ==> #[trigger] page_image(v1, c1, q) == page_image(v0, c0, q),
        forall|q: PageId| q.0 != 0 && #[trigger] page_image(v0, c0, q) is Some ==> q.0 < n0,
        1 <= n0 <= nx <= u64::MAX,
        n0 + 2 * d + 3 <= u64::MAX,
        page_size <= 0x10000,
        1 <= d,
        root.0 != 0 ==> tree_finite(pool_pages(v0, c0), v0.page_size, page_size, root, d),
        tree_bounded(pool_pages(v0, c0), page_size, root, None, None, d),
    ensures
        single_gets(pool_pages(v1, c1), pool_pages(v0, c0), page_size, plan.new_root, root, cell.key, cell.value, d)
            || grown_gets(
            pool_pages(v1, c1),
            pool_pages(v0, c0),
            page_size,
            plan.new_root,
            root,
            cell.key,
            cell.value,
            d,
        ),
{
    let old = pool_pages(v0, c0);
    let new = pool_pages(v1, c1);
    lemma_bounded_sorted(old, page_size, root, None, None, d);
    if root.0 == 0 || plan.leaves@.len() == 1 {
        reveal(insert_planned);
        assert forall|kk: Seq<u8>| #[trigger] expect(old, page_size, root, cell.key, cell.value, kk, d) == tree_get(
            new,
            page_size,
            plan.new_root,
            kk,
            d,
        ) by {
            lemma_insert_then_get(v0, c0, v1, c1, page_size, root, cell, n0, plan, nx, txn_id, d, kk);
        }
        assert(single_gets(new, old, page_size, plan.new_root, root, cell.key, cell.value, d));
    } else {
        assert(plan.leaves@.len() == 2) by {
            reveal(insert_planned);
            let (path, leaf_id, leaf) = choose|path: Seq<PathNodeView>, leaf_id: PageId, leaf: crate::page::leaf::LeafPageView|
                #[trigger] key_route(old, page_size, root, cell.key, path, leaf_id, leaf) && planned(
                    path,
                    leaf_id,
                    leaf,
                    cell,
                    n0,
                    page_size,
                    plan,
                    nx,
                );
        }
        lemma_insert_split_gets(v0, c0, v1, c1, page_size, root, cell, n0, plan, nx, txn_id, d);
    }
}

/// The case of [`lemma_insert_gets`] where the leaf splits.
#[verifier::spinoff_prover]
#[verifier::rlimit(100)]
proof fn lemma_insert_split_gets(
    v0: BufferPoolView,
    c0: Seq<u8>,
    v1: BufferPoolView,
    c1: Seq<u8>,
    page_size: int,
    root: PageId,
    cell: LeafCellView,
    n0: int,
    plan: InsertPlan,
    nx: int,
    txn_id: u64,
    d: nat,
)
    requires
        insert_planned(pool_pages(v0, c0), page_size, root, cell, n0, plan, nx),
        leaves_written(v1, c1, plan.leaves@, txn_id, page_size),
        interiors_written(v1, c1, plan.interiors@, txn_id, page_size),
        forall|q: PageId|
            q.0 != 0 && !super::tree::fresh_ids(n0, nx - n0).contains(q) && page_image(v0, c0, q) is Some
                ==> #[trigger] page_image(v1, c1, q) == page_image(v0, c0, q),
        forall|q: PageId| q.0 != 0 && #[trigger] page_image(v0, c0, q) is Some ==> q.0 < n0,
        1 <= n0 <= nx <= u64::MAX,
        n0 + 2 * d + 3 <= u64::MAX,
        page_size <= 0x10000,
        1 <= d,
        root.0 != 0,
        plan.leaves@.len() == 2,
        tree_finite(pool_pages(v0, c0), v0.page_size, page_size, root, d),
        tree_bounded(pool_pages(v0, c0), page_size, root, None, None, d),
    ensures
        single_gets(pool_pages(v1, c1), pool_pages(v0, c0), page_size, plan.new_root, root, cell.key, cell.value, d)
            || grown_gets(
            pool_pages(v1, c1),
            pool_pages(v0, c0),
            page_size,
            plan.new_root,
            root,
            cell.key,
            cell.value,
            d,
        ),
{
    reveal(insert_planned);
    let old = pool_pages(v0, c0);
    let new = pool_pages(v1, c1);
    assert forall|q: PageId| q.0 != 0 && old(q) is Some implies #[trigger] new(q) == old(q) by {
        if super::tree::fresh_ids(n0, nx - n0).contains(q) {
            lemma_fresh_ids_above(n0, nx - n0, q);
        }
    }
    let (path, leaf_id, leaf) = choose|path: Seq<PathNodeView>, leaf_id: PageId, leaf: crate::page::leaf::LeafPageView|
        #[trigger] key_route(old, page_size, root, cell.key, path, leaf_id, leaf) && planned(
            path,
            leaf_id,
            leaf,
            cell,
            n0,
            page_size,
            plan,
            nx,
        );
    let len = path.len() as int;
    assert forall|k: int| 0 <= k <= len implies {
        &&& tree_finite(old, v0.page_size, page_size, #[trigger] old_at(path, leaf_id, k), (d - k) as nat)
        &&& tree_bounded(
            old,
            page_size,
            old_at(path, leaf_id, k),
            path_bounds(path, k).0,
            path_bounds(path, k).1,
            (d - k) as nat,
        )
    } by {
        lemma_route_bounded(old, v0.page_size, page_size, root, cell.key, path, leaf_id, leaf, d, k);
    }
    assert forall|k: int| 0 <= k < len implies interior_sorted(#[trigger] path[k].cells) by {
        lemma_route_bounded(old, v0.page_size, page_size, root, cell.key, path, leaf_id, leaf, d, k);
    }
    lemma_route_bounded(old, v0.page_size, page_size, root, cell.key, path, leaf_id, leaf, d, len);
    assert(path_facts(old, v0.page_size, page_size, cell.key, path, leaf_id, d));
    let replaced = match plan.replaced {
        Some(c) => Some(c@),
        None => None,
    };
    let cells = planned_cells(plan.leaves@);
    let mid = (cells.len() / 2) as int;
    let pk = cells[mid].key;
    let f = (d - len) as nat;
    // The leaf level.
    assert(old_at(path, leaf_id, len) == leaf_id);
    assert(old(leaf_id) is Some);
    assert(tree_finite(old, v0.page_size, page_size, leaf_id, f));
    let (lo, hi) = path_bounds(path, len);
    assert(tree_bounded(old, page_size, leaf_id, lo, hi, f));
    assert(leaf_sorted(leaf.cells));
    assert(forall|t: int| 0 <= t < leaf.cells.len() ==> in_bounds(#[trigger] leaf.cells[t].key, lo, hi));
    assert(leaf_sorted(cells));
    lemma_split_leaf_pages(v1, c1, page_size, path, leaf_id, leaf, cell, n0, plan, nx, txn_id);
    lemma_leaf_pair(old, new, page_size, leaf_id, leaf, cell, replaced, cells, PageId(n0 as u64), PageId((n0 + 1) as u64), f);
    lemma_upserted_in_bounds(leaf.cells, cell, replaced, cells, lo, hi, mid);
    // The pages above it.
    let sp = split_up(path, len, pk, PageId(n0 as u64), PageId((n0 + 1) as u64), n0 + 2, page_size);
    assert(new_views(plan.interiors@) == sp.0);
    assert(nodes_read(new, page_size, sp.0)) by {
        assert forall|j: int| 0 <= j < sp.0.len() implies (new((#[trigger] sp.0[j]).page_id) matches Some(img)
            && read_node(img, page_size) matches NodeRead::Interior(jv) && jv.cells == sp.0[j].cells
            && jv.right_child == sp.0[j].right_child) by {
            lemma_written_interior_reads(v1, c1, plan.interiors@, j, txn_id, page_size);
            assert(plan.interiors@[j]@ == sp.0[j]);
        }
    }
    lemma_split_chain(
        old,
        new,
        v0.page_size,
        page_size,
        cell.key,
        cell.value,
        path,
        leaf_id,
        d,
        len,
        pk,
        PageId(n0 as u64),
        PageId((n0 + 1) as u64),
        n0 + 2,
    );
    assert(old_at(path, leaf_id, 0) == root);
}

/// `key` lies strictly above the lower end `lo` of a range.
pub open spec fn above_lo(key: Seq<u8>, lo: Option<Seq<u8>>) -> bool {
    lo matches Some(l) ==> key_lt(l, key)
}

/// Every child of the separators `nc` is in order within `f` levels.
pub open spec fn children_sorted(
    new: spec_fn(PageId) -> Option<Seq<u8>>,
    page_size: int,
    nc: Seq<InteriorCellView>,
    nrc: PageId,
    f: nat,
) -> bool {
    forall|k: int| 0 <= k <= nc.len() ==> tree_sorted(new, page_size, #[trigger] child_or_right(nc, nrc, k), f)
}

/// Each child of the page at level `i - 1` of the old path is in order in
/// the new pages, within the levels left below it.
#[verifier::spinoff_prover]
proof fn lemma_old_child_sorted(
    old: spec_fn(PageId) -> Option<Seq<u8>>,
    new: spec_fn(PageId) -> Option<Seq<u8>>,
    pool_page_size: int,
    page_size: int,
    ckey: Seq<u8>,
    path: Seq<PathNodeView>,
    leaf_id: PageId,
    d: nat,
    i: int,
    j: int,
)
    requires
        path_facts(old, pool_page_size, page_size, ckey, path, leaf_id, d),
        forall|q: PageId| q.0 != 0 && old(q) is Some ==> #[trigger] new(q) == old(q),
        1 <= i <= path.len(),
        0 <= j <= path[i - 1].cells.len(),
    ensures
        tree_sorted(new, page_size, child_or_right(path[i - 1].cells, path[i - 1].right_child, j), (d - i) as nat),
{
    let e = path[i - 1];
    let (lo, hi) = path_bounds(path, i - 1);
    let f = (d - i) as nat;
    assert(route_links(old, page_size, ckey, path, leaf_id));
    assert(old(e.page_id) is Some);
    assert(old_at(path, leaf_id, i - 1) == e.page_id);
    assert(tree_finite(old, pool_page_size, page_size, old_at(path, leaf_id, i - 1), (d - (i - 1)) as nat));
    assert(tree_bounded(old, page_size, old_at(path, leaf_id, i - 1), lo, hi, (d - (i - 1)) as nat));
    let iv = match read_node(old(e.page_id).unwrap(), page_size) {
        NodeRead::Interior(x) => x,
        _ => arbitrary(),
    };
    assert(parse_interior(old(e.page_id).unwrap(), page_size) == Some(iv));
    let ch = child_or_right(iv.cells, iv.right_child, j);
    assert(tree_finite(old, pool_page_size, page_size, ch, f));
    assert(tree_bounded(old, page_size, ch, child_lo(iv.cells, lo, j), child_hi(iv.cells, hi, j), f));
    lemma_bounded_sorted(old, page_size, ch, child_lo(iv.cells, lo, j), child_hi(iv.cells, hi, j), f);
    lemma_sorted_same(old, new, pool_page_size, page_size, ch, f);
}

/// The copies of the path from level `j` up, over a new page `child` in
/// order in place of level `j`: their root is in order.
#[verifier::spinoff_prover]
pub proof fn lemma_cow_sorted_chain(
    old: spec_fn(PageId) -> Option<Seq<u8>>,
    new: spec_fn(PageId) -> Option<Seq<u8>>,
    pool_page_size: int,
    page_size: int,
    ckey: Seq<u8>,
    path: Seq<PathNodeView>,
    leaf_id: PageId,
    d: nat,
    j: int,
    child: PageId,
    next: int,
)
    requires
        path_facts(old, pool_page_size, page_size, ckey, path, leaf_id, d),
        forall|q: PageId| q.0 != 0 && old(q) is Some ==> #[trigger] new(q) == old(q),
        0 <= j <= path.len(),
        1 <= next,
        next + j <= u64::MAX,
        nodes_read(new, page_size, cow_up(path, j, child, next).0),
        tree_sorted(new, page_size, child, (d - j) as nat),
    ensures
        tree_sorted(new, page_size, cow_up(path, j, child, next).1, d),
    decreases j,
{
    if j > 0 {
        let e = path[j - 1];
        let np = PageId(next as u64);
        let (cells, rc) = replaced_node(e.cells, e.right_child, e.child_index, child);
        let rest = cow_up(path, j - 1, np, next + 1);
        let nodes = cow_up(path, j, child, next).0;
        assert(nodes == seq![NewInteriorView { page_id: np, cells, right_child: rc }] + rest.0);
        assert(nodes[0].page_id == np);
        assert(rest.0 =~= nodes.subrange(1, nodes.len() as int));
        lemma_nodes_read_skip(new, page_size, nodes, rest.0, 1);
        assert(route_links(old, page_size, ckey, path, leaf_id));
        assert(interior_sorted(path[j - 1].cells));
        assert(interior_sorted(cells)) by {
            assert forall|a: int, b: int| 0 <= a < b < cells.len() implies key_lt(#[trigger] cells[a].key, #[trigger] cells[b].key) by {
                assert(cells[a].key == e.cells[a].key && cells[b].key == e.cells[b].key);
            }
        }
        assert(children_sorted(new, page_size, cells, rc, (d - j) as nat)) by {
            assert forall|k: int| 0 <= k <= cells.len() implies tree_sorted(
                new,
                page_size,
                #[trigger] child_or_right(cells, rc, k),
                (d - j) as nat,
            ) by {
                if k != e.child_index {
                    assert(child_or_right(cells, rc, k) == child_or_right(e.cells, e.right_child, k));
                    lemma_old_child_sorted(old, new, pool_page_size, page_size, ckey, path, leaf_id, d, j, k);
                } else {
                    assert(child_or_right(cells, rc, k) == child);
                }
            }
        }
        assert(tree_sorted(new, page_size, np, (d - (j - 1)) as nat));
        lemma_cow_sorted_chain(old, new, pool_page_size, page_size, ckey, path, leaf_id, d, j - 1, np, next + 1);
    }
}

/// Carrying separator `key`, strictly above the lower end of the range of
/// level `i`, between the new pages `left` and `right` in order: the root
/// that comes out is in order, within the old tree's levels or one more.
#[verifier::spinoff_prover]
#[verifier::rlimit(100)]
pub proof fn lemma_sorted_chain(
    old: spec_fn(PageId) -> Option<Seq<u8>>,
    new: spec_fn(PageId) -> Option<Seq<u8>>,
    pool_page_size: int,
    page_size: int,
    ckey: Seq<u8>,
    path: Seq<PathNodeView>,
    leaf_id: PageId,
    d: nat,
    i: int,
    key: Seq<u8>,
    left: PageId,
    right: PageId,
    next: int,
)
    requires
        path_facts(old, pool_page_size, page_size, ckey, path, leaf_id, d),
        forall|q: PageId| q.0 != 0 && old(q) is Some ==> #[trigger] new(q) == old(q),
        0 <= i <= path.len(),
        1 <= next,
        next + 2 * i + 1 <= u64::MAX,
        in_bounds(key, path_bounds(path, i).0, path_bounds(path, i).1),
        above_lo(key, path_bounds(path, i).0),
        tree_sorted(new, page_size, left, (d - i) as nat),
        tree_sorted(new, page_size, right, (d - i) as nat),
        nodes_read(new, page_size, split_up(path, i, key, left, right, next, page_size).0),
    ensures
        ({
            let root = split_up(path, i, key, left, right, next, page_size).1;
            tree_sorted(new, page_size, root, d) || tree_sorted(new, page_size, root, d + 1)
        }),
    decreases i,
{
    let sp = split_up(path, i, key, left, right, next, page_size);
    if i == 0 {
        let tcells = seq![InteriorCellView { left_child: left, key }];
        assert(sp.0[0].page_id == PageId(next as u64) && sp.0[0].cells == tcells && sp.0[0].right_child == right);
        assert(children_sorted(new, page_size, tcells, right, d)) by {
            assert forall|k: int| 0 <= k <= tcells.len() implies tree_sorted(
                new,
                page_size,
                #[trigger] child_or_right(tcells, right, k),
                d,
            ) by {
                if k == 0 {
                    assert(child_or_right(tcells, right, k) == left);
                } else {
                    assert(child_or_right(tcells, right, k) == right);
                }
            }
        }
        assert(tree_sorted(new, page_size, sp.1, d + 1));
    } else {
        let e = path[i - 1];
        let ci = e.child_index;
        let (lo, hi) = path_bounds(path, i - 1);
        let f = (d - i) as nat;
        let (nc, nrc) = promoted_node(e.cells, e.right_child, ci, key, left, right);
        assert(route_links(old, page_size, ckey, path, leaf_id));
        assert(old(e.page_id) is Some);
        assert(interior_sorted(path[i - 1].cells));
        assert(old_at(path, leaf_id, i - 1) == e.page_id);
        assert(tree_bounded(old, page_size, old_at(path, leaf_id, i - 1), lo, hi, (d - (i - 1)) as nat));
        let iv = match read_node(old(e.page_id).unwrap(), page_size) {
            NodeRead::Interior(x) => x,
            _ => arbitrary(),
        };
        assert(iv.cells == e.cells);
        assert(forall|t: int| 0 <= t < e.cells.len() ==> in_bounds(#[trigger] e.cells[t].key, lo, hi));
        assert(path_bounds(path, i) == (child_lo(e.cells, lo, ci), child_hi(e.cells, hi, ci)));
        lemma_bounds_route(e.cells, lo, hi, ci, key);
        super::contents::lemma_promoted_sorted(e.cells, e.right_child, ci, key, left, right);
        assert(children_sorted(new, page_size, nc, nrc, f)) by {
            assert forall|k: int| 0 <= k <= nc.len() implies tree_sorted(
                new,
                page_size,
                #[trigger] child_or_right(nc, nrc, k),
                f,
            ) by {
                super::contents::lemma_promoted_children(e.cells, e.right_child, ci, key, left, right, k);
                if k < ci {
                    lemma_old_child_sorted(old, new, pool_page_size, page_size, ckey, path, leaf_id, d, i, k);
                } else if k > ci + 1 {
                    lemma_old_child_sorted(old, new, pool_page_size, page_size, ckey, path, leaf_id, d, i, k - 1);
                }
            }
        }
        if interior_fits(nc, page_size) {
            let np = PageId(next as u64);
            let cow = cow_up(path, i - 1, np, next + 1);
            assert(sp.0 == seq![NewInteriorView { page_id: np, cells: nc, right_child: nrc }] + cow.0);
            assert(sp.0[0].page_id == np);
            assert(cow.0 =~= sp.0.subrange(1, sp.0.len() as int));
            lemma_nodes_read_skip(new, page_size, sp.0, cow.0, 1);
            assert(tree_sorted(new, page_size, np, f + 1));
            assert((d - (i - 1)) as nat == f + 1);
            lemma_cow_sorted_chain(old, new, pool_page_size, page_size, ckey, path, leaf_id, d, i - 1, np, next + 1);
        } else {
            let m = (nc.len() / 2) as int;
            let l = PageId(next as u64);
            let r = PageId((next + 1) as u64);
            let sep = nc[m].key;
            let lcells = nc.subrange(0, m);
            let rcells = nc.subrange(m + 1, nc.len() as int);
            let rest = split_up(path, i - 1, sep, l, r, next + 2, page_size);
            assert(sp.0 == seq![
                NewInteriorView { page_id: l, cells: lcells, right_child: nc[m].left_child },
                NewInteriorView { page_id: r, cells: rcells, right_child: nrc },
            ] + rest.0);
            assert(sp.0[0].page_id == l && sp.0[1].page_id == r);
            assert(rest.0 =~= sp.0.subrange(2, sp.0.len() as int));
            lemma_nodes_read_skip(new, page_size, sp.0, rest.0, 2);
            assert(interior_sorted(lcells)) by {
                assert forall|a: int, b: int| 0 <= a < b < lcells.len() implies key_lt(#[trigger] lcells[a].key, #[trigger] lcells[b].key) by {
                    assert(lcells[a] == nc[a] && lcells[b] == nc[b]);
                }
            }
            assert(interior_sorted(rcells)) by {
                assert forall|a: int, b: int| 0 <= a < b < rcells.len() implies key_lt(#[trigger] rcells[a].key, #[trigger] rcells[b].key) by {
                    assert(rcells[a] == nc[m + 1 + a] && rcells[b] == nc[m + 1 + b]);
                }
            }
            assert(children_sorted(new, page_size, lcells, nc[m].left_child, f)) by {
                assert forall|k: int| 0 <= k <= lcells.len() implies tree_sorted(
                    new,
                    page_size,
                    #[trigger] child_or_right(lcells, nc[m].left_child, k),
                    f,
                ) by {
                    assert(child_or_right(lcells, nc[m].left_child, k) == child_or_right(nc, nrc, k));
                }
            }
            assert(children_sorted(new, page_size, rcells, nrc, f)) by {
                assert forall|k: int| 0 <= k <= rcells.len() implies tree_sorted(
                    new,
                    page_size,
                    #[trigger] child_or_right(rcells, nrc, k),
                    f,
                ) by {
                    assert(child_or_right(rcells, nrc, k) == child_or_right(nc, nrc, m + 1 + k));
                }
            }
            assert(tree_sorted(new, page_size, l, f + 1));
            assert(tree_sorted(new, page_size, r, f + 1));
            super::bounded::lemma_promoted_keys(e.cells, e.right_child, ci, key, left, right, m);
            super::bounded::lemma_promoted_keys(e.cells, e.right_child, ci, key, left, right, 0);
            assert(in_bounds(sep, lo, hi)) by {
                if m == ci {
                    lemma_child_bounds_within(e.cells, lo, hi, ci, key);
                } else if m < ci {
                    assert(in_bounds(e.cells[m].key, lo, hi));
                } else {
                    assert(in_bounds(e.cells[m - 1].key, lo, hi));
                }
            }
            assert(above_lo(sep, lo)) by {
                if let Some(lw) = lo {
                    if m == 0 {
                        assert(e.cells.len() == 0);
                        assert(ci == 0);
                    } else {
                        assert(key_lt(nc[0].key, nc[m].key));
                        assert(in_bounds(nc[0].key, lo, hi)) by {
                            if ci == 0 {
                                lemma_child_bounds_within(e.cells, lo, hi, ci, key);
                            }
                        }
                        crate::keys::lemma_key_lt_le_transitive(lw, nc[0].key, nc[m].key);
                    }
                }
            }
            assert((d - (i - 1)) as nat == f + 1);
            lemma_sorted_chain(old, new, pool_page_size, page_size, ckey, path, leaf_id, d, i - 1, sep, l, r, next + 2);
        }
    }
}

/// An insert keeps a bounded tree in order: when every page it writes fits
/// its page, the tree at the new root is in order within the old tree's
/// levels or one more. The requirements are those of
/// [`lemma_insert_gets`].
#[verifier::spinoff_prover]
#[verifier::rlimit(100)]
pub proof fn lemma_insert_keeps_sorted(
    v0: BufferPoolView,
    c0: Seq<u8>,
    v1: BufferPoolView,
    c1: Seq<u8>,
    page_size: int,
    root: PageId,
    cell: LeafCellView,
    n0: int,
    plan: InsertPlan,
    nx: int,
    txn_id: u64,
    d: nat,
)
    requires
        insert_planned(pool_pages(v0, c0), page_size, root, cell, n0, plan, nx),
        leaves_written(v1, c1, plan.leaves@, txn_id, page_size),
        interiors_written(v1, c1, plan.interiors@, txn_id, page_size),
        forall|q: PageId|
            q.0 != 0 && !super::tree::fresh_ids(n0, nx - n0).contains(q) && page_image(v0, c0, q) is Some
                ==> #[trigger] page_image(v1, c1, q) == page_image(v0, c0, q),
        forall|q: PageId| q.0 != 0 && #[trigger] page_image(v0, c0, q) is Some ==> q.0 < n0,
        1 <= n0 <= nx <= u64::MAX,
        n0 + 2 * d + 3 <= u64::MAX,
        page_size <= 0x10000,
        1 <= d,
        root.0 != 0 ==> tree_finite(pool_pages(v0, c0), v0.page_size, page_size, root, d),
        tree_bounded(pool_pages(v0, c0), page_size, root, None, None, d),
        super::tree::plan_fits(plan, page_size),
    ensures
        tree_sorted(pool_pages(v1, c1), page_size, plan.new_root, d) || tree_sorted(
            pool_pages(v1, c1),
            page_size,
            plan.new_root,
            d + 1,
        ),
{
    let old = pool_pages(v0, c0);
    let new = pool_pages(v1, c1);
    lemma_bounded_sorted(old, page_size, root, None, None, d);
    reveal(insert_planned);
    if root.0 == 0 || plan.leaves@.len() == 1 {
        super::contents::lemma_insert_keeps_order(v0, c0, v1, c1, page_size, root, cell, n0, plan, nx, txn_id, d);
    } else {
        let (path, leaf_id, leaf) = choose|path: Seq<PathNodeView>, leaf_id: PageId, leaf: crate::page::leaf::LeafPageView|
            #[trigger] key_route(old, page_size, root, cell.key, path, leaf_id, leaf) && planned(
                path,
                leaf_id,
                leaf,
                cell,
                n0,
                page_size,
                plan,
                nx,
            );
        lemma_insert_split_sorted(v0, c0, v1, c1, page_size, root, cell, n0, plan, nx, txn_id, d, path, leaf_id, leaf);
    }
}

/// The case of [`lemma_insert_keeps_sorted`] where the leaf splits.
#[verifier::spinoff_prover]
#[verifier::rlimit(100)]
proof fn lemma_insert_split_sorted(
    v0: BufferPoolView,
    c0: Seq<u8>,
    v1: BufferPoolView,
    c1: Seq<u8>,
    page_size: int,
    root: PageId,
    cell: LeafCellView,
    n0: int,
    plan: InsertPlan,
    nx: int,
    txn_id: u64,
    d: nat,
    path: Seq<PathNodeView>,
    leaf_id: PageId,
    leaf: crate::page::leaf::LeafPageView,
)
    requires
        key_route(pool_pages(v0, c0), page_size, root, cell.key, path, leaf_id, leaf),
        planned(path, leaf_id, leaf, cell, n0, page_size, plan, nx),
        leaves_written(v1, c1, plan.leaves@, txn_id, page_size),
        interiors_written(v1, c1, plan.interiors@, txn_id, page_size),
        forall|q: PageId|
            q.0 != 0 && !super::tree::fresh_ids(n0, nx - n0).contains(q) && page_image(v0, c0, q) is Some
                ==> #[trigger] page_image(v1, c1, q) == page_image(v0, c0, q),
        forall|q: PageId| q.0 != 0 && #[trigger] page_image(v0, c0, q) is Some ==> q.0 < n0,
        1 <= n0 <= nx <= u64::MAX,
        n0 + 2 * d + 3 <= u64::MAX,
        page_size <= 0x10000,
        1 <= d,
        root.0 != 0,
        plan.leaves@.len() == 2,
        tree_finite(pool_pages(v0, c0), v0.page_size, page_size, root, d),
        tree_bounded(pool_pages(v0, c0), page_size, root, None, None, d),
        super::tree::plan_fits(plan, page_size),
    ensures
        tree_sorted(pool_pages(v1, c1), page_size, plan.new_root, d) || tree_sorted(
            pool_pages(v1, c1),
            page_size,
            plan.new_root,
            d + 1,
        ),
{
    let old = pool_pages(v0, c0);
    let new = pool_pages(v1, c1);
    assert forall|q: PageId| q.0 != 0 && old(q) is Some implies #[trigger] new(q) == old(q) by {
        if super::tree::fresh_ids(n0, nx - n0).contains(q) {
            lemma_fresh_ids_above(n0, nx - n0, q);
        }
    }
    let len = path.len() as int;
    assert forall|k: int| 0 <= k <= len implies {
        &&& tree_finite(old, v0.page_size, page_size, #[trigger] old_at(path, leaf_id, k), (d - k) as nat)
        &&& tree_bounded(
            old,
            page_size,
            old_at(path, leaf_id, k),
            path_bounds(path, k).0,
            path_bounds(path, k).1,
            (d - k) as nat,
        )
    } by {
        lemma_route_bounded(old, v0.page_size, page_size, root, cell.key, path, leaf_id, leaf, d, k);
    }
    assert forall|k: int| 0 <= k < len implies interior_sorted(#[trigger] path[k].cells) by {
        lemma_route_bounded(old, v0.page_size, page_size, root, cell.key, path, leaf_id, leaf, d, k);
    }
    lemma_route_bounded(old, v0.page_size, page_size, root, cell.key, path, leaf_id, leaf, d, len);
    assert(path_facts(old, v0.page_size, page_size, cell.key, path, leaf_id, d));
    let replaced = match plan.replaced {
        Some(c) => Some(c@),
        None => None,
    };
    let cells = planned_cells(plan.leaves@);
    let mid = (cells.len() / 2) as int;
    let pk = cells[mid].key;
    let f = (d - len) as nat;
    assert(old_at(path, leaf_id, len) == leaf_id);
    assert(old(leaf_id) is Some);
    let (lo, hi) = path_bounds(path, len);
    assert(tree_bounded(old, page_size, leaf_id, lo, hi, f));
    assert(leaf_sorted(leaf.cells));
    assert(forall|t: int| 0 <= t < leaf.cells.len() ==> in_bounds(#[trigger] leaf.cells[t].key, lo, hi));
    assert(leaf_sorted(cells));
    assert(cells.len() >= 2) by {
        if cells.len() < 2 {
            let l1 = plan.leaves@[1];
            assert(crate::page::leaf::leaf_fits(cells_view(l1.cells@), page_size));
            assert(cells_view(l1.cells@) =~= cells);
        }
    }
    lemma_split_leaf_pages(v1, c1, page_size, path, leaf_id, leaf, cell, n0, plan, nx, txn_id);
    lemma_leaf_get_halves(cells, mid, pk);
    lemma_upserted_in_bounds(leaf.cells, cell, replaced, cells, lo, hi, mid);
    lemma_upserted_in_bounds(leaf.cells, cell, replaced, cells, lo, hi, 0);
    assert(above_lo(pk, lo)) by {
        if let Some(lw) = lo {
            assert(key_lt(cells[0].key, cells[mid].key));
            crate::keys::lemma_key_lt_le_transitive(lw, cells[0].key, pk);
        }
    }
    assert(tree_sorted(new, page_size, PageId(n0 as u64), f));
    assert(tree_sorted(new, page_size, PageId((n0 + 1) as u64), f));
    let sp = split_up(path, len, pk, PageId(n0 as u64), PageId((n0 + 1) as u64), n0 + 2, page_size);
    assert(new_views(plan.interiors@) == sp.0);
    assert(nodes_read(new, page_size, sp.0)) by {
        assert forall|j: int| 0 <= j < sp.0.len() implies (new((#[trigger] sp.0[j]).page_id) matches Some(img)
            && read_node(img, page_size) matches NodeRead::Interior(jv) && jv.cells == sp.0[j].cells
            && jv.right_child == sp.0[j].right_child) by {
            lemma_written_interior_reads(v1, c1, plan.interiors@, j, txn_id, page_size);
            assert(plan.interiors@[j]@ == sp.0[j]);
        }
    }
    lemma_sorted_chain(
        old,
        new,
        v0.page_size,
        page_size,
        cell.key,
        path,
        leaf_id,
        d,
        len,
        pk,
        PageId(n0 as u64),
        PageId((n0 + 1) as u64),
        n0 + 2,
    );
}

/// Copy on write, for the pages: the new root is one of the fresh pages
/// written; an insert into an empty tree frees nothing; and every page an
/// insert frees lies on the route of the inserted key from the old root
/// (the leaf, or a page on the path above it).
pub proof fn lemma_insert_pages(
    pages: spec_fn(PageId) -> Option<Seq<u8>>,
    page_size: int,
    root: PageId,
    cell: LeafCellView,
    n0: int,
    plan: InsertPlan,
    nx: int,
)
    requires
        insert_planned(pages, page_size, root, cell, n0, plan, nx),
        1 <= n0,
        nx == n0 + plan.leaves@.len() + plan.interiors@.len(),
        nx <= u64::MAX,
    ensures
        n0 <= plan.new_root.0 < nx,
        root.0 == 0 ==> plan.freed@.len() == 0,
        root.0 != 0 ==> exists|path: Seq<PathNodeView>, leaf_id: PageId, leaf: crate::page::leaf::LeafPageView|
            #[trigger] key_route(pages, page_size, root, cell.key, path, leaf_id, leaf) && forall|j: int|
                0 <= j < plan.freed@.len() ==> (#[trigger] plan.freed@[j] == leaf_id || exists|k: int|
                    0 <= k < path.len() && path[k].page_id == plan.freed@[j]),
{
    reveal(insert_planned);
    if root.0 != 0 {
        let (path, leaf_id, leaf) = choose|path: Seq<PathNodeView>, leaf_id: PageId, leaf: crate::page::leaf::LeafPageView|
            #[trigger] key_route(pages, page_size, root, cell.key, path, leaf_id, leaf) && planned(
                path,
                leaf_id,
                leaf,
                cell,
                n0,
                page_size,
                plan,
                nx,
            );
        assert forall|j: int| 0 <= j < plan.freed@.len() implies (#[trigger] plan.freed@[j] == leaf_id || exists|k: int|
            0 <= k < path.len() && path[k].page_id == plan.freed@[j]) by {
            if j > 0 {
                let k = path.len() - 1 - (j - 1);
                assert(plan.freed@[j] == super::split::freed_ids(path)[j - 1]);
                assert(path[k].page_id == plan.freed@[j]);
            }
        }
        let cells = planned_cells(plan.leaves@);
        if plan.leaves@.len() == 1 {
            super::split::lemma_cow_up_ids(path, path.len() as int, PageId(n0 as u64), n0 + 1);
        } else {
            let mid = cells.len() / 2;
            super::split::lemma_split_up_ids(
                path,
                path.len() as int,
                cells[mid as int].key,
                PageId(n0 as u64),
                PageId((n0 + 1) as u64),
                n0 + 2,
                page_size,
            );
        }
        assert(new_views(plan.interiors@).len() == plan.interiors@.len());
    }
}

} // verus!
