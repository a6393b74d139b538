//! Planning a copy-on-write insert into a B-tree.
//!
//! The leaf that the key routes to loses the cell with the key, if it has
//! one, and gains the new cell at its sorted position. When the leaf still
//! fits its page it is written to a fresh page and every ancestor on the
//! path is copied with one child redirected; otherwise it splits at its
//! median into two fresh pages and the separator (the first key of the
//! right half) is carried up the path. Every page of the old path and the
//! old leaf is freed; the tree they belong to is left as it was.

use vstd::prelude::*;
use crate::btree::PromotedKey;
use crate::btree::split::{
    NewInterior, NewInteriorView, PathNode, PathNodeView, copy_up_path, cow_up, freed_ids, new_views, path_positions_valid,
    path_view, propagate_split, split_up,
};
use crate::keys::key_lt;
use crate::page::PageId;
use crate::page::leaf::{
    LeafCell, LeafCellView, LeafPage, LeafPageView, cells_view, leaf_ascending, leaf_cell_size, leaf_cells_size, leaf_fits,
    leaf_sorted, lemma_size_insert, lemma_size_remove,
};

verus! {

/// A leaf page to write: its id, cells and sibling links.
pub struct NewLeaf {
    /// The page's id.
    pub page_id: PageId,
    /// The page's cells.
    pub cells: Vec<LeafCell>,
    /// The next leaf in key order.
    pub next_leaf: PageId,
    /// The previous leaf in key order.
    pub prev_leaf: PageId,
}

/// What a copy-on-write insert writes and frees.
pub struct InsertPlan {
    /// The root of the new tree.
    pub new_root: PageId,
    /// The leaf pages to write: one, or the two halves of a split leaf.
    pub leaves: Vec<NewLeaf>,
    /// The interior pages to write, from the bottom up.
    pub interiors: Vec<NewInterior>,
    /// The pages replaced: the old leaf, then the path from the bottom up.
    pub freed: Vec<PageId>,
    /// The cell that had the key before, if any.
    pub replaced: Option<LeafCell>,
}

/// `new` is `old` with the cell `replaced` (when there is one, a cell with
/// `c`'s key) taken out and `c` put in at a position that keeps ascending
/// keys ascending.
pub open spec fn leaf_upsert(
    old: Seq<LeafCellView>,
    c: LeafCellView,
    replaced: Option<LeafCellView>,
    new: Seq<LeafCellView>,
) -> bool {
    exists|base: Seq<LeafCellView>, pos: int| #[trigger] upsert_by(old, c, replaced, new, base, pos)
}

/// `new` is `old` without `replaced` (giving `base`) and with `c` put in at
/// position `pos` of `base`, a position that keeps ascending keys
/// ascending.
pub open spec fn upsert_by(
    old: Seq<LeafCellView>,
    c: LeafCellView,
    replaced: Option<LeafCellView>,
    new: Seq<LeafCellView>,
    base: Seq<LeafCellView>,
    pos: int,
) -> bool {
    &&& match replaced {
        Some(rc) => rc.key == c.key && exists|i: int| 0 <= i < old.len() && old[i] == rc && base == old.remove(i),
        None => base == old,
    }
    &&& 0 <= pos <= base.len()
    &&& new == base.insert(pos, c)
    &&& leaf_ascending(base) ==> (forall|j: int| 0 <= j < pos ==> key_lt(#[trigger] base[j].key, c.key)) && (forall|
        j: int,
    |
        pos <= j < base.len() ==> !key_lt(#[trigger] base[j].key, c.key))
}

/// The cells of the new leaves, in key order.
pub open spec fn planned_cells(leaves: Seq<NewLeaf>) -> Seq<LeafCellView> {
    if leaves.len() == 1 {
        cells_view(leaves[0].cells@)
    } else {
        cells_view(leaves[0].cells@) + cells_view(leaves[1].cells@)
    }
}

/// `r` is the plan of the copy-on-write insert of `cell` into the leaf
/// `leaf` (page `leaf_id`) below path `pv`, with fresh page ids from `n0`
/// on, pages of `page_size` bytes, and `nx_final` the next free id after.
pub open spec fn planned(
    pv: Seq<PathNodeView>,
    leaf_id: PageId,
    leaf: LeafPageView,
    cell: LeafCellView,
    n0: int,
    page_size: int,
    r: InsertPlan,
    nx_final: int,
) -> bool {
    let cells = planned_cells(r.leaves@);
    let replaced = match r.replaced {
        Some(c) => Some(c@),
        None => None,
    };
    &&& 1 <= r.leaves@.len() <= 2
    &&& leaf_upsert(leaf.cells, cell, replaced, cells)
    &&& leaf_sorted(leaf.cells) ==> leaf_sorted(cells) && (r.replaced is None <==> forall|i: int|
        0 <= i < leaf.cells.len() ==> #[trigger] leaf.cells[i].key != cell.key)
    &&& r.freed@ == seq![leaf_id] + freed_ids(pv)
    &&& (r.leaves@.len() == 1 <==> leaf_fits(cells, page_size))
    &&& r.leaves@.len() == 1 ==> {
        let (nodes, root, nx) = cow_up(pv, pv.len() as int, PageId(n0 as u64), n0 + 1);
        &&& r.leaves@[0].page_id == PageId(n0 as u64)
        &&& r.leaves@[0].next_leaf == leaf.next_leaf
        &&& r.leaves@[0].prev_leaf == leaf.prev_leaf
        &&& new_views(r.interiors@) == nodes
        &&& r.new_root == root
        &&& nx_final == nx
    }
    &&& r.leaves@.len() == 2 ==> {
        let mid = cells.len() / 2;
        let (nodes, root, nx) = split_up(
            pv,
            pv.len() as int,
            cells[mid as int].key,
            PageId(n0 as u64),
            PageId((n0 + 1) as u64),
            n0 + 2,
            page_size,
        );
        &&& cells_view(r.leaves@[0].cells@) == cells.subrange(0, mid as int)
        &&& r.leaves@[0].page_id == PageId(n0 as u64)
        &&& r.leaves@[0].next_leaf == PageId((n0 + 1) as u64)
        &&& r.leaves@[0].prev_leaf == leaf.prev_leaf
        &&& r.leaves@[1].page_id == PageId((n0 + 1) as u64)
        &&& r.leaves@[1].next_leaf == leaf.next_leaf
        &&& r.leaves@[1].prev_leaf == PageId(n0 as u64)
        &&& new_views(r.interiors@) == nodes
        &&& r.new_root == root
        &&& nx_final == nx
    }
}

/// Takes the cell with `cell`'s key out of `leaf`, if there is one, and puts
/// `cell` in at its sorted position. Returns whether the leaf still fits a
/// page of `page_size` bytes, and the cell taken out.
fn upsert_cell(leaf: &mut LeafPage, cell: LeafCell, page_size: usize) -> (r: (bool, Option<LeafCell>))
    requires
        46 + 2 * old(leaf)@.cells.len() + leaf_cells_size(old(leaf)@.cells) + leaf_cell_size(cell@) <= usize::MAX,
    ensures
        leaf_upsert(
            old(leaf)@.cells,
            cell@,
            match r.1 {
                Some(c) => Some(c@),
                None => None,
            },
            final(leaf)@.cells,
        ),
        leaf_sorted(old(leaf)@.cells) ==> leaf_sorted(final(leaf)@.cells) && (r.1 is None <==> forall|i: int|
            0 <= i < old(leaf)@.cells.len() ==> #[trigger] old(leaf)@.cells[i].key != cell@.key),
        r.0 == leaf_fits(final(leaf)@.cells, page_size as int),
        final(leaf)@.cells.len() >= 1,
        final(leaf)@.next_leaf == old(leaf)@.next_leaf,
        final(leaf)@.prev_leaf == old(leaf)@.prev_leaf,
{
    let ghost old_cells = leaf@.cells;
    let ghost cv = cell@;
    let replaced = leaf.delete_cell(cell.key.as_slice());
    let ghost base = leaf@.cells;
    let ghost rv = match &replaced {
        Some(c) => Some(c@),
        None => None,
    };
    proof {
        if rv is Some {
            let c = rv->0;
            let i = choose|i: int| 0 <= i < old_cells.len() && old_cells[i] == c && base == old_cells.remove(i);
            lemma_size_remove(old_cells, i);
            if leaf_sorted(old_cells) {
                assert forall|j: int| 0 <= j < base.len() implies #[trigger] base[j].key != cv.key by {
                    if j < i {
                        assert(base[j] == old_cells[j]);
                        assert(key_lt(old_cells[j].key, old_cells[i].key));
                        crate::keys::lemma_key_order_facts(old_cells[j].key, old_cells[i].key);
                    } else {
                        assert(base[j] == old_cells[j + 1]);
                        assert(key_lt(old_cells[i].key, old_cells[j + 1].key));
                        crate::keys::lemma_key_order_facts(old_cells[i].key, old_cells[j + 1].key);
                    }
                }
            }
        }
        crate::page::leaf::lemma_cells_size_nonneg(old_cells);
    }
    let fits = leaf.insert_cell(clone_leaf_cell(&cell), page_size);
    if !fits {
        let forced = leaf.insert_cell(cell, usize::MAX);
        assert(forced);
    }
    let ghost cells = leaf@.cells;
    proof {
        let pos = choose|pos: int|
            0 <= pos <= base.len() && cells == base.insert(pos, cv) && (leaf_ascending(base) ==> (forall|i: int|
                0 <= i < pos ==> key_lt(#[trigger] base[i].key, cv.key)) && (forall|i: int|
                pos <= i < base.len() ==> !key_lt(#[trigger] base[i].key, cv.key)));
        assert(upsert_by(old_cells, cv, rv, cells, base, pos));
        assert(leaf_upsert(old_cells, cv, rv, cells));
        lemma_size_insert(base, pos, cv);
    }
    (fits, replaced)
}

/// Plans the copy-on-write insert of `cell` into the tree whose path from
/// the root down to leaf `leaf_id` is `path`, `leaf` being that leaf's
/// parsed page; fresh page ids come from `next_page` and every page holds
/// `page_size` bytes.
#[verifier::rlimit(40)]
pub fn plan_insert(
    path: &[PathNode],
    leaf_id: PageId,
    leaf: LeafPage,
    cell: LeafCell,
    next_page: &mut u64,
    page_size: usize,
) -> (r: InsertPlan)
    requires
        path_positions_valid(path_view(path@)),
        *old(next_page) + 2 * path@.len() + 3 <= u64::MAX,
        46 + 2 * leaf@.cells.len() + leaf_cells_size(leaf@.cells) + leaf_cell_size(cell@) <= usize::MAX,
    ensures
        planned(
            path_view(path@),
            leaf_id,
            leaf@,
            cell@,
            *old(next_page) as int,
            page_size as int,
            r,
            *final(next_page) as int,
        ),
{
    let ghost n0 = *next_page as int;
    let ghost pv = path_view(path@);
    let mut leaf = leaf;
    let (fits, replaced) = upsert_cell(&mut leaf, cell, page_size);
    let ghost cells = leaf@.cells;
    let old_next = leaf.next_leaf;
    let old_prev = leaf.prev_leaf;
    let mut freed: Vec<PageId> = Vec::new();
    freed.push(leaf_id);
    if fits {
        let id = PageId(*next_page);
        *next_page = *next_page + 1;
        let new_leaf = NewLeaf { page_id: id, cells: leaf.cells, next_leaf: old_next, prev_leaf: old_prev };
        let mut leaves: Vec<NewLeaf> = Vec::new();
        leaves.push(new_leaf);
        let mut interiors: Vec<NewInterior> = Vec::new();
        proof {
            assert(new_views(interiors@) =~= Seq::<NewInteriorView>::empty());
        }
        let root = copy_up_path(path, path.len(), id, next_page, &mut interiors, &mut freed);
        proof {
            assert(planned_cells(leaves@) == cells);
            assert(new_views(interiors@) =~= cow_up(pv, pv.len() as int, id, n0 + 1).0);
            assert(freed_ids(pv).subrange(0, pv.len() as int) =~= freed_ids(pv));
            assert(freed@ =~= seq![leaf_id] + freed_ids(pv));
        }
        return InsertPlan { new_root: root, leaves, interiors, freed, replaced };
    }
    let (left_cells, right_cells, split_key) = leaf.split();
    let left_id = PageId(*next_page);
    let right_id = PageId(*next_page + 1);
    *next_page = *next_page + 2;
    let mut leaves: Vec<NewLeaf> = Vec::new();
    leaves.push(NewLeaf { page_id: left_id, cells: left_cells, next_leaf: right_id, prev_leaf: old_prev });
    leaves.push(NewLeaf { page_id: right_id, cells: right_cells, next_leaf: old_next, prev_leaf: left_id });
    proof {
        let mid = (cells.len() / 2) as int;
        assert(planned_cells(leaves@) =~= cells.subrange(0, mid) + cells.subrange(mid, cells.len() as int));
        assert(planned_cells(leaves@) =~= cells);
    }
    let plan = propagate_split(
        path,
        PromotedKey { key: split_key, left_child: left_id, right_child: right_id },
        next_page,
        page_size,
    );
    let mut all_freed = freed;
    let mut k: usize = 0;
    let ghost f0 = all_freed@;
    while k < plan.freed.len()
        invariant
            k <= plan.freed@.len(),
            all_freed@ == f0 + plan.freed@.subrange(0, k as int),
        decreases plan.freed@.len() - k,
    {
        all_freed.push(plan.freed[k]);
        proof {
            assert(plan.freed@.subrange(0, k + 1) =~= plan.freed@.subrange(0, k as int).push(plan.freed@[k as int]));
        }
        k = k + 1;
    }
    proof {
        assert(plan.freed@.subrange(0, plan.freed@.len() as int) =~= plan.freed@);
        assert(all_freed@ =~= seq![leaf_id] + freed_ids(pv));
    }
    InsertPlan { new_root: plan.new_root, leaves, interiors: plan.pages, freed: all_freed, replaced }
}

/// A copy of a leaf cell.
fn clone_leaf_cell(c: &LeafCell) -> (r: LeafCell)
    ensures
        r@ == c@,
{
    crate::page::leaf::clone_cell(c)
}

} // verus!
