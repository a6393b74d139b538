//! Carrying a split up the path from a leaf's parent to the root.
//!
//! When a leaf splits, the separator between its halves goes into its
//! parent. A parent that then overflows its page splits at its median cell,
//! whose key goes up in turn, and a root that splits gets a new root above
//! it. Once a node absorbs the separator, every ancestor above it is copied
//! with the one child pointer that led down redirected to the copy below.
//! Every node written goes to a fresh page, and every page of the path is
//! freed: the tree the path was read from stays as it was.

use vstd::prelude::*;
use crate::btree::{
    InteriorInsert, PromotedKey, children, insert_promoted, promoted_node, replace_child, replaced_node,
    sep_keys,
};
use crate::keys::key_lt;
use crate::page::PageId;
use crate::page::interior::{InteriorCell, InteriorCellView, icells_view, interior_fits, interior_sorted};

verus! {

/// An interior page on the path from the root down to a leaf, as read: its
/// id, its cells and right child, and the position of the child taken.
pub struct PathNode {
    /// The page's id.
    pub page_id: PageId,
    /// The page's cells.
    pub cells: Vec<InteriorCell>,
    /// The page's right child.
    pub right_child: PageId,
    /// The position of the child taken (the cell count for the right child).
    pub child_index: usize,
}

/// The mathematical value of a [`PathNode`].
pub struct PathNodeView {
    pub page_id: PageId,
    pub cells: Seq<InteriorCellView>,
    pub right_child: PageId,
    pub child_index: int,
}

impl View for PathNode {
    type V = PathNodeView;

    open spec fn view(&self) -> PathNodeView {
        PathNodeView {
            page_id: self.page_id,
            cells: icells_view(self.cells@),
            right_child: self.right_child,
            child_index: self.child_index as int,
        }
    }
}

/// An interior page to write: its id, cells and right child.
pub struct NewInterior {
    /// The page's id.
    pub page_id: PageId,
    /// The page's cells.
    pub cells: Vec<InteriorCell>,
    /// The page's right child.
    pub right_child: PageId,
}

/// The mathematical value of a [`NewInterior`].
pub struct NewInteriorView {
    pub page_id: PageId,
    pub cells: Seq<InteriorCellView>,
    pub right_child: PageId,
}

impl View for NewInterior {
    type V = NewInteriorView;

    open spec fn view(&self) -> NewInteriorView {
        NewInteriorView { page_id: self.page_id, cells: icells_view(self.cells@), right_child: self.right_child }
    }
}

/// The values of the nodes of a path.
pub open spec fn path_view(path: Seq<PathNode>) -> Seq<PathNodeView> {
    path.map_values(|e: PathNode| e@)
}

/// The values of new interior pages.
pub open spec fn new_views(nodes: Seq<NewInterior>) -> Seq<NewInteriorView> {
    nodes.map_values(|n: NewInterior| n@)
}

/// Each node of the path records a child position within its children.
pub open spec fn path_positions_valid(path: Seq<PathNodeView>) -> bool {
    forall|k: int| 0 <= k < path.len() ==> 0 <= (#[trigger] path[k]).child_index <= path[k].cells.len()
}

/// The page ids of the path from the bottom up: the pages a propagation
/// frees.
pub open spec fn freed_ids(path: Seq<PathNodeView>) -> Seq<PageId> {
    Seq::new(path.len(), |k: int| path[path.len() - 1 - k].page_id)
}

/// Copying the first `i` nodes of the path upward, the child taken at node
/// `i - 1` now being `child`, with page ids allocated from `next`: the pages
/// written (bottom up), the new root, and the next free page id.
pub open spec fn cow_up(path: Seq<PathNodeView>, i: int, child: PageId, next: int) -> (
    Seq<NewInteriorView>,
    PageId,
    int,
)
    decreases i,
{
    if i <= 0 {
        (Seq::empty(), child, next)
    } else {
        let e = path[i - 1];
        let (cells, rc) = replaced_node(e.cells, e.right_child, e.child_index, child);
        let rest = cow_up(path, i - 1, PageId(next as u64), next + 1);
        (seq![NewInteriorView { page_id: PageId(next as u64), cells, right_child: rc }] + rest.0, rest.1, rest.2)
    }
}

/// Carrying separator `key` between `left` and `right` into node `i - 1` of
/// the path and upward, with page ids allocated from `next` and pages of
/// `page_size` bytes: the pages written (bottom up), the new root, and the
/// next free page id. Past the root (`i == 0`) a new root holds the
/// separator alone.
pub open spec fn split_up(
    path: Seq<PathNodeView>,
    i: int,
    key: Seq<u8>,
    left: PageId,
    right: PageId,
    next: int,
    page_size: int,
) -> (Seq<NewInteriorView>, PageId, int)
    decreases i,
{
    if i <= 0 {
        (
            seq![
                NewInteriorView {
                    page_id: PageId(next as u64),
                    cells: seq![InteriorCellView { left_child: left, key }],
                    right_child: right,
                },
            ],
            PageId(next as u64),
            next + 1,
        )
    } else {
        let e = path[i - 1];
        let (nc, nrc) = promoted_node(e.cells, e.right_child, e.child_index, key, left, right);
        if interior_fits(nc, page_size) {
            let rest = cow_up(path, i - 1, PageId(next as u64), next + 1);
            (
                seq![NewInteriorView { page_id: PageId(next as u64), cells: nc, right_child: nrc }] + rest.0,
                rest.1,
                rest.2,
            )
        } else {
            let mid = nc.len() / 2;
            let l = NewInteriorView {
                page_id: PageId(next as u64),
                cells: nc.subrange(0, mid as int),
                right_child: nc[mid as int].left_child,
            };
            let r = NewInteriorView {
                page_id: PageId((next + 1) as u64),
                cells: nc.subrange(mid as int + 1, nc.len() as int),
                right_child: nrc,
            };
            let rest = split_up(
                path,
                i - 1,
                nc[mid as int].key,
                PageId(next as u64),
                PageId((next + 1) as u64),
                next + 2,
                page_size,
            );
            (seq![l, r] + rest.0, rest.1, rest.2)
        }
    }
}

/// Copying `i` nodes up writes `i` pages with consecutive ids from `next`,
/// the last written being the new root.
pub proof fn lemma_cow_up_ids(path: Seq<PathNodeView>, i: int, child: PageId, next: int)
    requires
        0 <= i,
    ensures
        ({
            let (nodes, root, nx) = cow_up(path, i, child, next);
            &&& nodes.len() == i
            &&& nx == next + i
            &&& forall|k: int| 0 <= k < nodes.len() ==> (#[trigger] nodes[k]).page_id == PageId((next + k) as u64)
            &&& i > 0 ==> root == nodes[i - 1].page_id
            &&& i == 0 ==> root == child
        }),
    decreases i,
{
    if i > 0 {
        lemma_cow_up_ids(path, i - 1, PageId(next as u64), next + 1);
        let (nodes, root, nx) = cow_up(path, i, child, next);
        let rest = cow_up(path, i - 1, PageId(next as u64), next + 1);
        assert forall|k: int| 0 <= k < nodes.len() implies (#[trigger] nodes[k]).page_id == PageId((next + k) as u64) by {
            if k > 0 {
                assert(nodes[k] == rest.0[k - 1]);
            }
        }
        if i > 1 {
            assert(nodes[i - 1] == rest.0[i - 2]);
        }
    }
}

/// Carrying a split up `i` nodes writes between one and `2 i + 1` pages,
/// with consecutive ids from `next`, the last written being the new root:
/// the tree grows by at most one level.
pub proof fn lemma_split_up_ids(
    path: Seq<PathNodeView>,
    i: int,
    key: Seq<u8>,
    left: PageId,
    right: PageId,
    next: int,
    page_size: int,
)
    requires
        0 <= i,
    ensures
        ({
            let (nodes, root, nx) = split_up(path, i, key, left, right, next, page_size);
            &&& 1 <= nodes.len() <= 2 * i + 1
            &&& nx == next + nodes.len()
            &&& forall|k: int| 0 <= k < nodes.len() ==> (#[trigger] nodes[k]).page_id == PageId((next + k) as u64)
            &&& root == nodes[nodes.len() - 1].page_id
        }),
    decreases i,
{
    if i > 0 {
        let e = path[i - 1];
        let (nc, nrc) = promoted_node(e.cells, e.right_child, e.child_index, key, left, right);
        let (nodes, root, nx) = split_up(path, i, key, left, right, next, page_size);
        if interior_fits(nc, page_size) {
            lemma_cow_up_ids(path, i - 1, PageId(next as u64), next + 1);
            let rest = cow_up(path, i - 1, PageId(next as u64), next + 1);
            assert forall|k: int| 0 <= k < nodes.len() implies (#[trigger] nodes[k]).page_id == PageId(
                (next + k) as u64,
            ) by {
                if k > 0 {
                    assert(nodes[k] == rest.0[k - 1]);
                }
            }
            if i > 1 {
                assert(nodes[nodes.len() - 1] == rest.0[i - 2]);
            }
        } else {
            let mid = nc.len() / 2;
            lemma_split_up_ids(
                path,
                i - 1,
                nc[mid as int].key,
                PageId(next as u64),
                PageId((next + 1) as u64),
                next + 2,
                page_size,
            );
            let rest = split_up(
                path,
                i - 1,
                nc[mid as int].key,
                PageId(next as u64),
                PageId((next + 1) as u64),
                next + 2,
                page_size,
            );
            assert forall|k: int| 0 <= k < nodes.len() implies (#[trigger] nodes[k]).page_id == PageId(
                (next + k) as u64,
            ) by {
                if k > 1 {
                    assert(nodes[k] == rest.0[k - 2]);
                }
            }
            assert(nodes[nodes.len() - 1] == rest.0[rest.0.len() - 1]);
        }
    }
}

/// What a split propagation writes and frees.
pub struct SplitPlan {
    /// The root of the new tree.
    pub new_root: PageId,
    /// The interior pages to write, from the bottom up.
    pub pages: Vec<NewInterior>,
    /// The pages of the path, now replaced, from the bottom up.
    pub freed: Vec<PageId>,
}

proof fn lemma_path_view_at(path: Seq<PathNode>, k: int)
    requires
        0 <= k < path.len(),
    ensures
        path_view(path)[k] == path[k]@,
        path_view(path).len() == path.len(),
{
}

/// Copies nodes `i - 1` down to `0` of the path upward, the child taken at
/// node `i - 1` being `child`, appending the pages to write to `pages` and
/// the replaced pages to `freed`. Returns the new root.
pub(crate) fn copy_up_path(
    path: &[PathNode],
    i: usize,
    child: PageId,
    next_page: &mut u64,
    pages: &mut Vec<NewInterior>,
    freed: &mut Vec<PageId>,
) -> (r: PageId)
    requires
        i <= path@.len(),
        path_positions_valid(path_view(path@)),
        *old(next_page) + i <= u64::MAX,
    ensures
        ({
            let (nodes, root, nx) = cow_up(path_view(path@), i as int, child, *old(next_page) as int);
            &&& new_views(final(pages)@) == new_views(old(pages)@) + nodes
            &&& r == root
            &&& *final(next_page) as int == nx
        }),
        final(freed)@ == old(freed)@ + freed_ids(path_view(path@)).subrange(
            path@.len() - i,
            path@.len() as int,
        ),
{
    let ghost pv = path_view(path@);
    let ghost n = path@.len() as int;
    let ghost total = cow_up(pv, i as int, child, *next_page as int);
    let ghost pages0 = new_views(pages@);
    let ghost freed0 = freed@;
    let mut j = i;
    let mut cur = child;
    while j > 0
        invariant
            j <= i <= path@.len(),
            pv == path_view(path@),
            n == path@.len(),
            path_positions_valid(pv),
            *next_page + j <= u64::MAX,
            new_views(pages@) + cow_up(pv, j as int, cur, *next_page as int).0 == pages0 + total.0,
            cow_up(pv, j as int, cur, *next_page as int).1 == total.1,
            cow_up(pv, j as int, cur, *next_page as int).2 == total.2,
            freed@ == freed0 + freed_ids(pv).subrange(n - i, n - j),
        decreases j,
    {
        let e = &path[j - 1];
        proof {
            lemma_path_view_at(path@, j - 1);
            assert(pv[j - 1] == e@);
        }
        let (cells, rc) = replace_child(e.cells.as_slice(), e.right_child, e.child_index, cur);
        let id = PageId(*next_page);
        let ghost before = new_views(pages@);
        let ghost rest = cow_up(pv, j - 1, id, *next_page as int + 1);
        let node = NewInterior { page_id: id, cells, right_child: rc };
        pages.push(node);
        let ghost fb = freed@;
        freed.push(e.page_id);
        proof {
            assert(new_views(pages@) =~= before.push(node@));
            assert(before.push(node@) + rest.0 =~= before + (seq![node@] + rest.0));
            assert(freed_ids(pv)[n - j] == pv[j - 1].page_id);
            assert(freed@ =~= freed0 + freed_ids(pv).subrange(n - i, n - j + 1));
        }
        *next_page = *next_page + 1;
        cur = id;
        j = j - 1;
    }
    proof {
        assert(new_views(pages@) + Seq::<NewInteriorView>::empty() =~= new_views(pages@));
    }
    cur
}

/// Carries the separator `promoted`, from the split of the child taken at
/// the last node of `path`, up the path (ordered from the root down),
/// allocating page ids from `next_page` and fitting nodes to `page_size`
/// bytes. Returns the pages to write, the new root and the pages freed.
///
/// Every node that still fits after taking the separator is written whole;
/// one that overflows splits at its median cell and passes the median key
/// up; past the root a new root holds the last separator. The ancestors of
/// the node that absorbed the separator are copied with one child
/// redirected.
pub fn propagate_split(path: &[PathNode], promoted: PromotedKey, next_page: &mut u64, page_size: usize) -> (r:
    SplitPlan)
    requires
        path_positions_valid(path_view(path@)),
        *old(next_page) + 2 * path@.len() + 1 <= u64::MAX,
    ensures
        ({
            let (nodes, root, nx) = split_up(
                path_view(path@),
                path@.len() as int,
                promoted.key@,
                promoted.left_child,
                promoted.right_child,
                *old(next_page) as int,
                page_size as int,
            );
            &&& new_views(r.pages@) == nodes
            &&& r.new_root == root
            &&& *final(next_page) as int == nx
        }),
        r.freed@ == freed_ids(path_view(path@)),
{
    let ghost pv = path_view(path@);
    let ghost n = path@.len() as int;
    let ghost ps = page_size as int;
    let ghost total = split_up(
        pv,
        n,
        promoted.key@,
        promoted.left_child,
        promoted.right_child,
        *next_page as int,
        ps,
    );
    let mut pages: Vec<NewInterior> = Vec::new();
    let mut freed: Vec<PageId> = Vec::new();
    let mut i: usize = path.len();
    let mut key: Vec<u8> = promoted.key;
    let mut left = promoted.left_child;
    let mut right = promoted.right_child;
    proof {
        assert(new_views(pages@) + total.0 =~= total.0);
        assert(freed@ =~= freed_ids(pv).subrange(0, 0));
    }
    loop
        invariant
            i <= path@.len(),
            pv == path_view(path@),
            n == path@.len(),
            ps == page_size as int,
            path_positions_valid(pv),
            *next_page + 2 * i + 1 <= u64::MAX,
            new_views(pages@) + split_up(pv, i as int, key@, left, right, *next_page as int, ps).0 == total.0,
            split_up(pv, i as int, key@, left, right, *next_page as int, ps).1 == total.1,
            split_up(pv, i as int, key@, left, right, *next_page as int, ps).2 == total.2,
            freed@ == freed_ids(pv).subrange(0, n - i),
            total == split_up(
                path_view(path@),
                path@.len() as int,
                promoted.key@,
                promoted.left_child,
                promoted.right_child,
                *old(next_page) as int,
                page_size as int,
            ),
        decreases i,
    {
        if i == 0 {
            let ghost nb = *next_page as int;
            let ghost sk = key@;
            let id = PageId(*next_page);
            *next_page = *next_page + 1;
            let ghost kv = key@;
            let mut cells: Vec<InteriorCell> = Vec::new();
            cells.push(InteriorCell { left_child: left, key });
            let node = NewInterior { page_id: id, cells, right_child: right };
            let ghost before = new_views(pages@);
            pages.push(node);
            proof {
                assert(icells_view(node.cells@) =~= seq![InteriorCellView { left_child: left, key: kv }]);
                assert(new_views(pages@) =~= before + seq![node@]);
                assert(freed_ids(pv).subrange(0, n) =~= freed_ids(pv));
                let sp = split_up(pv, 0, sk, left, right, nb, ps);
                assert(sp.0 =~= seq![node@]);
                assert(sp.1 == id);
                assert(sp.2 == nb + 1);
            }
            return SplitPlan { new_root: id, pages, freed };
        }
        let e = &path[i - 1];
        proof {
            lemma_path_view_at(path@, i - 1);
            assert(pv[i - 1] == e@);
            assert(freed_ids(pv)[n - i] == pv[i - 1].page_id);
        }
        let ghost fb = freed@;
        freed.push(e.page_id);
        proof {
            assert(freed@ =~= freed_ids(pv).subrange(0, n - i + 1));
        }
        let ghost kv = key@;
        let ghost nb = *next_page as int;
        let ghost sp = split_up(pv, i as int, kv, left, right, nb, ps);
        let pk = PromotedKey { key, left_child: left, right_child: right };
        let ghost before = new_views(pages@);
        let ghost pn = promoted_node(pv[i - 1].cells, pv[i - 1].right_child, pv[i - 1].child_index, kv, left, right);
        match insert_promoted(e.cells.as_slice(), e.right_child, e.child_index, &pk, page_size) {
            InteriorInsert::Fits { cells, right_child } => {
                let id = PageId(*next_page);
                let node = NewInterior { page_id: id, cells, right_child };
                pages.push(node);
                *next_page = *next_page + 1;
                let ghost rest = cow_up(pv, i - 1, id, *next_page as int);
                proof {
                    assert(new_views(pages@) =~= before.push(node@));
                    assert(before.push(node@) + rest.0 =~= before + (seq![node@] + rest.0));
                    assert(interior_fits(pn.0, ps));
                    assert(node@.cells == pn.0 && node@.right_child == pn.1);
                    assert(sp.0 == seq![node@] + rest.0);
                    assert(sp.1 == rest.1 && sp.2 == rest.2);
                }
                let root = copy_up_path(path, i - 1, id, next_page, &mut pages, &mut freed);
                proof {
                    assert(new_views(pages@) =~= before.push(node@) + rest.0);
                    assert(freed_ids(pv).subrange(0, n - i + 1) + freed_ids(pv).subrange(n - (i - 1), n)
                        =~= freed_ids(pv));
                }
                return SplitPlan { new_root: root, pages, freed };
            },
            InteriorInsert::Split { left_cells, left_right_child, median_key, right_cells, right_child } => {
                let lid = PageId(*next_page);
                let rid = PageId(*next_page + 1);
                let ln = NewInterior { page_id: lid, cells: left_cells, right_child: left_right_child };
                let rn = NewInterior { page_id: rid, cells: right_cells, right_child };
                pages.push(ln);
                pages.push(rn);
                let ghost rest = split_up(
                    pv,
                    i - 1,
                    median_key@,
                    lid,
                    rid,
                    *next_page as int + 2,
                    ps,
                );
                proof {
                    assert(!interior_fits(pn.0, ps));
                    assert(sp.0 == seq![ln@, rn@] + rest.0);
                    assert(new_views(pages@) =~= before.push(ln@).push(rn@));
                    assert(before.push(ln@).push(rn@) + rest.0 =~= before + (seq![ln@, rn@] + rest.0));
                }
                *next_page = *next_page + 2;
                key = median_key;
                left = lid;
                right = rid;
                i = i - 1;
            },
        }
    }
}

} // verus!
