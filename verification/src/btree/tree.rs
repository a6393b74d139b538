//! Copy-on-write insert into a B-tree held in the buffer pool.
//!
//! The insert reads the path from the root to the leaf that the key
//! routes to, plans the new pages (see [`plan_insert`]), and writes them
//! to fresh page ids through the pool. The pages of the old tree are not
//! touched: the old root still describes the old tree, and the new root
//! the tree with the key inserted.

use vstd::prelude::*;
use crate::backend::{Durability, ReadAt, WriteAt};
use crate::buffer_pool::{BufferPool, BufferPoolView, hit_view, page_image, page_offset, pool_victim};
use crate::error::StorageError;
use crate::keys::key_lt;
use crate::page::PageId;
use crate::page::interior::{InteriorCell, InteriorPage, iupper_bound, interior_sorted, route_pos, icells_view};
use crate::page::leaf::{LeafCell, LeafCellValue, LeafPage, LeafPageView, cells_view};
use super::BTreeConfig;
use super::cursor::{
    Node, NodeRead, child_or_right, finite_depth, load_node, page_finite, pages_agree, pool_pages, pool_ready,
    read_node, route_index, tree_finite,
};
use super::insert::{InsertPlan, NewLeaf, plan_insert, planned};
use super::split::{
    NewInterior, PathNode, PathNodeView, cow_up, lemma_cow_up_ids, lemma_split_up_ids, new_views, path_view,
    split_up,
};
use super::write::{
    clean_run, clean_writes, fresh_pages, lemma_clean_writes_run, pages_view, same_flags, write_new_pages, written_view,
};
use crate::page::interior::{interior_fits, interior_image};
use crate::page::leaf::{LeafCellView, leaf_cell_size, leaf_fits, leaf_image, leaf_space_check};

verus! {

/// The path `path` links down to `end`: each node is the interior page
/// its id holds in `pages`, records a child position that routes `key`
/// (on sorted separators), and that child is the next node's page, or
/// `end` after the last node.
pub open spec fn route_links(
    pages: spec_fn(PageId) -> Option<Seq<u8>>,
    page_size: int,
    key: Seq<u8>,
    path: Seq<PathNodeView>,
    end: PageId,
) -> bool {
    forall|k: int|
        0 <= k < path.len() ==> {
            &&& pages((#[trigger] path[k]).page_id) is Some
            &&& read_node(pages(path[k].page_id).unwrap(), page_size) matches NodeRead::Interior(iv)
                && iv.cells == path[k].cells && iv.right_child == path[k].right_child
            &&& 0 <= path[k].child_index <= path[k].cells.len()
            &&& interior_sorted(path[k].cells) ==> route_pos(path[k].cells, key, path[k].child_index)
            &&& child_or_right(path[k].cells, path[k].right_child, path[k].child_index) == if k + 1 < path.len() {
                path[k + 1].page_id
            } else {
                end
            }
        }
}

/// `path` and the leaf `leaf` at page `leaf_id` are the route of `key`
/// from `root` down through the pages `pages` holds.
pub open spec fn key_route(
    pages: spec_fn(PageId) -> Option<Seq<u8>>,
    page_size: int,
    root: PageId,
    key: Seq<u8>,
    path: Seq<PathNodeView>,
    leaf_id: PageId,
    leaf: LeafPageView,
) -> bool {
    &&& if path.len() == 0 {
        leaf_id == root
    } else {
        path[0].page_id == root
    }
    &&& route_links(pages, page_size, key, path, leaf_id)
    &&& pages(leaf_id) is Some
    &&& read_node(pages(leaf_id).unwrap(), page_size) == NodeRead::Leaf(leaf)
}

/// The route of `key` from page `p` down, within `d` pages, runs through
/// pages that the pool (page table `table`) holds, each interior page with
/// ascending separators, and ends at a leaf that fits its page.
pub open spec fn route_cached(
    pages: spec_fn(PageId) -> Option<Seq<u8>>,
    page_size: int,
    table: Map<u64, usize>,
    p: PageId,
    key: Seq<u8>,
    d: nat,
) -> bool
    decreases d,
{
    if d == 0 {
        false
    } else {
        &&& p.0 != 0
        &&& table.contains_key(p.0)
        &&& pages(p) is Some
        &&& match read_node(pages(p).unwrap(), page_size) {
            NodeRead::Interior(iv) => interior_sorted(iv.cells) && route_cached(
                pages,
                page_size,
                table,
                child_or_right(iv.cells, iv.right_child, route_index(iv.cells, key)),
                key,
                (d - 1) as nat,
            ),
            NodeRead::Leaf(lv) => leaf_fits(lv.cells, page_size),
            NodeRead::Fail => false,
        }
    }
}

/// The pool `v` after the pages of the route of `key` from `p` down, within
/// `d` pages, were read from it and released: each marked referenced.
pub open spec fn route_touched(
    v: BufferPoolView,
    pages: spec_fn(PageId) -> Option<Seq<u8>>,
    page_size: int,
    p: PageId,
    key: Seq<u8>,
    d: nat,
) -> BufferPoolView
    decreases d,
{
    if d == 0 || pages(p) is None {
        v
    } else {
        match read_node(pages(p).unwrap(), page_size) {
            NodeRead::Interior(iv) => route_touched(
                hit_view(v, p),
                pages,
                page_size,
                child_or_right(iv.cells, iv.right_child, route_index(iv.cells, key)),
                key,
                (d - 1) as nat,
            ),
            _ => hit_view(v, p),
        }
    }
}

/// Reads the route of `key` from `root` down to a leaf: the interior pages
/// passed, with the child taken at each, then the leaf's id and page.
pub fn load_path<B: ReadAt + WriteAt + Durability>(
    root: PageId,
    key: &[u8],
    pool: &mut BufferPool,
    backend: &mut B,
    config: &BTreeConfig,
) -> (r: Result<(Vec<PathNode>, PageId, LeafPage), StorageError>)
    requires
        old(pool).wf(),
        pool_ready(old(pool)@, old(backend).contents()),
        page_finite(
            pool_pages(old(pool)@, old(backend).contents()),
            old(pool)@.page_size,
            config.page_size as int,
            root,
        ),
    ensures
        final(pool).wf(),
        ({
            let pages = pool_pages(old(pool)@, old(backend).contents());
            let d0 = finite_depth(pages, old(pool)@.page_size, config.page_size as int, root);
            route_cached(pages, config.page_size as int, old(pool)@.table, root, key@, d0) ==> (r matches Ok(
                (path, leaf_id, leaf),
            ) && final(pool)@ == route_touched(old(pool)@, pages, config.page_size as int, root, key@, d0)
                && final(backend).contents() == old(backend).contents() && leaf_fits(leaf@.cells, config.page_size as int))
        }),
        r matches Ok((path, leaf_id, leaf)) ==> {
            let pages = pool_pages(old(pool)@, old(backend).contents());
            &&& final(pool).wf()
            &&& key_route(pages, config.page_size as int, root, key@, path_view(path@), leaf_id, leaf@)
            &&& path@.len() < finite_depth(pages, old(pool)@.page_size, config.page_size as int, root)
            &&& tree_finite(pages, old(pool)@.page_size, config.page_size as int, leaf_id, 1)
            &&& pool_ready(final(pool)@, final(backend).contents())
            &&& final(pool)@.page_size == old(pool)@.page_size
            &&& pages_agree(pages, final(pool)@, final(backend).contents())
            &&& forall|t: u64|
                #[trigger] final(pool)@.table.contains_key(t) ==> old(pool)@.table.contains_key(t) || pages(
                    PageId(t),
                ) is Some
        },
{
    let ghost pages = pool_pages(pool@, backend.contents());
    let ghost pps = pool@.page_size;
    let ghost ps = config.page_size as int;
    let ghost d0 = finite_depth(pages, pps, ps, root);
    let ghost mut d = d0;
    let ghost rc = route_cached(pages, ps, pool@.table, root, key@, d0);
    let mut path: Vec<PathNode> = Vec::new();
    let mut page_id = root;
    proof {
        assert(pages_agree(pages, pool@, backend.contents()));
    }
    loop
        invariant
            pool.wf(),
            pool_ready(pool@, backend.contents()),
            pool@.page_size == pps,
            pps == old(pool)@.page_size,
            ps == config.page_size as int,
            pages == pool_pages(old(pool)@, old(backend).contents()),
            pages_agree(pages, pool@, backend.contents()),
            tree_finite(pages, pps, ps, page_id, d),
            d0 == finite_depth(pages, pps, ps, root),
            path@.len() + d <= d0,
            if path@.len() == 0 {
                page_id == root
            } else {
                path_view(path@)[0].page_id == root
            },
            route_links(pages, ps, key@, path_view(path@), page_id),
            forall|t: u64|
                #[trigger] pool@.table.contains_key(t) ==> old(pool)@.table.contains_key(t) || pages(PageId(t)) is Some,
            rc == route_cached(pages, ps, old(pool)@.table, root, key@, d0),
            rc ==> route_cached(pages, ps, old(pool)@.table, page_id, key@, d),
            rc ==> route_touched(pool@, pages, ps, page_id, key@, d) == route_touched(old(pool)@, pages, ps, root, key@, d0),
            rc ==> pool@.table == old(pool)@.table && backend.contents() == old(backend).contents(),
        decreases d,
    {
        let ghost data = pages(page_id).unwrap();
        let ghost vt = pool@.table;
        let ghost vp = pool@;
        let node = match load_node(page_id, pool, backend, config.page_size, "insert", Ghost(pages)) {
            Ok(n) => n,
            Err(e) => {
                return Err(e);
            },
        };
        proof {
            assert forall|t: u64| #[trigger] pool@.table.contains_key(t) implies old(pool)@.table.contains_key(t)
                || pages(PageId(t)) is Some by {
                if t == page_id.0 {
                    assert(PageId(t) == page_id);
                } else {
                    assert(vt.contains_key(t));
                }
            }
        }
        match node {
            Node::Interior(interior) => {
                let ghost iv = interior@;
                proof {
                    crate::btree::cursor::lemma_interior_cells_bounded(data, ps);
                }
                let pos = iupper_bound(interior.cells.as_slice(), key);
                let child = if pos < interior.cells.len() {
                    interior.cells[pos].left_child
                } else {
                    interior.right_child
                };
                proof {
                    assert(child == child_or_right(iv.cells, iv.right_child, pos as int));
                    assert(tree_finite(pages, pps, ps, child, (d - 1) as nat));
                    if rc {
                        assert(interior_sorted(iv.cells));
                        assert(route_pos(iv.cells, key@, route_index(iv.cells, key@)));
                        crate::btree::cursor::lemma_route_pos_unique(iv.cells, key@, pos as int, route_index(iv.cells, key@));
                        assert(pool@ == hit_view(vp, page_id));
                    }
                }
                let ghost prev = path_view(path@);
                let node = PathNode {
                    page_id,
                    cells: interior.cells,
                    right_child: interior.right_child,
                    child_index: pos,
                };
                path.push(node);
                proof {
                    let pv = path_view(path@);
                    assert(pv =~= prev.push(node@));
                    assert(node@.cells == iv.cells);
                    assert forall|k: int| 0 <= k < pv.len() implies {
                        &&& pages((#[trigger] pv[k]).page_id) is Some
                        &&& read_node(pages(pv[k].page_id).unwrap(), ps) matches NodeRead::Interior(jv)
                            && jv.cells == pv[k].cells && jv.right_child == pv[k].right_child
                        &&& 0 <= pv[k].child_index <= pv[k].cells.len()
                        &&& interior_sorted(pv[k].cells) ==> route_pos(pv[k].cells, key@, pv[k].child_index)
                        &&& child_or_right(pv[k].cells, pv[k].right_child, pv[k].child_index) == if k + 1
                            < pv.len() {
                            pv[k + 1].page_id
                        } else {
                            child
                        }
                    } by {
                        if k < prev.len() {
                            assert(pv[k] == prev[k]);
                            if k + 1 == prev.len() {
                                assert(pv[k + 1] == node@);
                            } else {
                                assert(pv[k + 1] == prev[k + 1]);
                            }
                        }
                    }
                    d = (d - 1) as nat;
                }
                page_id = child;
            },
            Node::Leaf(leaf) => {
                proof {
                    assert(read_node(data, ps) == NodeRead::Leaf(leaf@));
                    assert(d >= 1);
                    assert(tree_finite(pages, pps, ps, page_id, 1));
                }
                return Ok((path, page_id, leaf));
            },
        }
    }
}

/// What an insert did: the new root, the pages written (in id order) and
/// replaced, the cell that had the key before, and the pages' contents.
pub struct InsertOutcome {
    /// The root of the new tree.
    pub new_root: PageId,
    /// The pages written, all with fresh ids.
    pub new_pages: Vec<PageId>,
    /// The pages of the old tree that the new tree no longer uses.
    pub freed_pages: Vec<PageId>,
    /// The leaf and interior pages written, and what was replaced.
    pub plan: InsertPlan,
}

/// The leaf pages of `leaves` hold, through the pool over medium `c`, the
/// images of their cells and links, written by transaction `txn_id`.
pub open spec fn leaves_written(
    v: crate::buffer_pool::BufferPoolView,
    c: Seq<u8>,
    leaves: Seq<NewLeaf>,
    txn_id: u64,
    page_size: int,
) -> bool {
    forall|k: int|
        0 <= k < leaves.len() ==> (page_image(v, c, (#[trigger] leaves[k]).page_id) matches Some(img) && leaf_image(
            img,
            leaves[k].page_id,
            txn_id,
            cells_view(leaves[k].cells@),
            leaves[k].next_leaf,
            leaves[k].prev_leaf,
            page_size,
        ))
}

/// The interior pages of `nodes` hold, through the pool over medium `c`,
/// the images of their cells and right children.
pub open spec fn interiors_written(
    v: crate::buffer_pool::BufferPoolView,
    c: Seq<u8>,
    nodes: Seq<NewInterior>,
    txn_id: u64,
    page_size: int,
) -> bool {
    forall|k: int|
        0 <= k < nodes.len() ==> (page_image(v, c, (#[trigger] nodes[k]).page_id) matches Some(img)
            && interior_image(img, nodes[k].page_id, txn_id, icells_view(nodes[k].cells@), nodes[k].right_child, page_size))
}

/// The ids `n0`, `n0 + 1`, ... of `count` fresh pages.
pub open spec fn fresh_ids(n0: int, count: int) -> Seq<PageId> {
    Seq::new(count as nat, |k: int| PageId((n0 + k) as u64))
}

/// The depth bound of the tree at `root` (none for an empty tree).
pub open spec fn tree_depth(pages: spec_fn(PageId) -> Option<Seq<u8>>, pool_page_size: int, page_size: int, root: PageId) -> int {
    if root.0 == 0 {
        0
    } else {
        finite_depth(pages, pool_page_size, page_size, root) as int
    }
}

proof fn lemma_offsets(n0: int, k: int, bound: int, ps: int)
    requires
        0 <= k < bound,
        0 <= n0,
        1 <= ps,
        (n0 + bound) * ps <= usize::MAX,
    ensures
        (n0 + k) * ps + ps <= usize::MAX,
        n0 + bound <= usize::MAX,
{
    assert((n0 + k) * ps + ps <= (n0 + bound) * ps) by (nonlinear_arith)
        requires
            0 <= k < bound,
            0 <= n0,
            1 <= ps,
    ;
    assert(n0 + bound <= (n0 + bound) * ps) by (nonlinear_arith)
        requires
            0 <= n0 + bound,
            1 <= ps,
    ;
}

/// The page ids of a plan run from `n0`: its leaves first, then its
/// interior pages, and the next free id follows them; at most `bound`
/// pages.
pub open spec fn plan_ids(plan: InsertPlan, n0: int, next: int, bound: int) -> bool {
    let nl = plan.leaves@.len() as int;
    let ni = plan.interiors@.len() as int;
    &&& 1 <= nl <= 2
    &&& forall|k: int| 0 <= k < nl ==> (#[trigger] plan.leaves@[k]).page_id == PageId((n0 + k) as u64)
    &&& forall|k: int| 0 <= k < ni ==> (#[trigger] plan.interiors@[k]).page_id == PageId((n0 + nl + k) as u64)
    &&& next == n0 + nl + ni
    &&& nl + ni <= bound
}

/// What the plan of an insert of `cell` into the tree at `root`, over the
/// pages `pages` holds, is: a single-cell leaf for an empty tree, else the
/// plan along the key's route.
#[verifier::opaque]
pub open spec fn insert_planned(
    pages: spec_fn(PageId) -> Option<Seq<u8>>,
    ps: int,
    root: PageId,
    cell: LeafCellView,
    n0: int,
    plan: InsertPlan,
    next: int,
) -> bool {
    &&& root.0 == 0 ==> {
        &&& plan.leaves@.len() == 1
        &&& plan.leaves@[0].page_id == PageId(n0 as u64)
        &&& cells_view(plan.leaves@[0].cells@) == seq![cell]
        &&& plan.leaves@[0].next_leaf == PageId(0)
        &&& plan.leaves@[0].prev_leaf == PageId(0)
        &&& plan.interiors@.len() == 0
        &&& plan.freed@.len() == 0
        &&& plan.replaced is None
        &&& plan.new_root == PageId(n0 as u64)
    }
    &&& root.0 != 0 ==> exists|path: Seq<PathNodeView>, leaf_id: PageId, leaf: LeafPageView|
        #[trigger] key_route(pages, ps, root, cell.key, path, leaf_id, leaf) && planned(
            path,
            leaf_id,
            leaf,
            cell,
            n0,
            ps,
            plan,
            next,
        )
}

/// Every leaf of the plan fits a page of `page_size` bytes.
pub open spec fn leaves_fit(plan: InsertPlan, page_size: int) -> bool {
    forall|j: int| 0 <= j < plan.leaves@.len() ==> leaf_fits(cells_view((#[trigger] plan.leaves@[j]).cells@), page_size)
}

/// Every page of the plan fits a page of `page_size` bytes.
pub open spec fn plan_fits(plan: InsertPlan, page_size: int) -> bool {
    &&& leaves_fit(plan, page_size)
    &&& forall|j: int|
        0 <= j < plan.interiors@.len() ==> interior_fits(icells_view((#[trigger] plan.interiors@[j]).cells@), page_size)
}

/// Reads the route of the cell's key and plans the insert.
#[verifier::rlimit(100)]
#[verifier::spinoff_prover]
fn make_plan<B: ReadAt + WriteAt + Durability>(
    pool: &mut BufferPool,
    backend: &mut B,
    next_page: &mut u64,
    root: PageId,
    cell: LeafCell,
    config: &BTreeConfig,
) -> (r: Result<InsertPlan, StorageError>)
    requires
        old(pool).wf(),
        pool_ready(old(pool)@, old(backend).contents()),
        root.0 != 0 ==> page_finite(
            pool_pages(old(pool)@, old(backend).contents()),
            old(pool)@.page_size,
            config.page_size as int,
            root,
        ),
        (*old(next_page) + 2 * tree_depth(
            pool_pages(old(pool)@, old(backend).contents()),
            old(pool)@.page_size,
            config.page_size as int,
            root,
        ) + 3) * config.page_size <= usize::MAX,
        1 <= config.page_size,
        config.page_size + 16 + leaf_cell_size(cell@) <= usize::MAX,
    ensures
        final(pool).wf(),
        root.0 == 0 ==> (r matches Ok(plan) && plan.leaves@.len() == 1 && plan.interiors@.len() == 0 && cells_view(
            plan.leaves@[0].cells@,
        ) == seq![cell@] && final(pool)@ == old(pool)@ && final(backend).contents() == old(backend).contents()),
        ({
            let pages = pool_pages(old(pool)@, old(backend).contents());
            let d0 = finite_depth(pages, old(pool)@.page_size, config.page_size as int, root);
            root.0 != 0 && route_cached(pages, config.page_size as int, old(pool)@.table, root, cell@.key, d0) ==> (
            r is Ok && final(pool)@ == route_touched(old(pool)@, pages, config.page_size as int, root, cell@.key, d0)
                && final(backend).contents() == old(backend).contents())
        }),
        r matches Ok(plan) ==> {
            let pages = pool_pages(old(pool)@, old(backend).contents());
            let depth = tree_depth(pages, old(pool)@.page_size, config.page_size as int, root);
            &&& final(pool).wf()
            &&& pool_ready(final(pool)@, final(backend).contents())
            &&& final(pool)@.page_size == old(pool)@.page_size
            &&& pages_agree(pages, final(pool)@, final(backend).contents())
            &&& plan_ids(plan, *old(next_page) as int, *final(next_page) as int, 2 * depth + 3)
            &&& forall|t: u64|
                #[trigger] final(pool)@.table.contains_key(t) ==> old(pool)@.table.contains_key(t) || pages(
                    PageId(t),
                ) is Some
            &&& insert_planned(
                pages,
                config.page_size as int,
                root,
                cell@,
                *old(next_page) as int,
                plan,
                *final(next_page) as int,
            )
        },
{
    let ghost pages = pool_pages(pool@, backend.contents());
    let ghost n0 = *next_page as int;
    let ghost ps = config.page_size as int;
    let ghost depth = tree_depth(pages, pool@.page_size, ps, root);
    let ghost cv = cell@;
    proof {
        reveal(insert_planned);
    }
    if root.is_null() {
        proof {
            lemma_offsets(n0, 0, 2 * depth + 3, ps);
            assert(pages_agree(pages, pool@, backend.contents()));
        }
        let id = PageId(*next_page);
        *next_page = *next_page + 1;
        let mut cells: Vec<LeafCell> = Vec::new();
        cells.push(cell);
        let mut leaves: Vec<NewLeaf> = Vec::new();
        leaves.push(NewLeaf { page_id: id, cells, next_leaf: PageId::null(), prev_leaf: PageId::null() });
        proof {
            assert(cells_view(leaves@[0].cells@) =~= seq![cv]);
        }
        return Ok(InsertPlan { new_root: id, leaves, interiors: Vec::new(), freed: Vec::new(), replaced: None });
    }
    let key = cell.key.as_slice();
    let (path, leaf_id, leaf) = match load_path(root, key, pool, backend, config) {
        Ok(x) => x,
        Err(e) => {
            return Err(e);
        },
    };
    if leaf_space_check(leaf.cells.as_slice(), config.page_size).is_none() {
        return Err(StorageError::new("leaf page overflow"));
    }
    let ghost pv = path_view(path@);
    proof {
        assert(cells_view(leaf.cells@) == leaf@.cells);
        lemma_offsets(n0, 0, 2 * depth + 3, ps);
        assert forall|k: int| 0 <= k < pv.len() implies 0 <= (#[trigger] pv[k]).child_index <= pv[k].cells.len() by {
            assert(route_links(pages, ps, cv.key, pv, leaf_id));
        }
    }
    let plan = plan_insert(path.as_slice(), leaf_id, leaf, cell, next_page, config.page_size);
    proof {
        assert(key_route(pages, ps, root, cv.key, pv, leaf_id, leaf@));
        let lc = crate::btree::insert::planned_cells(plan.leaves@);
        if plan.leaves@.len() == 1 {
            lemma_cow_up_ids(pv, pv.len() as int, PageId(n0 as u64), n0 + 1);
            assert forall|k: int| 0 <= k < plan.interiors@.len() implies (#[trigger] plan.interiors@[k]).page_id
                == PageId((n0 + 1 + k) as u64) by {
                assert(new_views(plan.interiors@)[k].page_id == plan.interiors@[k].page_id);
            }
        } else {
            let mid = lc.len() / 2;
            lemma_split_up_ids(
                pv,
                pv.len() as int,
                lc[mid as int].key,
                PageId(n0 as u64),
                PageId((n0 + 1) as u64),
                n0 + 2,
                ps,
            );
            assert forall|k: int| 0 <= k < plan.interiors@.len() implies (#[trigger] plan.interiors@[k]).page_id
                == PageId((n0 + 2 + k) as u64) by {
                assert(new_views(plan.interiors@)[k].page_id == plan.interiors@[k].page_id);
            }
        }
    }
    Ok(plan)
}

/// The page images of a plan's leaves and interior pages, in that order,
/// written by transaction `txn_id` with pages of `page_size` bytes.
fn build_images(plan: &InsertPlan, txn_id: u64, page_size: usize) -> (r: Result<Vec<(PageId, Vec<u8>)>, StorageError>)
    ensures
        r is Ok <==> plan_fits(*plan, page_size as int),
        r matches Err(e) ==> if leaves_fit(*plan, page_size as int) {
            e.message@ == "interior page overflow"@
        } else {
            e.message@ == "leaf page overflow"@
        },
        r matches Ok(images) ==> {
            let nl = plan.leaves@.len() as int;
            &&& images@.len() == nl + plan.interiors@.len()
            &&& forall|j: int| 0 <= j < nl ==> (#[trigger] images@[j]).0 == plan.leaves@[j].page_id && leaf_image(
                images@[j].1@,
                plan.leaves@[j].page_id,
                txn_id,
                cells_view(plan.leaves@[j].cells@),
                plan.leaves@[j].next_leaf,
                plan.leaves@[j].prev_leaf,
                page_size as int,
            )
            &&& forall|j: int| 0 <= j < plan.interiors@.len() ==> (#[trigger] images@[nl + j]).0
                == plan.interiors@[j].page_id && interior_image(
                images@[nl + j].1@,
                plan.interiors@[j].page_id,
                txn_id,
                icells_view(plan.interiors@[j].cells@),
                plan.interiors@[j].right_child,
                page_size as int,
            )
        },
{
    let ghost ps = page_size as int;
    let ghost nl = plan.leaves@.len() as int;
    let mut images: Vec<(PageId, Vec<u8>)> = Vec::new();
    let mut k: usize = 0;
    while k < plan.leaves.len()
        invariant
            k <= plan.leaves@.len() == nl,
            ps == page_size as int,
            images@.len() == k,
            forall|j: int| 0 <= j < k ==> leaf_fits(cells_view((#[trigger] plan.leaves@[j]).cells@), ps),
            forall|j: int| 0 <= j < k ==> (#[trigger] images@[j]).0 == plan.leaves@[j].page_id && leaf_image(
                images@[j].1@,
                plan.leaves@[j].page_id,
                txn_id,
                cells_view(plan.leaves@[j].cells@),
                plan.leaves@[j].next_leaf,
                plan.leaves@[j].prev_leaf,
                ps,
            ),
        decreases plan.leaves@.len() - k,
    {
        let l = &plan.leaves[k];
        let bytes = match LeafPage::build(l.page_id, txn_id, l.cells.as_slice(), l.next_leaf, l.prev_leaf, page_size) {
            Ok(b) => b,
            Err(e) => {
                return Err(e);
            },
        };
        let ghost before = images@;
        let ghost bv = bytes@;
        images.push((l.page_id, bytes));
        proof {
            assert(images@[k as int].1@ == bv);
            assert(images@[k as int].0 == plan.leaves@[k as int].page_id);
            assert forall|j: int| 0 <= j < k implies #[trigger] images@[j] == before[j] by {}
        }
        k = k + 1;
    }
    let mut m: usize = 0;
    while m < plan.interiors.len()
        invariant
            m <= plan.interiors@.len(),
            ps == page_size as int,
            plan.leaves@.len() == nl,
            leaves_fit(*plan, ps),
            forall|j: int| 0 <= j < m ==> interior_fits(icells_view((#[trigger] plan.interiors@[j]).cells@), ps),
            images@.len() == nl + m,
            forall|j: int| 0 <= j < nl ==> (#[trigger] images@[j]).0 == plan.leaves@[j].page_id && leaf_image(
                images@[j].1@,
                plan.leaves@[j].page_id,
                txn_id,
                cells_view(plan.leaves@[j].cells@),
                plan.leaves@[j].next_leaf,
                plan.leaves@[j].prev_leaf,
                ps,
            ),
            forall|j: int| 0 <= j < m ==> (#[trigger] images@[nl + j]).0 == plan.interiors@[j].page_id
                && interior_image(
                images@[nl + j].1@,
                plan.interiors@[j].page_id,
                txn_id,
                icells_view(plan.interiors@[j].cells@),
                plan.interiors@[j].right_child,
                ps,
            ),
        decreases plan.interiors@.len() - m,
    {
        let node = &plan.interiors[m];
        let bytes = match InteriorPage::build(node.page_id, txn_id, node.cells.as_slice(), node.right_child, page_size) {
            Ok(b) => b,
            Err(e) => {
                return Err(e);
            },
        };
        let ghost before = images@;
        let ghost bv = bytes@;
        images.push((node.page_id, bytes));
        proof {
            assert(images@[nl + m].1@ == bv);
            assert(images@[nl + m].0 == plan.interiors@[m as int].page_id);
            assert forall|j: int| 0 <= j < nl + m implies images@[j] == before[j] by {}
            assert forall|j: int| 0 <= j < m implies #[trigger] images@[nl + j] == before[nl + j] by {}
        }
        m = m + 1;
    }
    Ok(images)
}

/// Inserts `key` with `value` into the B-tree at `root` (page id 0 for an
/// empty tree) by copy on write: the leaf the key routes to gets the new
/// cell (replacing a cell with the same key), splitting when it overflows,
/// and every page on the way up is rewritten to a fresh page, allocated
/// from `next_page`. Returns the new root, the pages written and replaced,
/// and what they hold.
///
/// Fails when a page cannot be read or parsed, when the leaf read is
/// larger than its page, when a page built does not fit (`leaf page
/// overflow` or `interior page overflow`), and when the pool cannot give a
/// frame.
#[verifier::rlimit(80)]
pub fn btree_insert<B: ReadAt + WriteAt + Durability>(
    pool: &mut BufferPool,
    backend: &mut B,
    next_page: &mut u64,
    root: PageId,
    key: &[u8],
    value: LeafCellValue,
    txn_id: u64,
    config: &BTreeConfig,
) -> (r: Result<InsertOutcome, StorageError>)
    requires
        old(pool).wf(),
        pool_ready(old(pool)@, old(backend).contents()),
        config.page_size as int == old(pool)@.page_size,
        root.0 != 0 ==> page_finite(
            pool_pages(old(pool)@, old(backend).contents()),
            old(pool)@.page_size,
            config.page_size as int,
            root,
        ),
        1 <= *old(next_page),
        forall|t: u64| #[trigger] old(pool)@.table.contains_key(t) ==> t < *old(next_page),
        forall|q: PageId|
            q.0 != 0 && #[trigger] page_image(old(pool)@, old(backend).contents(), q) is Some ==> q.0 < *old(next_page),
        (*old(next_page) + 2 * tree_depth(
            pool_pages(old(pool)@, old(backend).contents()),
            old(pool)@.page_size,
            config.page_size as int,
            root,
        ) + 3) * config.page_size <= usize::MAX,
        config.page_size + 16 + leaf_cell_size(LeafCellView { key: key@, value: value@ }) <= usize::MAX,
    ensures
        final(pool).wf(),
        root.0 == 0 && !leaf_fits(seq![LeafCellView { key: key@, value: value@ }], config.page_size as int) ==> (r matches Err(
            e,
        ) && e.message@ == "leaf page overflow"@ && final(pool)@ == old(pool)@ && final(backend).contents() == old(
            backend,
        ).contents()),
        root.0 == 0 && leaf_fits(seq![LeafCellView { key: key@, value: value@ }], config.page_size as int) && (
        pool_victim(old(pool)@) matches Some((w, fr)) && !fr[w].dirty) ==> r is Ok,
        ({
            let pages = pool_pages(old(pool)@, old(backend).contents());
            let ps = config.page_size as int;
            let d0 = finite_depth(pages, old(pool)@.page_size, ps, root);
            let cv = LeafCellView { key: key@, value: value@ };
            let n0 = *old(next_page) as int;
            let vt = route_touched(old(pool)@, pages, ps, root, key@, d0);
            root.0 != 0 && route_cached(pages, ps, old(pool)@.table, root, key@, d0) ==> {
                &&& (forall|plan: InsertPlan, nx: int|
                    #[trigger] insert_planned(pages, ps, root, cv, n0, plan, nx) ==> plan_fits(plan, ps) && clean_writes(
                        vt,
                        (plan.leaves@.len() + plan.interiors@.len()) as nat,
                    )) ==> r is Ok
                &&& (forall|plan: InsertPlan, nx: int|
                    #[trigger] insert_planned(pages, ps, root, cv, n0, plan, nx) ==> !leaves_fit(plan, ps)) ==> (r matches Err(
                    e,
                ) && e.message@ == "leaf page overflow"@)
                &&& (forall|plan: InsertPlan, nx: int|
                    #[trigger] insert_planned(pages, ps, root, cv, n0, plan, nx) ==> leaves_fit(plan, ps) && !plan_fits(
                        plan,
                        ps,
                    )) ==> (r matches Err(e) && e.message@ == "interior page overflow"@)
                &&& (forall|plan: InsertPlan, nx: int|
                    #[trigger] insert_planned(pages, ps, root, cv, n0, plan, nx) ==> plan_fits(plan, ps)) && pool_victim(
                    vt,
                ) is None ==> (r matches Err(e) && e.message@ == "buffer pool exhausted: all frames are pinned"@)
            }
        }),
        r matches Ok(o) ==> {
            let n0 = *old(next_page) as int;
            let ps = config.page_size as int;
            &&& final(pool).wf()
            &&& plan_fits(o.plan, ps)
            &&& pool_ready(final(pool)@, final(backend).contents())
            &&& o.new_root == o.plan.new_root
            &&& o.freed_pages@ == o.plan.freed@
            &&& o.new_pages@ == fresh_ids(n0, *final(next_page) - n0)
            &&& *final(next_page) - n0 == o.plan.leaves@.len() + o.plan.interiors@.len()
            &&& leaves_written(final(pool)@, final(backend).contents(), o.plan.leaves@, txn_id, ps)
            &&& interiors_written(final(pool)@, final(backend).contents(), o.plan.interiors@, txn_id, ps)
            &&& forall|q: PageId|
                q.0 != 0 && !o.new_pages@.contains(q) && page_image(old(pool)@, old(backend).contents(), q) is Some
                    ==> #[trigger] page_image(final(pool)@, final(backend).contents(), q) == page_image(
                    old(pool)@,
                    old(backend).contents(),
                    q,
                )
            &&& insert_planned(
                pool_pages(old(pool)@, old(backend).contents()),
                ps,
                root,
                LeafCellView { key: key@, value: value@ },
                n0,
                o.plan,
                *final(next_page) as int,
            )
        },
{
    let ghost pages = pool_pages(pool@, backend.contents());
    let ghost v0 = pool@;
    let ghost c0 = backend.contents();
    let ghost n0 = *next_page as int;
    let ghost ps = config.page_size as int;
    let ghost depth = tree_depth(pages, v0.page_size, ps, root);
    let cell = LeafCell { key: crate::codec::copy_range(key, 0, key.len()), value };
    proof {
        assert(key@.subrange(0, key@.len() as int) =~= key@);
    }
    let plan = match make_plan(pool, backend, next_page, root, cell, config) {
        Ok(p) => p,
        Err(e) => {
            return Err(e);
        },
    };
    let images = match build_images(&plan, txn_id, config.page_size) {
        Ok(i) => i,
        Err(e) => {
            return Err(e);
        },
    };
    let ghost nl = plan.leaves@.len() as int;
    let ghost ni = plan.interiors@.len() as int;
    let ghost v1 = pool@;
    let ghost c1 = backend.contents();
    proof {
        assert forall|j: int| 0 <= j < images@.len() implies (#[trigger] images@[j]).0 == PageId((n0 + j) as u64) by {
            if j >= nl {
                let t = j - nl;
                assert(images@[nl + t] == images@[j]);
            }
        }
        assert forall|j: int| 0 <= j < images@.len() implies {
            &&& (#[trigger] images@[j]).0.0 != 0
            &&& !v1.table.contains_key(images@[j].0.0)
            &&& page_offset(images@[j].0, v1.page_size) + v1.page_size <= usize::MAX
            &&& images@[j].1@.len() == v1.page_size
        } by {
            lemma_offsets(n0, j, 2 * depth + 3, ps);
            if j >= nl {
                let t = j - nl;
                assert(images@[nl + t] == images@[j]);
            }
            if v1.table.contains_key(images@[j].0.0) {
                let t = images@[j].0.0;
                if !v0.table.contains_key(t) {
                    assert(pages(PageId(t)) is Some);
                    assert(page_image(v0, c0, PageId(t)) is Some);
                }
            }
        }
        assert forall|a: int, b: int| 0 <= a < b < images@.len() implies (#[trigger] images@[a]).0 != (
        #[trigger] images@[b]).0 by {
            lemma_offsets(n0, b, 2 * depth + 3, ps);
        }
    }
    proof {
        let vt = route_touched(v0, pages, ps, root, key@, finite_depth(pages, v0.page_size, ps, root));
        if root.0 != 0 && route_cached(pages, ps, v0.table, root, key@, finite_depth(pages, v0.page_size, ps, root)) {
            assert(v1 == vt);
            if clean_writes(vt, (nl + ni) as nat) {
                assert(same_flags(vt.frames, vt.frames));
                lemma_clean_writes_run(vt, vt, pages_view(images@));
            }
        }
        if root.0 == 0 && (pool_victim(v0) matches Some((w, fr)) && !fr[w].dirty) {
            assert(pages_view(images@).len() == 1);
            let pv = pages_view(images@);
            assert(pv.drop_first().len() == 0);
            assert(clean_run(written_view(v1, pv[0].0, pv[0].1), pv.drop_first()));
            assert(clean_run(v1, pv));
        }
    }
    match write_new_pages(pool, backend, images.as_slice()) {
        Ok(()) => {},
        Err(e) => {
            return Err(e);
        },
    }
    let mut new_pages: Vec<PageId> = Vec::new();
    let mut k: usize = 0;
    while k < images.len()
        invariant
            k <= images@.len(),
            new_pages@ == fresh_ids(n0, k as int),
            forall|j: int| 0 <= j < images@.len() ==> (#[trigger] images@[j]).0 == PageId((n0 + j) as u64),
        decreases images@.len() - k,
    {
        new_pages.push(images[k].0);
        proof {
            assert(new_pages@ =~= fresh_ids(n0, k + 1));
        }
        k = k + 1;
    }
    proof {
        assert forall|j: int| 0 <= j < nl implies (page_image(
            pool@,
            backend.contents(),
            (#[trigger] plan.leaves@[j]).page_id,
        ) matches Some(img) && leaf_image(
            img,
            plan.leaves@[j].page_id,
            txn_id,
            cells_view(plan.leaves@[j].cells@),
            plan.leaves@[j].next_leaf,
            plan.leaves@[j].prev_leaf,
            ps,
        )) by {
            assert(images@[j].0 == plan.leaves@[j].page_id);
        }
        assert forall|j: int| 0 <= j < ni implies (page_image(
            pool@,
            backend.contents(),
            (#[trigger] plan.interiors@[j]).page_id,
        ) matches Some(img) && interior_image(
            img,
            plan.interiors@[j].page_id,
            txn_id,
            icells_view(plan.interiors@[j].cells@),
            plan.interiors@[j].right_child,
            ps,
        )) by {
            assert(images@[nl + j].0 == plan.interiors@[j].page_id);
        }
        assert forall|q: PageId|
            q.0 != 0 && !new_pages@.contains(q) && page_image(v0, c0, q) is Some implies #[trigger] page_image(
            pool@,
            backend.contents(),
            q,
        ) == page_image(v0, c0, q) by {
            assert(page_image(v1, c1, q) == page_image(v0, c0, q));
            assert forall|j: int| 0 <= j < images@.len() implies (#[trigger] images@[j]).0 != q by {
                assert(new_pages@[j] == images@[j].0);
            }
        }
    }
    let freed_pages = copy_ids(&plan.freed);
    Ok(InsertOutcome { new_root: plan.new_root, new_pages, freed_pages, plan })
}

fn copy_ids(ids: &Vec<PageId>) -> (r: Vec<PageId>)
    ensures
        r@ == ids@,
{
    let mut r: Vec<PageId> = Vec::new();
    let mut i: usize = 0;
    while i < ids.len()
        invariant
            i <= ids@.len(),
            r@ == ids@.subrange(0, i as int),
        decreases ids@.len() - i,
    {
        r.push(ids[i]);
        proof {
            assert(r@ =~= ids@.subrange(0, i + 1));
        }
        i = i + 1;
    }
    proof {
        assert(ids@.subrange(0, ids@.len() as int) =~= ids@);
    }
    r
}

} // verus!
