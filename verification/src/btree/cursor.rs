//! Leaf-level cursor for B-tree range scans.
//!
//! The cursor descends from the root to the leaf that holds the first key
//! at or above the start key, remembering the interior pages on the way.
//! When a leaf is used up it climbs that path to the next child and
//! descends to the leftmost leaf below it, rather than following leaf link
//! pointers, which may name stale pages in a copy-on-write tree.
//!
//! Pages are read through the buffer pool, so the cursor sees each page as
//! the pool shows it: the cached frame when there is one, else the bytes on
//! the medium.

use vstd::prelude::*;
use crate::backend::{Durability, ReadAt, WriteAt};
use crate::buffer_pool::{
    BufferPool, BufferPoolView, hit_view, page_image, page_offset, pins_below_max, pool_consistent,
};
use crate::error::StorageError;
use crate::keys::key_lt;
use crate::page::{PageId, PageType, page_type_from_byte, page_type_of};
use crate::page::interior::{
    InteriorCellView, InteriorPage, InteriorPageView, interior_sorted, iupper_bound, parse_interior,
    parse_interior_cells, route_pos,
};
use crate::page::leaf::{
    LeafCell, LeafCellValue, LeafCellView, LeafPage, LeafPageView, cells_view, clone_cell, clone_cells, leaf_sorted,
    lower_bound, parse_leaf,
};
use crate::text::{push_hex_digits, string_of};
use super::BTreeConfig;

verus! {

// ---------------------------------------------------------------------------
// The tree as seen through the pool
// ---------------------------------------------------------------------------

/// The pages as the pool over medium `c` shows them.
pub open spec fn pool_pages(v: BufferPoolView, c: Seq<u8>) -> spec_fn(PageId) -> Option<Seq<u8>> {
    |p: PageId| page_image(v, c, p)
}

/// The pool over medium `c` shows every non-null page that `pages` holds
/// as `pages` has it.
pub open spec fn pages_agree(pages: spec_fn(PageId) -> Option<Seq<u8>>, v: BufferPoolView, c: Seq<u8>) -> bool {
    forall|q: PageId| q.0 != 0 && pages(q) is Some ==> #[trigger] page_image(v, c, q) == pages(q)
}

/// The child at position `pos` of a node: the left child of cell `pos`, or
/// the right child past the last cell.
pub open spec fn child_or_right(cells: Seq<InteriorCellView>, right_child: PageId, pos: int) -> PageId {
    if pos < cells.len() {
        cells[pos].left_child
    } else {
        right_child
    }
}

/// Every path down from page `p` ends within `d` pages: each page on it is
/// non-null, addressable with pages of `pool_page_size` bytes, and present,
/// and the children of each interior page are again such trees.
pub open spec fn tree_finite(
    pages: spec_fn(PageId) -> Option<Seq<u8>>,
    pool_page_size: int,
    page_size: int,
    p: PageId,
    d: nat,
) -> bool
    decreases d,
{
    if d == 0 {
        false
    } else {
        &&& p.0 != 0
        &&& page_offset(p, pool_page_size) + pool_page_size <= usize::MAX
        &&& pages(p) is Some
        &&& match parse_interior(pages(p).unwrap(), page_size) {
            Some(iv) => forall|k: int|
                0 <= k <= iv.cells.len() ==> tree_finite(
                    pages,
                    pool_page_size,
                    page_size,
                    #[trigger] child_or_right(iv.cells, iv.right_child, k),
                    (d - 1) as nat,
                ),
            None => true,
        }
    }
}

/// The tree below page `p` is finite.
pub open spec fn page_finite(
    pages: spec_fn(PageId) -> Option<Seq<u8>>,
    pool_page_size: int,
    page_size: int,
    p: PageId,
) -> bool {
    exists|d: nat| tree_finite(pages, pool_page_size, page_size, p, d)
}

/// A depth within which every path down from `p` ends.
pub open spec fn finite_depth(
    pages: spec_fn(PageId) -> Option<Seq<u8>>,
    pool_page_size: int,
    page_size: int,
    p: PageId,
) -> nat {
    choose|d: nat| tree_finite(pages, pool_page_size, page_size, p, d)
}

/// What a page's bytes hold, by the type byte of its header.
pub enum NodeRead {
    /// An interior page.
    Interior(InteriorPageView),
    /// A leaf page.
    Leaf(LeafPageView),
    /// A page of another or unknown type, or one that does not parse.
    Fail,
}

/// The node that `data` holds.
pub open spec fn read_node(data: Seq<u8>, page_size: int) -> NodeRead {
    match page_type_of(data[8]) {
        Some(PageType::Interior) => match parse_interior(data, page_size) {
            Some(iv) => NodeRead::Interior(iv),
            None => NodeRead::Fail,
        },
        Some(PageType::Leaf) => match parse_leaf(data, page_size) {
            Some(lv) => NodeRead::Leaf(lv),
            None => NodeRead::Fail,
        },
        _ => NodeRead::Fail,
    }
}

/// The position of the child to follow for `key` among sorted separators.
pub open spec fn route_index(cells: Seq<InteriorCellView>, key: Seq<u8>) -> int {
    choose|pos: int| route_pos(cells, key, pos)
}

/// `i` splits sorted leaf cells into those below `key` and the rest.
pub open spec fn lower_pos(cells: Seq<LeafCellView>, key: Seq<u8>, i: int) -> bool {
    &&& 0 <= i <= cells.len()
    &&& forall|j: int| 0 <= j < i ==> key_lt(#[trigger] cells[j].key, key)
    &&& forall|j: int| i <= j < cells.len() ==> !key_lt(#[trigger] cells[j].key, key)
}

/// The index of the first leaf cell at or above `key`.
pub open spec fn lower_index(cells: Seq<LeafCellView>, key: Seq<u8>) -> int {
    choose|i: int| lower_pos(cells, key, i)
}

/// A cursor's path: for each interior page from the root down, the page,
/// the position of the child taken and the number of children.
pub type PathView = Seq<(PageId, int, int)>;

/// Where a seek for a start key ends.
pub enum Seek {
    /// At leaf cells, with the path to them and the index of the first
    /// cell at or above the key.
    Found(PathView, Seq<LeafCellView>, int),
    /// At a page that is not a node or does not parse.
    Fail,
    /// At a node whose keys are out of order, where no position is
    /// promised.
    Open,
}

/// The seek for `key` from page `p` with path `path` so far, within `d`
/// pages.
pub open spec fn seek(
    pages: spec_fn(PageId) -> Option<Seq<u8>>,
    page_size: int,
    p: PageId,
    key: Seq<u8>,
    path: PathView,
    d: nat,
) -> Seek
    decreases d,
{
    if d == 0 || pages(p) is None {
        Seek::Open
    } else {
        match read_node(pages(p).unwrap(), page_size) {
            NodeRead::Interior(iv) => if interior_sorted(iv.cells) {
                let pos = route_index(iv.cells, key);
                seek(
                    pages,
                    page_size,
                    child_or_right(iv.cells, iv.right_child, pos),
                    key,
                    path.push((p, pos, iv.cells.len() + 1int)),
                    (d - 1) as nat,
                )
            } else {
                Seek::Open
            },
            NodeRead::Leaf(lv) => if leaf_sorted(lv.cells) {
                Seek::Found(path, lv.cells, lower_index(lv.cells, key))
            } else {
                Seek::Open
            },
            NodeRead::Fail => Seek::Fail,
        }
    }
}

/// The seek for `key` from page `p` down, within `d` pages, runs through
/// pages that the pool (page table `table`) holds, each interior page with
/// ascending separators, down to a leaf.
pub open spec fn seek_cached(
    pages: spec_fn(PageId) -> Option<Seq<u8>>,
    page_size: int,
    table: Map<u64, usize>,
    p: PageId,
    key: Seq<u8>,
    d: nat,
) -> bool
    decreases d,
{
    if d == 0 {
        false
    } else {
        &&& p.0 != 0
        &&& table.contains_key(p.0)
        &&& pages(p) is Some
        &&& match read_node(pages(p).unwrap(), page_size) {
            NodeRead::Interior(iv) => interior_sorted(iv.cells) && seek_cached(
                pages,
                page_size,
                table,
                child_or_right(iv.cells, iv.right_child, route_index(iv.cells, key)),
                key,
                (d - 1) as nat,
            ),
            NodeRead::Leaf(_) => true,
            NodeRead::Fail => false,
        }
    }
}

/// Where a descent to the next leaf ends.
pub enum Descent {
    /// At a leaf's cells, with the path to them.
    Loaded(PathView, Seq<LeafCellView>),
    /// Past the last leaf.
    Exhausted,
    /// At a page that is not a node or does not parse.
    Fail,
    /// At a page that is not there.
    Open,
}

/// The descent from page `p` to its leftmost leaf, with path `path` so far,
/// within `d` pages.
pub open spec fn descend(
    pages: spec_fn(PageId) -> Option<Seq<u8>>,
    page_size: int,
    p: PageId,
    path: PathView,
    d: nat,
) -> Descent
    decreases d,
{
    if d == 0 || pages(p) is None {
        Descent::Open
    } else {
        match read_node(pages(p).unwrap(), page_size) {
            NodeRead::Interior(iv) => descend(
                pages,
                page_size,
                child_or_right(iv.cells, iv.right_child, 0),
                path.push((p, 0int, iv.cells.len() + 1int)),
                (d - 1) as nat,
            ),
            NodeRead::Leaf(lv) => Descent::Loaded(path, lv.cells),
            NodeRead::Fail => Descent::Fail,
        }
    }
}

/// The move to the next leaf from path `path`: up to the nearest page with
/// a child after the one taken, then down to the leftmost leaf below that
/// child.
pub open spec fn advance(
    pages: spec_fn(PageId) -> Option<Seq<u8>>,
    pool_page_size: int,
    page_size: int,
    path: PathView,
) -> Descent
    decreases path.len(),
{
    if path.len() == 0 {
        Descent::Exhausted
    } else {
        let (pg, ci, nc) = path.last();
        if ci + 1 < nc {
            match pages(pg) {
                None => Descent::Open,
                Some(data) => match parse_interior(data, page_size) {
                    None => Descent::Fail,
                    Some(iv) => {
                        let child = child_or_right(iv.cells, iv.right_child, ci + 1);
                        descend(
                            pages,
                            page_size,
                            child,
                            path.update(path.len() - 1, (pg, ci + 1, nc)),
                            finite_depth(pages, pool_page_size, page_size, child),
                        )
                    },
                },
            }
        } else {
            advance(pages, pool_page_size, page_size, path.drop_last())
        }
    }
}

/// The most leaves without cells that one step of a cursor passes over
/// before it gives up.
pub open spec fn skip_limit() -> nat {
    u64::MAX as nat
}

/// The move to the next leaf that has cells: moves to the next leaf, and
/// past it again while it has none, at most `fuel` times over (`Open` when
/// the fuel runs out).
pub open spec fn advance_nonempty(
    pages: spec_fn(PageId) -> Option<Seq<u8>>,
    pool_page_size: int,
    page_size: int,
    path: PathView,
    fuel: nat,
) -> Descent
    decreases fuel,
{
    match advance(pages, pool_page_size, page_size, path) {
        Descent::Loaded(p2, cells) => if cells.len() > 0 {
            Descent::Loaded(p2, cells)
        } else if fuel == 0 {
            Descent::Open
        } else {
            advance_nonempty(pages, pool_page_size, page_size, p2, (fuel - 1) as nat)
        },
        other => other,
    }
}

/// The leaf that a move to the next leaf with cells reaches has cells.
proof fn lemma_advance_nonempty_cells(
    pages: spec_fn(PageId) -> Option<Seq<u8>>,
    pool_page_size: int,
    page_size: int,
    path: PathView,
    fuel: nat,
)
    ensures
        advance_nonempty(pages, pool_page_size, page_size, path, fuel) matches Descent::Loaded(_, cells) ==> cells.len()
            > 0,
    decreases fuel,
{
    if let Descent::Loaded(p2, cells) = advance(pages, pool_page_size, page_size, path) {
        if cells.len() == 0 && fuel > 0 {
            lemma_advance_nonempty_cells(pages, pool_page_size, page_size, p2, (fuel - 1) as nat);
        }
    }
}

/// A descent keeps the path it starts from as a prefix of the path it
/// ends on.
proof fn lemma_descend_path_grows(
    pages: spec_fn(PageId) -> Option<Seq<u8>>,
    page_size: int,
    p: PageId,
    path: PathView,
    d: nat,
)
    ensures
        descend(pages, page_size, p, path, d) matches Descent::Loaded(p2, _) ==> p2.len() >= path.len(),
    decreases d,
{
    if d > 0 && pages(p) is Some {
        match read_node(pages(p).unwrap(), page_size) {
            NodeRead::Interior(iv) => {
                lemma_descend_path_grows(
                    pages,
                    page_size,
                    child_or_right(iv.cells, iv.right_child, 0),
                    path.push((p, 0int, iv.cells.len() + 1int)),
                    (d - 1) as nat,
                );
            },
            _ => {},
        }
    }
}

/// A move to the next leaf that reaches one ends on a path that is not
/// empty.
proof fn lemma_advance_loaded_nonempty(
    pages: spec_fn(PageId) -> Option<Seq<u8>>,
    pool_page_size: int,
    page_size: int,
    path: PathView,
)
    ensures
        advance(pages, pool_page_size, page_size, path) matches Descent::Loaded(p2, _) ==> p2.len() > 0,
    decreases path.len(),
{
    if path.len() > 0 {
        let (pg, ci, nc) = path.last();
        if ci + 1 < nc {
            match pages(pg) {
                Some(data) => match parse_interior(data, page_size) {
                    Some(iv) => {
                        let child = child_or_right(iv.cells, iv.right_child, ci + 1);
                        lemma_descend_path_grows(
                            pages,
                            page_size,
                            child,
                            path.update(path.len() - 1, (pg, ci + 1, nc)),
                            finite_depth(pages, pool_page_size, page_size, child),
                        );
                    },
                    None => {},
                },
                None => {},
            }
        } else {
            lemma_advance_loaded_nonempty(pages, pool_page_size, page_size, path.drop_last());
        }
    }
}

/// Every page that the descent from `p` to its leftmost leaf within `d`
/// pages reads is held in a frame of a pool whose page table is `table`.
pub open spec fn leftmost_cached(
    pages: spec_fn(PageId) -> Option<Seq<u8>>,
    page_size: int,
    p: PageId,
    d: nat,
    table: Map<u64, usize>,
) -> bool
    decreases d,
{
    if d == 0 || pages(p) is None {
        true
    } else {
        &&& table.contains_key(p.0)
        &&& match read_node(pages(p).unwrap(), page_size) {
            NodeRead::Interior(iv) => leftmost_cached(
                pages,
                page_size,
                child_or_right(iv.cells, iv.right_child, 0),
                (d - 1) as nat,
                table,
            ),
            _ => true,
        }
    }
}

/// Every page that the move to the next child of the last page of `path`
/// reads (that page, then the descent below the child) is held in a frame
/// of a pool whose page table is `table`.
pub open spec fn next_child_cached(
    pages: spec_fn(PageId) -> Option<Seq<u8>>,
    pool_page_size: int,
    page_size: int,
    path: PathView,
    table: Map<u64, usize>,
) -> bool {
    let (pg, ci, nc) = path.last();
    &&& table.contains_key(pg.0)
    &&& match pages(pg) {
        Some(data) => match parse_interior(data, page_size) {
            Some(iv) => {
                let child = child_or_right(iv.cells, iv.right_child, ci + 1);
                leftmost_cached(pages, page_size, child, finite_depth(pages, pool_page_size, page_size, child), table)
            },
            None => true,
        },
        None => true,
    }
}

/// Every page on the path has a finite tree below it.
pub open spec fn path_finite(
    pages: spec_fn(PageId) -> Option<Seq<u8>>,
    pool_page_size: int,
    page_size: int,
    path: PathView,
) -> bool {
    forall|k: int| 0 <= k < path.len() ==> page_finite(pages, pool_page_size, page_size, (#[trigger] path[k]).0)
}

// ---------------------------------------------------------------------------
// Lemmas
// ---------------------------------------------------------------------------

pub(crate) proof fn lemma_route_pos_unique(cells: Seq<InteriorCellView>, key: Seq<u8>, a: int, b: int)
    requires
        route_pos(cells, key, a),
        route_pos(cells, key, b),
    ensures
        a == b,
{
    if a < b {
        assert(crate::keys::key_le(cells[a].key, key));
    } else if b < a {
        assert(crate::keys::key_le(cells[b].key, key));
    }
}

proof fn lemma_lower_pos_unique(cells: Seq<LeafCellView>, key: Seq<u8>, a: int, b: int)
    requires
        lower_pos(cells, key, a),
        lower_pos(cells, key, b),
    ensures
        a == b,
{
    if a < b {
        assert(key_lt(cells[a].key, key));
    } else if b < a {
        assert(key_lt(cells[b].key, key));
    }
}

proof fn lemma_parse_icells_len(page: Seq<u8>, page_size: int, n: nat)
    ensures
        parse_interior_cells(page, page_size, n) matches Some(cs) ==> cs.len() == n,
    decreases n,
{
    if n > 0 {
        lemma_parse_icells_len(page, page_size, (n - 1) as nat);
    }
}

/// An interior page holds at most `0xFFFF` cells.
pub(crate) proof fn lemma_interior_cells_bounded(data: Seq<u8>, page_size: int)
    ensures
        parse_interior(data, page_size) matches Some(iv) ==> iv.cells.len() <= 0xFFFF,
{
    if data.len() >= page_size && page_size >= 38 {
        lemma_parse_icells_len(data, page_size, crate::codec::le16(data, 24) as nat);
    }
}

/// A finite tree stays finite, with the same bound, over pages that agree
/// with it wherever it has pages.
proof fn lemma_tree_finite_agree(
    pages: spec_fn(PageId) -> Option<Seq<u8>>,
    other: spec_fn(PageId) -> Option<Seq<u8>>,
    pps: int,
    ps: int,
    p: PageId,
    d: nat,
)
    requires
        tree_finite(pages, pps, ps, p, d),
        forall|q: PageId| q.0 != 0 && pages(q) is Some ==> #[trigger] other(q) == pages(q),
    ensures
        tree_finite(other, pps, ps, p, d),
    decreases d,
{
    assert(other(p) == pages(p));
    if let Some(iv) = parse_interior(pages(p).unwrap(), ps) {
        assert forall|k: int| 0 <= k <= iv.cells.len() implies tree_finite(
            other,
            pps,
            ps,
            #[trigger] child_or_right(iv.cells, iv.right_child, k),
            (d - 1) as nat,
        ) by {
            lemma_tree_finite_agree(pages, other, pps, ps, child_or_right(iv.cells, iv.right_child, k), (d - 1) as nat);
        }
    }
}

/// A path of finite pages stays so over pages that agree with `pages`.
proof fn lemma_path_finite_agree(
    pages: spec_fn(PageId) -> Option<Seq<u8>>,
    other: spec_fn(PageId) -> Option<Seq<u8>>,
    pps: int,
    ps: int,
    path: PathView,
)
    requires
        path_finite(pages, pps, ps, path),
        forall|q: PageId| q.0 != 0 && pages(q) is Some ==> #[trigger] other(q) == pages(q),
    ensures
        path_finite(other, pps, ps, path),
{
    assert forall|k: int| 0 <= k < path.len() implies page_finite(other, pps, ps, (#[trigger] path[k]).0) by {
        let d = choose|d: nat| tree_finite(pages, pps, ps, path[k].0, d);
        lemma_tree_finite_agree(pages, other, pps, ps, path[k].0, d);
    }
}

} // verus!

verus! {

// ---------------------------------------------------------------------------
// Reading one node through the pool
// ---------------------------------------------------------------------------

/// A parsed node.
pub(crate) enum Node {
    Interior(InteriorPage),
    Leaf(LeafPage),
}

/// A fetch leaves its frame pinned at least once, and one unpin then
/// restores every pin count below the maximum.
proof fn lemma_fetch_pins(v0: BufferPoolView, v1: BufferPoolView, c0: Seq<u8>, c1: Seq<u8>, p: PageId, i: usize)
    requires
        crate::buffer_pool::pool_wf(v0),
        pins_below_max(v0),
        v0.table.contains_key(p.0) ==> crate::buffer_pool::fetched_hit(v0, v1, p, i),
        !v0.table.contains_key(p.0) ==> crate::buffer_pool::fetched_miss(v0, v1, c0, c1, p, i),
    ensures
        0 <= i < v1.frames.len() == v0.frames.len(),
        1 <= v1.frames[i as int].pin_count,
        v1.frames[i as int].pin_count - 1 < u32::MAX,
        forall|j: int| 0 <= j < v1.frames.len() && j != i ==> (#[trigger] v1.frames[j]).pin_count < u32::MAX,
{
    if !v0.table.contains_key(p.0) {
        crate::buffer_pool::lemma_clock_sweep_effect(v0.frames, v0.clock_hand, (2 * v0.capacity) as nat);
        let (w, fr) = crate::buffer_pool::pool_victim(v0).unwrap();
        assert forall|j: int| 0 <= j < v1.frames.len() && j != i implies (#[trigger] v1.frames[j]).pin_count < u32::MAX by {
            assert(fr[j] == v0.frames[j] || fr[j] == crate::buffer_pool::cleared(v0.frames[j]));
        }
    } else {
        assert(v0.frames[v0.table[p.0] as int].pin_count < u32::MAX);
    }
}

/// Reads page `page_id` through the pool and parses it as the node its
/// type byte names, releasing the pin again. `during` names the caller in
/// the error for a page of another type.
pub(crate) fn load_node<B: ReadAt + WriteAt + Durability>(
    page_id: PageId,
    pool: &mut BufferPool,
    backend: &mut B,
    page_size: usize,
    during: &str,
    Ghost(pages): Ghost<spec_fn(PageId) -> Option<Seq<u8>>>,
) -> (r: Result<Node, StorageError>)
    requires
        old(pool).wf(),
        old(pool)@.page_size > 8,
        pool_consistent(old(pool)@, old(backend).contents()),
        pins_below_max(old(pool)@),
        page_id.0 != 0,
        page_offset(page_id, old(pool)@.page_size) + old(pool)@.page_size <= usize::MAX,
        pages(page_id) is Some,
        pages_agree(pages, old(pool)@, old(backend).contents()),
    ensures
        final(pool).wf(),
        r is Ok ==> {
            &&& final(pool).wf()
            &&& pool_consistent(final(pool)@, final(backend).contents())
            &&& pins_below_max(final(pool)@)
            &&& final(pool)@.page_size == old(pool)@.page_size
            &&& pages_agree(pages, final(pool)@, final(backend).contents())
        },
        match read_node(pages(page_id).unwrap(), page_size as int) {
            NodeRead::Interior(iv) => r matches Ok(n) ==> n matches Node::Interior(ip) && ip@ == iv,
            NodeRead::Leaf(lv) => r matches Ok(n) ==> n matches Node::Leaf(lp) && lp@ == lv,
            NodeRead::Fail => r is Err,
        },
        old(pool)@.table.contains_key(page_id.0) ==> final(pool)@.table == old(pool)@.table
            && final(backend).contents() == old(backend).contents(),
        old(pool)@.table.contains_key(page_id.0) && !(read_node(pages(page_id).unwrap(), page_size as int) is Fail)
            ==> r is Ok,
        old(pool)@.table.contains_key(page_id.0) && r is Ok ==> final(pool)@ == hit_view(old(pool)@, page_id),
        r is Ok ==> forall|t: u64|
            #[trigger] final(pool)@.table.contains_key(t) ==> old(pool)@.table.contains_key(t) || t == page_id.0,
{
    let ghost v0 = pool@;
    let ghost c0 = backend.contents();
    proof {
        if v0.table.contains_key(page_id.0) {
            assert(v0.frames[v0.table[page_id.0] as int].pin_count < u32::MAX);
        }
    }
    let frame = match pool.fetch_page(page_id, backend) {
        Ok(f) => f,
        Err(e) => {
            return Err(e);
        },
    };
    let ghost v1 = pool@;
    let ghost c1 = backend.contents();
    proof {
        lemma_fetch_pins(v0, v1, c0, c1, page_id, frame);
        assert(page_image(v0, c0, page_id) == pages(page_id));
        assert forall|q: PageId| q.0 != 0 && pages(q) is Some implies #[trigger] page_image(v1, c1, q) == pages(q) by {
            assert(page_image(v0, c0, q) == pages(q));
        }
    }
    let page_data = pool.get_page_data(frame);
    proof {
        assert(page_data@ == pages(page_id).unwrap());
    }
    let b = page_data[8];
    let page_type = match page_type_from_byte(b) {
        Some(t) => t,
        None => {
            let mut m = string_of("unknown page type: 0x");
            push_hex_digits(&mut m, b as u64, 2);
            return Err(StorageError { message: m, source: None });
        },
    };
    match page_type {
        PageType::Interior => {
            let interior = match InteriorPage::parse(page_data, page_size) {
                Ok(p) => p,
                Err(e) => {
                    return Err(e);
                },
            };
            pool.unpin_page(frame, false);
            proof {
                if v0.table.contains_key(page_id.0) {
                    assert(pool@.frames =~= hit_view(v0, page_id).frames);
                }
                assert forall|j: int| 0 <= j < pool@.frames.len() implies (#[trigger] pool@.frames[j]).pin_count < u32::MAX by {
                    if j != frame {
                        assert(pool@.frames[j] == v1.frames[j]);
                    }
                }
                assert forall|q: PageId| q.0 != 0 && pages(q) is Some implies #[trigger] page_image(pool@, c1, q) == pages(q) by {
                    assert(page_image(v1, c1, q) == pages(q));
                }
            }
            Ok(Node::Interior(interior))
        },
        PageType::Leaf => {
            let leaf = match LeafPage::parse(page_data, page_size) {
                Ok(p) => p,
                Err(e) => {
                    return Err(e);
                },
            };
            pool.unpin_page(frame, false);
            proof {
                if v0.table.contains_key(page_id.0) {
                    assert(pool@.frames =~= hit_view(v0, page_id).frames);
                }
                assert forall|j: int| 0 <= j < pool@.frames.len() implies (#[trigger] pool@.frames[j]).pin_count < u32::MAX by {
                    if j != frame {
                        assert(pool@.frames[j] == v1.frames[j]);
                    }
                }
                assert forall|q: PageId| q.0 != 0 && pages(q) is Some implies #[trigger] page_image(pool@, c1, q) == pages(q) by {
                    assert(page_image(v1, c1, q) == pages(q));
                }
            }
            Ok(Node::Leaf(leaf))
        },
        _ => {
            pool.unpin_page(frame, false);
            let mut m = string_of("unexpected page type ");
            let name = page_type.to_string();
            m.append(name.as_str());
            m.append(" during ");
            m.append(during);
            Err(StorageError { message: m, source: None })
        },
    }
}

} // verus!

verus! {

// ---------------------------------------------------------------------------
// The cursor
// ---------------------------------------------------------------------------

/// A saved position on the path: an interior page, the child taken below
/// it, and its number of children.
#[derive(Clone, Copy)]
struct StackEntry {
    page_id: PageId,
    child_index: usize,
    num_children: usize,
}

spec fn path_of(s: Seq<StackEntry>) -> PathView {
    s.map_values(|e: StackEntry| (e.page_id, e.child_index as int, e.num_children as int))
}

/// A cursor over a range of keys of a B-tree, positioned at the first key
/// at or above a start key and stopping before an optional end key.
pub struct BTreeCursor {
    /// The interior pages from the root to the current leaf's parent.
    stack: Vec<StackEntry>,
    /// The cells of the current leaf.
    cached_cells: Vec<LeafCell>,
    /// The index of the next cell to hand out.
    current_cell: usize,
    /// Whether the cursor is used up.
    exhausted: bool,
    /// The end key (exclusive), if any.
    end_key: Option<Vec<u8>>,
}

/// The mathematical value of a [`BTreeCursor`].
pub struct CursorView {
    /// The path from the root to the current leaf's parent.
    pub path: PathView,
    /// The cells of the current leaf.
    pub cells: Seq<LeafCellView>,
    /// The index of the next cell to hand out.
    pub current: int,
    /// Whether the cursor is used up.
    pub exhausted: bool,
    /// The end key (exclusive), if any.
    pub end_key: Option<Seq<u8>>,
}

impl View for BTreeCursor {
    type V = CursorView;

    closed spec fn view(&self) -> CursorView {
        CursorView {
            path: path_of(self.stack@),
            cells: cells_view(self.cached_cells@),
            current: self.current_cell as int,
            exhausted: self.exhausted,
            end_key: match self.end_key {
                Some(k) => Some(k@),
                None => None,
            },
        }
    }
}

/// The cursor's invariant: each path position names one of its page's
/// children.
pub open spec fn cursor_wf(c: CursorView) -> bool {
    &&& forall|k: int| 0 <= k < c.path.len() ==> 0 <= (#[trigger] c.path[k]).1 < c.path[k].2 <= usize::MAX
    &&& 0 <= c.current <= usize::MAX
}

/// The view of an optional key.
pub open spec fn opt_key(k: Option<&[u8]>) -> Option<Seq<u8>> {
    match k {
        Some(s) => Some(s@),
        None => None,
    }
}

/// The pool is in a state to read a tree through: well formed, with pages
/// large enough to carry a header, consistent with medium `c`, and with room
/// for one more pin on every frame.
pub open spec fn pool_ready(v: BufferPoolView, c: Seq<u8>) -> bool {
    &&& crate::buffer_pool::pool_wf(v)
    &&& v.page_size > 8
    &&& pool_consistent(v, c)
    &&& pins_below_max(v)
}

fn copy_key(k: &[u8]) -> (r: Vec<u8>)
    ensures
        r@ == k@,
{
    let r = crate::codec::copy_range(k, 0, k.len());
    assert(k@.subrange(0, k@.len() as int) =~= k@);
    r
}

impl BTreeCursor {
    /// A cursor over the tree at `root`, positioned at the first key at or
    /// above `start_key`, that stops before `end_key` when one is given.
    ///
    /// An empty tree (`root` null) gives a used-up cursor. Fails when a page
    /// on the way cannot be read, is neither an interior nor a leaf page, or
    /// does not parse.
    pub fn new<B: ReadAt + WriteAt + Durability>(
        root: PageId,
        start_key: &[u8],
        end_key: Option<&[u8]>,
        pool: &mut BufferPool,
        backend: &mut B,
        config: &BTreeConfig,
    ) -> (r: Result<BTreeCursor, StorageError>)
        requires
            old(pool).wf(),
            pool_ready(old(pool)@, old(backend).contents()),
            root.0 != 0 ==> page_finite(
                pool_pages(old(pool)@, old(backend).contents()),
                old(pool)@.page_size,
                config.page_size as int,
                root,
            ),
        ensures
            root.0 == 0 ==> (r matches Ok(c) && c@ == (CursorView {
                path: Seq::empty(),
                cells: Seq::empty(),
                current: 0,
                exhausted: true,
                end_key: opt_key(end_key),
            }) && final(pool)@ == old(pool)@ && final(backend).contents() == old(backend).contents()),
            root.0 != 0 && seek_cached(
                pool_pages(old(pool)@, old(backend).contents()),
                config.page_size as int,
                old(pool)@.table,
                root,
                start_key@,
                finite_depth(
                    pool_pages(old(pool)@, old(backend).contents()),
                    old(pool)@.page_size,
                    config.page_size as int,
                    root,
                ),
            ) ==> r is Ok,
            root.0 != 0 ==> ({
                let pages = pool_pages(old(pool)@, old(backend).contents());
                let s = seek(
                    pages,
                    config.page_size as int,
                    root,
                    start_key@,
                    Seq::empty(),
                    finite_depth(pages, old(pool)@.page_size, config.page_size as int, root),
                );
                &&& s is Fail ==> r is Err
                &&& s matches Seek::Found(path, cells, i) ==> (r matches Ok(c) ==> c@ == (CursorView {
                    path,
                    cells,
                    current: i,
                    exhausted: false,
                    end_key: opt_key(end_key),
                }))
            }),
            r matches Ok(c) ==> {
                &&& cursor_wf(c@)
                &&& c@.end_key == opt_key(end_key)
                &&& final(pool).wf()
                &&& pool_ready(final(pool)@, final(backend).contents())
                &&& final(pool)@.page_size == old(pool)@.page_size
                &&& pages_agree(pool_pages(old(pool)@, old(backend).contents()), final(pool)@, final(backend).contents())
                &&& path_finite(
                    pool_pages(final(pool)@, final(backend).contents()),
                    final(pool)@.page_size,
                    config.page_size as int,
                    c@.path,
                )
            },
    {
        let ghost pages = pool_pages(pool@, backend.contents());
        let ghost pps = pool@.page_size;
        let ghost ps = config.page_size as int;
        let ek: Option<Vec<u8>> = match end_key {
            Some(k) => Some(copy_key(k)),
            None => None,
        };
        if root.is_null() {
            let c = BTreeCursor {
                stack: Vec::new(),
                cached_cells: Vec::new(),
                current_cell: 0,
                exhausted: true,
                end_key: ek,
            };
            proof {
                assert(c@.path =~= Seq::<(PageId, int, int)>::empty());
                assert(c@.cells =~= Seq::<LeafCellView>::empty());
            }
            return Ok(c);
        }
        let ghost d0 = finite_depth(pages, pps, ps, root);
        let ghost s0 = seek(pages, ps, root, start_key@, Seq::empty(), d0);
        let ghost sc = seek_cached(pages, ps, pool@.table, root, start_key@, d0);
        let ghost mut d = d0;
        let mut stack: Vec<StackEntry> = Vec::new();
        let mut page_id = root;
        proof {
            assert(path_of(stack@) =~= Seq::<(PageId, int, int)>::empty());
            assert(pages_agree(pages, pool@, backend.contents()));
        }
        loop
            invariant
                root.0 != 0,
                pool.wf(),
                pool_ready(pool@, backend.contents()),
                pool@.page_size == pps,
                pps == old(pool)@.page_size,
                ps == config.page_size as int,
                pages == pool_pages(old(pool)@, old(backend).contents()),
                pages_agree(pages, pool@, backend.contents()),
                tree_finite(pages, pps, ps, page_id, d),
                s0 is Open || s0 == seek(pages, ps, page_id, start_key@, path_of(stack@), d),
                s0 == seek(pages, ps, root, start_key@, Seq::empty(), d0),
                d0 == finite_depth(pages, pps, ps, root),
                forall|k: int|
                    0 <= k < stack@.len() ==> 0 <= (#[trigger] stack@[k]).child_index < stack@[k].num_children,
                path_finite(pages, pps, ps, path_of(stack@)),
                (match ek {
                    Some(k) => Some(k@),
                    None => None::<Seq<u8>>,
                }) == opt_key(end_key),
                sc == seek_cached(pages, ps, old(pool)@.table, root, start_key@, d0),
                sc ==> seek_cached(pages, ps, old(pool)@.table, page_id, start_key@, d) && pool@.table == old(
                    pool,
                )@.table,
            decreases d,
        {
            let ghost data = pages(page_id).unwrap();
            let node = match load_node(page_id, pool, backend, config.page_size, "cursor init", Ghost(pages)) {
                Ok(n) => n,
                Err(e) => {
                    return Err(e);
                },
            };
            match node {
                Node::Interior(interior) => {
                    let cells = interior.cells();
                    let ghost iv = interior@;
                    proof {
                        lemma_interior_cells_bounded(data, ps);
                    }
                    let num_children = cells.len() + 1;
                    let pos = iupper_bound(cells, start_key);
                    let child = if pos < cells.len() {
                        cells[pos].left_child
                    } else {
                        interior.right_child()
                    };
                    proof {
                        assert(child == child_or_right(iv.cells, iv.right_child, pos as int));
                        assert(tree_finite(pages, pps, ps, child, (d - 1) as nat));
                        if interior_sorted(iv.cells) {
                            assert(route_pos(iv.cells, start_key@, pos as int));
                            lemma_route_pos_unique(iv.cells, start_key@, pos as int, route_index(iv.cells, start_key@));
                        }
                        assert(page_finite(pages, pps, ps, page_id));
                    }
                    let ghost prev = stack@;
                    stack.push(StackEntry { page_id, child_index: pos, num_children });
                    proof {
                        assert(path_of(stack@) =~= path_of(prev).push((page_id, pos as int, num_children as int)));
                        assert forall|k: int| 0 <= k < path_of(stack@).len() implies page_finite(
                            pages,
                            pps,
                            ps,
                            (#[trigger] path_of(stack@)[k]).0,
                        ) by {
                            if k < prev.len() {
                                assert(path_of(stack@)[k] == path_of(prev)[k]);
                            }
                        }
                        d = (d - 1) as nat;
                    }
                    page_id = child;
                },
                Node::Leaf(leaf) => {
                    let lcells = leaf.cells();
                    let cells = clone_cells(lcells, 0, lcells.len());
                    let ghost lv = leaf@;
                    proof {
                        assert(cells_view(lcells@).subrange(0, lcells@.len() as int) =~= lv.cells);
                    }
                    let start_idx = lower_bound(cells.as_slice(), start_key);
                    proof {
                        assert(read_node(data, ps) == NodeRead::Leaf(lv));
                        if s0 !is Open {
                            assert(s0 == seek(pages, ps, page_id, start_key@, path_of(stack@), d));
                        }
                        if leaf_sorted(lv.cells) {
                            assert(lower_pos(lv.cells, start_key@, start_idx as int));
                            lemma_lower_pos_unique(lv.cells, start_key@, start_idx as int, lower_index(lv.cells, start_key@));
                        }
                        let other = pool_pages(pool@, backend.contents());
                        assert forall|q: PageId| q.0 != 0 && pages(q) is Some implies #[trigger] other(q) == pages(q) by {
                            assert(page_image(pool@, backend.contents(), q) == pages(q));
                        }
                        lemma_path_finite_agree(pages, other, pps, ps, path_of(stack@));
                        assert forall|k: int| 0 <= k < path_of(stack@).len() implies 0 <= (#[trigger] path_of(stack@)[k]).1
                            < path_of(stack@)[k].2 <= usize::MAX by {
                            assert(path_of(stack@)[k] == (stack@[k].page_id, stack@[k].child_index as int, stack@[k].num_children as int));
                        }
                    }
                    let ghost path = path_of(stack@);
                    let cur = BTreeCursor {
                        stack,
                        cached_cells: cells,
                        current_cell: start_idx,
                        exhausted: false,
                        end_key: ek,
                    };
                    proof {
                        assert(d > 0 && pages(page_id) is Some);
                        let sk = seek(pages, ps, page_id, start_key@, path, d);
                        if leaf_sorted(lv.cells) {
                            assert(sk == Seek::Found(path, lv.cells, lower_index(lv.cells, start_key@)));
                        } else {
                            assert(sk == Seek::Open);
                        }
                        assert(cur@.path == path);
                        assert(cur@.cells == lv.cells);
                        assert(cur@.end_key == opt_key(end_key));
                    }
                    return Ok(cur);
                },
            }
        }
    }
}

} // verus!

verus! {

/// What the cursor hands out: the key and value of a cell.
pub open spec fn out_view(x: Option<(Vec<u8>, LeafCellValue)>) -> Option<LeafCellView> {
    match x {
        Some((k, v)) => Some(LeafCellView { key: k@, value: v@ }),
        None => None,
    }
}

/// Cursor `c2` and output `x` follow from cursor `c` handing out its
/// current cell: nothing, and the cursor used up, when the cell's key is at
/// or above the end key; else the cell, and the cursor moved past it.
pub open spec fn emitted(c: CursorView, x: Option<LeafCellView>, c2: CursorView) -> bool {
    let cell = c.cells[c.current];
    let at_end = match c.end_key {
        Some(e) => !key_lt(cell.key, e),
        None => false,
    };
    if at_end {
        x is None && c2 == CursorView { exhausted: true, ..c }
    } else {
        x == Some(cell) && c2 == CursorView { current: c.current + 1, ..c }
    }
}

/// A descent never ends past the last leaf.
proof fn lemma_descend_not_exhausted(
    pages: spec_fn(PageId) -> Option<Seq<u8>>,
    ps: int,
    p: PageId,
    path: PathView,
    d: nat,
)
    ensures
        !(descend(pages, ps, p, path, d) is Exhausted),
    decreases d,
{
    if d > 0 && pages(p) is Some {
        if let NodeRead::Interior(iv) = read_node(pages(p).unwrap(), ps) {
            lemma_descend_not_exhausted(
                pages,
                ps,
                child_or_right(iv.cells, iv.right_child, 0),
                path.push((p, 0int, iv.cells.len() + 1int)),
                (d - 1) as nat,
            );
        }
    }
}

/// A page on a finite path: present, addressable, non-null.
proof fn lemma_finite_page_facts(pages: spec_fn(PageId) -> Option<Seq<u8>>, pps: int, ps: int, p: PageId)
    requires
        page_finite(pages, pps, ps, p),
    ensures
        p.0 != 0,
        page_offset(p, pps) + pps <= usize::MAX,
        pages(p) is Some,
{
    let d = choose|d: nat| tree_finite(pages, pps, ps, p, d);
    assert(tree_finite(pages, pps, ps, p, d));
}

/// The children of a finite interior page are finite.
proof fn lemma_finite_child(
    pages: spec_fn(PageId) -> Option<Seq<u8>>,
    pps: int,
    ps: int,
    p: PageId,
    iv: InteriorPageView,
    k: int,
)
    requires
        page_finite(pages, pps, ps, p),
        parse_interior(pages(p).unwrap(), ps) == Some(iv),
        0 <= k,
    ensures
        page_finite(pages, pps, ps, child_or_right(iv.cells, iv.right_child, k)),
        tree_finite(pages, pps, ps, child_or_right(iv.cells, iv.right_child, k), finite_depth(pages, pps, ps, child_or_right(iv.cells, iv.right_child, k))),
{
    let d = choose|d: nat| tree_finite(pages, pps, ps, p, d);
    assert(tree_finite(pages, pps, ps, p, d));
    let kk = if k <= iv.cells.len() { k } else { iv.cells.len() as int };
    assert(child_or_right(iv.cells, iv.right_child, k) == child_or_right(iv.cells, iv.right_child, kk));
    assert(tree_finite(pages, pps, ps, child_or_right(iv.cells, iv.right_child, kk), (d - 1) as nat));
}

/// Reads interior page `page_id` through the pool, releasing the pin again.
fn load_interior<B: ReadAt + WriteAt + Durability>(
    page_id: PageId,
    pool: &mut BufferPool,
    backend: &mut B,
    page_size: usize,
    Ghost(pages): Ghost<spec_fn(PageId) -> Option<Seq<u8>>>,
) -> (r: Result<InteriorPage, StorageError>)
    requires
        old(pool).wf(),
        pool_ready(old(pool)@, old(backend).contents()),
        page_id.0 != 0,
        page_offset(page_id, old(pool)@.page_size) + old(pool)@.page_size <= usize::MAX,
        pages(page_id) is Some,
        pages_agree(pages, old(pool)@, old(backend).contents()),
    ensures
        final(pool).wf(),
        r is Ok ==> {
            &&& final(pool).wf()
            &&& pool_ready(final(pool)@, final(backend).contents())
            &&& final(pool)@.page_size == old(pool)@.page_size
            &&& pages_agree(pages, final(pool)@, final(backend).contents())
        },
        match parse_interior(pages(page_id).unwrap(), page_size as int) {
            Some(iv) => r matches Ok(ip) ==> ip@ == iv,
            None => r is Err,
        },
        old(pool)@.table.contains_key(page_id.0) ==> final(pool)@.table == old(pool)@.table
            && final(backend).contents() == old(backend).contents(),
        old(pool)@.table.contains_key(page_id.0) && parse_interior(pages(page_id).unwrap(), page_size as int) is Some
            ==> r is Ok,
{
    let ghost v0 = pool@;
    let ghost c0 = backend.contents();
    proof {
        if v0.table.contains_key(page_id.0) {
            assert(v0.frames[v0.table[page_id.0] as int].pin_count < u32::MAX);
        }
    }
    let frame = match pool.fetch_page(page_id, backend) {
        Ok(f) => f,
        Err(e) => {
            return Err(e);
        },
    };
    let ghost v1 = pool@;
    let ghost c1 = backend.contents();
    proof {
        lemma_fetch_pins(v0, v1, c0, c1, page_id, frame);
        assert(page_image(v0, c0, page_id) == pages(page_id));
        assert forall|q: PageId| q.0 != 0 && pages(q) is Some implies #[trigger] page_image(v1, c1, q) == pages(q) by {
            assert(page_image(v0, c0, q) == pages(q));
        }
    }
    let page_data = pool.get_page_data(frame);
    let interior = match InteriorPage::parse(page_data, page_size) {
        Ok(p) => p,
        Err(e) => {
            return Err(e);
        },
    };
    pool.unpin_page(frame, false);
    proof {
        assert forall|j: int| 0 <= j < pool@.frames.len() implies (#[trigger] pool@.frames[j]).pin_count < u32::MAX by {
            if j != frame {
                assert(pool@.frames[j] == v1.frames[j]);
            }
        }
        assert forall|q: PageId| q.0 != 0 && pages(q) is Some implies #[trigger] page_image(pool@, c1, q) == pages(q) by {
            assert(page_image(v1, c1, q) == pages(q));
        }
    }
    Ok(interior)
}

impl BTreeCursor {
    /// Descends from `page_id` to its leftmost leaf, pushing the interior
    /// pages passed onto the path, and loads that leaf's cells. Returns
    /// whether the leaf has any cell.
    fn descend_to_leftmost_leaf<B: ReadAt + WriteAt + Durability>(
        &mut self,
        page_id: PageId,
        pool: &mut BufferPool,
        backend: &mut B,
        config: &BTreeConfig,
        Ghost(pages): Ghost<spec_fn(PageId) -> Option<Seq<u8>>>,
        Ghost(d): Ghost<nat>,
    ) -> (r: Result<bool, StorageError>)
        requires
            old(pool).wf(),
            pool_ready(old(pool)@, old(backend).contents()),
            pages_agree(pages, old(pool)@, old(backend).contents()),
            tree_finite(pages, old(pool)@.page_size, config.page_size as int, page_id, d),
            cursor_wf(old(self)@),
            path_finite(pages, old(pool)@.page_size, config.page_size as int, old(self)@.path),
        ensures
            final(pool).wf(),
            r is Ok ==> {
                &&& final(pool).wf()
                &&& pool_ready(final(pool)@, final(backend).contents())
                &&& final(pool)@.page_size == old(pool)@.page_size
                &&& pages_agree(pages, final(pool)@, final(backend).contents())
                &&& cursor_wf(final(self)@)
                &&& path_finite(pages, old(pool)@.page_size, config.page_size as int, final(self)@.path)
            },
            match descend(pages, config.page_size as int, page_id, old(self)@.path, d) {
                Descent::Loaded(path, cells) => r matches Ok(b) ==> b == (cells.len() > 0) && final(self)@ == (
                CursorView { path, cells, current: 0, ..old(self)@ }),
                _ => r is Err,
            },
            leftmost_cached(pages, config.page_size as int, page_id, d, old(pool)@.table) ==> final(pool)@.table
                == old(pool)@.table && final(backend).contents() == old(backend).contents(),
            leftmost_cached(pages, config.page_size as int, page_id, d, old(pool)@.table) && descend(
                pages,
                config.page_size as int,
                page_id,
                old(self)@.path,
                d,
            ) is Loaded ==> r is Ok,
    {
        let ghost pps = pool@.page_size;
        let ghost ps = config.page_size as int;
        let ghost d0 = d;
        let ghost r0 = descend(pages, ps, page_id, self@.path, d);
        let ghost c_old = self@;
        let ghost mut dd = d;
        let mut cur = page_id;
        loop
            invariant
                pool.wf(),
                pool_ready(pool@, backend.contents()),
                pool@.page_size == pps,
                pps == old(pool)@.page_size,
                ps == config.page_size as int,
                c_old == old(self)@,
                pages_agree(pages, pool@, backend.contents()),
                tree_finite(pages, pps, ps, cur, dd),
                r0 == descend(pages, ps, cur, self@.path, dd),
                r0 == descend(pages, ps, page_id, old(self)@.path, d0),
                d0 == d,
                cursor_wf(self@),
                path_finite(pages, pps, ps, self@.path),
                self@.cells == c_old.cells,
                self@.current == c_old.current,
                self@.exhausted == c_old.exhausted,
                self@.end_key == c_old.end_key,
                leftmost_cached(pages, ps, page_id, d0, old(pool)@.table) ==> {
                    &&& leftmost_cached(pages, ps, cur, dd, pool@.table)
                    &&& pool@.table == old(pool)@.table
                    &&& backend.contents() == old(backend).contents()
                },
            decreases dd,
        {
            let ghost data = pages(cur).unwrap();
            let node = match load_node(cur, pool, backend, config.page_size, "leaf descent", Ghost(pages)) {
                Ok(n) => n,
                Err(e) => {
                    return Err(e);
                },
            };
            match node {
                Node::Interior(interior) => {
                    let cells = interior.cells();
                    let ghost iv = interior@;
                    proof {
                        lemma_interior_cells_bounded(data, ps);
                        assert(read_node(data, ps) == NodeRead::Interior(iv));
                    }
                    let num_children = cells.len() + 1;
                    let child = if cells.len() > 0 {
                        cells[0].left_child
                    } else {
                        interior.right_child()
                    };
                    proof {
                        assert(child == child_or_right(iv.cells, iv.right_child, 0));
                        assert(tree_finite(pages, pps, ps, child, (dd - 1) as nat));
                        assert(page_finite(pages, pps, ps, cur));
                    }
                    let ghost prev = self@;
                    self.stack.push(StackEntry { page_id: cur, child_index: 0, num_children });
                    proof {
                        assert(self@.path =~= prev.path.push((cur, 0int, num_children as int)));
                        assert forall|k: int| 0 <= k < self@.path.len() implies page_finite(
                            pages,
                            pps,
                            ps,
                            (#[trigger] self@.path[k]).0,
                        ) by {
                            if k < prev.path.len() {
                                assert(self@.path[k] == prev.path[k]);
                            }
                        }
                        assert forall|k: int| 0 <= k < self@.path.len() implies 0 <= (#[trigger] self@.path[k]).1
                            < self@.path[k].2 <= usize::MAX by {
                            if k < prev.path.len() {
                                assert(self@.path[k] == prev.path[k]);
                            }
                        }
                        dd = (dd - 1) as nat;
                    }
                    cur = child;
                },
                Node::Leaf(leaf) => {
                    let lcells = leaf.cells();
                    let cells = clone_cells(lcells, 0, lcells.len());
                    let ghost lv = leaf@;
                    proof {
                        assert(cells_view(lcells@).subrange(0, lcells@.len() as int) =~= lv.cells);
                        assert(read_node(data, ps) == NodeRead::Leaf(lv));
                        assert(r0 == Descent::Loaded(self@.path, lv.cells));
                    }
                    let nonempty = cells.len() > 0;
                    let ghost before = self@;
                    self.cached_cells = cells;
                    self.current_cell = 0;
                    proof {
                        assert(self@ == CursorView { cells: lv.cells, current: 0, ..before });
                    }
                    return Ok(nonempty);
                },
            }
        }
    }

    /// Takes the child after the one taken at the last page of the path,
    /// and descends to the leftmost leaf below it.
    fn descend_next_child<B: ReadAt + WriteAt + Durability>(
        &mut self,
        pool: &mut BufferPool,
        backend: &mut B,
        config: &BTreeConfig,
        Ghost(pages): Ghost<spec_fn(PageId) -> Option<Seq<u8>>>,
    ) -> (r: Result<bool, StorageError>)
        requires
            old(pool).wf(),
            pool_ready(old(pool)@, old(backend).contents()),
            pages_agree(pages, old(pool)@, old(backend).contents()),
            cursor_wf(old(self)@),
            path_finite(pages, old(pool)@.page_size, config.page_size as int, old(self)@.path),
            old(self)@.path.len() > 0,
            old(self)@.path.last().1 + 1 < old(self)@.path.last().2,
        ensures
            final(pool).wf(),
            r is Ok ==> {
                &&& final(pool).wf()
                &&& pool_ready(final(pool)@, final(backend).contents())
                &&& final(pool)@.page_size == old(pool)@.page_size
                &&& pages_agree(pages, final(pool)@, final(backend).contents())
                &&& cursor_wf(final(self)@)
                &&& path_finite(pages, old(pool)@.page_size, config.page_size as int, final(self)@.path)
            },
            match advance(pages, old(pool)@.page_size, config.page_size as int, old(self)@.path) {
                Descent::Loaded(path, cells) => r matches Ok(b) ==> b == (cells.len() > 0) && final(self)@ == (
                CursorView { path, cells, current: 0, ..old(self)@ }),
                _ => r is Err,
            },
            next_child_cached(pages, old(pool)@.page_size, config.page_size as int, old(self)@.path, old(pool)@.table)
                ==> final(pool)@.table == old(pool)@.table && final(backend).contents() == old(backend).contents(),
            next_child_cached(pages, old(pool)@.page_size, config.page_size as int, old(self)@.path, old(pool)@.table)
                && advance(pages, old(pool)@.page_size, config.page_size as int, old(self)@.path) is Loaded ==> r is Ok,
    {
        let ghost pps = pool@.page_size;
        let ghost ps = config.page_size as int;
        let top = self.stack.len() - 1;
        let entry = self.stack[top];
        let ghost prev = self@;
        proof {
            assert(prev.path[top as int] == (entry.page_id, entry.child_index as int, entry.num_children as int));
            assert(prev.path.last() == prev.path[top as int]);
            assert(page_finite(pages, pps, ps, prev.path[top as int].0));
            lemma_finite_page_facts(pages, pps, ps, entry.page_id);
        }
        let next_child_idx = entry.child_index + 1;
        self.stack.set(top, StackEntry { page_id: entry.page_id, child_index: next_child_idx, num_children: entry.num_children });
        proof {
            assert(self@.path =~= prev.path.update(top as int, (entry.page_id, next_child_idx as int, entry.num_children as int)));
            assert forall|k: int| 0 <= k < self@.path.len() implies page_finite(
                pages,
                pps,
                ps,
                (#[trigger] self@.path[k]).0,
            ) by {
                assert(self@.path[k].0 == prev.path[k].0);
            }
            assert forall|k: int| 0 <= k < self@.path.len() implies 0 <= (#[trigger] self@.path[k]).1
                < self@.path[k].2 <= usize::MAX by {
                if k != top {
                    assert(self@.path[k] == prev.path[k]);
                }
            }
        }
        let interior = match load_interior(entry.page_id, pool, backend, config.page_size, Ghost(pages)) {
            Ok(i) => i,
            Err(e) => {
                return Err(e);
            },
        };
        let cells = interior.cells();
        let ghost iv = interior@;
        let child = if next_child_idx < cells.len() {
            cells[next_child_idx].left_child
        } else {
            interior.right_child()
        };
        proof {
            assert(child == child_or_right(iv.cells, iv.right_child, next_child_idx as int));
            lemma_finite_child(pages, pps, ps, entry.page_id, iv, next_child_idx as int);
            assert(advance(pages, pps, ps, prev.path) == descend(
                pages,
                ps,
                child,
                self@.path,
                finite_depth(pages, pps, ps, child),
            ));
        }
        self.descend_to_leftmost_leaf(child, pool, backend, config, Ghost(pages), Ghost(finite_depth(pages, pps, ps, child)))
    }

    /// Moves to the next leaf: climbs the path to the nearest interior page
    /// with a child after the one taken and descends to the leftmost leaf
    /// below that child. Returns whether a leaf with cells was loaded; with
    /// no such page left the path ends up empty.
    fn advance_to_next_leaf<B: ReadAt + WriteAt + Durability>(
        &mut self,
        pool: &mut BufferPool,
        backend: &mut B,
        config: &BTreeConfig,
        Ghost(pages): Ghost<spec_fn(PageId) -> Option<Seq<u8>>>,
    ) -> (r: Result<bool, StorageError>)
        requires
            old(pool).wf(),
            pool_ready(old(pool)@, old(backend).contents()),
            pages_agree(pages, old(pool)@, old(backend).contents()),
            cursor_wf(old(self)@),
            path_finite(pages, old(pool)@.page_size, config.page_size as int, old(self)@.path),
        ensures
            final(pool).wf(),
            r is Ok ==> {
                &&& final(pool).wf()
                &&& pool_ready(final(pool)@, final(backend).contents())
                &&& final(pool)@.page_size == old(pool)@.page_size
                &&& pages_agree(pages, final(pool)@, final(backend).contents())
                &&& cursor_wf(final(self)@)
                &&& path_finite(pages, old(pool)@.page_size, config.page_size as int, final(self)@.path)
            },
            match advance(pages, old(pool)@.page_size, config.page_size as int, old(self)@.path) {
                Descent::Loaded(path, cells) => r matches Ok(b) ==> b == (cells.len() > 0) && final(self)@ == (
                CursorView { path, cells, current: 0, ..old(self)@ }),
                Descent::Exhausted => r matches Ok(b) && !b && final(self)@ == (CursorView {
                    path: Seq::empty(),
                    ..old(self)@
                }) && final(pool)@ == old(pool)@ && final(backend).contents() == old(backend).contents(),
                _ => r is Err,
            },
    {
        let ghost pps = pool@.page_size;
        let ghost ps = config.page_size as int;
        let ghost a0 = advance(pages, pps, ps, self@.path);
        let ghost c_old = self@;
        while self.stack.len() > 0
            invariant
                pool@ == old(pool)@,
                backend.contents() == old(backend).contents(),
                pool.wf(),
                pool_ready(pool@, backend.contents()),
                pages_agree(pages, pool@, backend.contents()),
                pps == old(pool)@.page_size,
                ps == config.page_size as int,
                c_old == old(self)@,
                a0 == advance(pages, pps, ps, self@.path),
                a0 == advance(pages, pps, ps, old(self)@.path),
                cursor_wf(self@),
                path_finite(pages, pps, ps, self@.path),
                self@.cells == c_old.cells,
                self@.current == c_old.current,
                self@.exhausted == c_old.exhausted,
                self@.end_key == c_old.end_key,
            decreases self.stack@.len(),
        {
            let top = self.stack.len() - 1;
            let entry = self.stack[top];
            proof {
                assert(self@.path[top as int] == (entry.page_id, entry.child_index as int, entry.num_children as int));
                assert(self@.path.last() == self@.path[top as int]);
            }
            if entry.child_index + 1 < entry.num_children {
                let ghost here = self@;
                let r = self.descend_next_child(pool, backend, config, Ghost(pages));
                proof {
                    assert(here == CursorView { path: here.path, ..c_old });
                    let (pg, ci, nc) = here.path.last();
                    if let Some(data) = pages(pg) {
                        if let Some(iv) = parse_interior(data, ps) {
                            let child = child_or_right(iv.cells, iv.right_child, ci + 1);
                            lemma_descend_not_exhausted(
                                pages,
                                ps,
                                child,
                                here.path.update(here.path.len() - 1, (pg, ci + 1, nc)),
                                finite_depth(pages, pps, ps, child),
                            );
                        }
                    }
                    assert(!(a0 is Exhausted));
                }
                return r;
            }
            let ghost prev = self@;
            self.stack.pop();
            proof {
                assert(self@.path =~= prev.path.drop_last());
                assert forall|k: int| 0 <= k < self@.path.len() implies page_finite(
                    pages,
                    pps,
                    ps,
                    (#[trigger] self@.path[k]).0,
                ) by {
                    assert(self@.path[k] == prev.path[k]);
                }
                assert forall|k: int| 0 <= k < self@.path.len() implies 0 <= (#[trigger] self@.path[k]).1
                    < self@.path[k].2 <= usize::MAX by {
                    assert(self@.path[k] == prev.path[k]);
                }
            }
        }
        proof {
            assert(self@.path =~= Seq::<(PageId, int, int)>::empty());
            assert(self@ == CursorView { path: Seq::empty(), ..c_old });
        }
        Ok(false)
    }
}

} // verus!

verus! {

impl BTreeCursor {
    /// Hands out the next cell's key and value, or `None` when the cursor
    /// is used up.
    ///
    /// When the current leaf is used up the cursor moves to the next leaf
    /// that has cells, passing over leaves without any; it is used up past
    /// the last leaf and at the first key at or above the end key. A value
    /// stored in overflow pages is handed out as the overflow reference its
    /// cell holds. Fails when a page on the way cannot be read or does not
    /// parse, and after passing over `u64::MAX` leaves without cells in one
    /// step.
    pub fn next<B: ReadAt + WriteAt + Durability>(
        &mut self,
        pool: &mut BufferPool,
        backend: &mut B,
        config: &BTreeConfig,
    ) -> (r: Result<Option<(Vec<u8>, LeafCellValue)>, StorageError>)
        requires
            cursor_wf(old(self)@),
            old(pool).wf(),
            pool_ready(old(pool)@, old(backend).contents()),
            path_finite(
                pool_pages(old(pool)@, old(backend).contents()),
                old(pool)@.page_size,
                config.page_size as int,
                old(self)@.path,
            ),
        ensures
            final(pool).wf(),
            r is Ok ==> {
                &&& cursor_wf(final(self)@)
                &&& final(pool).wf()
                &&& pool_ready(final(pool)@, final(backend).contents())
                &&& final(pool)@.page_size == old(pool)@.page_size
                &&& pages_agree(pool_pages(old(pool)@, old(backend).contents()), final(pool)@, final(backend).contents())
                &&& path_finite(
                    pool_pages(final(pool)@, final(backend).contents()),
                    final(pool)@.page_size,
                    config.page_size as int,
                    final(self)@.path,
                )
            },
            old(self)@.exhausted ==> (r matches Ok(x) && x is None && final(self)@ == old(self)@ && final(pool)@
                == old(pool)@ && final(backend).contents() == old(backend).contents()),
            !old(self)@.exhausted && old(self)@.current < old(self)@.cells.len() ==> (r matches Ok(x) && emitted(
                old(self)@,
                out_view(x),
                final(self)@,
            ) && final(pool)@ == old(pool)@ && final(backend).contents() == old(backend).contents()),
            !old(self)@.exhausted && old(self)@.current >= old(self)@.cells.len() ==> match advance_nonempty(
                pool_pages(old(pool)@, old(backend).contents()),
                old(pool)@.page_size,
                config.page_size as int,
                old(self)@.path,
                skip_limit(),
            ) {
                Descent::Loaded(path, cells) => cells.len() > 0 && (r matches Ok(x) ==> emitted(
                    CursorView { path, cells, current: 0, ..old(self)@ },
                    out_view(x),
                    final(self)@,
                )),
                Descent::Exhausted => r matches Ok(x) ==> x is None && final(self)@.exhausted && final(self)@.path
                    == Seq::<(PageId, int, int)>::empty() && final(self)@.end_key == old(self)@.end_key,
                _ => r is Err,
            },
            !old(self)@.exhausted && old(self)@.current >= old(self)@.cells.len() && advance(
                pool_pages(old(pool)@, old(backend).contents()),
                old(pool)@.page_size,
                config.page_size as int,
                old(self)@.path,
            ) is Exhausted ==> (r matches Ok(x) && x is None),
    {
        let ghost pages = pool_pages(pool@, backend.contents());
        let ghost pps = pool@.page_size;
        let ghost ps = config.page_size as int;
        if self.exhausted {
            return Ok(None);
        }
        if self.current_cell >= self.cached_cells.len() {
            proof {
                assert(pages_agree(pages, pool@, backend.contents()));
            }
            let ghost target = advance_nonempty(pages, pps, ps, self@.path, skip_limit());
            let ghost c_old = self@;
            proof {
                lemma_advance_nonempty_cells(pages, pps, ps, self@.path, skip_limit());
            }
            let mut budget: u64 = u64::MAX;
            loop
                invariant_except_break
                    pool.wf(),
                    pool_ready(pool@, backend.contents()),
                    pool@.page_size == pps,
                    pps == old(pool)@.page_size,
                    ps == config.page_size as int,
                    pages == pool_pages(old(pool)@, old(backend).contents()),
                    pages_agree(pages, pool@, backend.contents()),
                    cursor_wf(self@),
                    path_finite(pages, pps, ps, self@.path),
                    !self@.exhausted,
                    self@.end_key == c_old.end_key,
                    c_old == old(self)@,
                    !old(self)@.exhausted,
                    old(self)@.current >= old(self)@.cells.len(),
                    target == advance_nonempty(pages, pps, ps, old(self)@.path, skip_limit()),
                    target == advance_nonempty(pages, pps, ps, self@.path, budget as nat),
                    target matches Descent::Loaded(_, cells) ==> cells.len() > 0,
                    advance(pages, pps, ps, old(self)@.path) is Exhausted ==> self@.path == old(self)@.path,
                ensures
                    pool.wf(),
                    pool_ready(pool@, backend.contents()),
                    pool@.page_size == pps,
                    pages_agree(pages, pool@, backend.contents()),
                    cursor_wf(self@),
                    path_finite(pages, pps, ps, self@.path),
                    target == Descent::Loaded(self@.path, self@.cells),
                    self@ == (CursorView { path: self@.path, cells: self@.cells, current: 0, ..old(self)@ }),
                    self@.cells.len() > 0,
                decreases budget,
            {
                let ghost before = self@;
                proof {
                    lemma_advance_loaded_nonempty(pages, pps, ps, before.path);
                }
                match self.advance_to_next_leaf(pool, backend, config, Ghost(pages)) {
                    Ok(true) => {
                        break;
                    },
                    Ok(false) => {
                        if self.stack.len() == 0 {
                            self.exhausted = true;
                            proof {
                                let other = pool_pages(pool@, backend.contents());
                                assert forall|q: PageId| q.0 != 0 && pages(q) is Some implies #[trigger] other(q)
                                    == pages(q) by {
                                    assert(page_image(pool@, backend.contents(), q) == pages(q));
                                }
                                lemma_path_finite_agree(pages, other, pps, ps, self@.path);
                            }
                            return Ok(None);
                        }
                        if budget == 0 {
                            return Err(StorageError::new("cursor: too many leaves without cells"));
                        }
                        budget = budget - 1;
                    },
                    Err(e) => {
                        return Err(e);
                    },
                }
            }
            proof {
                let other = pool_pages(pool@, backend.contents());
                assert forall|q: PageId| q.0 != 0 && pages(q) is Some implies #[trigger] other(q) == pages(q) by {
                    assert(page_image(pool@, backend.contents(), q) == pages(q));
                }
                lemma_path_finite_agree(pages, other, pps, ps, self@.path);
            }
        } else {
            proof {
                assert(pages_agree(pages, pool@, backend.contents()));
                assert(pool_pages(pool@, backend.contents()) == pages);
            }
        }
        let ghost c1 = self@;
        let i = self.current_cell;
        let cell = clone_cell(&self.cached_cells[i]);
        proof {
            assert(cell@ == c1.cells[i as int]);
        }
        match &self.end_key {
            Some(end) => {
                if !crate::keys::key_less(cell.key.as_slice(), end.as_slice()) {
                    self.exhausted = true;
                    return Ok(None);
                }
            },
            None => {},
        }
        self.current_cell = i + 1;
        Ok(Some((cell.key, cell.value)))
    }
}

} // verus!

verus! {

/// A leaf's cells hold a position for every key: the first cell at or
/// above it.
proof fn lemma_lower_pos_exists(cells: Seq<LeafCellView>, key: Seq<u8>)
    requires
        leaf_sorted(cells),
    ensures
        lower_pos(cells, key, lower_index(cells, key)),
    decreases cells.len(),
{
    if cells.len() == 0 {
        assert(lower_pos(cells, key, 0));
    } else {
        let init = cells.drop_last();
        assert(leaf_sorted(init));
        lemma_lower_pos_exists(init, key);
        let i = lower_index(init, key);
        let last = cells.len() - 1;
        assert forall|j: int| 0 <= j < i implies key_lt(#[trigger] cells[j].key, key) by {
            assert(cells[j] == init[j]);
        }
        assert forall|j: int| i <= j < last implies !key_lt(#[trigger] cells[j].key, key) by {
            assert(cells[j] == init[j]);
        }
        if i == init.len() && key_lt(cells[last].key, key) {
            assert(lower_pos(cells, key, cells.len() as int));
        } else if i == init.len() {
            assert(lower_pos(cells, key, last));
        } else {
            assert(!key_lt(init[i].key, key));
            crate::keys::lemma_key_order_facts(init[i].key, key);
            crate::keys::lemma_key_order_facts(cells[last].key, key);
            crate::keys::lemma_key_lt_le_transitive(key, init[i].key, cells[last].key);
            assert(!key_lt(cells[last].key, key)) by {
                assert(key_lt(cells[i].key, cells[last].key));
                if key_lt(cells[last].key, key) {
                    crate::keys::lemma_key_lt_transitive(cells[i].key, cells[last].key, key);
                }
            }
            assert(lower_pos(cells, key, i));
        }
    }
}

/// A seek that finds a leaf positions the cursor at the leaf's first key at
/// or above the start key: every key before the position is below it and
/// none from the position on is.
pub proof fn lemma_seek_starts_at_key(
    pages: spec_fn(PageId) -> Option<Seq<u8>>,
    page_size: int,
    p: PageId,
    key: Seq<u8>,
    path: PathView,
    d: nat,
)
    ensures
        seek(pages, page_size, p, key, path, d) matches Seek::Found(_, cells, i) ==> lower_pos(cells, key, i),
    decreases d,
{
    if d > 0 && pages(p) is Some {
        match read_node(pages(p).unwrap(), page_size) {
            NodeRead::Interior(iv) => {
                if interior_sorted(iv.cells) {
                    let pos = route_index(iv.cells, key);
                    lemma_seek_starts_at_key(
                        pages,
                        page_size,
                        child_or_right(iv.cells, iv.right_child, pos),
                        key,
                        path.push((p, pos, iv.cells.len() + 1int)),
                        (d - 1) as nat,
                    );
                }
            },
            NodeRead::Leaf(lv) => {
                if leaf_sorted(lv.cells) {
                    lemma_lower_pos_exists(lv.cells, key);
                }
            },
            NodeRead::Fail => {},
        }
    }
}

/// A cursor with an end key never hands out a key at or above it.
pub proof fn lemma_cursor_stays_below_end(c: CursorView, x: Option<LeafCellView>, c2: CursorView)
    requires
        emitted(c, x, c2),
        c.end_key is Some,
        x is Some,
    ensures
        key_lt(x.unwrap().key, c.end_key.unwrap()),
{
}

} // verus!
