//! B-tree steps: copy-on-write node updates and range cursors.
//!
//! An insert that splits a child must put the child's two halves, and the
//! separator between them, into the parent; when the parent then overflows
//! it splits in turn at its median, whose key moves up. A copy-on-write
//! update that does not split only redirects one child pointer in each
//! ancestor. These steps are computed here over a node's cells, and proved
//! to keep the node's separators and children in order.

pub mod cursor;
pub mod split;
pub mod insert;
pub mod write;
pub mod tree;
pub mod contents;
pub mod bounded;

use vstd::prelude::*;
use crate::keys::key_lt;
use crate::page::PageId;
use crate::page::interior::{
    InteriorCell, InteriorCellView, icells_view, interior_fits, interior_sorted,
    interior_space_check,
};

verus! {

/// Configuration of a B-tree.
#[derive(Clone, Copy, Debug)]
pub struct BTreeConfig {
    /// Page size in bytes.
    pub page_size: usize,
}

/// A separator promoted out of a child that split: keys below it live under
/// `left_child`, the rest under `right_child`.
#[derive(Clone, Debug, PartialEq, Eq)]
pub struct PromotedKey {
    /// The separator key.
    pub key: Vec<u8>,
    /// The page holding the lower half.
    pub left_child: PageId,
    /// The page holding the upper half.
    pub right_child: PageId,
}

/// The separator keys of a node, in order.
pub open spec fn sep_keys(cells: Seq<InteriorCellView>) -> Seq<Seq<u8>> {
    cells.map_values(|c: InteriorCellView| c.key)
}

/// The children of a node, in order: each cell's left child, then the right
/// child.
pub open spec fn children(cells: Seq<InteriorCellView>, right_child: PageId) -> Seq<PageId> {
    cells.map_values(|c: InteriorCellView| c.left_child).push(right_child)
}

/// The cells and right child of a node after the child at `child_index`
/// split into `left` and `right` around separator `key`: a new cell
/// `(left, key)` goes in at `child_index`, and the slot that pointed at the
/// old child now points at `right`.
pub open spec fn promoted_node(
    cells: Seq<InteriorCellView>,
    right_child: PageId,
    child_index: int,
    key: Seq<u8>,
    left: PageId,
    right: PageId,
) -> (Seq<InteriorCellView>, PageId) {
    let new_cell = InteriorCellView { left_child: left, key };
    if child_index < cells.len() {
        (
            cells.update(child_index, InteriorCellView { left_child: right, key: cells[child_index].key }).insert(
                child_index,
                new_cell,
            ),
            right_child,
        )
    } else {
        (cells.push(new_cell), right)
    }
}

/// The result of putting a promoted separator into an interior node.
#[derive(Debug)]
pub enum InteriorInsert {
    /// The node still fits its page.
    Fits {
        /// The node's cells.
        cells: Vec<InteriorCell>,
        /// The node's right child.
        right_child: PageId,
    },
    /// The node overflowed and splits at its median cell.
    Split {
        /// The cells before the median.
        left_cells: Vec<InteriorCell>,
        /// The right child of the left half: the median cell's left child.
        left_right_child: PageId,
        /// The median key, promoted to the parent.
        median_key: Vec<u8>,
        /// The cells after the median.
        right_cells: Vec<InteriorCell>,
        /// The right child of the right half: the node's right child.
        right_child: PageId,
    },
}

fn clone_range(cells: &Vec<InteriorCell>, lo: usize, hi: usize) -> (r: Vec<InteriorCell>)
    requires
        lo <= hi <= cells@.len(),
    ensures
        icells_view(r@) == icells_view(cells@).subrange(lo as int, hi as int),
{
    let mut r: Vec<InteriorCell> = Vec::new();
    let mut i = lo;
    while i < hi
        invariant
            lo <= i <= hi <= cells@.len(),
            icells_view(r@) == icells_view(cells@).subrange(lo as int, i as int),
        decreases hi - i,
    {
        let key = cells[i].key.clone();
        assert(key@ =~= cells@[i as int].key@);
        let c = InteriorCell { left_child: cells[i].left_child, key };
        let ghost prev = r@;
        r.push(c);
        proof {
            assert(icells_view(r@) =~= icells_view(prev).push(c@));
            assert(icells_view(cells@).subrange(lo as int, i + 1) =~= icells_view(cells@).subrange(
                lo as int,
                i as int,
            ).push(cells@[i as int]@));
        }
        i = i + 1;
    }
    r
}

fn clone_cell(c: &InteriorCell) -> (r: InteriorCell)
    ensures
        r@ == c@,
{
    let key = c.key.clone();
    assert(key@ =~= c.key@);
    InteriorCell { left_child: c.left_child, key }
}

/// Puts the separator promoted from the split of the child at `child_index`
/// into a node with `cells` and `right_child`, then checks the node against
/// `page_size`: it either still fits, or splits at its median.
pub fn insert_promoted(
    cells: &[InteriorCell],
    right_child: PageId,
    child_index: usize,
    promoted: &PromotedKey,
    page_size: usize,
) -> (r: InteriorInsert)
    requires
        child_index <= cells@.len(),
    ensures
        ({
            let (nc, nrc) = promoted_node(
                icells_view(cells@),
                right_child,
                child_index as int,
                promoted.key@,
                promoted.left_child,
                promoted.right_child,
            );
            let mid = nc.len() / 2;
            &&& (r is Fits <==> interior_fits(nc, page_size as int))
            &&& (r matches InteriorInsert::Fits { cells: c, right_child: x } ==> icells_view(c@) == nc && x == nrc)
            &&& (r matches InteriorInsert::Split { left_cells, left_right_child, median_key, right_cells, right_child: x }
                ==> icells_view(left_cells@) == nc.subrange(0, mid as int) && left_right_child == nc[mid as int].left_child
                && median_key@ == nc[mid as int].key && icells_view(right_cells@) == nc.subrange(
                mid as int + 1,
                nc.len() as int,
            ) && x == nrc)
        }),
{
    let ghost cv = icells_view(cells@);
    let mut nc: Vec<InteriorCell> = Vec::new();
    let mut i: usize = 0;
    while i < cells.len()
        invariant
            i <= cells@.len(),
            icells_view(nc@) == icells_view(cells@).subrange(0, i as int),
        decreases cells@.len() - i,
    {
        let c = clone_cell(&cells[i]);
        let ghost prev = nc@;
        nc.push(c);
        proof {
            assert(icells_view(nc@) =~= icells_view(prev).push(c@));
            assert(icells_view(cells@).subrange(0, i + 1) =~= icells_view(cells@).subrange(0, i as int).push(
                cells@[i as int]@,
            ));
        }
        i = i + 1;
    }
    assert(icells_view(cells@).subrange(0, cells@.len() as int) =~= cv);
    let key = promoted.key.clone();
    assert(key@ =~= promoted.key@);
    let new_cell = InteriorCell { left_child: promoted.left_child, key };
    let mut new_right = right_child;
    if child_index < nc.len() {
        let old_key = nc[child_index].key.clone();
        assert(old_key@ =~= cv[child_index as int].key);
        let ghost before = icells_view(nc@);
        nc.set(child_index, InteriorCell { left_child: promoted.right_child, key: old_key });
        let ghost mid_view = icells_view(nc@);
        nc.insert(child_index, new_cell);
        proof {
            assert(mid_view =~= before.update(
                child_index as int,
                InteriorCellView { left_child: promoted.right_child, key: cv[child_index as int].key },
            ));
            assert(icells_view(nc@) =~= mid_view.insert(child_index as int, new_cell@));
        }
    } else {
        let ghost before = icells_view(nc@);
        nc.push(new_cell);
        new_right = promoted.right_child;
        proof {
            assert(icells_view(nc@) =~= before.push(new_cell@));
        }
    }
    match interior_space_check(nc.as_slice(), page_size) {
        Some(_) => InteriorInsert::Fits { cells: nc, right_child: new_right },
        None => {
            let n = nc.len();
            let mid = n / 2;
            proof {
                assert(n >= 1);
            }
            let left_cells = clone_range(&nc, 0, mid);
            let right_cells = clone_range(&nc, mid + 1, n);
            let median_key = nc[mid].key.clone();
            assert(median_key@ =~= nc@[mid as int].key@);
            InteriorInsert::Split {
                left_cells,
                left_right_child: nc[mid].left_child,
                median_key,
                right_cells,
                right_child: new_right,
            }
        },
    }
}

/// The cells and right child of a node after its child at `child_index`
/// was redirected to `new_child`.
pub open spec fn replaced_node(
    cells: Seq<InteriorCellView>,
    right_child: PageId,
    child_index: int,
    new_child: PageId,
) -> (Seq<InteriorCellView>, PageId) {
    if child_index < cells.len() {
        (cells.update(child_index, InteriorCellView { left_child: new_child, key: cells[child_index].key }), right_child)
    } else {
        (cells, new_child)
    }
}

/// Redirects the child at `child_index` of a node to `new_child`, as a
/// copy-on-write update does in each ancestor of a rewritten page.
pub fn replace_child(
    cells: &[InteriorCell],
    right_child: PageId,
    child_index: usize,
    new_child: PageId,
) -> (r: (Vec<InteriorCell>, PageId))
    requires
        child_index <= cells@.len(),
    ensures
        sep_keys(icells_view(r.0@)) == sep_keys(icells_view(cells@)),
        children(icells_view(r.0@), r.1) == children(icells_view(cells@), right_child).update(
            child_index as int,
            new_child,
        ),
        (icells_view(r.0@), r.1) == replaced_node(icells_view(cells@), right_child, child_index as int, new_child),
{
    let ghost cv = icells_view(cells@);
    let mut nc: Vec<InteriorCell> = Vec::new();
    let mut i: usize = 0;
    while i < cells.len()
        invariant
            i <= cells@.len(),
            icells_view(nc@) == icells_view(cells@).subrange(0, i as int),
        decreases cells@.len() - i,
    {
        let c = clone_cell(&cells[i]);
        let ghost prev = nc@;
        nc.push(c);
        proof {
            assert(icells_view(nc@) =~= icells_view(prev).push(c@));
            assert(icells_view(cells@).subrange(0, i + 1) =~= icells_view(cells@).subrange(0, i as int).push(
                cells@[i as int]@,
            ));
        }
        i = i + 1;
    }
    assert(icells_view(cells@).subrange(0, cells@.len() as int) =~= cv);
    if child_index < nc.len() {
        let old_key = nc[child_index].key.clone();
        assert(old_key@ =~= cv[child_index as int].key);
        nc.set(child_index, InteriorCell { left_child: new_child, key: old_key });
        proof {
            let nv = icells_view(nc@);
            assert(nv =~= cv.update(child_index as int, InteriorCellView { left_child: new_child, key: cv[child_index as int].key }));
            assert(sep_keys(nv) =~= sep_keys(cv));
            assert(children(nv, right_child) =~= children(cv, right_child).update(child_index as int, new_child));
        }
        (nc, right_child)
    } else {
        proof {
            assert(sep_keys(icells_view(nc@)) =~= sep_keys(cv));
            assert(children(icells_view(nc@), new_child) =~= children(cv, right_child).update(
                child_index as int,
                new_child,
            ));
        }
        (nc, new_child)
    }
}

/// Putting a promoted separator into a node inserts its key at the split
/// child's position and replaces the split child by its two halves.
pub proof fn lemma_promoted_node_shape(
    cells: Seq<InteriorCellView>,
    right_child: PageId,
    child_index: int,
    key: Seq<u8>,
    left: PageId,
    right: PageId,
)
    requires
        0 <= child_index <= cells.len(),
    ensures
        ({
            let (nc, nrc) = promoted_node(cells, right_child, child_index, key, left, right);
            let ch = children(cells, right_child);
            &&& sep_keys(nc) == sep_keys(cells).insert(child_index, key)
            &&& children(nc, nrc) == ch.subrange(0, child_index) + seq![left, right] + ch.subrange(
                child_index + 1,
                ch.len() as int,
            )
        }),
{
    let (nc, nrc) = promoted_node(cells, right_child, child_index, key, left, right);
    let ch = children(cells, right_child);
    assert(sep_keys(nc) =~= sep_keys(cells).insert(child_index, key));
    assert(children(nc, nrc) =~= ch.subrange(0, child_index) + seq![left, right] + ch.subrange(
        child_index + 1,
        ch.len() as int,
    ));
}

/// A promoted separator that falls between its neighbours keeps the node's
/// separators in strictly increasing order.
pub proof fn lemma_promoted_node_sorted(
    cells: Seq<InteriorCellView>,
    right_child: PageId,
    child_index: int,
    key: Seq<u8>,
    left: PageId,
    right: PageId,
)
    requires
        0 <= child_index <= cells.len(),
        interior_sorted(cells),
        child_index > 0 ==> key_lt(cells[child_index - 1].key, key),
        child_index < cells.len() ==> key_lt(key, cells[child_index].key),
    ensures
        interior_sorted(promoted_node(cells, right_child, child_index, key, left, right).0),
{
    let nc = promoted_node(cells, right_child, child_index, key, left, right).0;
    assert forall|i: int, j: int| 0 <= i < j < nc.len() implies key_lt(#[trigger] nc[i].key, #[trigger] nc[j].key) by {
        let ki = if i < child_index { cells[i].key } else if i == child_index { key } else { cells[i - 1].key };
        let kj = if j < child_index { cells[j].key } else if j == child_index { key } else { cells[j - 1].key };
        assert(nc[i].key == ki);
        assert(nc[j].key == kj);
        if i < child_index && j > child_index {
            if i < child_index - 1 {
                crate::keys::lemma_key_lt_transitive(cells[i].key, cells[child_index - 1].key, key);
            }
            if j - 1 > child_index {
                crate::keys::lemma_key_lt_transitive(key, cells[child_index].key, cells[j - 1].key);
            }
            crate::keys::lemma_key_lt_transitive(cells[i].key, key, cells[j - 1].key);
        } else if i < child_index && j == child_index {
            if i < child_index - 1 {
                crate::keys::lemma_key_lt_transitive(cells[i].key, cells[child_index - 1].key, key);
            }
        } else if i == child_index {
            if j - 1 > child_index {
                crate::keys::lemma_key_lt_transitive(key, cells[child_index].key, cells[j - 1].key);
            }
        }
    }
}

/// Splitting a node at its median keeps every separator and every child:
/// the left half's separators, the median and the right half's separators
/// are the node's separators, and the halves' children (the left half
/// ending at the median's left child) are the node's children.
pub proof fn lemma_split_keeps_separators_and_children(cells: Seq<InteriorCellView>, right_child: PageId)
    requires
        cells.len() >= 1,
    ensures
        ({
            let mid = cells.len() / 2;
            let left = cells.subrange(0, mid as int);
            let right = cells.subrange(mid as int + 1, cells.len() as int);
            &&& sep_keys(left) + seq![cells[mid as int].key] + sep_keys(right) == sep_keys(cells)
            &&& children(left, cells[mid as int].left_child) + children(right, right_child) == children(
                cells,
                right_child,
            )
        }),
{
    let mid = cells.len() / 2;
    let left = cells.subrange(0, mid as int);
    let right = cells.subrange(mid as int + 1, cells.len() as int);
    assert(sep_keys(left) + seq![cells[mid as int].key] + sep_keys(right) =~= sep_keys(cells));
    assert(children(left, cells[mid as int].left_child) + children(right, right_child) =~= children(
        cells,
        right_child,
    ));
}

/// The largest leaf cell (key and value with their 4-byte length header)
/// stored inline in a page of `page_size` bytes: a quarter of the space
/// after the 44-byte leaf header.
pub open spec fn inline_cell_limit(page_size: int) -> int {
    (page_size - 44) / 4
}

/// Whether a leaf cell with a key of `key_len` bytes and a value of
/// `value_len` bytes is stored inline (else its value goes to overflow
/// pages).
pub fn fits_inline(key_len: usize, value_len: usize, page_size: usize) -> (r: bool)
    requires
        page_size >= 44,
    ensures
        r == (4 + key_len + value_len <= inline_cell_limit(page_size as int)),
{
    let threshold = (page_size - 44) / 4;
    match key_len.checked_add(value_len) {
        Some(s) => match s.checked_add(4) {
            Some(t) => t <= threshold,
            None => false,
        },
        None => false,
    }
}

} // verus!
