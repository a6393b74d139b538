//! B-tree leaf page format.
//!
//! Leaf pages store key-value cells (or key-only cells for index trees).
//!
//! | Offset | Size | Field                                   |
//! |--------|------|-----------------------------------------|
//! | 0      | 24   | common page header                      |
//! | 24     | 2    | cell_count (u16 LE)                     |
//! | 26     | 2    | free_start (u16 LE)                     |
//! | 28     | 8    | next_leaf (u64 LE)                      |
//! | 36     | 8    | prev_leaf (u64 LE)                      |
//! | 44     | 2n   | cell pointers (u16 LE offsets)          |
//!
//! Cells are written backward from the end of the page, cell 0 last in the
//! page. A cell is `key_len (u16 LE) | value_len (u16 LE) | key | value`, or,
//! when `value_len` is `0xFFFF`, `key_len | 0xFFFF | key | overflow page id
//! (u64 LE) | total overflow length (u32 LE)`.

use vstd::prelude::*;
use crate::codec::{
    le16, le16_bytes, le32, le32_bytes, le64, le64_bytes, lemma_le16_of_range, lemma_le32_of_range,
    lemma_le64_of_range, lemma_splice_concat, lemma_splice_preserves_range, lemma_splice_range,
    lemma_subrange_of_range, lemma_u16_round_trip, lemma_u32_round_trip, lemma_u64_round_trip,
    read_le16, read_le32, read_le64, splice, copy_range, write_bytes, write_le16, write_le32,
    write_le64,
};
use crate::error::StorageError;
use crate::keys::{key_le, key_lt, key_less, key_less_eq, compare_keys};
use super::header::{CommonPageHeader, header_bytes, header_of, page_checksum, seal_page};
use super::{PageId, PageType};

verus! {

/// Byte offset where the cell pointer array of a leaf page begins.
pub const LEAF_CELL_PTRS_OFFSET: usize = 44;

/// `value_len` sentinel marking an overflow-redirected cell.
pub const OVERFLOW_SENTINEL: u16 = 0xFFFFu16;

/// The value payload of a leaf cell: inline bytes or an overflow pointer.
#[derive(Clone, Debug, PartialEq, Eq)]
pub enum LeafCellValue {
    /// Value stored inline in the leaf cell.
    Inline(Vec<u8>),
    /// Value stored in an overflow page chain.
    Overflow {
        /// Page ID of the first overflow page.
        overflow_page_id: PageId,
        /// Total byte length of the overflow data.
        total_overflow_len: u32,
    },
}

/// A single key-value cell in a leaf page.
#[derive(Clone, Debug, PartialEq, Eq)]
pub struct LeafCell {
    /// The key bytes.
    pub key: Vec<u8>,
    /// The value: inline bytes or overflow pointer.
    pub value: LeafCellValue,
}

/// The mathematical value of a [`LeafCellValue`].
pub enum LeafValueView {
    /// Inline bytes.
    Inline(Seq<u8>),
    /// First overflow page and total overflow length.
    Overflow(PageId, u32),
}

/// The mathematical value of a [`LeafCell`].
pub struct LeafCellView {
    /// The key bytes.
    pub key: Seq<u8>,
    /// The value.
    pub value: LeafValueView,
}

impl View for LeafCellValue {
    type V = LeafValueView;

    open spec fn view(&self) -> LeafValueView {
        match self {
            LeafCellValue::Inline(v) => LeafValueView::Inline(v@),
            LeafCellValue::Overflow { overflow_page_id, total_overflow_len } => LeafValueView::Overflow(
                *overflow_page_id,
                *total_overflow_len,
            ),
        }
    }
}

impl View for LeafCell {
    type V = LeafCellView;

    open spec fn view(&self) -> LeafCellView {
        LeafCellView { key: self.key@, value: self.value@ }
    }
}

/// The views of a sequence of cells.
pub open spec fn cells_view(cells: Seq<LeafCell>) -> Seq<LeafCellView> {
    cells.map_values(|c: LeafCell| c@)
}

/// Length of the part of a cell after its key.
pub open spec fn value_part_len(v: LeafValueView) -> int {
    match v {
        LeafValueView::Inline(b) => b.len() as int,
        LeafValueView::Overflow(_, _) => 12,
    }
}

/// On-disk size of a cell.
pub open spec fn leaf_cell_size(c: LeafCellView) -> int {
    4 + c.key.len() + value_part_len(c.value)
}

/// The on-disk bytes of a cell (lengths truncated to 16 bits as written).
pub open spec fn leaf_cell_bytes(c: LeafCellView) -> Seq<u8> {
    match c.value {
        LeafValueView::Inline(v) => le16_bytes(c.key.len() as u16) + le16_bytes(v.len() as u16)
            + c.key + v,
        LeafValueView::Overflow(p, l) => le16_bytes(c.key.len() as u16) + le16_bytes(0xFFFFu16)
            + c.key + le64_bytes(p.0) + le32_bytes(l),
    }
}

/// Total on-disk size of a sequence of cells.
pub open spec fn leaf_cells_size(cells: Seq<LeafCellView>) -> int
    decreases cells.len(),
{
    if cells.len() == 0 {
        0
    } else {
        leaf_cells_size(cells.drop_last()) + leaf_cell_size(cells.last())
    }
}

/// Where cell `i` starts when cells are written backward from `page_size`.
pub open spec fn leaf_cell_off(cells: Seq<LeafCellView>, i: int, page_size: int) -> int {
    page_size - leaf_cells_size(cells.take(i + 1))
}

/// The cells fit a page: header, pointer array and cell contents together
/// take at most `page_size` bytes.
pub open spec fn leaf_fits(cells: Seq<LeafCellView>, page_size: int) -> bool {
    44 + 2 * cells.len() + leaf_cells_size(cells) <= page_size
}

/// `page` is the leaf page image with the given header fields, cells and links.
pub open spec fn leaf_image(
    page: Seq<u8>,
    page_id: PageId,
    txn_id: u64,
    cells: Seq<LeafCellView>,
    next_leaf: PageId,
    prev_leaf: PageId,
    page_size: int,
) -> bool {
    let n = cells.len() as int;
    let free_start = page_size - leaf_cells_size(cells);
    &&& page.len() == page_size
    &&& 44 + 2 * n <= free_start
    &&& le64(page, 0) == page_id.0
    &&& page[8] == 2u8
    &&& page[9] == 1u8
    &&& page[10] == 0u8
    &&& page[11] == 0u8
    &&& le64(page, 12) == txn_id
    &&& le32(page, 20) == page_checksum(page)
    &&& le16(page, 24) == n as u16
    &&& le16(page, 26) == free_start as u16
    &&& le64(page, 28) == next_leaf.0
    &&& le64(page, 36) == prev_leaf.0
    &&& forall|i: int|
        0 <= i < n ==> {
            let off = #[trigger] leaf_cell_off(cells, i, page_size);
            &&& le16(page, 44 + 2 * i) == off as u16
            &&& page.subrange(off, off + leaf_cell_size(cells[i])) == leaf_cell_bytes(cells[i])
        }
    &&& forall|j: int| 44 + 2 * n <= j < free_start ==> #[trigger] page[j] == 0u8
}

// ---------------------------------------------------------------------------
// Size facts
// ---------------------------------------------------------------------------

pub proof fn lemma_cell_size_pos(c: LeafCellView)
    ensures
        leaf_cell_size(c) >= 4,
        leaf_cell_bytes(c).len() == leaf_cell_size(c),
{
}

pub proof fn lemma_cells_size_nonneg(cells: Seq<LeafCellView>)
    ensures
        leaf_cells_size(cells) >= 4 * cells.len(),
    decreases cells.len(),
{
    if cells.len() > 0 {
        lemma_cells_size_nonneg(cells.drop_last());
    }
}

/// The size of a prefix grows by one cell at a time.
pub proof fn lemma_prefix_size_step(cells: Seq<LeafCellView>, i: int)
    requires
        0 <= i < cells.len(),
    ensures
        leaf_cells_size(cells.take(i + 1)) == leaf_cells_size(cells.take(i)) + leaf_cell_size(
            cells[i],
        ),
{
    assert(cells.take(i + 1).drop_last() =~= cells.take(i));
}

/// Prefix sizes never decrease and stay below the total.
pub proof fn lemma_prefix_size_mono(cells: Seq<LeafCellView>, i: int, j: int)
    requires
        0 <= i <= j <= cells.len(),
    ensures
        leaf_cells_size(cells.take(i)) + 4 * (j - i) <= leaf_cells_size(cells.take(j)),
    decreases j - i,
{
    if i < j {
        lemma_prefix_size_mono(cells, i, j - 1);
        lemma_prefix_size_step(cells, j - 1);
    }
}

/// Inserting a cell adds its size to the cells' total.
pub proof fn lemma_size_insert(cells: Seq<LeafCellView>, i: int, c: LeafCellView)
    requires
        0 <= i <= cells.len(),
    ensures
        leaf_cells_size(cells.insert(i, c)) == leaf_cells_size(cells) + leaf_cell_size(c),
    decreases cells.len(),
{
    if i == cells.len() {
        assert(cells.insert(i, c).drop_last() =~= cells);
    } else {
        assert(cells.insert(i, c).drop_last() =~= cells.drop_last().insert(i, c));
        lemma_size_insert(cells.drop_last(), i, c);
    }
}

/// Removing a cell takes its size off the cells' total.
pub proof fn lemma_size_remove(cells: Seq<LeafCellView>, i: int)
    requires
        0 <= i < cells.len(),
    ensures
        leaf_cells_size(cells.remove(i)) == leaf_cells_size(cells) - leaf_cell_size(cells[i]),
{
    assert(cells.remove(i).insert(i, cells[i]) =~= cells);
    lemma_size_insert(cells.remove(i), i, cells[i]);
}

pub proof fn lemma_take_full(cells: Seq<LeafCellView>)
    ensures
        cells.take(cells.len() as int) == cells,
{
    assert(cells.take(cells.len() as int) =~= cells);
}

// ---------------------------------------------------------------------------
// Cell encoding
// ---------------------------------------------------------------------------

/// On-disk size of a cell, `None` if it does not fit a `usize`.
fn cell_size_checked(c: &LeafCell) -> (r: Option<usize>)
    ensures
        r matches Some(n) ==> n == leaf_cell_size(c@),
        r is None ==> leaf_cell_size(c@) > usize::MAX,
{
    let vlen: usize = match &c.value {
        LeafCellValue::Inline(v) => v.len(),
        LeafCellValue::Overflow { .. } => 12,
    };
    match c.key.len().checked_add(vlen) {
        Some(s) => s.checked_add(4),
        None => None,
    }
}

/// Writes the on-disk form of `cell` at `pos`.
fn write_leaf_cell(page: &mut Vec<u8>, pos: usize, cell: &LeafCell)
    requires
        pos + leaf_cell_size(cell@) <= old(page)@.len(),
    ensures
        final(page)@ == splice(old(page)@, pos as int, leaf_cell_bytes(cell@)),
{
    let ghost s0 = old(page)@;
    let _n = page.len();
    let klen = cell.key.len();
    write_le16(page, pos, #[verifier::truncate] (klen as u16));
    match &cell.value {
        LeafCellValue::Inline(v) => {
            write_le16(page, pos + 2, #[verifier::truncate] (v.len() as u16));
            write_bytes(page, pos + 4, cell.key.as_slice());
            write_bytes(page, pos + 4 + klen, v.as_slice());
            proof {
                let a = le16_bytes(klen as u16);
                let b = le16_bytes(v@.len() as u16);
                lemma_splice_concat(s0, pos as int, a, b);
                lemma_splice_concat(s0, pos as int, a + b, cell.key@);
                lemma_splice_concat(s0, pos as int, a + b + cell.key@, v@);
            }
        },
        LeafCellValue::Overflow { overflow_page_id, total_overflow_len } => {
            write_le16(page, pos + 2, OVERFLOW_SENTINEL);
            write_bytes(page, pos + 4, cell.key.as_slice());
            write_le64(page, pos + 4 + klen, overflow_page_id.0);
            write_le32(page, pos + 12 + klen, *total_overflow_len);
            proof {
                let a = le16_bytes(klen as u16);
                let b = le16_bytes(0xFFFFu16);
                lemma_splice_concat(s0, pos as int, a, b);
                lemma_splice_concat(s0, pos as int, a + b, cell.key@);
                lemma_splice_concat(s0, pos as int, a + b + cell.key@, le64_bytes(overflow_page_id.0));
                lemma_splice_concat(
                    s0,
                    pos as int,
                    a + b + cell.key@ + le64_bytes(overflow_page_id.0),
                    le32_bytes(*total_overflow_len),
                );
            }
        },
    }
}

} // verus!

verus! {

/// A parsed B-tree leaf page.
#[derive(Clone, Debug)]
pub struct LeafPage {
    /// Common 24-byte page header.
    pub header: CommonPageHeader,
    /// Number of key-value cells recorded in the page.
    pub cell_count: u16,
    /// Offset of the first byte of the cell content area.
    pub free_start: u16,
    /// Page ID of the next leaf in sorted order (0 = none).
    pub next_leaf: PageId,
    /// Page ID of the previous leaf in sorted order (0 = none).
    pub prev_leaf: PageId,
    /// Parsed cells in page order (public so that the page's value, and
    /// with it every field above, is visible to callers).
    pub cells: Vec<LeafCell>,
}

/// The mathematical value of a [`LeafPage`].
pub struct LeafPageView {
    pub header: CommonPageHeader,
    pub cell_count: u16,
    pub free_start: u16,
    pub next_leaf: PageId,
    pub prev_leaf: PageId,
    pub cells: Seq<LeafCellView>,
}

impl View for LeafPage {
    type V = LeafPageView;

    open spec fn view(&self) -> LeafPageView {
        LeafPageView {
            header: self.header,
            cell_count: self.cell_count,
            free_start: self.free_start,
            next_leaf: self.next_leaf,
            prev_leaf: self.prev_leaf,
            cells: cells_view(self.cells@),
        }
    }
}

/// Checks that the cells fit a page; returns their total on-disk size.
pub(crate) fn leaf_space_check(cells: &[LeafCell], page_size: usize) -> (r: Option<usize>)
    ensures
        r is Some <==> leaf_fits(cells_view(cells@), page_size as int),
        r matches Some(t) ==> t == leaf_cells_size(cells_view(cells@)),
{
    let ghost cv = cells_view(cells@);
    let n = cells.len();
    proof {
        lemma_cells_size_nonneg(cv);
        lemma_take_full(cv);
    }
    let mut need: usize = LEAF_CELL_PTRS_OFFSET;
    if need > page_size {
        return None;
    }
    let mut i: usize = 0;
    while i < n
        invariant
            i <= n == cells@.len() == cv.len(),
            cv == cells_view(cells@),
            need == 44 + 2 * i + leaf_cells_size(cv.take(i as int)),
            need <= page_size,
        decreases n - i,
    {
        proof {
            lemma_prefix_size_step(cv, i as int);
            lemma_prefix_size_mono(cv, i + 1, n as int);
            lemma_take_full(cv);
            assert(cells@[i as int]@ == cv[i as int]);
        }
        let sz = match cell_size_checked(&cells[i]) {
            Some(s) => s,
            None => {
                return None;
            },
        };
        let add = match sz.checked_add(2) {
            Some(a) => a,
            None => {
                return None;
            },
        };
        let next = match need.checked_add(add) {
            Some(x) => x,
            None => {
                return None;
            },
        };
        if next > page_size {
            return None;
        }
        need = next;
        i = i + 1;
    }
    Some(need - LEAF_CELL_PTRS_OFFSET - 2 * n)
}

/// The cells of a leaf page are laid out from `page_size` downward, with
/// their pointers from offset 44 upward, and nothing else in between.
pub open spec fn leaf_cells_laid_out(page: Seq<u8>, cells: Seq<LeafCellView>, page_size: int) -> bool {
    let n = cells.len() as int;
    &&& forall|i: int|
        0 <= i < n ==> {
            let off = #[trigger] leaf_cell_off(cells, i, page_size);
            &&& le16(page, 44 + 2 * i) == off as u16
            &&& page.subrange(off, off + leaf_cell_size(cells[i])) == leaf_cell_bytes(cells[i])
        }
    &&& forall|j: int| 44 + 2 * n <= j < page_size - leaf_cells_size(cells) ==> #[trigger] page[j] == 0u8
}

/// Writes the cells and their pointers into a zeroed area of the page.
fn write_leaf_cells(page: &mut Vec<u8>, cells: &[LeafCell], page_size: usize)
    requires
        old(page)@.len() == page_size,
        leaf_fits(cells_view(cells@), page_size as int),
        forall|k: int| 44 <= k < page_size ==> #[trigger] old(page)@[k] == 0u8,
    ensures
        final(page)@.len() == page_size,
        final(page)@.subrange(0, 44) == old(page)@.subrange(0, 44),
        leaf_cells_laid_out(final(page)@, cells_view(cells@), page_size as int),
{
    let ghost cv = cells_view(cells@);
    let ghost ps = page_size as int;
    let ghost total = leaf_cells_size(cv);
    let n = cells.len();
    proof {
        lemma_take_full(cv);
        lemma_cells_size_nonneg(cv);
    }
    let mut wp: usize = page_size;
    let mut i: usize = 0;
    while i < n
        invariant
            i <= n == cells@.len() == cv.len(),
            cv == cells_view(cells@),
            ps == page_size,
            total == leaf_cells_size(cv),
            44 + 2 * n + total <= ps,
            page@.len() == ps,
            page@.subrange(0, 44) == old(page)@.subrange(0, 44),
            wp == ps - leaf_cells_size(cv.take(i as int)),
            forall|j: int|
                0 <= j < i ==> {
                    let off = #[trigger] leaf_cell_off(cv, j, ps);
                    &&& le16(page@, 44 + 2 * j) == off as u16
                    &&& page@.subrange(off, off + leaf_cell_size(cv[j])) == leaf_cell_bytes(cv[j])
                    &&& wp <= off
                    &&& off + leaf_cell_size(cv[j]) <= ps
                },
            forall|k: int| 44 + 2 * i <= k < wp ==> #[trigger] page@[k] == 0u8,
        decreases n - i,
    {
        proof {
            lemma_prefix_size_step(cv, i as int);
            lemma_prefix_size_mono(cv, i + 1, n as int);
            lemma_prefix_size_mono(cv, 0, i as int);
            lemma_take_full(cv);
            lemma_cell_size_pos(cv[i as int]);
            assert(cells@[i as int]@ == cv[i as int]);
            assert(cv.take(0) =~= Seq::<LeafCellView>::empty());
        }
        let sz = match cell_size_checked(&cells[i]) {
            Some(s) => s,
            None => {
                assert(false);
                0
            },
        };
        let ghost s0 = page@;
        assert(wp - sz >= 44 + 2 * n);
        wp = wp - sz;
        write_leaf_cell(page, wp, &cells[i]);
        let ghost s1 = page@;
        write_le16(page, 44 + 2 * i, #[verifier::truncate] (wp as u16));
        proof {
            let ci = cv[i as int];
            assert(leaf_cell_off(cv, i as int, ps) == wp);
            lemma_splice_range(s0, wp as int, leaf_cell_bytes(ci));
            lemma_splice_preserves_range(s1, 44 + 2 * i, le16_bytes(wp as u16), wp as int, wp + sz);
            crate::codec::lemma_le16_splice(s1, 44 + 2 * i, wp as u16);
            lemma_splice_preserves_range(s0, wp as int, leaf_cell_bytes(ci), 0, 44);
            lemma_splice_preserves_range(s1, 44 + 2 * i, le16_bytes(wp as u16), 0, 44);
            assert forall|j: int| 0 <= j < i implies {
                let off = #[trigger] leaf_cell_off(cv, j, ps);
                &&& le16(page@, 44 + 2 * j) == off as u16
                &&& page@.subrange(off, off + leaf_cell_size(cv[j])) == leaf_cell_bytes(cv[j])
                &&& wp <= off
                &&& off + leaf_cell_size(cv[j]) <= ps
            } by {
                let off = leaf_cell_off(cv, j, ps);
                lemma_splice_preserves_range(
                    s0,
                    wp as int,
                    leaf_cell_bytes(ci),
                    off,
                    off + leaf_cell_size(cv[j]),
                );
                lemma_splice_preserves_range(
                    s1,
                    44 + 2 * i,
                    le16_bytes(wp as u16),
                    off,
                    off + leaf_cell_size(cv[j]),
                );
            }
            assert forall|k: int| 44 + 2 * (i + 1) <= k < wp implies #[trigger] page@[k] == 0u8 by {
                assert(s0[k] == 0u8);
            }
        }
        i = i + 1;
    }
}

impl LeafPage {
    /// Builds a complete leaf page image of exactly `page_size` bytes, with
    /// the header, sub-header, cell pointers, cells and checksum in place.
    ///
    /// Fails, with `"leaf page overflow"`, when the header, pointer array and
    /// cells do not fit in `page_size` bytes.
    pub fn build(
        page_id: PageId,
        txn_id: u64,
        cells: &[LeafCell],
        next_leaf: PageId,
        prev_leaf: PageId,
        page_size: usize,
    ) -> (r: Result<Vec<u8>, StorageError>)
        ensures
            r is Ok <==> leaf_fits(cells_view(cells@), page_size as int),
            r matches Ok(p) ==> leaf_image(
                p@,
                page_id,
                txn_id,
                cells_view(cells@),
                next_leaf,
                prev_leaf,
                page_size as int,
            ),
            r matches Err(e) ==> e.message@ == "leaf page overflow"@,
    {
        let ghost cv = cells_view(cells@);
        let n = cells.len();
        let total = match leaf_space_check(cells, page_size) {
            Some(t) => t,
            None => {
                return Err(StorageError::new("leaf page overflow"));
            },
        };
        let free_start = page_size - total;
        let mut page: Vec<u8> = vec![0u8; page_size];
        let ghost z = page@;
        write_le16(&mut page, 24, #[verifier::truncate] (n as u16));
        write_le16(&mut page, 26, #[verifier::truncate] (free_start as u16));
        write_le64(&mut page, 28, next_leaf.0);
        write_le64(&mut page, 36, prev_leaf.0);
        proof {
            lemma_u16_round_trip(n as u16);
            lemma_u16_round_trip(free_start as u16);
            lemma_u64_round_trip(next_leaf.0);
            lemma_u64_round_trip(prev_leaf.0);
        }
        assert(forall|k: int| 44 <= k < page_size ==> #[trigger] page@[k] == 0u8);
        let ghost s1 = page@;
        write_leaf_cells(&mut page, cells, page_size);
        let ghost s2 = page@;
        assert(le16(s2, 24) == n as u16 && le16(s2, 26) == free_start as u16 && le64(s2, 28) == next_leaf.0
            && le64(s2, 36) == prev_leaf.0) by {
            assert(s2.subrange(0, 44) == s1.subrange(0, 44));
            assert(s2[24] == s1.subrange(0, 44)[24]);
            assert(s2[25] == s1.subrange(0, 44)[25]);
            assert(s2[26] == s1.subrange(0, 44)[26]);
            assert(s2[27] == s1.subrange(0, 44)[27]);
            assert forall|k: int| 28 <= k < 44 implies s2[k] == s1[k] by {
                assert(s2[k] == s1.subrange(0, 44)[k]);
            }
        }
        let header = CommonPageHeader {
            page_id,
            page_type: PageType::Leaf,
            flags: 1,
            txn_id,
            checksum: 0,
        };
        header.serialize(&mut page);
        let ghost s3 = page@;
        seal_page(&mut page);
        proof {
            lemma_u64_round_trip(page_id.0);
            lemma_u64_round_trip(txn_id);
            let f = page@;
            let ps = page_size as int;
            assert forall|j: int| 0 <= j < n implies {
                let off = #[trigger] leaf_cell_off(cv, j, ps);
                &&& le16(f, 44 + 2 * j) == off as u16
                &&& f.subrange(off, off + leaf_cell_size(cv[j])) == leaf_cell_bytes(cv[j])
            } by {
                let off = leaf_cell_off(cv, j, ps);
                lemma_prefix_size_step(cv, j);
                lemma_prefix_size_mono(cv, j + 1, n as int);
                lemma_prefix_size_mono(cv, 0, j);
                assert(cv.take(0) =~= Seq::<LeafCellView>::empty());
                lemma_take_full(cv);
                lemma_cells_size_nonneg(cv);
                assert(0 <= off && off + leaf_cell_size(cv[j]) <= ps);
                lemma_splice_preserves_range(s2, 0, header_bytes(header), off, off + leaf_cell_size(cv[j]));
                lemma_splice_preserves_range(
                    s3,
                    20,
                    le32_bytes(page_checksum(s3)),
                    off,
                    off + leaf_cell_size(cv[j]),
                );
            }
            assert forall|k: int| 44 + 2 * n <= k < free_start implies #[trigger] f[k] == 0u8 by {
                assert(s2[k] == 0u8);
            }
            assert(le64(f, 0) == page_id.0);
            assert(le64(f, 12) == txn_id);
        }
        Ok(page)
    }
}

} // verus!

verus! {

// ---------------------------------------------------------------------------
// Parsing
// ---------------------------------------------------------------------------

/// The cell that pointer `i` of a leaf page designates, if it and the cell
/// lie within the first `page_size` bytes.
pub open spec fn parse_leaf_cell(page: Seq<u8>, page_size: int, i: int) -> Option<LeafCellView> {
    let ptr = 44 + 2 * i;
    if ptr + 2 > page_size {
        None
    } else {
        let off = le16(page, ptr) as int;
        if off + 4 > page_size {
            None
        } else {
            let klen = le16(page, off) as int;
            let vraw = le16(page, off + 2);
            let ks = off + 4;
            if ks + klen > page_size {
                None
            } else {
                let key = page.subrange(ks, ks + klen);
                if vraw == 0xFFFFu16 {
                    if ks + klen + 12 > page_size {
                        None
                    } else {
                        Some(
                            LeafCellView {
                                key,
                                value: LeafValueView::Overflow(
                                    PageId(le64(page, ks + klen)),
                                    le32(page, ks + klen + 8),
                                ),
                            },
                        )
                    }
                } else {
                    let vlen = vraw as int;
                    if ks + klen + vlen > page_size {
                        None
                    } else {
                        Some(
                            LeafCellView {
                                key,
                                value: LeafValueView::Inline(
                                    page.subrange(ks + klen, ks + klen + vlen),
                                ),
                            },
                        )
                    }
                }
            }
        }
    }
}

/// The first `n` cells of a leaf page, if they all parse.
pub open spec fn parse_leaf_cells(page: Seq<u8>, page_size: int, n: nat) -> Option<
    Seq<LeafCellView>,
>
    decreases n,
{
    if n == 0 {
        Some(Seq::empty())
    } else {
        match parse_leaf_cells(page, page_size, (n - 1) as nat) {
            Some(cs) => match parse_leaf_cell(page, page_size, n - 1) {
                Some(c) => Some(cs.push(c)),
                None => None,
            },
            None => None,
        }
    }
}

/// The leaf page that `page` holds within its first `page_size` bytes, if any.
pub open spec fn parse_leaf(page: Seq<u8>, page_size: int) -> Option<LeafPageView> {
    if page.len() < page_size || page_size < 44 {
        None
    } else {
        match header_of(page) {
            Some(h) => if h.page_type == PageType::Leaf {
                match parse_leaf_cells(page, page_size, le16(page, 24) as nat) {
                    Some(cells) => Some(
                        LeafPageView {
                            header: h,
                            cell_count: le16(page, 24),
                            free_start: le16(page, 26),
                            next_leaf: PageId(le64(page, 28)),
                            prev_leaf: PageId(le64(page, 36)),
                            cells,
                        },
                    ),
                    None => None,
                }
            } else {
                None
            },
            None => None,
        }
    }
}

fn parse_cell_at(page: &[u8], page_size: usize, i: usize) -> (r: Option<LeafCell>)
    requires
        page@.len() >= page_size,
        i < 0x10000,
    ensures
        match r {
            Some(c) => parse_leaf_cell(page@, page_size as int, i as int) == Some(c@),
            None => parse_leaf_cell(page@, page_size as int, i as int) is None,
        },
{
    let ptr = LEAF_CELL_PTRS_OFFSET + i * 2;
    if ptr + 2 > page_size {
        return None;
    }
    let off = read_le16(page, ptr) as usize;
    if off + 4 > page_size {
        return None;
    }
    let klen = read_le16(page, off) as usize;
    let vraw = read_le16(page, off + 2);
    let ks = off + 4;
    if ks + klen > page_size {
        return None;
    }
    let key = copy_range(page, ks, klen);
    if vraw == OVERFLOW_SENTINEL {
        if ks + klen + 12 > page_size {
            return None;
        }
        let pid = read_le64(page, ks + klen);
        let len = read_le32(page, ks + klen + 8);
        Some(
            LeafCell {
                key,
                value: LeafCellValue::Overflow { overflow_page_id: PageId(pid), total_overflow_len: len },
            },
        )
    } else {
        let vlen = vraw as usize;
        if ks + klen + vlen > page_size {
            return None;
        }
        let v = copy_range(page, ks + klen, vlen);
        Some(LeafCell { key, value: LeafCellValue::Inline(v) })
    }
}

impl LeafPage {
    /// Parses a leaf page from the first `page_size` bytes of `page_data`.
    ///
    /// Fails if the data is shorter than `page_size`, `page_size` is below 44,
    /// the header's type is not `Leaf`, or a cell lies outside the page.
    pub fn parse(page_data: &[u8], page_size: usize) -> (r: Result<LeafPage, StorageError>)
        ensures
            match r {
                Ok(p) => parse_leaf(page_data@, page_size as int) == Some(p@),
                Err(_) => parse_leaf(page_data@, page_size as int) is None,
            },
            r matches Ok(p) ==> p.header.page_type == PageType::Leaf && p.cell_count == p@.cells.len(),
    {
        if page_data.len() < page_size || page_size < LEAF_CELL_PTRS_OFFSET {
            let mut m = crate::text::string_of("leaf page too small: ");
            crate::text::push_decimal(&mut m, page_data.len() as u64);
            m.append(" bytes");
            return Err(StorageError { message: m, source: None });
        }
        let header = match CommonPageHeader::deserialize(page_data) {
            Ok(h) => h,
            Err(e) => {
                return Err(e);
            },
        };
        if header.page_type != PageType::Leaf {
            let mut m = crate::text::string_of("expected Leaf page, got ");
            let name = header.page_type.to_string();
            m.append(name.as_str());
            return Err(StorageError { message: m, source: None });
        }
        let cell_count = read_le16(page_data, 24);
        let free_start = read_le16(page_data, 26);
        let next_leaf = PageId(read_le64(page_data, 28));
        let prev_leaf = PageId(read_le64(page_data, 36));
        let n = cell_count as usize;
        let mut cells: Vec<LeafCell> = Vec::with_capacity(n);
        let mut i: usize = 0;
        while i < n
            invariant
                i <= n == cell_count,
                cell_count == le16(page_data@, 24),
                header_of(page_data@) == Some(header),
                page_data@.len() >= page_size,
                parse_leaf_cells(page_data@, page_size as int, i as nat) == Some(cells_view(cells@)),
            decreases n - i,
        {
            match parse_cell_at(page_data, page_size, i) {
                Some(c) => {
                    let ghost prev = cells@;
                    cells.push(c);
                    proof {
                        assert(cells_view(cells@) =~= cells_view(prev).push(c@));
                    }
                },
                None => {
                    proof {
                        lemma_parse_cells_none_propagates(page_data@, page_size as int, i as nat, n as nat);
                        assert(n as nat == le16(page_data@, 24) as nat);
                        assert(header_of(page_data@) == Some(header));
                        assert(parse_leaf_cells(page_data@, page_size as int, le16(page_data@, 24) as nat) is None);
                    }
                    return Err(StorageError::new("leaf cell out of bounds"));
                },
            }
            i = i + 1;
        }
        let p = LeafPage { header, cell_count, free_start, next_leaf, prev_leaf, cells };
        proof {
            lemma_parse_cells_len(page_data@, page_size as int, cell_count as nat);
        }
        Ok(p)
    }
}

/// The cells that parse from a page are as many as were asked for.
pub proof fn lemma_parse_cells_len(page: Seq<u8>, page_size: int, n: nat)
    ensures
        parse_leaf_cells(page, page_size, n) matches Some(cs) ==> cs.len() == n,
    decreases n,
{
    if n > 0 {
        lemma_parse_cells_len(page, page_size, (n - 1) as nat);
    }
}

/// Once a cell fails to parse, every longer prefix fails too.
pub proof fn lemma_parse_cells_none_propagates(page: Seq<u8>, page_size: int, i: nat, n: nat)
    requires
        i < n,
        parse_leaf_cell(page, page_size, i as int) is None,
    ensures
        parse_leaf_cells(page, page_size, n) is None,
    decreases n,
{
    if n > i + 1 {
        lemma_parse_cells_none_propagates(page, page_size, i, (n - 1) as nat);
    }
}

// ---------------------------------------------------------------------------
// Round trip
// ---------------------------------------------------------------------------

/// Every cell's key and value lengths fit the 16-bit fields that record
/// them, and no inline value is as long as the overflow sentinel.
pub open spec fn leaf_cells_encodable(cells: Seq<LeafCellView>) -> bool {
    forall|i: int|
        0 <= i < cells.len() ==> {
            &&& (#[trigger] cells[i]).key.len() <= 0xFFFF
            &&& cells[i].value matches LeafValueView::Inline(v) ==> v.len() < 0xFFFF
        }
}

proof fn lemma_leaf_cell_parses(
    page: Seq<u8>,
    page_id: PageId,
    txn_id: u64,
    cells: Seq<LeafCellView>,
    next_leaf: PageId,
    prev_leaf: PageId,
    page_size: int,
    i: int,
)
    requires
        leaf_image(page, page_id, txn_id, cells, next_leaf, prev_leaf, page_size),
        page_size <= 0x10000,
        leaf_cells_encodable(cells),
        0 <= i < cells.len(),
    ensures
        parse_leaf_cell(page, page_size, i) == Some(cells[i]),
{
    let n = cells.len() as int;
    let c = cells[i];
    let off = leaf_cell_off(cells, i, page_size);
    let sz = leaf_cell_size(c);
    let b = leaf_cell_bytes(c);
    let k = c.key.len() as int;
    lemma_prefix_size_step(cells, i);
    lemma_prefix_size_mono(cells, i + 1, n);
    lemma_prefix_size_mono(cells, 0, i);
    assert(cells.take(0) =~= Seq::<LeafCellView>::empty());
    lemma_take_full(cells);
    lemma_cell_size_pos(c);
    assert(44 <= off && off + sz <= page_size && off < 0x10000);
    assert(page.subrange(off, off + sz) == b);
    lemma_le16_of_range(page, off, b, 0);
    lemma_le16_of_range(page, off, b, 2);
    lemma_u16_round_trip(k as u16);
    assert(le16(page, off) == k);
    lemma_subrange_of_range(page, off, b, 4, 4 + k);
    assert(b.subrange(4, 4 + k) =~= c.key);
    match c.value {
        LeafValueView::Inline(v) => {
            lemma_u16_round_trip(v.len() as u16);
            assert(le16(b, 2) == v.len());
            lemma_subrange_of_range(page, off, b, 4 + k, 4 + k + v.len());
            assert(b.subrange(4 + k, 4 + k + v.len()) =~= v);
        },
        LeafValueView::Overflow(p, l) => {
            lemma_u16_round_trip(0xFFFFu16);
            lemma_u64_round_trip(p.0);
            lemma_u32_round_trip(l);
            lemma_le64_of_range(page, off, b, 4 + k);
            lemma_le32_of_range(page, off, b, 12 + k);
            assert(le64(b, 4 + k) == p.0);
            assert(le32(b, 12 + k) == l);
        },
    }
}

proof fn lemma_leaf_cells_parse(
    page: Seq<u8>,
    page_id: PageId,
    txn_id: u64,
    cells: Seq<LeafCellView>,
    next_leaf: PageId,
    prev_leaf: PageId,
    page_size: int,
    m: nat,
)
    requires
        leaf_image(page, page_id, txn_id, cells, next_leaf, prev_leaf, page_size),
        page_size <= 0x10000,
        leaf_cells_encodable(cells),
        m <= cells.len(),
    ensures
        parse_leaf_cells(page, page_size, m) == Some(cells.take(m as int)),
    decreases m,
{
    if m > 0 {
        lemma_leaf_cells_parse(page, page_id, txn_id, cells, next_leaf, prev_leaf, page_size, (m - 1) as nat);
        lemma_leaf_cell_parses(page, page_id, txn_id, cells, next_leaf, prev_leaf, page_size, m - 1);
        assert(cells.take(m - 1).push(cells[m - 1]) =~= cells.take(m as int));
    } else {
        assert(cells.take(0) =~= Seq::<LeafCellView>::empty());
    }
}

/// Parsing a built leaf page gives back its header fields, links and cells,
/// whenever the page size and the cells' lengths fit the 16-bit fields of
/// the format.
pub proof fn lemma_leaf_build_parse_round_trip(
    page: Seq<u8>,
    page_id: PageId,
    txn_id: u64,
    cells: Seq<LeafCellView>,
    next_leaf: PageId,
    prev_leaf: PageId,
    page_size: int,
)
    requires
        leaf_image(page, page_id, txn_id, cells, next_leaf, prev_leaf, page_size),
        page_size <= 0x10000,
        leaf_cells_encodable(cells),
    ensures
        parse_leaf(page, page_size) == Some(
            LeafPageView {
                header: CommonPageHeader {
                    page_id,
                    page_type: PageType::Leaf,
                    flags: 1,
                    txn_id,
                    checksum: le32(page, 20),
                },
                cell_count: cells.len() as u16,
                free_start: (page_size - leaf_cells_size(cells)) as u16,
                next_leaf,
                prev_leaf,
                cells,
            },
        ),
{
    lemma_leaf_cells_parse(page, page_id, txn_id, cells, next_leaf, prev_leaf, page_size, cells.len());
    lemma_take_full(cells);
    assert(cells.len() < 0x10000);
}

} // verus!

verus! {

// ---------------------------------------------------------------------------
// Operations on parsed leaf pages
// ---------------------------------------------------------------------------

/// The cells' keys strictly increase.
pub open spec fn leaf_sorted(cells: Seq<LeafCellView>) -> bool {
    forall|i: int, j: int| 0 <= i < j < cells.len() ==> key_lt(#[trigger] cells[i].key, #[trigger] cells[j].key)
}

/// Total on-disk size of the cells, as computed over the cell vector.
fn cells_total(cells: &Vec<LeafCell>, bound: usize) -> (r: usize)
    requires
        leaf_cells_size(cells_view(cells@)) <= bound,
    ensures
        r == leaf_cells_size(cells_view(cells@)),
{
    let ghost cv = cells_view(cells@);
    let mut t: usize = 0;
    let mut i: usize = 0;
    proof {
        lemma_take_full(cv);
        assert(cv.take(0) =~= Seq::<LeafCellView>::empty());
    }
    while i < cells.len()
        invariant
            i <= cells@.len() == cv.len(),
            cv == cells_view(cells@),
            leaf_cells_size(cv) <= bound,
            t == leaf_cells_size(cv.take(i as int)),
        decreases cells@.len() - i,
    {
        proof {
            lemma_prefix_size_step(cv, i as int);
            lemma_prefix_size_mono(cv, i + 1, cv.len() as int);
            lemma_take_full(cv);
            assert(cells@[i as int]@ == cv[i as int]);
        }
        let c = &cells[i];
        let v = match &c.value {
            LeafCellValue::Inline(v) => v.len(),
            LeafCellValue::Overflow { .. } => 12,
        };
        t = t + 4 + c.key.len() + v;
        i = i + 1;
    }
    t
}

pub(crate) fn clone_cell(c: &LeafCell) -> (r: LeafCell)
    ensures
        r@ == c@,
{
    let key = c.key.clone();
    assert(key@ =~= c.key@);
    let value = match &c.value {
        LeafCellValue::Inline(v) => {
            let w = v.clone();
            assert(w@ =~= v@);
            LeafCellValue::Inline(w)
        },
        LeafCellValue::Overflow { overflow_page_id, total_overflow_len } => LeafCellValue::Overflow {
            overflow_page_id: *overflow_page_id,
            total_overflow_len: *total_overflow_len,
        },
    };
    LeafCell { key, value }
}

pub(crate) fn clone_cells(cells: &[LeafCell], lo: usize, hi: usize) -> (r: Vec<LeafCell>)
    requires
        lo <= hi <= cells@.len(),
    ensures
        cells_view(r@) == cells_view(cells@).subrange(lo as int, hi as int),
{
    let mut r: Vec<LeafCell> = Vec::new();
    let mut i = lo;
    while i < hi
        invariant
            lo <= i <= hi <= cells@.len(),
            cells_view(r@) == cells_view(cells@).subrange(lo as int, i as int),
        decreases hi - i,
    {
        let c = clone_cell(&cells[i]);
        let ghost prev = r@;
        r.push(c);
        proof {
            assert(cells_view(r@) =~= cells_view(prev).push(c@));
            assert(cells_view(cells@).subrange(lo as int, i + 1) =~= cells_view(cells@).subrange(
                lo as int,
                i as int,
            ).push(cells@[i as int]@));
        }
        i = i + 1;
    }
    r
}

/// The keys of the cells never decrease (equal neighbours allowed).
pub open spec fn leaf_ascending(cells: Seq<LeafCellView>) -> bool {
    forall|i: int, j: int| 0 <= i < j < cells.len() ==> key_le(#[trigger] cells[i].key, #[trigger] cells[j].key)
}

/// Strictly ascending keys are ascending.
pub proof fn lemma_sorted_ascending(cells: Seq<LeafCellView>)
    requires
        leaf_sorted(cells),
    ensures
        leaf_ascending(cells),
{
    assert forall|i: int, j: int| 0 <= i < j < cells.len() implies key_le(
        #[trigger] cells[i].key,
        #[trigger] cells[j].key,
    ) by {
        crate::keys::lemma_key_order_facts(cells[i].key, cells[j].key);
    }
}

/// The first index whose key is not below `key` (for cells in ascending
/// key order).
pub(crate) fn lower_bound(cells: &[LeafCell], key: &[u8]) -> (r: usize)
    ensures
        r <= cells@.len(),
        leaf_ascending(cells_view(cells@)) || leaf_sorted(cells_view(cells@)) ==> {
            &&& forall|i: int| 0 <= i < r ==> key_lt(#[trigger] cells_view(cells@)[i].key, key@)
            &&& forall|i: int| r <= i < cells@.len() ==> !key_lt(#[trigger] cells_view(cells@)[i].key, key@)
        },
{
    let ghost cv = cells_view(cells@);
    proof {
        if leaf_sorted(cv) {
            lemma_sorted_ascending(cv);
        }
    }
    let mut lo: usize = 0;
    let mut hi: usize = cells.len();
    while lo < hi
        invariant
            lo <= hi <= cells@.len(),
            cv == cells_view(cells@),
            leaf_ascending(cv) ==> {
                &&& forall|i: int| 0 <= i < lo ==> key_lt(#[trigger] cells_view(cells@)[i].key, key@)
                &&& forall|i: int| hi <= i < cells@.len() ==> !key_lt(#[trigger] cells_view(cells@)[i].key, key@)
            },
        decreases hi - lo,
    {
        let mid = lo + (hi - lo) / 2;
        if key_less(cells[mid].key.as_slice(), key) {
            proof {
                if leaf_ascending(cv) {
                    assert forall|i: int| 0 <= i < mid + 1 implies key_lt(#[trigger] cells_view(cells@)[i].key, key@) by {
                        if i < mid {
                            assert(cv[i].key == cells@[i].key@ && cv[mid as int].key == cells@[mid as int].key@);
                            crate::keys::lemma_key_lt_le_transitive(cells@[i].key@, cells@[mid as int].key@, key@);
                        }
                    }
                }
            }
            lo = mid + 1;
        } else {
            proof {
                if leaf_ascending(cv) {
                    assert forall|i: int| mid <= i < cells@.len() implies !key_lt(#[trigger] cells_view(cells@)[i].key, key@) by {
                        if i > mid {
                            assert(cv[i].key == cells@[i].key@ && cv[mid as int].key == cells@[mid as int].key@);
                            crate::keys::lemma_key_order_facts(cells@[mid as int].key@, key@);
                            crate::keys::lemma_key_le_transitive(key@, cells@[mid as int].key@, cells@[i].key@);
                            crate::keys::lemma_key_order_facts(cells@[i].key@, key@);
                        }
                    }
                }
            }
            hi = mid;
        }
    }
    lo
}

/// The first index whose key is above `key` (for sorted cells).
fn upper_bound(cells: &Vec<LeafCell>, key: &[u8]) -> (r: usize)
    ensures
        r <= cells@.len(),
        leaf_sorted(cells_view(cells@)) ==> {
            &&& forall|i: int| 0 <= i < r ==> key_le(#[trigger] cells_view(cells@)[i].key, key@)
            &&& forall|i: int| r <= i < cells@.len() ==> !key_le(#[trigger] cells_view(cells@)[i].key, key@)
        },
{
    let ghost cv = cells_view(cells@);
    let mut lo: usize = 0;
    let mut hi: usize = cells.len();
    while lo < hi
        invariant
            lo <= hi <= cells@.len(),
            cv == cells_view(cells@),
            leaf_sorted(cv) ==> {
                &&& forall|i: int| 0 <= i < lo ==> key_le(#[trigger] cells_view(cells@)[i].key, key@)
                &&& forall|i: int| hi <= i < cells@.len() ==> !key_le(#[trigger] cells_view(cells@)[i].key, key@)
            },
        decreases hi - lo,
    {
        let mid = lo + (hi - lo) / 2;
        if key_less_eq(cells[mid].key.as_slice(), key) {
            proof {
                if leaf_sorted(cv) {
                    assert forall|i: int| 0 <= i < mid + 1 implies key_le(#[trigger] cells_view(cells@)[i].key, key@) by {
                        if i < mid {
                            assert(cv[i].key == cells@[i].key@ && cv[mid as int].key == cells@[mid as int].key@);
                            crate::keys::lemma_key_lt_le_transitive(cells@[i].key@, cells@[mid as int].key@, key@);
                        }
                    }
                }
            }
            lo = mid + 1;
        } else {
            proof {
                if leaf_sorted(cv) {
                    assert forall|i: int| mid <= i < cells@.len() implies !key_le(#[trigger] cells_view(cells@)[i].key, key@) by {
                        if i > mid {
                            assert(cv[i].key == cells@[i].key@ && cv[mid as int].key == cells@[mid as int].key@);
                            crate::keys::lemma_key_order_facts(cells@[mid as int].key@, key@);
                            crate::keys::lemma_key_lt_transitive(key@, cells@[mid as int].key@, cells@[i].key@);
                            crate::keys::lemma_key_order_facts(cells@[i].key@, key@);
                        }
                    }
                }
            }
            hi = mid;
        }
    }
    lo
}

} // verus!

verus! {

/// The cells' keys in `[start, end]` (inclusive).
pub open spec fn key_in_range(k: Seq<u8>, start: Seq<u8>, end: Seq<u8>) -> bool {
    key_le(start, k) && key_le(k, end)
}

/// The views of a sequence of cell references.
pub open spec fn refs_view(r: Seq<&LeafCell>) -> Seq<LeafCellView> {
    r.map_values(|c: &LeafCell| c@)
}

/// `res` is the run of `cells` starting at `lo` that holds exactly the
/// cells whose keys lie in `[start, end]`.
pub open spec fn leaf_range_result(
    cells: Seq<LeafCellView>,
    res: Seq<LeafCellView>,
    lo: int,
    start: Seq<u8>,
    end: Seq<u8>,
) -> bool {
    &&& 0 <= lo
    &&& lo + res.len() <= cells.len()
    &&& forall|k: int| 0 <= k < res.len() ==> #[trigger] res[k] == cells[lo + k]
    &&& forall|i: int|
        0 <= i < cells.len() ==> (key_in_range(#[trigger] cells[i].key, start, end) <==> lo <= i
            < lo + res.len())
}

proof fn lemma_sorted_lower_bound_absent(cv: Seq<LeafCellView>, key: Seq<u8>, lo: int)
    requires
        leaf_sorted(cv),
        0 <= lo <= cv.len(),
        forall|i: int| 0 <= i < lo ==> key_lt(#[trigger] cv[i].key, key),
        forall|i: int| lo <= i < cv.len() ==> !key_lt(#[trigger] cv[i].key, key),
        lo < cv.len() ==> cv[lo].key != key,
    ensures
        forall|i: int| 0 <= i < cv.len() ==> #[trigger] cv[i].key != key,
{
    assert forall|i: int| 0 <= i < cv.len() implies #[trigger] cv[i].key != key by {
        crate::keys::lemma_key_order_facts(cv[i].key, key);
        if i > lo {
            crate::keys::lemma_key_order_facts(cv[lo].key, key);
            assert(key_lt(cv[lo].key, cv[i].key));
            crate::keys::lemma_key_lt_le_transitive(key, cv[lo].key, cv[i].key);
        }
    }
}

impl LeafPage {
    /// Returns the number of cells in this leaf.
    pub fn cell_count(&self) -> (r: usize)
        ensures
            r == self@.cells.len(),
    {
        self.cells.len()
    }

    /// Returns the cells in page order.
    pub fn cells(&self) -> (r: &[LeafCell])
        ensures
            cells_view(r@) == self@.cells,
    {
        self.cells.as_slice()
    }

    /// Binary-searches the (sorted) cells for `key`.
    ///
    /// A returned cell always has the key; on sorted cells, `None` means
    /// that no cell has it.
    pub fn search(&self, key: &[u8]) -> (r: Option<&LeafCell>)
        ensures
            r matches Some(c) ==> c@.key == key@ && exists|i: int|
                0 <= i < self@.cells.len() && self@.cells[i] == c@,
            leaf_sorted(self@.cells) ==> (r is Some <==> exists|i: int|
                0 <= i < self@.cells.len() && #[trigger] self@.cells[i].key == key@),
    {
        let ghost cv = self@.cells;
        let i = lower_bound(self.cells.as_slice(), key);
        if i < self.cells.len() && compare_keys(self.cells[i].key.as_slice(), key) == 0 {
            proof {
                crate::keys::lemma_key_order_facts(self.cells@[i as int].key@, key@);
                assert(cv[i as int] == self.cells@[i as int]@);
                assert(self@.cells[i as int].key == key@);
            }
            Some(&self.cells[i])
        } else {
            proof {
                if leaf_sorted(cv) {
                    if i < self.cells@.len() {
                        crate::keys::lemma_key_order_facts(self.cells@[i as int].key@, key@);
                    }
                    assert forall|j: int| 0 <= j < cv.len() implies key_lt(#[trigger] cv[j].key, key@)
                        == key_lt(self.cells@[j].key@, key@) by {
                        assert(cv[j] == self.cells@[j]@);
                    }
                    lemma_sorted_lower_bound_absent(cv, key@, i as int);
                }
            }
            None
        }
    }

    /// Returns, in order, the cells whose keys lie in `[start_key, end_key]`
    /// (none when the start key is above the end key).
    pub fn search_range(&self, start_key: &[u8], end_key: &[u8]) -> (r: Vec<&LeafCell>)
        requires
            leaf_sorted(self@.cells),
        ensures
            exists|lo: int| #[trigger] leaf_range_result(self@.cells, refs_view(r@), lo, start_key@, end_key@),
    {
        let ghost cv = self@.cells;
        let lo = lower_bound(self.cells.as_slice(), start_key);
        let hi0 = upper_bound(&self.cells, end_key);
        let hi = if hi0 < lo {
            lo
        } else {
            hi0
        };
        proof {
            assert forall|j: int| 0 <= j < cv.len() implies cv[j] == self.cells@[j]@ by {}
        }
        let mut r: Vec<&LeafCell> = Vec::new();
        let mut i = lo;
        while i < hi
            invariant
                lo <= i <= hi <= self.cells@.len(),
                r@.len() == i - lo,
                forall|k: int| 0 <= k < r@.len() ==> #[trigger] r@[k]@ == self.cells@[lo + k]@,
            decreases hi - i,
        {
            r.push(&self.cells[i]);
            i = i + 1;
        }
        proof {
            assert forall|i: int| 0 <= i < cv.len() implies (key_in_range(
                #[trigger] cv[i].key,
                start_key@,
                end_key@,
            ) <==> lo <= i < lo + r@.len()) by {
                crate::keys::lemma_key_order_facts(cv[i].key, end_key@);
                crate::keys::lemma_key_order_facts(cv[i].key, start_key@);
            }
            assert forall|k: int| 0 <= k < r@.len() implies #[trigger] r@[k]@ == cv[lo + k] by {}
            assert(refs_view(r@).len() == r@.len());
            assert(leaf_range_result(cv, refs_view(r@), lo as int, start_key@, end_key@));
        }
        r
    }

    /// Returns `true` if a new cell with the given key and value-part
    /// lengths fits alongside the existing cells in `page_size` bytes.
    pub fn has_space_for(&self, key_len: usize, value_len: usize, page_size: usize) -> (r: bool)
        requires
            44 + 2 * (self@.cells.len() + 1) + leaf_cells_size(self@.cells) + 4 + key_len + value_len
                <= usize::MAX,
        ensures
            r == (44 + 2 * (self@.cells.len() + 1) + leaf_cells_size(self@.cells) + 4 + key_len
                + value_len <= page_size),
    {
        let existing = cells_total(&self.cells, usize::MAX);
        let total_used = LEAF_CELL_PTRS_OFFSET + self.cells.len() * 2 + 2 + existing + 4 + key_len + value_len;
        total_used <= page_size
    }

    /// Inserts a cell at its sorted position if it fits in `page_size` bytes.
    ///
    /// Returns `false`, leaving the page unchanged, when the cell does not fit.
    pub fn insert_cell(&mut self, cell: LeafCell, page_size: usize) -> (r: bool)
        requires
            44 + 2 * (old(self)@.cells.len() + 1) + leaf_cells_size(old(self)@.cells) + leaf_cell_size(
                cell@,
            ) <= usize::MAX,
        ensures
            r == (44 + 2 * (old(self)@.cells.len() + 1) + leaf_cells_size(old(self)@.cells)
                + leaf_cell_size(cell@) <= page_size),
            !r ==> final(self)@ == old(self)@,
            r ==> exists|pos: int|
                0 <= pos <= old(self)@.cells.len() && final(self)@.cells == old(self)@.cells.insert(
                    pos,
                    cell@,
                ) && (leaf_ascending(old(self)@.cells) ==> (forall|i: int|
                    0 <= i < pos ==> key_lt(#[trigger] old(self)@.cells[i].key, cell@.key)) && (forall|
                    i: int,
                |
                    pos <= i < old(self)@.cells.len() ==> !key_lt(
                        #[trigger] old(self)@.cells[i].key,
                        cell@.key,
                    ))),
            r ==> final(self)@.cell_count == final(self)@.cells.len() as u16,
            r ==> final(self)@.header == old(self)@.header && final(self)@.free_start == old(
                self,
            )@.free_start && final(self)@.next_leaf == old(self)@.next_leaf && final(self)@.prev_leaf
                == old(self)@.prev_leaf,
            r && leaf_sorted(old(self)@.cells) && (forall|i: int|
                0 <= i < old(self)@.cells.len() ==> #[trigger] old(self)@.cells[i].key != cell@.key)
                ==> leaf_sorted(final(self)@.cells),
    {
        let value_len: usize = match &cell.value {
            LeafCellValue::Inline(v) => v.len(),
            LeafCellValue::Overflow { .. } => 12,
        };
        if !self.has_space_for(cell.key.len(), value_len, page_size) {
            return false;
        }
        let ghost cv = old(self)@.cells;
        let pos = lower_bound(self.cells.as_slice(), cell.key.as_slice());
        let ghost c = cell@;
        self.cells.insert(pos, cell);
        self.cell_count = #[verifier::truncate] (self.cells.len() as u16);
        proof {
            assert(cells_view(self.cells@) =~= cv.insert(pos as int, c));
            assert forall|j: int| 0 <= j < cv.len() implies cv[j] == old(self).cells@[j]@ by {}
            let nv = self@.cells;
            if leaf_sorted(cv) && (forall|i: int| 0 <= i < cv.len() ==> #[trigger] cv[i].key != c.key) {
                assert forall|a: int, b: int| 0 <= a < b < nv.len() implies key_lt(
                    #[trigger] nv[a].key,
                    #[trigger] nv[b].key,
                ) by {
                    if b < pos {
                    } else if a > pos {
                        assert(nv[a] == cv[a - 1] && nv[b] == cv[b - 1]);
                    } else if a == pos {
                        assert(nv[b] == cv[b - 1]);
                        crate::keys::lemma_key_order_facts(cv[b - 1].key, c.key);
                    } else if b == pos {
                    } else {
                        assert(nv[b] == cv[b - 1]);
                        crate::keys::lemma_key_order_facts(cv[b - 1].key, c.key);
                        crate::keys::lemma_key_lt_transitive(cv[a].key, c.key, cv[b - 1].key);
                    }
                }
            }
        }
        true
    }

    /// Whether the keys of the cells are strictly ascending, as
    /// [`search`](Self::search) and [`search_range`](Self::search_range)
    /// need them.
    pub fn is_sorted(&self) -> (r: bool)
        ensures
            r == leaf_sorted(self@.cells),
    {
        let ghost cv = self@.cells;
        let n = self.cells.len();
        if n == 0 {
            return true;
        }
        let mut i: usize = 0;
        while i + 1 < n
            invariant
                n == self.cells@.len(),
                n >= 1,
                i + 1 <= n,
                cv == self@.cells,
                forall|a: int, b: int| 0 <= a < b <= i ==> key_lt(#[trigger] cv[a].key, #[trigger] cv[b].key),
            decreases n - i,
        {
            proof {
                assert(cv[i as int].key == self.cells@[i as int].key@);
                assert(cv[i + 1].key == self.cells@[i + 1].key@);
            }
            if !key_less(self.cells[i].key.as_slice(), self.cells[i + 1].key.as_slice()) {
                return false;
            }
            proof {
                assert forall|a: int, b: int| 0 <= a < b <= i + 1 implies key_lt(
                    #[trigger] cv[a].key,
                    #[trigger] cv[b].key,
                ) by {
                    if b == i + 1 && a < i {
                        crate::keys::lemma_key_lt_transitive(cv[a].key, cv[i as int].key, cv[b].key);
                    }
                }
            }
            i = i + 1;
        }
        true
    }

    /// Removes and returns the cell with the given key, if there is one.
    ///
    /// A returned cell always has the key; on sorted cells, `None` means
    /// that no cell has it.
    pub fn delete_cell(&mut self, key: &[u8]) -> (r: Option<LeafCell>)
        ensures
            r matches Some(c) ==> c@.key == key@ && exists|i: int|
                0 <= i < old(self)@.cells.len() && old(self)@.cells[i] == c@ && final(self)@.cells
                    == old(self)@.cells.remove(i),
            r matches Some(c) ==> final(self)@.cell_count == final(self)@.cells.len() as u16
                && final(self)@.header == old(self)@.header && final(self)@.free_start == old(
                self,
            )@.free_start && final(self)@.next_leaf == old(self)@.next_leaf && final(self)@.prev_leaf
                == old(self)@.prev_leaf,
            r is None ==> final(self)@ == old(self)@,
            leaf_sorted(old(self)@.cells) ==> (r is Some <==> exists|i: int|
                0 <= i < old(self)@.cells.len() && #[trigger] old(self)@.cells[i].key == key@),
            leaf_sorted(old(self)@.cells) ==> leaf_sorted(final(self)@.cells),
    {
        let ghost cv = old(self)@.cells;
        proof {
            assert forall|j: int| 0 <= j < cv.len() implies cv[j] == old(self).cells@[j]@ by {}
        }
        let i = lower_bound(self.cells.as_slice(), key);
        if i < self.cells.len() && compare_keys(self.cells[i].key.as_slice(), key) == 0 {
            proof {
                crate::keys::lemma_key_order_facts(self.cells@[i as int].key@, key@);
                assert(cv[i as int].key == key@);
            }
            let c = self.cells.remove(i);
            self.cell_count = #[verifier::truncate] (self.cells.len() as u16);
            proof {
                assert(cells_view(self.cells@) =~= cv.remove(i as int));
                let nv = self@.cells;
                if leaf_sorted(cv) {
                    assert forall|a: int, b: int| 0 <= a < b < nv.len() implies key_lt(
                        #[trigger] nv[a].key,
                        #[trigger] nv[b].key,
                    ) by {
                        if a >= i {
                            assert(nv[a] == cv[a + 1]);
                        }
                        if b >= i {
                            assert(nv[b] == cv[b + 1]);
                        }
                    }
                }
            }
            Some(c)
        } else {
            proof {
                if leaf_sorted(cv) {
                    if i < self.cells@.len() {
                        crate::keys::lemma_key_order_facts(self.cells@[i as int].key@, key@);
                    }
                    lemma_sorted_lower_bound_absent(cv, key@, i as int);
                }
            }
            None
        }
    }

    /// Splits the cells at the median: `(left, right, split_key)` with the
    /// first `n / 2` cells on the left, the rest on the right, and the first
    /// key of the right half.
    pub fn split(&self) -> (r: (Vec<LeafCell>, Vec<LeafCell>, Vec<u8>))
        requires
            self@.cells.len() >= 1,
        ensures
            cells_view(r.0@) == self@.cells.subrange(0, (self@.cells.len() / 2) as int),
            cells_view(r.1@) == self@.cells.subrange(
                (self@.cells.len() / 2) as int,
                self@.cells.len() as int,
            ),
            r.2@ == self@.cells[(self@.cells.len() / 2) as int].key,
    {
        let n = self.cells.len();
        let mid = n / 2;
        let left = clone_cells(self.cells.as_slice(), 0, mid);
        let right = clone_cells(self.cells.as_slice(), mid, n);
        let split_key = self.cells[mid].key.clone();
        proof {
            assert(split_key@ =~= self.cells@[mid as int].key@);
        }
        (left, right, split_key)
    }
}

} // verus!
