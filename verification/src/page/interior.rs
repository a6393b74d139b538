//! B-tree interior (branch) page format.
//!
//! Interior pages store separator keys and child page pointers, guiding
//! traversal from the root toward the correct leaf.
//!
//! | Offset | Size | Field                          |
//! |--------|------|--------------------------------|
//! | 0      | 24   | common page header             |
//! | 24     | 2    | cell_count (u16 LE)            |
//! | 26     | 8    | right_child (u64 LE)           |
//! | 34     | 2    | free_start (u16 LE)            |
//! | 36     | 2    | padding (zero)                 |
//! | 38     | 2n   | cell pointers (u16 LE offsets) |
//!
//! Cells are written backward from the end of the page, cell 0 last in the
//! page. A cell is `left_child (u64 LE) | key_len (u16 LE) | key`.

use vstd::prelude::*;
use crate::codec::{
    le16, le16_bytes, le32_bytes, le64, le64_bytes, lemma_le16_of_range, lemma_le64_of_range,
    lemma_splice_concat, lemma_splice_preserves_range, lemma_splice_range, lemma_subrange_of_range,
    lemma_u16_round_trip, lemma_u64_round_trip, read_le16, read_le64, splice, copy_range,
    write_bytes, write_le16, write_le64,
};
use crate::error::StorageError;
use crate::keys::{key_le, key_lt, key_less_eq};
use super::header::{CommonPageHeader, header_bytes, header_of, page_checksum, seal_page};
use super::{PageId, PageType};

verus! {

/// Byte offset where the cell pointer array of an interior page begins.
pub const INTERIOR_CELL_PTRS_OFFSET: usize = 38;

/// A separator key with the child holding the keys below it.
#[derive(Clone, Debug, PartialEq, Eq)]
pub struct InteriorCell {
    /// Page ID of the child subtree for keys less than this separator.
    pub left_child: PageId,
    /// The separator key bytes.
    pub key: Vec<u8>,
}

/// The mathematical value of an [`InteriorCell`].
pub struct InteriorCellView {
    /// The child for keys below the separator.
    pub left_child: PageId,
    /// The separator key.
    pub key: Seq<u8>,
}

impl View for InteriorCell {
    type V = InteriorCellView;

    open spec fn view(&self) -> InteriorCellView {
        InteriorCellView { left_child: self.left_child, key: self.key@ }
    }
}

/// The views of a sequence of cells.
pub open spec fn icells_view(cells: Seq<InteriorCell>) -> Seq<InteriorCellView> {
    cells.map_values(|c: InteriorCell| c@)
}

/// On-disk size of a cell.
pub open spec fn interior_cell_size(c: InteriorCellView) -> int {
    10 + c.key.len() as int
}

/// The on-disk bytes of a cell (key length truncated to 16 bits as written).
pub open spec fn interior_cell_bytes(c: InteriorCellView) -> Seq<u8> {
    le64_bytes(c.left_child.0) + le16_bytes(c.key.len() as u16) + c.key
}

/// Total on-disk size of a sequence of cells.
pub open spec fn interior_cells_size(cells: Seq<InteriorCellView>) -> int
    decreases cells.len(),
{
    if cells.len() == 0 {
        0
    } else {
        interior_cells_size(cells.drop_last()) + interior_cell_size(cells.last())
    }
}

/// Where cell `i` starts when cells are written backward from `page_size`.
pub open spec fn interior_cell_off(cells: Seq<InteriorCellView>, i: int, page_size: int) -> int {
    page_size - interior_cells_size(cells.take(i + 1))
}

/// Header, pointer array and cells together take at most `page_size` bytes.
pub open spec fn interior_fits(cells: Seq<InteriorCellView>, page_size: int) -> bool {
    38 + 2 * cells.len() + interior_cells_size(cells) <= page_size
}

/// The cells are laid out from `page_size` downward, their pointers from
/// offset 38 upward, with nothing else in between.
pub open spec fn interior_cells_laid_out(page: Seq<u8>, cells: Seq<InteriorCellView>, page_size: int) -> bool {
    let n = cells.len() as int;
    &&& forall|i: int|
        0 <= i < n ==> {
            let off = #[trigger] interior_cell_off(cells, i, page_size);
            &&& le16(page, 38 + 2 * i) == off as u16
            &&& page.subrange(off, off + interior_cell_size(cells[i])) == interior_cell_bytes(cells[i])
        }
    &&& forall|j: int| 38 + 2 * n <= j < page_size - interior_cells_size(cells) ==> #[trigger] page[j] == 0u8
}

/// `page` is the interior page image with the given header fields, cells
/// and right child.
pub open spec fn interior_image(
    page: Seq<u8>,
    page_id: PageId,
    txn_id: u64,
    cells: Seq<InteriorCellView>,
    right_child: PageId,
    page_size: int,
) -> bool {
    let n = cells.len() as int;
    let free_start = page_size - interior_cells_size(cells);
    &&& page.len() == page_size
    &&& 38 + 2 * n <= free_start
    &&& le64(page, 0) == page_id.0
    &&& page[8] == 1u8
    &&& page[9] == 0u8
    &&& page[10] == 0u8
    &&& page[11] == 0u8
    &&& le64(page, 12) == txn_id
    &&& crate::codec::le32(page, 20) == page_checksum(page)
    &&& le16(page, 24) == n as u16
    &&& le64(page, 26) == right_child.0
    &&& le16(page, 34) == free_start as u16
    &&& le16(page, 36) == 0u16
    &&& interior_cells_laid_out(page, cells, page_size)
}

// ---------------------------------------------------------------------------
// Size facts
// ---------------------------------------------------------------------------

pub proof fn lemma_icells_size_nonneg(cells: Seq<InteriorCellView>)
    ensures
        interior_cells_size(cells) >= 10 * cells.len(),
    decreases cells.len(),
{
    if cells.len() > 0 {
        lemma_icells_size_nonneg(cells.drop_last());
    }
}

pub proof fn lemma_iprefix_size_step(cells: Seq<InteriorCellView>, i: int)
    requires
        0 <= i < cells.len(),
    ensures
        interior_cells_size(cells.take(i + 1)) == interior_cells_size(cells.take(i))
            + interior_cell_size(cells[i]),
{
    assert(cells.take(i + 1).drop_last() =~= cells.take(i));
}

pub proof fn lemma_iprefix_size_mono(cells: Seq<InteriorCellView>, i: int, j: int)
    requires
        0 <= i <= j <= cells.len(),
    ensures
        interior_cells_size(cells.take(i)) + 10 * (j - i) <= interior_cells_size(cells.take(j)),
    decreases j - i,
{
    if i < j {
        lemma_iprefix_size_mono(cells, i, j - 1);
        lemma_iprefix_size_step(cells, j - 1);
    }
}

pub proof fn lemma_itake_full(cells: Seq<InteriorCellView>)
    ensures
        cells.take(cells.len() as int) == cells,
        cells.take(0) == Seq::<InteriorCellView>::empty(),
{
    assert(cells.take(cells.len() as int) =~= cells);
    assert(cells.take(0) =~= Seq::<InteriorCellView>::empty());
}

// ---------------------------------------------------------------------------
// Building
// ---------------------------------------------------------------------------

fn icell_size_checked(c: &InteriorCell) -> (r: Option<usize>)
    ensures
        r matches Some(n) ==> n == interior_cell_size(c@),
        r is None ==> interior_cell_size(c@) > usize::MAX,
{
    c.key.len().checked_add(10)
}

fn write_interior_cell(page: &mut Vec<u8>, pos: usize, cell: &InteriorCell)
    requires
        pos + interior_cell_size(cell@) <= old(page)@.len(),
    ensures
        final(page)@ == splice(old(page)@, pos as int, interior_cell_bytes(cell@)),
{
    let ghost s0 = old(page)@;
    let _n = page.len();
    let klen = cell.key.len();
    write_le64(page, pos, cell.left_child.0);
    write_le16(page, pos + 8, #[verifier::truncate] (klen as u16));
    write_bytes(page, pos + 10, cell.key.as_slice());
    proof {
        let a = le64_bytes(cell.left_child.0);
        let b = le16_bytes(klen as u16);
        lemma_splice_concat(s0, pos as int, a, b);
        lemma_splice_concat(s0, pos as int, a + b, cell.key@);
    }
}

pub(crate) fn interior_space_check(cells: &[InteriorCell], page_size: usize) -> (r: Option<usize>)
    ensures
        r is Some <==> interior_fits(icells_view(cells@), page_size as int),
        r matches Some(t) ==> t == interior_cells_size(icells_view(cells@)),
{
    let ghost cv = icells_view(cells@);
    let n = cells.len();
    proof {
        lemma_icells_size_nonneg(cv);
        lemma_itake_full(cv);
    }
    let mut need: usize = INTERIOR_CELL_PTRS_OFFSET;
    if need > page_size {
        return None;
    }
    let mut i: usize = 0;
    while i < n
        invariant
            i <= n == cells@.len() == cv.len(),
            cv == icells_view(cells@),
            need == 38 + 2 * i + interior_cells_size(cv.take(i as int)),
            need <= page_size,
        decreases n - i,
    {
        proof {
            lemma_iprefix_size_step(cv, i as int);
            lemma_iprefix_size_mono(cv, i + 1, n as int);
            lemma_itake_full(cv);
            assert(cells@[i as int]@ == cv[i as int]);
        }
        let sz = match icell_size_checked(&cells[i]) {
            Some(s) => s,
            None => {
                return None;
            },
        };
        let add = match sz.checked_add(2) {
            Some(a) => a,
            None => {
                return None;
            },
        };
        let next = match need.checked_add(add) {
            Some(x) => x,
            None => {
                return None;
            },
        };
        if next > page_size {
            return None;
        }
        need = next;
        i = i + 1;
    }
    Some(need - INTERIOR_CELL_PTRS_OFFSET - 2 * n)
}

fn write_interior_cells(page: &mut Vec<u8>, cells: &[InteriorCell], page_size: usize)
    requires
        old(page)@.len() == page_size,
        interior_fits(icells_view(cells@), page_size as int),
        forall|k: int| 38 <= k < page_size ==> #[trigger] old(page)@[k] == 0u8,
    ensures
        final(page)@.len() == page_size,
        final(page)@.subrange(0, 38) == old(page)@.subrange(0, 38),
        interior_cells_laid_out(final(page)@, icells_view(cells@), page_size as int),
{
    let ghost cv = icells_view(cells@);
    let ghost ps = page_size as int;
    let ghost total = interior_cells_size(cv);
    let n = cells.len();
    proof {
        lemma_itake_full(cv);
        lemma_icells_size_nonneg(cv);
    }
    let mut wp: usize = page_size;
    let mut i: usize = 0;
    while i < n
        invariant
            i <= n == cells@.len() == cv.len(),
            cv == icells_view(cells@),
            ps == page_size,
            total == interior_cells_size(cv),
            38 + 2 * n + total <= ps,
            page@.len() == ps,
            page@.subrange(0, 38) == old(page)@.subrange(0, 38),
            wp == ps - interior_cells_size(cv.take(i as int)),
            forall|j: int|
                0 <= j < i ==> {
                    let off = #[trigger] interior_cell_off(cv, j, ps);
                    &&& le16(page@, 38 + 2 * j) == off as u16
                    &&& page@.subrange(off, off + interior_cell_size(cv[j])) == interior_cell_bytes(cv[j])
                    &&& wp <= off
                    &&& off + interior_cell_size(cv[j]) <= ps
                },
            forall|k: int| 38 + 2 * i <= k < wp ==> #[trigger] page@[k] == 0u8,
        decreases n - i,
    {
        proof {
            lemma_iprefix_size_step(cv, i as int);
            lemma_iprefix_size_mono(cv, i + 1, n as int);
            lemma_iprefix_size_mono(cv, 0, i as int);
            lemma_itake_full(cv);
            assert(cells@[i as int]@ == cv[i as int]);
        }
        let sz = match icell_size_checked(&cells[i]) {
            Some(s) => s,
            None => {
                assert(false);
                0
            },
        };
        let ghost s0 = page@;
        assert(wp - sz >= 38 + 2 * n);
        wp = wp - sz;
        write_interior_cell(page, wp, &cells[i]);
        let ghost s1 = page@;
        write_le16(page, 38 + 2 * i, #[verifier::truncate] (wp as u16));
        proof {
            let ci = cv[i as int];
            assert(interior_cell_off(cv, i as int, ps) == wp);
            lemma_splice_range(s0, wp as int, interior_cell_bytes(ci));
            lemma_splice_preserves_range(s1, 38 + 2 * i, le16_bytes(wp as u16), wp as int, wp + sz);
            crate::codec::lemma_le16_splice(s1, 38 + 2 * i, wp as u16);
            lemma_splice_preserves_range(s0, wp as int, interior_cell_bytes(ci), 0, 38);
            lemma_splice_preserves_range(s1, 38 + 2 * i, le16_bytes(wp as u16), 0, 38);
            assert forall|j: int| 0 <= j < i implies {
                let off = #[trigger] interior_cell_off(cv, j, ps);
                &&& le16(page@, 38 + 2 * j) == off as u16
                &&& page@.subrange(off, off + interior_cell_size(cv[j])) == interior_cell_bytes(cv[j])
                &&& wp <= off
                &&& off + interior_cell_size(cv[j]) <= ps
            } by {
                let off = interior_cell_off(cv, j, ps);
                lemma_splice_preserves_range(
                    s0,
                    wp as int,
                    interior_cell_bytes(ci),
                    off,
                    off + interior_cell_size(cv[j]),
                );
                lemma_splice_preserves_range(
                    s1,
                    38 + 2 * i,
                    le16_bytes(wp as u16),
                    off,
                    off + interior_cell_size(cv[j]),
                );
            }
            assert forall|k: int| 38 + 2 * (i + 1) <= k < wp implies #[trigger] page@[k] == 0u8 by {
                assert(s0[k] == 0u8);
            }
        }
        i = i + 1;
    }
}

} // verus!

verus! {

/// A parsed B-tree interior page.
#[derive(Clone, Debug)]
pub struct InteriorPage {
    /// Common 24-byte page header.
    pub header: CommonPageHeader,
    /// Number of separator keys recorded in the page.
    pub cell_count: u16,
    /// Page ID of the rightmost child (keys at or above every separator).
    pub right_child: PageId,
    /// Offset of the first byte of the cell content area.
    pub free_start: u16,
    /// Parsed cells in page order (public so that the page's value, and
    /// with it every field above, is visible to callers).
    pub cells: Vec<InteriorCell>,
}

/// The mathematical value of an [`InteriorPage`].
pub struct InteriorPageView {
    pub header: CommonPageHeader,
    pub cell_count: u16,
    pub right_child: PageId,
    pub free_start: u16,
    pub cells: Seq<InteriorCellView>,
}

impl View for InteriorPage {
    type V = InteriorPageView;

    open spec fn view(&self) -> InteriorPageView {
        InteriorPageView {
            header: self.header,
            cell_count: self.cell_count,
            right_child: self.right_child,
            free_start: self.free_start,
            cells: icells_view(self.cells@),
        }
    }
}

impl InteriorPage {
    /// Builds a complete interior page image of exactly `page_size` bytes,
    /// with the header, sub-header, cell pointers, cells and checksum in place.
    ///
    /// Fails, with `"interior page overflow"`, when the header, pointer array
    /// and cells do not fit in `page_size` bytes.
    pub fn build(
        page_id: PageId,
        txn_id: u64,
        cells: &[InteriorCell],
        right_child: PageId,
        page_size: usize,
    ) -> (r: Result<Vec<u8>, StorageError>)
        ensures
            r is Ok <==> interior_fits(icells_view(cells@), page_size as int),
            r matches Ok(p) ==> interior_image(
                p@,
                page_id,
                txn_id,
                icells_view(cells@),
                right_child,
                page_size as int,
            ),
            r matches Err(e) ==> e.message@ == "interior page overflow"@,
    {
        let ghost cv = icells_view(cells@);
        let n = cells.len();
        let total = match interior_space_check(cells, page_size) {
            Some(t) => t,
            None => {
                return Err(StorageError::new("interior page overflow"));
            },
        };
        let free_start = page_size - total;
        let mut page: Vec<u8> = vec![0u8; page_size];
        write_le16(&mut page, 24, #[verifier::truncate] (n as u16));
        write_le64(&mut page, 26, right_child.0);
        write_le16(&mut page, 34, #[verifier::truncate] (free_start as u16));
        proof {
            lemma_u16_round_trip(n as u16);
            lemma_u16_round_trip(free_start as u16);
            lemma_u64_round_trip(right_child.0);
        }
        assert(forall|k: int| 36 <= k < page_size ==> #[trigger] page@[k] == 0u8);
        let ghost s1 = page@;
        write_interior_cells(&mut page, cells, page_size);
        let ghost s2 = page@;
        assert(le16(s2, 24) == n as u16 && le64(s2, 26) == right_child.0 && le16(s2, 34)
            == free_start as u16 && le16(s2, 36) == 0u16) by {
            assert(s2.subrange(0, 38) == s1.subrange(0, 38));
            assert forall|k: int| 24 <= k < 38 implies s2[k] == s1[k] by {
                assert(s2[k] == s1.subrange(0, 38)[k]);
            }
            assert(s1[36] == 0u8 && s1[37] == 0u8);
            assert(crate::codec::u16_of_le(0u8, 0u8) == 0u16) by (bit_vector);
        }
        let header = CommonPageHeader {
            page_id,
            page_type: PageType::Interior,
            flags: 0,
            txn_id,
            checksum: 0,
        };
        header.serialize(&mut page);
        let ghost s3 = page@;
        seal_page(&mut page);
        proof {
            lemma_u64_round_trip(page_id.0);
            lemma_u64_round_trip(txn_id);
            let f = page@;
            let ps = page_size as int;
            assert forall|j: int| 0 <= j < n implies {
                let off = #[trigger] interior_cell_off(cv, j, ps);
                &&& le16(f, 38 + 2 * j) == off as u16
                &&& f.subrange(off, off + interior_cell_size(cv[j])) == interior_cell_bytes(cv[j])
            } by {
                let off = interior_cell_off(cv, j, ps);
                lemma_iprefix_size_step(cv, j);
                lemma_iprefix_size_mono(cv, j + 1, n as int);
                lemma_iprefix_size_mono(cv, 0, j);
                lemma_itake_full(cv);
                lemma_icells_size_nonneg(cv);
                assert(0 <= off && off + interior_cell_size(cv[j]) <= ps);
                lemma_splice_preserves_range(s2, 0, header_bytes(header), off, off + interior_cell_size(cv[j]));
                lemma_splice_preserves_range(
                    s3,
                    20,
                    le32_bytes(page_checksum(s3)),
                    off,
                    off + interior_cell_size(cv[j]),
                );
            }
            assert forall|k: int| 38 + 2 * n <= k < free_start implies #[trigger] f[k] == 0u8 by {
                assert(s2[k] == 0u8);
            }
            assert(le64(f, 0) == page_id.0);
            assert(le64(f, 12) == txn_id);
        }
        Ok(page)
    }
}

} // verus!

verus! {

// ---------------------------------------------------------------------------
// Parsing
// ---------------------------------------------------------------------------

/// The cell that pointer `i` of an interior page designates, if it and the
/// cell lie within the first `page_size` bytes.
pub open spec fn parse_interior_cell(page: Seq<u8>, page_size: int, i: int) -> Option<InteriorCellView> {
    let ptr = 38 + 2 * i;
    if ptr + 2 > page_size {
        None
    } else {
        let off = le16(page, ptr) as int;
        if off + 10 > page_size {
            None
        } else {
            let klen = le16(page, off + 8) as int;
            if off + 10 + klen > page_size {
                None
            } else {
                Some(
                    InteriorCellView {
                        left_child: PageId(le64(page, off)),
                        key: page.subrange(off + 10, off + 10 + klen),
                    },
                )
            }
        }
    }
}

/// The first `n` cells of an interior page, if they all parse.
pub open spec fn parse_interior_cells(page: Seq<u8>, page_size: int, n: nat) -> Option<
    Seq<InteriorCellView>,
>
    decreases n,
{
    if n == 0 {
        Some(Seq::empty())
    } else {
        match parse_interior_cells(page, page_size, (n - 1) as nat) {
            Some(cs) => match parse_interior_cell(page, page_size, n - 1) {
                Some(c) => Some(cs.push(c)),
                None => None,
            },
            None => None,
        }
    }
}

/// The interior page that `page` holds within its first `page_size` bytes,
/// if any: the header must say `Interior` and the sub-header padding must be
/// zero.
pub open spec fn parse_interior(page: Seq<u8>, page_size: int) -> Option<InteriorPageView> {
    if page.len() < page_size || page_size < 38 {
        None
    } else {
        match header_of(page) {
            Some(h) => if h.page_type == PageType::Interior && le16(page, 36) == 0 {
                match parse_interior_cells(page, page_size, le16(page, 24) as nat) {
                    Some(cells) => Some(
                        InteriorPageView {
                            header: h,
                            cell_count: le16(page, 24),
                            right_child: PageId(le64(page, 26)),
                            free_start: le16(page, 34),
                            cells,
                        },
                    ),
                    None => None,
                }
            } else {
                None
            },
            None => None,
        }
    }
}

fn parse_icell_at(page: &[u8], page_size: usize, i: usize) -> (r: Option<InteriorCell>)
    requires
        page@.len() >= page_size,
        i < 0x10000,
    ensures
        match r {
            Some(c) => parse_interior_cell(page@, page_size as int, i as int) == Some(c@),
            None => parse_interior_cell(page@, page_size as int, i as int) is None,
        },
{
    let ptr = INTERIOR_CELL_PTRS_OFFSET + i * 2;
    if ptr + 2 > page_size {
        return None;
    }
    let off = read_le16(page, ptr) as usize;
    if off + 10 > page_size {
        return None;
    }
    let left_child = PageId(read_le64(page, off));
    let klen = read_le16(page, off + 8) as usize;
    if off + 10 + klen > page_size {
        return None;
    }
    let key = copy_range(page, off + 10, klen);
    Some(InteriorCell { left_child, key })
}

/// Once a cell fails to parse, every longer prefix fails too.
proof fn lemma_parse_icells_none_propagates(page: Seq<u8>, page_size: int, i: nat, n: nat)
    requires
        i < n,
        parse_interior_cell(page, page_size, i as int) is None,
    ensures
        parse_interior_cells(page, page_size, n) is None,
    decreases n,
{
    if n > i + 1 {
        lemma_parse_icells_none_propagates(page, page_size, i, (n - 1) as nat);
    }
}

/// The cells that parse from a page are as many as were asked for.
pub proof fn lemma_parse_icells_len(page: Seq<u8>, page_size: int, n: nat)
    ensures
        parse_interior_cells(page, page_size, n) matches Some(cs) ==> cs.len() == n,
    decreases n,
{
    if n > 0 {
        lemma_parse_icells_len(page, page_size, (n - 1) as nat);
    }
}

impl InteriorPage {
    /// Parses an interior page from the first `page_size` bytes of `page_data`.
    ///
    /// Fails if the data is shorter than `page_size`, `page_size` is below 38,
    /// the header's type is not `Interior`, the sub-header padding is not
    /// zero, or a cell lies outside the page.
    pub fn parse(page_data: &[u8], page_size: usize) -> (r: Result<InteriorPage, StorageError>)
        ensures
            match r {
                Ok(p) => parse_interior(page_data@, page_size as int) == Some(p@),
                Err(_) => parse_interior(page_data@, page_size as int) is None,
            },
            r matches Ok(p) ==> p.header.page_type == PageType::Interior && p.cell_count
                == p@.cells.len(),
    {
        if page_data.len() < page_size || page_size < INTERIOR_CELL_PTRS_OFFSET {
            let mut m = crate::text::string_of("interior page too small: ");
            crate::text::push_decimal(&mut m, page_data.len() as u64);
            m.append(" bytes");
            return Err(StorageError { message: m, source: None });
        }
        let header = match CommonPageHeader::deserialize(page_data) {
            Ok(h) => h,
            Err(e) => {
                return Err(e);
            },
        };
        if header.page_type != PageType::Interior {
            let mut m = crate::text::string_of("expected Interior page, got ");
            let name = header.page_type.to_string();
            m.append(name.as_str());
            return Err(StorageError { message: m, source: None });
        }
        let cell_count = read_le16(page_data, 24);
        let right_child = PageId(read_le64(page_data, 26));
        let free_start = read_le16(page_data, 34);
        let padding = read_le16(page_data, 36);
        if padding != 0 {
            let mut m = crate::text::string_of("interior page subheader padding non-zero: 0x");
            crate::text::push_hex_digits(&mut m, padding as u64, 4);
            return Err(StorageError { message: m, source: None });
        }
        let n = cell_count as usize;
        let mut cells: Vec<InteriorCell> = Vec::with_capacity(n);
        let mut i: usize = 0;
        while i < n
            invariant
                i <= n == cell_count,
                cell_count == le16(page_data@, 24),
                header_of(page_data@) == Some(header),
                page_data@.len() >= page_size,
                parse_interior_cells(page_data@, page_size as int, i as nat) == Some(icells_view(cells@)),
            decreases n - i,
        {
            match parse_icell_at(page_data, page_size, i) {
                Some(c) => {
                    let ghost prev = cells@;
                    cells.push(c);
                    proof {
                        assert(icells_view(cells@) =~= icells_view(prev).push(c@));
                    }
                },
                None => {
                    proof {
                        lemma_parse_icells_none_propagates(page_data@, page_size as int, i as nat, n as nat);
                    }
                    return Err(StorageError::new("interior cell out of bounds"));
                },
            }
            i = i + 1;
        }
        let r = InteriorPage { header, cell_count, right_child, free_start, cells };
        proof {
            lemma_parse_icells_len(page_data@, page_size as int, cell_count as nat);
        }
        Ok(r)
    }
}

// ---------------------------------------------------------------------------
// Round trip
// ---------------------------------------------------------------------------

/// Every cell's key length fits the 16-bit field that records it.
pub open spec fn interior_cells_encodable(cells: Seq<InteriorCellView>) -> bool {
    forall|i: int| 0 <= i < cells.len() ==> (#[trigger] cells[i]).key.len() <= 0xFFFF
}

proof fn lemma_interior_cell_parses(
    page: Seq<u8>,
    page_id: PageId,
    txn_id: u64,
    cells: Seq<InteriorCellView>,
    right_child: PageId,
    page_size: int,
    i: int,
)
    requires
        interior_image(page, page_id, txn_id, cells, right_child, page_size),
        page_size <= 0x10000,
        interior_cells_encodable(cells),
        0 <= i < cells.len(),
    ensures
        parse_interior_cell(page, page_size, i) == Some(cells[i]),
{
    let n = cells.len() as int;
    let c = cells[i];
    let off = interior_cell_off(cells, i, page_size);
    let sz = interior_cell_size(c);
    let b = interior_cell_bytes(c);
    let k = c.key.len() as int;
    lemma_iprefix_size_step(cells, i);
    lemma_iprefix_size_mono(cells, i + 1, n);
    lemma_iprefix_size_mono(cells, 0, i);
    lemma_itake_full(cells);
    assert(38 <= off && off + sz <= page_size && off < 0x10000);
    assert(page.subrange(off, off + sz) == b);
    lemma_le64_of_range(page, off, b, 0);
    lemma_le16_of_range(page, off, b, 8);
    lemma_u64_round_trip(c.left_child.0);
    lemma_u16_round_trip(k as u16);
    assert(le16(page, off + 8) == k);
    lemma_subrange_of_range(page, off, b, 10, 10 + k);
    assert(b.subrange(10, 10 + k) =~= c.key);
}

proof fn lemma_interior_cells_parse(
    page: Seq<u8>,
    page_id: PageId,
    txn_id: u64,
    cells: Seq<InteriorCellView>,
    right_child: PageId,
    page_size: int,
    m: nat,
)
    requires
        interior_image(page, page_id, txn_id, cells, right_child, page_size),
        page_size <= 0x10000,
        interior_cells_encodable(cells),
        m <= cells.len(),
    ensures
        parse_interior_cells(page, page_size, m) == Some(cells.take(m as int)),
    decreases m,
{
    if m > 0 {
        lemma_interior_cells_parse(page, page_id, txn_id, cells, right_child, page_size, (m - 1) as nat);
        lemma_interior_cell_parses(page, page_id, txn_id, cells, right_child, page_size, m - 1);
        assert(cells.take(m - 1).push(cells[m - 1]) =~= cells.take(m as int));
    } else {
        assert(cells.take(0) =~= Seq::<InteriorCellView>::empty());
    }
}

/// Parsing a built interior page gives back its header fields, right child
/// and cells, whenever the page size and the keys' lengths fit the 16-bit
/// fields of the format.
pub proof fn lemma_interior_build_parse_round_trip(
    page: Seq<u8>,
    page_id: PageId,
    txn_id: u64,
    cells: Seq<InteriorCellView>,
    right_child: PageId,
    page_size: int,
)
    requires
        interior_image(page, page_id, txn_id, cells, right_child, page_size),
        page_size <= 0x10000,
        interior_cells_encodable(cells),
    ensures
        parse_interior(page, page_size) == Some(
            InteriorPageView {
                header: CommonPageHeader {
                    page_id,
                    page_type: PageType::Interior,
                    flags: 0,
                    txn_id,
                    checksum: crate::codec::le32(page, 20),
                },
                cell_count: cells.len() as u16,
                right_child,
                free_start: (page_size - interior_cells_size(cells)) as u16,
                cells,
            },
        ),
{
    lemma_interior_cells_parse(page, page_id, txn_id, cells, right_child, page_size, cells.len());
    lemma_itake_full(cells);
    assert(cells.len() < 0x10000);
}

} // verus!

verus! {

// ---------------------------------------------------------------------------
// Operations on parsed interior pages
// ---------------------------------------------------------------------------

/// The separator keys strictly increase.
pub open spec fn interior_sorted(cells: Seq<InteriorCellView>) -> bool {
    forall|i: int, j: int| 0 <= i < j < cells.len() ==> key_lt(#[trigger] cells[i].key, #[trigger] cells[j].key)
}

/// `pos` splits the cells into those whose separator is at or below `key`
/// and those whose separator is above it.
pub open spec fn route_pos(cells: Seq<InteriorCellView>, key: Seq<u8>, pos: int) -> bool {
    &&& 0 <= pos <= cells.len()
    &&& forall|i: int| 0 <= i < pos ==> key_le(#[trigger] cells[i].key, key)
    &&& forall|i: int| pos <= i < cells.len() ==> !key_le(#[trigger] cells[i].key, key)
}

/// The child to follow from split position `pos`: the left child of the
/// first separator above the key, or the right child past them all.
pub open spec fn child_at(cells: Seq<InteriorCellView>, right_child: PageId, pos: int) -> PageId {
    if pos == cells.len() {
        right_child
    } else {
        cells[pos].left_child
    }
}

/// The first index whose separator is above `key` (for sorted cells).
pub(crate) fn iupper_bound(cells: &[InteriorCell], key: &[u8]) -> (r: usize)
    ensures
        r <= cells@.len(),
        interior_sorted(icells_view(cells@)) ==> route_pos(icells_view(cells@), key@, r as int),
{
    let ghost cv = icells_view(cells@);
    let mut lo: usize = 0;
    let mut hi: usize = cells.len();
    while lo < hi
        invariant
            lo <= hi <= cells@.len(),
            cv == icells_view(cells@),
            interior_sorted(cv) ==> {
                &&& forall|i: int| 0 <= i < lo ==> key_le(#[trigger] cv[i].key, key@)
                &&& forall|i: int| hi <= i < cells@.len() ==> !key_le(#[trigger] cv[i].key, key@)
            },
        decreases hi - lo,
    {
        let mid = lo + (hi - lo) / 2;
        proof {
            assert(cv[mid as int].key == cells@[mid as int].key@);
        }
        if key_less_eq(cells[mid].key.as_slice(), key) {
            proof {
                if interior_sorted(cv) {
                    assert forall|i: int| 0 <= i < mid + 1 implies key_le(#[trigger] cv[i].key, key@) by {
                        if i < mid {
                            crate::keys::lemma_key_lt_le_transitive(cv[i].key, cv[mid as int].key, key@);
                        }
                    }
                }
            }
            lo = mid + 1;
        } else {
            proof {
                if interior_sorted(cv) {
                    assert forall|i: int| mid <= i < cells@.len() implies !key_le(#[trigger] cv[i].key, key@) by {
                        if i > mid {
                            crate::keys::lemma_key_order_facts(cv[mid as int].key, key@);
                            crate::keys::lemma_key_lt_transitive(key@, cv[mid as int].key, cv[i].key);
                            crate::keys::lemma_key_order_facts(cv[i].key, key@);
                        }
                    }
                }
            }
            hi = mid;
        }
    }
    lo
}

fn clone_icells(cells: &[InteriorCell], lo: usize, hi: usize) -> (r: Vec<InteriorCell>)
    requires
        lo <= hi <= cells@.len(),
    ensures
        icells_view(r@) == icells_view(cells@).subrange(lo as int, hi as int),
{
    let mut r: Vec<InteriorCell> = Vec::new();
    let mut i = lo;
    while i < hi
        invariant
            lo <= i <= hi <= cells@.len(),
            icells_view(r@) == icells_view(cells@).subrange(lo as int, i as int),
        decreases hi - i,
    {
        let key = cells[i].key.clone();
        assert(key@ =~= cells@[i as int].key@);
        let c = InteriorCell { left_child: cells[i].left_child, key };
        let ghost prev = r@;
        r.push(c);
        proof {
            assert(icells_view(r@) =~= icells_view(prev).push(c@));
            assert(icells_view(cells@).subrange(lo as int, i + 1) =~= icells_view(cells@).subrange(
                lo as int,
                i as int,
            ).push(cells@[i as int]@));
        }
        i = i + 1;
    }
    r
}

/// Total on-disk size of the cells, as computed over the cell vector.
fn icells_total(cells: &Vec<InteriorCell>) -> (r: usize)
    requires
        interior_cells_size(icells_view(cells@)) <= usize::MAX,
    ensures
        r == interior_cells_size(icells_view(cells@)),
{
    let ghost cv = icells_view(cells@);
    let mut t: usize = 0;
    let mut i: usize = 0;
    proof {
        lemma_itake_full(cv);
    }
    while i < cells.len()
        invariant
            i <= cells@.len() == cv.len(),
            cv == icells_view(cells@),
            interior_cells_size(cv) <= usize::MAX,
            t == interior_cells_size(cv.take(i as int)),
        decreases cells@.len() - i,
    {
        proof {
            lemma_iprefix_size_step(cv, i as int);
            lemma_iprefix_size_mono(cv, i + 1, cv.len() as int);
            lemma_itake_full(cv);
            assert(cells@[i as int]@ == cv[i as int]);
        }
        t = t + 10 + cells[i].key.len();
        i = i + 1;
    }
    t
}

impl InteriorPage {
    /// The page's right child.
    pub fn right_child(&self) -> (r: PageId)
        ensures
            r == self@.right_child,
    {
        self.right_child
    }

    /// Returns the cells in page order.
    pub fn cells(&self) -> (r: &[InteriorCell])
        ensures
            icells_view(r@) == self@.cells,
    {
        self.cells.as_slice()
    }

    /// The child page to descend into for `key`: the left child of the
    /// first separator above `key`, or the right child when `key` is at or
    /// above every separator.
    pub fn search(&self, key: &[u8]) -> (r: PageId)
        ensures
            r == self@.right_child || exists|i: int|
                0 <= i < self@.cells.len() && r == #[trigger] self@.cells[i].left_child,
            interior_sorted(self@.cells) ==> exists|pos: int|
                #[trigger] route_pos(self@.cells, key@, pos) && r == child_at(
                    self@.cells,
                    self@.right_child,
                    pos,
                ),
    {
        let ghost cv = self@.cells;
        if self.cells.len() == 0 {
            proof {
                assert(route_pos(cv, key@, 0));
            }
            return self.right_child;
        }
        let pos = iupper_bound(self.cells.as_slice(), key);
        if pos == self.cells.len() {
            proof {
                if interior_sorted(cv) {
                    assert(route_pos(cv, key@, pos as int));
                }
            }
            self.right_child
        } else {
            proof {
                assert(cv[pos as int] == self.cells@[pos as int]@);
                assert(self@.cells[pos as int].left_child == self.cells@[pos as int].left_child);
                if interior_sorted(cv) {
                    assert(route_pos(cv, key@, pos as int));
                }
            }
            self.cells[pos].left_child
        }
    }

    /// Returns `true` if a new cell with a key of `key_len` bytes fits
    /// alongside the existing cells in `page_size` bytes.
    pub fn has_space_for(&self, key_len: usize, page_size: usize) -> (r: bool)
        requires
            38 + 2 * (self@.cells.len() + 1) + interior_cells_size(self@.cells) + 10 + key_len
                <= usize::MAX,
        ensures
            r == (38 + 2 * (self@.cells.len() + 1) + interior_cells_size(self@.cells) + 10 + key_len
                <= page_size),
    {
        proof {
            lemma_icells_size_nonneg(self@.cells);
        }
        let existing = icells_total(&self.cells);
        let total_used = INTERIOR_CELL_PTRS_OFFSET + (self.cells.len() + 1) * 2 + existing + 10 + key_len;
        total_used <= page_size
    }

    /// Splits the cells at the median: `(left, median_key, right,
    /// right_child)` with the first `n / 2` cells on the left, the median
    /// cell's key promoted, the cells after it on the right, and the page's
    /// right child, which the right half keeps.
    pub fn split(&self) -> (r: (Vec<InteriorCell>, Vec<u8>, Vec<InteriorCell>, PageId))
        requires
            self@.cells.len() >= 1,
        ensures
            icells_view(r.0@) == self@.cells.subrange(0, (self@.cells.len() / 2) as int),
            r.1@ == self@.cells[(self@.cells.len() / 2) as int].key,
            icells_view(r.2@) == self@.cells.subrange(
                (self@.cells.len() / 2) as int + 1,
                self@.cells.len() as int,
            ),
            r.3 == self@.right_child,
    {
        let n = self.cells.len();
        let mid = n / 2;
        let left = clone_icells(self.cells.as_slice(), 0, mid);
        let median = self.cells[mid].key.clone();
        let right = clone_icells(self.cells.as_slice(), mid + 1, n);
        proof {
            assert(median@ =~= self.cells@[mid as int].key@);
        }
        (left, median, right, self.right_child)
    }

    /// The right child of the left page after a split: the left child of
    /// the median cell.
    pub fn split_left_right_child(&self) -> (r: PageId)
        requires
            self@.cells.len() >= 1,
        ensures
            r == self@.cells[(self@.cells.len() / 2) as int].left_child,
    {
        let mid = self.cells.len() / 2;
        self.cells[mid].left_child
    }
}

} // verus!
