use phonograph::btree::{fits_inline, insert_promoted, replace_child, InteriorInsert, PromotedKey};
use phonograph::page::interior::InteriorCell;
use phonograph::page::PageId;

fn cell(child: u64, key: &[u8]) -> InteriorCell {
    InteriorCell { left_child: PageId(child), key: key.to_vec() }
}

fn shape(cells: &[InteriorCell]) -> Vec<(u64, Vec<u8>)> {
    cells.iter().map(|c| (c.left_child.0, c.key.clone())).collect()
}

#[test]
fn insert_promoted_in_the_middle_fits() {
    // Children: 10 | b | 11 | d | 12(right)
    let cells = vec![cell(10, b"b"), cell(11, b"d")];
    let promoted = PromotedKey { key: b"c".to_vec(), left_child: PageId(20), right_child: PageId(21) };
    // Child 11 (index 1) split into 20 and 21 around "c".
    match insert_promoted(&cells, PageId(12), 1, &promoted, 4096) {
        InteriorInsert::Fits { cells, right_child } => {
            assert_eq!(shape(&cells), vec![(10, b"b".to_vec()), (20, b"c".to_vec()), (21, b"d".to_vec())]);
            assert_eq!(right_child, PageId(12));
        },
        other => panic!("expected Fits, got {:?}", other),
    }
}

#[test]
fn insert_promoted_at_right_child_replaces_it() {
    let cells = vec![cell(10, b"b")];
    let promoted = PromotedKey { key: b"m".to_vec(), left_child: PageId(30), right_child: PageId(31) };
    match insert_promoted(&cells, PageId(12), 1, &promoted, 4096) {
        InteriorInsert::Fits { cells, right_child } => {
            assert_eq!(shape(&cells), vec![(10, b"b".to_vec()), (30, b"m".to_vec())]);
            assert_eq!(right_child, PageId(31));
        },
        other => panic!("expected Fits, got {:?}", other),
    }
}

#[test]
fn insert_promoted_splits_at_median_when_page_is_full() {
    // Three cells of one-byte keys need 38 + 3 * 2 + 3 * 11 = 77 bytes.
    let cells = vec![cell(10, b"b"), cell(11, b"d")];
    let promoted = PromotedKey { key: b"f".to_vec(), left_child: PageId(40), right_child: PageId(41) };
    match insert_promoted(&cells, PageId(12), 2, &promoted, 76) {
        InteriorInsert::Split { left_cells, left_right_child, median_key, right_cells, right_child } => {
            assert_eq!(shape(&left_cells), vec![(10, b"b".to_vec())]);
            assert_eq!(left_right_child, PageId(11));
            assert_eq!(median_key, b"d".to_vec());
            assert_eq!(shape(&right_cells), vec![(40, b"f".to_vec())]);
            assert_eq!(right_child, PageId(41));
        },
        other => panic!("expected Split, got {:?}", other),
    }
    // One byte more and the same node fits.
    assert!(matches!(insert_promoted(&cells, PageId(12), 2, &promoted, 77), InteriorInsert::Fits { .. }));
}

#[test]
fn replace_child_redirects_one_pointer() {
    let cells = vec![cell(10, b"b"), cell(11, b"d")];
    let (nc, right) = replace_child(&cells, PageId(12), 0, PageId(99));
    assert_eq!(shape(&nc), vec![(99, b"b".to_vec()), (11, b"d".to_vec())]);
    assert_eq!(right, PageId(12));

    let (nc, right) = replace_child(&cells, PageId(12), 2, PageId(98));
    assert_eq!(shape(&nc), shape(&cells));
    assert_eq!(right, PageId(98));
}

#[test]
fn fits_inline_threshold() {
    // (4096 - 44) / 4 = 1013 bytes for key, value and 4-byte header.
    assert!(fits_inline(9, 1000, 4096));
    assert!(!fits_inline(10, 1000, 4096));
    assert!(!fits_inline(usize::MAX, 1, 4096));
    assert!(!fits_inline(1, 1, 44));
}
