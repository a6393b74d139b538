use phonograph::page::header::CommonPageHeader;
use phonograph::page::interior::{InteriorCell, InteriorPage};
use phonograph::page::{PageId, DEFAULT_PAGE_SIZE};

fn make_cell(left_child: u64, key: &[u8]) -> InteriorCell {
    InteriorCell { left_child: PageId(left_child), key: key.to_vec() }
}

#[test]
fn interior_build_parse_round_trip() {
    let cells = vec![make_cell(10, &[0x00, 0x01]), make_cell(11, &[0x00, 0x05]), make_cell(12, &[0x00, 0x0A])];
    let right_child = PageId(13);
    let page_data = InteriorPage::build(PageId(2), 1, &cells, right_child, DEFAULT_PAGE_SIZE).unwrap();

    assert_eq!(page_data.len(), DEFAULT_PAGE_SIZE);
    CommonPageHeader::validate_checksum(&page_data).unwrap();

    let parsed = InteriorPage::parse(&page_data, DEFAULT_PAGE_SIZE).unwrap();
    assert_eq!(parsed.cell_count, 3);
    assert_eq!(parsed.right_child, right_child);
    assert_eq!(parsed.cells().len(), 3);
    for (i, cell) in parsed.cells().iter().enumerate() {
        assert_eq!(cell.left_child, cells[i].left_child);
        assert_eq!(cell.key, cells[i].key);
    }
}

#[test]
fn search_less_than_first() {
    let cells = vec![make_cell(10, &[0x00, 0x05]), make_cell(11, &[0x00, 0x0A])];
    let page_data = InteriorPage::build(PageId(2), 1, &cells, PageId(12), DEFAULT_PAGE_SIZE).unwrap();
    let page = InteriorPage::parse(&page_data, DEFAULT_PAGE_SIZE).unwrap();
    assert_eq!(page.search(&[0x00, 0x01]), PageId(10));
}

#[test]
fn search_between_separators() {
    let cells = vec![make_cell(10, &[0x00, 0x05]), make_cell(11, &[0x00, 0x0A])];
    let page_data = InteriorPage::build(PageId(2), 1, &cells, PageId(12), DEFAULT_PAGE_SIZE).unwrap();
    let page = InteriorPage::parse(&page_data, DEFAULT_PAGE_SIZE).unwrap();
    assert_eq!(page.search(&[0x00, 0x07]), PageId(11));
}

#[test]
fn search_greater_than_all() {
    let cells = vec![make_cell(10, &[0x00, 0x05]), make_cell(11, &[0x00, 0x0A])];
    let page_data = InteriorPage::build(PageId(2), 1, &cells, PageId(12), DEFAULT_PAGE_SIZE).unwrap();
    let page = InteriorPage::parse(&page_data, DEFAULT_PAGE_SIZE).unwrap();
    assert_eq!(page.search(&[0x00, 0xFF]), PageId(12));
}

#[test]
fn search_equal_to_separator() {
    let cells = vec![make_cell(10, &[0x00, 0x05]), make_cell(11, &[0x00, 0x0A])];
    let page_data = InteriorPage::build(PageId(2), 1, &cells, PageId(12), DEFAULT_PAGE_SIZE).unwrap();
    let page = InteriorPage::parse(&page_data, DEFAULT_PAGE_SIZE).unwrap();
    assert_eq!(page.search(&[0x00, 0x05]), PageId(11));
    assert_eq!(page.search(&[0x00, 0x0A]), PageId(12));
}

#[test]
fn has_space_for_full_page() {
    let mut cells = Vec::new();
    for i in 0..200u64 {
        cells.push(make_cell(i, &i.to_be_bytes()));
    }
    let page_data = InteriorPage::build(PageId(2), 1, &cells, PageId(999), DEFAULT_PAGE_SIZE).unwrap();
    let page = InteriorPage::parse(&page_data, DEFAULT_PAGE_SIZE).unwrap();
    let has_room = page.has_space_for(8, DEFAULT_PAGE_SIZE);
    assert!(has_room);
}

#[test]
fn interior_split_balanced() {
    let cells: Vec<InteriorCell> = (0..6u64).map(|i| make_cell(i + 10, &i.to_be_bytes())).collect();
    let page_data = InteriorPage::build(PageId(2), 1, &cells, PageId(99), DEFAULT_PAGE_SIZE).unwrap();
    let page = InteriorPage::parse(&page_data, DEFAULT_PAGE_SIZE).unwrap();

    let (left, median, right, right_right_child) = page.split();
    let left_right_child = page.split_left_right_child();

    assert_eq!(left.len(), 3);
    assert_eq!(right.len(), 2);
    assert_eq!(median, cells[3].key);
    assert_eq!(left_right_child, cells[3].left_child);
    assert_eq!(right_right_child, PageId(99));
}

#[test]
fn interior_byte_level_layout() {
    let cells = vec![make_cell(10, &[0xAB, 0xCD])];
    let page_data = InteriorPage::build(PageId(5), 42, &cells, PageId(20), DEFAULT_PAGE_SIZE).unwrap();

    assert_eq!(u64::from_le_bytes(page_data[0..8].try_into().unwrap()), 5);
    assert_eq!(page_data[8], 0x01);
    assert_eq!(page_data[9], 0x00);
    assert_eq!(u64::from_le_bytes(page_data[12..20].try_into().unwrap()), 42);
    assert_eq!(u16::from_le_bytes([page_data[24], page_data[25]]), 1);
    assert_eq!(u64::from_le_bytes(page_data[26..34].try_into().unwrap()), 20);
}

#[test]
fn interior_cell_layout_and_free_start() {
    let cells = vec![make_cell(10, &[0xAB, 0xCD])];
    let page_data = InteriorPage::build(PageId(5), 42, &cells, PageId(20), DEFAULT_PAGE_SIZE).unwrap();
    let off = DEFAULT_PAGE_SIZE - 12;
    assert_eq!(u16::from_le_bytes([page_data[34], page_data[35]]) as usize, off);
    assert_eq!(u16::from_le_bytes([page_data[38], page_data[39]]) as usize, off);
    assert_eq!(u64::from_le_bytes(page_data[off..off + 8].try_into().unwrap()), 10);
    assert_eq!(&page_data[off + 8..off + 12], &[2, 0, 0xAB, 0xCD]);
}

#[test]
fn interior_build_overflow_error() {
    let cells = vec![make_cell(1, &[7u8; 5000])];
    let err = InteriorPage::build(PageId(2), 1, &cells, PageId(3), DEFAULT_PAGE_SIZE).unwrap_err();
    assert_eq!(err.message, "interior page overflow");
}

#[test]
fn interior_parse_rejects_bad_pages() {
    let cells = vec![make_cell(10, &[1])];
    let mut page_data = InteriorPage::build(PageId(2), 1, &cells, PageId(3), DEFAULT_PAGE_SIZE).unwrap();
    assert!(InteriorPage::parse(&page_data[..100], DEFAULT_PAGE_SIZE).is_err());
    page_data[36] = 1;
    assert!(InteriorPage::parse(&page_data, DEFAULT_PAGE_SIZE).is_err());
    let leaf = phonograph::page::leaf::LeafPage::build(PageId(2), 1, &[], PageId(0), PageId(0), DEFAULT_PAGE_SIZE).unwrap();
    assert!(InteriorPage::parse(&leaf, DEFAULT_PAGE_SIZE).is_err());
}

#[test]
fn interior_search_empty_and_space_limit() {
    let page_data = InteriorPage::build(PageId(2), 1, &[], PageId(77), DEFAULT_PAGE_SIZE).unwrap();
    let page = InteriorPage::parse(&page_data, DEFAULT_PAGE_SIZE).unwrap();
    assert_eq!(page.search(&[1, 2, 3]), PageId(77));
    assert!(page.has_space_for(DEFAULT_PAGE_SIZE - 50, DEFAULT_PAGE_SIZE));
    assert!(!page.has_space_for(DEFAULT_PAGE_SIZE - 49, DEFAULT_PAGE_SIZE));
}
