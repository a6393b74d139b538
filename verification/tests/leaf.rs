use phonograph::page::header::CommonPageHeader;
use phonograph::page::leaf::{LeafCell, LeafCellValue, LeafPage};
use phonograph::page::{PageId, DEFAULT_PAGE_SIZE};

fn inline_cell(key: &[u8], value: &[u8]) -> LeafCell {
    LeafCell { key: key.to_vec(), value: LeafCellValue::Inline(value.to_vec()) }
}

fn key_only_cell(key: &[u8]) -> LeafCell {
    LeafCell { key: key.to_vec(), value: LeafCellValue::Inline(vec![]) }
}

#[test]
fn leaf_build_parse_round_trip() {
    let cells = vec![
        inline_cell(&[0x00, 0x01], b"hello"),
        inline_cell(&[0x00, 0x02], b"world"),
        inline_cell(&[0x00, 0x03], b"foo"),
        inline_cell(&[0x00, 0x04], b"bar"),
        inline_cell(&[0x00, 0x05], b"baz"),
    ];
    let page_data = LeafPage::build(PageId(3), 1, &cells, PageId(4), PageId(2), DEFAULT_PAGE_SIZE).unwrap();

    assert_eq!(page_data.len(), DEFAULT_PAGE_SIZE);
    CommonPageHeader::validate_checksum(&page_data).unwrap();

    let parsed = LeafPage::parse(&page_data, DEFAULT_PAGE_SIZE).unwrap();
    assert_eq!(parsed.cell_count, 5);
    assert_eq!(parsed.next_leaf, PageId(4));
    assert_eq!(parsed.prev_leaf, PageId(2));
    assert_eq!(parsed.cells().len(), 5);
    for (i, cell) in parsed.cells().iter().enumerate() {
        assert_eq!(cell, &cells[i]);
    }
}

#[test]
fn search_found() {
    let cells = vec![inline_cell(&[0x00, 0x01], b"a"), inline_cell(&[0x00, 0x05], b"b"), inline_cell(&[0x00, 0x0A], b"c")];
    let page_data = LeafPage::build(PageId(3), 1, &cells, PageId::null(), PageId::null(), DEFAULT_PAGE_SIZE).unwrap();
    let page = LeafPage::parse(&page_data, DEFAULT_PAGE_SIZE).unwrap();

    let result = page.search(&[0x00, 0x05]);
    assert!(result.is_some());
    assert_eq!(result.unwrap().value, LeafCellValue::Inline(b"b".to_vec()));
}

#[test]
fn search_not_found() {
    let cells = vec![inline_cell(&[0x00, 0x01], b"a"), inline_cell(&[0x00, 0x05], b"b")];
    let page_data = LeafPage::build(PageId(3), 1, &cells, PageId::null(), PageId::null(), DEFAULT_PAGE_SIZE).unwrap();
    let page = LeafPage::parse(&page_data, DEFAULT_PAGE_SIZE).unwrap();
    assert!(page.search(&[0x00, 0x03]).is_none());
}

#[test]
fn search_range() {
    let cells: Vec<LeafCell> = (0..10u8).map(|i| inline_cell(&[i], &[i + 100])).collect();
    let page_data = LeafPage::build(PageId(3), 1, &cells, PageId::null(), PageId::null(), DEFAULT_PAGE_SIZE).unwrap();
    let page = LeafPage::parse(&page_data, DEFAULT_PAGE_SIZE).unwrap();

    let range = page.search_range(&[3], &[7]);
    assert_eq!(range.len(), 5);
}

#[test]
fn insert_cell_sorted() {
    let cells = vec![inline_cell(&[0x01], b"a"), inline_cell(&[0x03], b"c")];
    let page_data = LeafPage::build(PageId(3), 1, &cells, PageId::null(), PageId::null(), DEFAULT_PAGE_SIZE).unwrap();
    let mut page = LeafPage::parse(&page_data, DEFAULT_PAGE_SIZE).unwrap();

    assert!(page.insert_cell(inline_cell(&[0x02], b"b"), DEFAULT_PAGE_SIZE));
    assert_eq!(page.cell_count(), 3);
    assert_eq!(page.cells()[0].key, vec![0x01]);
    assert_eq!(page.cells()[1].key, vec![0x02]);
    assert_eq!(page.cells()[2].key, vec![0x03]);
}

#[test]
fn delete_cell_found() {
    let cells = vec![inline_cell(&[0x01], b"a"), inline_cell(&[0x02], b"b"), inline_cell(&[0x03], b"c")];
    let page_data = LeafPage::build(PageId(3), 1, &cells, PageId::null(), PageId::null(), DEFAULT_PAGE_SIZE).unwrap();
    let mut page = LeafPage::parse(&page_data, DEFAULT_PAGE_SIZE).unwrap();

    let deleted = page.delete_cell(&[0x02]);
    assert!(deleted.is_some());
    assert_eq!(page.cell_count(), 2);
    assert!(page.search(&[0x02]).is_none());
}

#[test]
fn leaf_split_balanced() {
    let cells: Vec<LeafCell> = (0..6u8).map(|i| inline_cell(&[i], &[i + 100])).collect();
    let page_data = LeafPage::build(PageId(3), 1, &cells, PageId::null(), PageId::null(), DEFAULT_PAGE_SIZE).unwrap();
    let page = LeafPage::parse(&page_data, DEFAULT_PAGE_SIZE).unwrap();

    let (left, right, split_key) = page.split();
    assert_eq!(left.len(), 3);
    assert_eq!(right.len(), 3);
    assert_eq!(split_key, vec![3u8]);
}

#[test]
fn overflow_cell_round_trip() {
    let cells = vec![
        inline_cell(&[0x01], b"normal"),
        LeafCell {
            key: vec![0x02],
            value: LeafCellValue::Overflow { overflow_page_id: PageId(100), total_overflow_len: 50000 },
        },
        inline_cell(&[0x03], b"also normal"),
    ];
    let page_data = LeafPage::build(PageId(3), 1, &cells, PageId::null(), PageId::null(), DEFAULT_PAGE_SIZE).unwrap();
    let parsed = LeafPage::parse(&page_data, DEFAULT_PAGE_SIZE).unwrap();

    assert_eq!(parsed.cells()[1].key, vec![0x02]);
    match &parsed.cells()[1].value {
        LeafCellValue::Overflow { overflow_page_id, total_overflow_len } => {
            assert_eq!(*overflow_page_id, PageId(100));
            assert_eq!(*total_overflow_len, 50000);
        },
        _ => panic!("expected overflow cell"),
    }
}

#[test]
fn next_prev_leaf_serialized() {
    let page_data = LeafPage::build(PageId(5), 1, &[], PageId(6), PageId(4), DEFAULT_PAGE_SIZE).unwrap();
    let parsed = LeafPage::parse(&page_data, DEFAULT_PAGE_SIZE).unwrap();
    assert_eq!(parsed.next_leaf, PageId(6));
    assert_eq!(parsed.prev_leaf, PageId(4));
}

#[test]
fn leaf_byte_level_layout() {
    let cells = vec![inline_cell(&[0xAB], b"X")];
    let page_data = LeafPage::build(PageId(3), 7, &cells, PageId(10), PageId(2), DEFAULT_PAGE_SIZE).unwrap();

    assert_eq!(page_data[8], 0x02);
    assert_eq!(page_data[9], 0x01);
    assert_eq!(u16::from_le_bytes([page_data[24], page_data[25]]), 1);
    assert_eq!(u64::from_le_bytes(page_data[28..36].try_into().unwrap()), 10);
    assert_eq!(u64::from_le_bytes(page_data[36..44].try_into().unwrap()), 2);
}

#[test]
fn key_only_cell_round_trip() {
    let cells = vec![key_only_cell(&[0x00, 0x01, 0x02]), key_only_cell(&[0x00, 0x01, 0x03])];
    let page_data = LeafPage::build(PageId(3), 1, &cells, PageId::null(), PageId::null(), DEFAULT_PAGE_SIZE).unwrap();
    let parsed = LeafPage::parse(&page_data, DEFAULT_PAGE_SIZE).unwrap();
    for cell in parsed.cells() {
        assert_eq!(cell.value, LeafCellValue::Inline(vec![]));
    }
}

#[test]
fn leaf_build_overflow_error() {
    let cells = vec![inline_cell(&[1], &[0u8; 4100])];
    let err = LeafPage::build(PageId(3), 1, &cells, PageId(0), PageId(0), DEFAULT_PAGE_SIZE).unwrap_err();
    assert_eq!(err.message, "leaf page overflow");
}

#[test]
fn leaf_insert_rejects_when_full() {
    let mut page = LeafPage::parse(
        &LeafPage::build(PageId(3), 1, &[], PageId(0), PageId(0), DEFAULT_PAGE_SIZE).unwrap(),
        DEFAULT_PAGE_SIZE,
    )
    .unwrap();
    assert!(!page.has_space_for(1, DEFAULT_PAGE_SIZE - 50, DEFAULT_PAGE_SIZE));
    assert!(page.has_space_for(1, DEFAULT_PAGE_SIZE - 51, DEFAULT_PAGE_SIZE));
    assert!(!page.insert_cell(inline_cell(&[1], &vec![0u8; DEFAULT_PAGE_SIZE]), DEFAULT_PAGE_SIZE));
    assert_eq!(page.cell_count(), 0);
}

#[test]
fn leaf_checksum_detects_corruption() {
    let cells = vec![inline_cell(&[1], b"v")];
    let mut page_data = LeafPage::build(PageId(3), 1, &cells, PageId(0), PageId(0), DEFAULT_PAGE_SIZE).unwrap();
    assert!(CommonPageHeader::validate_checksum(&page_data).is_ok());
    page_data[100] ^= 1;
    assert!(CommonPageHeader::validate_checksum(&page_data).is_err());
}

#[test]
fn leaf_delete_missing_key() {
    let cells = vec![inline_cell(&[1], b"a")];
    let page_data = LeafPage::build(PageId(3), 1, &cells, PageId(0), PageId(0), DEFAULT_PAGE_SIZE).unwrap();
    let mut page = LeafPage::parse(&page_data, DEFAULT_PAGE_SIZE).unwrap();
    assert!(page.delete_cell(&[2]).is_none());
    assert_eq!(page.cell_count(), 1);
}

#[test]
fn search_range_start_above_end_is_empty() {
    let cells: Vec<LeafCell> = (0u8..10).map(|i| inline_cell(&[i], &[i])).collect();
    let page_data = LeafPage::build(PageId(3), 1, &cells, PageId::null(), PageId::null(), DEFAULT_PAGE_SIZE).unwrap();
    let page = LeafPage::parse(&page_data, DEFAULT_PAGE_SIZE).unwrap();
    assert!(page.search_range(&[7], &[3]).is_empty());
    assert!(page.search_range(&[5], &[4]).is_empty());
    assert_eq!(page.search_range(&[4], &[4]).len(), 1);
}
