use phonograph::page::{page_type_from_byte, PageId, PageType};

#[test]
fn page_id_null() {
    assert!(PageId::null().is_null());
    assert!(PageId(0).is_null());
    assert!(!PageId(1).is_null());
    assert!(!PageId(42).is_null());
}

#[test]
fn page_id_display() {
    assert_eq!(PageId(5).to_string(), "PageId(5)");
}

#[test]
fn page_id_ordering() {
    assert!(PageId(1) < PageId(2));
    assert!(PageId(0) < PageId(u64::MAX));
}

#[test]
fn page_type_from_u8() {
    assert_eq!(PageType::try_from(0x01), Ok(PageType::Interior));
    assert_eq!(PageType::try_from(0x02), Ok(PageType::Leaf));
    assert_eq!(PageType::try_from(0x03), Ok(PageType::Overflow));
    assert_eq!(PageType::try_from(0x04), Ok(PageType::Free));
    assert_eq!(PageType::try_from(0x00), Err(0x00));
    assert_eq!(PageType::try_from(0x05), Err(0x05));
    assert_eq!(PageType::try_from(0xFF), Err(0xFF));
}

#[test]
fn page_type_byte_round_trip() {
    for t in [PageType::Interior, PageType::Leaf, PageType::Overflow, PageType::Free] {
        assert_eq!(page_type_from_byte(t.as_u8()), Some(t));
    }
    assert_eq!(page_type_from_byte(9), None);
}
