use phonograph::inference::InferredEntity;
use phonograph::page::leaf::{LeafCell, LeafCellValue, LeafPage};
use phonograph::page::interior::InteriorPage;
use phonograph::page::PageId;
use phonograph::provenance::ProvenanceRegistry;
use phonograph::types::NodeId;

fn lcell(key: &[u8]) -> LeafCell {
    LeafCell { key: key.to_vec(), value: LeafCellValue::Inline(vec![1]) }
}

#[test]
fn leaf_is_sorted_checks_strict_order() {
    let data = LeafPage::build(PageId(2), 1, &[lcell(b"a"), lcell(b"b")], PageId(0), PageId(0), 4096).unwrap();
    assert!(LeafPage::parse(&data, 4096).unwrap().is_sorted());
    let data = LeafPage::build(PageId(2), 1, &[lcell(b"b"), lcell(b"a")], PageId(0), PageId(0), 4096).unwrap();
    assert!(!LeafPage::parse(&data, 4096).unwrap().is_sorted());
    let data = LeafPage::build(PageId(2), 1, &[lcell(b"a"), lcell(b"a")], PageId(0), PageId(0), 4096).unwrap();
    assert!(!LeafPage::parse(&data, 4096).unwrap().is_sorted());
}

#[test]
fn insert_cell_with_equal_neighbours_goes_to_sorted_position() {
    let data = LeafPage::build(PageId(2), 1, &[lcell(b"a"), lcell(b"c"), lcell(b"c")], PageId(0), PageId(0), 4096)
        .unwrap();
    let mut p = LeafPage::parse(&data, 4096).unwrap();
    assert!(p.insert_cell(lcell(b"b"), 4096));
    let keys: Vec<Vec<u8>> = p.cells().iter().map(|c| c.key.clone()).collect();
    assert_eq!(keys, vec![b"a".to_vec(), b"b".to_vec(), b"c".to_vec(), b"c".to_vec()]);
    assert_eq!(p.cell_count, 4);
}

#[test]
fn parse_errors_name_the_size_and_type() {
    let data = LeafPage::build(PageId(2), 1, &[lcell(b"a")], PageId(0), PageId(0), 4096).unwrap();
    assert_eq!(LeafPage::parse(&data[..10], 4096).unwrap_err().message, "leaf page too small: 10 bytes");
    assert_eq!(InteriorPage::parse(&data, 4096).unwrap_err().message, "expected Interior page, got Leaf");
    assert_eq!(InteriorPage::parse(&data[..20], 4096).unwrap_err().message, "interior page too small: 20 bytes");
}

#[test]
fn record_and_reload_keep_rule_lists_in_step_with_records() {
    let mut reg = ProvenanceRegistry::new();
    let a = InferredEntity::Node(NodeId(1));
    let b = InferredEntity::Node(NodeId(2));
    reg.record(a, "r1", 1);
    reg.record(b, "r1", 1);
    reg.record(a, "r2", 2);
    assert_eq!(reg.entities_by_rule("r1"), &[b]);
    assert_eq!(reg.entities_by_rule("r2"), &[a]);
    let entries = reg.to_entries();
    let mut reloaded = ProvenanceRegistry::new();
    reloaded.load_from_entries(entries);
    assert_eq!(reloaded.entities_by_rule("r1"), &[b]);
    assert_eq!(reloaded.entities_by_rule("r2"), &[a]);
    assert_eq!(reloaded.get(&a).unwrap().rule_name, "r2");
}
