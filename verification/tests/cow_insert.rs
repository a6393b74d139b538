use phonograph::btree::insert::plan_insert;
use phonograph::btree::split::{propagate_split, PathNode};
use phonograph::btree::PromotedKey;
use phonograph::format::{check_identity, FileIdentityHeader};
use phonograph::overlay::{adjacency_index, overlay_ids};
use phonograph::page::interior::{InteriorCell, InteriorPage};
use phonograph::page::leaf::{LeafCell, LeafCellValue, LeafPage};
use phonograph::page::{PageId, PageType};
use phonograph::schema_records::{load_schema_records, PersistedNames, SchemaCounters};

fn icell(child: u64, key: &[u8]) -> InteriorCell {
    InteriorCell { left_child: PageId(child), key: key.to_vec() }
}

fn lcell(key: &[u8], value: &[u8]) -> LeafCell {
    LeafCell { key: key.to_vec(), value: LeafCellValue::Inline(value.to_vec()) }
}

fn keys(cells: &[LeafCell]) -> Vec<Vec<u8>> {
    cells.iter().map(|c| c.key.clone()).collect()
}

fn leaf_page(cells: &[LeafCell], next: u64, prev: u64) -> LeafPage {
    let data = LeafPage::build(PageId(5), 1, cells, PageId(next), PageId(prev), 4096).unwrap();
    LeafPage::parse(&data, 4096).unwrap()
}

#[test]
fn interior_parse_exposes_fields() {
    let cells = vec![icell(10, &[0, 1]), icell(11, &[0, 5]), icell(12, &[0, 10])];
    let data = InteriorPage::build(PageId(2), 1, &cells, PageId(13), 4096).unwrap();
    let p = InteriorPage::parse(&data, 4096).unwrap();
    assert_eq!(p.cell_count, 3);
    assert_eq!(p.right_child, PageId(13));
    assert_eq!(p.header.page_id, PageId(2));
    assert_eq!(p.header.page_type, PageType::Interior);
    assert_eq!(p.cells(), &cells[..]);
}

#[test]
fn leaf_parse_exposes_fields() {
    let p = leaf_page(&[lcell(b"a", b"1"), lcell(b"b", b"2")], 7, 3);
    assert_eq!(p.cell_count, 2);
    assert_eq!(p.next_leaf, PageId(7));
    assert_eq!(p.prev_leaf, PageId(3));
    assert_eq!(p.header.page_type, PageType::Leaf);
    assert_eq!(keys(p.cells()), vec![b"a".to_vec(), b"b".to_vec()]);
}

#[test]
fn check_identity_reports_each_failure() {
    let hdr = FileIdentityHeader::new(4096, 0).unwrap();
    let mut buf = [0u8; 32];
    hdr.serialize(&mut buf);
    assert!(check_identity(&buf, 4096).is_ok());
    assert_eq!(
        check_identity(&buf, 8192).unwrap_err().message,
        "page size mismatch: file has 4096, expected 8192"
    );
    assert_eq!(check_identity(&buf[..10], 4096).unwrap_err().message, "identity header too short: 10 bytes, need 32");
    let mut bad = buf;
    bad[0] = 0;
    assert!(check_identity(&bad, 4096).unwrap_err().message.contains("magic"));
    let mut newer = buf;
    newer[14] = 0;
    newer[15] = 2;
    assert!(check_identity(&newer, 4096).unwrap_err().message.contains("unsupported format version: 2.0"));
    let mut code = buf;
    code[22] = 0xEE;
    code[23] = 0;
    assert_eq!(check_identity(&code, 4096).unwrap_err().message, "invalid page_size_raw value: 238");
}

#[test]
fn propagate_split_into_parent_that_fits() {
    // Root with children 10 | "m" | 11; child 11 (index 1, the right child) split.
    let path = vec![PathNode { page_id: PageId(1), cells: vec![icell(10, b"m")], right_child: PageId(11), child_index: 1 }];
    let mut next = 100u64;
    let plan = propagate_split(
        &path,
        PromotedKey { key: b"t".to_vec(), left_child: PageId(20), right_child: PageId(21) },
        &mut next,
        4096,
    );
    assert_eq!(plan.new_root, PageId(100));
    assert_eq!(next, 101);
    assert_eq!(plan.freed, vec![PageId(1)]);
    assert_eq!(plan.pages.len(), 1);
    assert_eq!(plan.pages[0].cells, vec![icell(10, b"m"), icell(20, b"t")]);
    assert_eq!(plan.pages[0].right_child, PageId(21));
}

#[test]
fn propagate_split_of_the_root_leaf_makes_a_new_root() {
    let mut next = 7u64;
    let plan = propagate_split(
        &[],
        PromotedKey { key: b"k".to_vec(), left_child: PageId(3), right_child: PageId(4) },
        &mut next,
        4096,
    );
    assert_eq!(plan.new_root, PageId(7));
    assert_eq!(next, 8);
    assert!(plan.freed.is_empty());
    assert_eq!(plan.pages[0].cells, vec![icell(3, b"k")]);
    assert_eq!(plan.pages[0].right_child, PageId(4));
}

#[test]
fn propagate_split_splits_a_full_parent_and_grows_the_tree() {
    // A 64-byte page holds 38 header bytes and at most two 13-byte cells with
    // their pointers; a third cell overflows the parent, which splits.
    let path = vec![PathNode {
        page_id: PageId(1),
        cells: vec![icell(10, b"b"), icell(11, b"d")],
        right_child: PageId(12),
        child_index: 2,
    }];
    let mut next = 50u64;
    let plan = propagate_split(
        &path,
        PromotedKey { key: b"f".to_vec(), left_child: PageId(20), right_child: PageId(21) },
        &mut next,
        64,
    );
    // Cells b, d, f: left half [b], median d goes up, right half [f].
    assert_eq!(plan.pages.len(), 3);
    assert_eq!(plan.pages[0].page_id, PageId(50));
    assert_eq!(plan.pages[0].cells, vec![icell(10, b"b")]);
    assert_eq!(plan.pages[0].right_child, PageId(11));
    assert_eq!(plan.pages[1].page_id, PageId(51));
    assert_eq!(plan.pages[1].cells, vec![icell(20, b"f")]);
    assert_eq!(plan.pages[1].right_child, PageId(21));
    assert_eq!(plan.pages[2].page_id, PageId(52));
    assert_eq!(plan.pages[2].cells, vec![icell(50, b"d")]);
    assert_eq!(plan.pages[2].right_child, PageId(51));
    assert_eq!(plan.new_root, PageId(52));
    assert_eq!(next, 53);
    assert_eq!(plan.freed, vec![PageId(1)]);
}

#[test]
fn plan_insert_into_leaf_that_fits_copies_the_path() {
    let leaf = leaf_page(&[lcell(b"a", b"1"), lcell(b"c", b"3")], 0, 0);
    let path = vec![PathNode { page_id: PageId(1), cells: vec![icell(5, b"m")], right_child: PageId(6), child_index: 0 }];
    let mut next = 10u64;
    let plan = plan_insert(&path, PageId(5), leaf, lcell(b"b", b"2"), &mut next, 4096);
    assert_eq!(plan.leaves.len(), 1);
    assert_eq!(plan.leaves[0].page_id, PageId(10));
    assert_eq!(keys(&plan.leaves[0].cells), vec![b"a".to_vec(), b"b".to_vec(), b"c".to_vec()]);
    assert_eq!(plan.interiors.len(), 1);
    assert_eq!(plan.interiors[0].page_id, PageId(11));
    assert_eq!(plan.interiors[0].cells, vec![icell(10, b"m")]);
    assert_eq!(plan.interiors[0].right_child, PageId(6));
    assert_eq!(plan.new_root, PageId(11));
    assert_eq!(plan.freed, vec![PageId(5), PageId(1)]);
    assert!(plan.replaced.is_none());
    assert_eq!(next, 12);
}

#[test]
fn plan_insert_replaces_an_existing_key() {
    let leaf = leaf_page(&[lcell(b"a", b"1"), lcell(b"b", b"old")], 0, 0);
    let mut next = 3u64;
    let plan = plan_insert(&[], PageId(2), leaf, lcell(b"b", b"new"), &mut next, 4096);
    assert_eq!(plan.leaves[0].cells, vec![lcell(b"a", b"1"), lcell(b"b", b"new")]);
    assert_eq!(plan.replaced, Some(lcell(b"b", b"old")));
    assert_eq!(plan.new_root, PageId(3));
}

#[test]
fn plan_insert_splits_a_full_leaf() {
    // A 64-byte leaf page holds 44 header bytes and two 6-byte cells with
    // their pointers: the third cell makes it split.
    let leaf = leaf_page(&[], 0, 0);
    let mut next = 20u64;
    let plan1 = plan_insert(&[], PageId(2), leaf, lcell(b"a", b"x"), &mut next, 64);
    assert_eq!(plan1.leaves.len(), 1);
    let cells = vec![lcell(b"a", b"x"), lcell(b"b", b"y")];
    let data = LeafPage::build(PageId(2), 1, &cells, PageId(0), PageId(0), 64).unwrap();
    let full = LeafPage::parse(&data, 64).unwrap();
    let mut next = 30u64;
    let plan = plan_insert(&[], PageId(2), full, lcell(b"c", b"z"), &mut next, 64);
    assert_eq!(plan.leaves.len(), 2);
    assert_eq!(keys(&plan.leaves[0].cells), vec![b"a".to_vec()]);
    assert_eq!(keys(&plan.leaves[1].cells), vec![b"b".to_vec(), b"c".to_vec()]);
    assert_eq!(plan.leaves[0].page_id, PageId(30));
    assert_eq!(plan.leaves[0].next_leaf, PageId(31));
    assert_eq!(plan.leaves[1].prev_leaf, PageId(30));
    assert_eq!(plan.interiors.len(), 1);
    assert_eq!(plan.interiors[0].cells, vec![icell(30, b"b")]);
    assert_eq!(plan.interiors[0].right_child, PageId(31));
    assert_eq!(plan.new_root, PageId(32));
    assert_eq!(plan.freed, vec![PageId(2)]);
}

#[test]
fn schema_records_decode_counters_and_names() {
    let mut counters = SchemaCounters { next_node_id: 0, next_edge_id: 0, next_type_id: 0, next_property_key_id: 0 };
    let mut names = PersistedNames { constraints: Vec::new(), inference_rules: Vec::new() };
    let counter_entries = vec![
        (vec![3u8, 1], 42u64.to_le_bytes().to_vec()),
        (vec![3u8, 2], 7u64.to_le_bytes().to_vec()),
        (vec![3u8, 3], 0x1_0000_0005u64.to_le_bytes().to_vec()),
        (vec![3u8, 4], 9u64.to_le_bytes().to_vec()),
        (vec![3u8, 9], 1u64.to_le_bytes().to_vec()),
        (vec![3u8, 1], vec![1, 2, 3]),
    ];
    let ext = |kind: u8, name: &[u8]| {
        let mut k = vec![5u8, kind];
        k.extend_from_slice(&(name.len() as u16).to_le_bytes());
        k.extend_from_slice(name);
        (k, Vec::new())
    };
    let extension_entries = vec![
        ext(1, b"cardinality"),
        ext(2, b"transitive"),
        ext(3, b"ignored"),
        ext(1, &[0xFF, 0xFE]),
        (vec![5u8, 1, 9, 0, b'x'], Vec::new()),
    ];
    load_schema_records(&counter_entries, &extension_entries, &mut counters, &mut names);
    assert_eq!(counters.next_node_id, 42);
    assert_eq!(counters.next_edge_id, 7);
    assert_eq!(counters.next_type_id, 5);
    assert_eq!(counters.next_property_key_id, 9);
    assert_eq!(names.constraints, vec!["cardinality".to_string()]);
    assert_eq!(names.inference_rules, vec!["transitive".to_string()]);
}

#[test]
fn overlay_ids_applies_deletes_updates_and_inserts() {
    let base = vec![(1u64, "a"), (2, "b"), (3, "c")];
    let m = overlay_ids(base, &[2, 9], vec![(3, "c2"), (3, "c3")], vec![(4, "d"), (2, "b2")]);
    assert_eq!(m.len(), 4);
    assert_eq!(m[&1], "a");
    assert_eq!(m[&2], "b2");
    assert_eq!(m[&3], "c3");
    assert_eq!(m[&4], "d");
}

#[test]
fn adjacency_index_lists_edge_ids_per_endpoint() {
    let edges = vec![(1u64, 10u64, 20u64), (2, 10, 30), (5, 20, 10), (7, 10, 20)];
    let (outgoing, incoming) = adjacency_index(&edges);
    assert_eq!(outgoing.len(), 2);
    assert_eq!(outgoing[&10], vec![1, 2, 7]);
    assert_eq!(outgoing[&20], vec![5]);
    assert_eq!(incoming.len(), 3);
    assert_eq!(incoming[&20], vec![1, 7]);
    assert_eq!(incoming[&30], vec![2]);
    assert_eq!(incoming[&10], vec![5]);
    assert!(!outgoing.contains_key(&30));
}

#[test]
fn adjacency_index_of_no_edges_is_empty() {
    let (outgoing, incoming) = adjacency_index(&[]);
    assert!(outgoing.is_empty());
    assert!(incoming.is_empty());
}
