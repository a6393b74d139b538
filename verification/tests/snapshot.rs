use phonograph::format::Superblock;
use phonograph::page::PageId;
use phonograph::snapshot::Snapshot;

fn test_superblock() -> Superblock {
    Superblock {
        transaction_id: 5,
        total_pages: 100,
        feature_flags: 0,
        root_node_store: PageId(10),
        root_edge_store: PageId(11),
        root_outgoing_adj: PageId(12),
        root_incoming_adj: PageId(13),
        root_type_index: PageId(14),
        root_schema_store: PageId(15),
        root_id_freelist: PageId(16),
        root_page_freelist: PageId(17),
        checksum: 0,
    }
}

#[test]
fn from_superblock() {
    let sb = test_superblock();
    let snap = Snapshot::from(&sb);
    assert_eq!(snap.transaction_id, 5);
    assert_eq!(snap.total_pages, 100);
    assert_eq!(snap.roots.node_store, PageId(10));
    assert_eq!(snap.roots.edge_store, PageId(11));
    assert_eq!(snap.roots.outgoing_adj, PageId(12));
    assert_eq!(snap.roots.incoming_adj, PageId(13));
    assert_eq!(snap.roots.type_index, PageId(14));
    assert_eq!(snap.roots.schema_store, PageId(15));
    assert_eq!(snap.roots.id_freelist, PageId(16));
    assert_eq!(snap.roots.page_freelist, PageId(17));
}

#[test]
fn root_for_tree_mapping() {
    let snap = Snapshot::from(&test_superblock());
    assert_eq!(snap.root_for_tree(0), Some(PageId(10)));
    assert_eq!(snap.root_for_tree(5), Some(PageId(15)));
    assert_eq!(snap.root_for_tree(7), Some(PageId(17)));
}

#[test]
fn root_for_tree_out_of_range() {
    let snap = Snapshot::from(&test_superblock());
    assert_eq!(snap.root_for_tree(8), None);
    assert_eq!(snap.root_for_tree(usize::MAX), None);
}

#[test]
fn snapshot_roots_follow_catalog_order() {
    let sb = test_superblock();
    let snap = Snapshot::from(&sb);
    let ids = sb.root_page_ids();
    for i in 0..8 {
        assert_eq!(snap.root_for_tree(i), Some(ids[i]));
    }
}
