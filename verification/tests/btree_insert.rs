use phonograph::backend::memory::MemoryBackend;
use phonograph::btree::cursor::BTreeCursor;
use phonograph::btree::tree::btree_insert;
use phonograph::btree::BTreeConfig;
use phonograph::buffer_pool::{BufferPool, MIN_BUFFER_POOL_FRAMES};
use phonograph::page::leaf::LeafCellValue;
use phonograph::page::PageId;

const PS: usize = 4096;

fn scan(root: PageId, pool: &mut BufferPool, backend: &mut MemoryBackend) -> Vec<(Vec<u8>, LeafCellValue)> {
    let config = BTreeConfig { page_size: PS };
    let mut cursor = BTreeCursor::new(root, b"", None, pool, backend, &config).unwrap();
    let mut out = Vec::new();
    while let Some(kv) = cursor.next(pool, backend, &config).unwrap() {
        out.push(kv);
    }
    out
}

#[test]
fn btree_insert_into_empty_tree_makes_a_leaf_root() {
    let mut backend = MemoryBackend::new();
    let mut pool = BufferPool::new(MIN_BUFFER_POOL_FRAMES, PS);
    let config = BTreeConfig { page_size: PS };
    let mut next = 3u64;
    let o = btree_insert(&mut pool, &mut backend, &mut next, PageId(0), b"k", LeafCellValue::Inline(b"v".to_vec()), 1, &config)
        .unwrap();
    assert_eq!(o.new_root, PageId(3));
    assert_eq!(o.new_pages, vec![PageId(3)]);
    assert!(o.freed_pages.is_empty());
    assert_eq!(next, 4);
    assert_eq!(scan(o.new_root, &mut pool, &mut backend), vec![(b"k".to_vec(), LeafCellValue::Inline(b"v".to_vec()))]);
}

#[test]
fn btree_insert_keeps_old_versions_and_splits() {
    let mut backend = MemoryBackend::new();
    let mut pool = BufferPool::new(MIN_BUFFER_POOL_FRAMES, PS);
    let config = BTreeConfig { page_size: PS };
    let mut next = 1u64;
    let mut root = PageId(0);
    let mut roots = Vec::new();
    // 300 keys of 4 bytes with 40-byte values overflow a 4096-byte leaf.
    for i in 0..300u32 {
        let key = (i * 7 % 300).to_be_bytes().to_vec();
        let o = btree_insert(&mut pool, &mut backend, &mut next, root, &key, LeafCellValue::Inline(vec![i as u8; 40]), 2, &config)
            .unwrap();
        for p in &o.new_pages {
            assert!(p.0 >= 1 && p.0 < next);
        }
        root = o.new_root;
        roots.push(root);
    }
    let all = scan(root, &mut pool, &mut backend);
    assert_eq!(all.len(), 300);
    for (i, (k, _)) in all.iter().enumerate() {
        assert_eq!(k, &(i as u32).to_be_bytes().to_vec());
    }
    // The tree after the first ten inserts is still there, unchanged.
    let early = scan(roots[9], &mut pool, &mut backend);
    assert_eq!(early.len(), 10);
    // Replacing a key keeps the count and returns the old cell.
    let o = btree_insert(&mut pool, &mut backend, &mut next, root, &5u32.to_be_bytes(), LeafCellValue::Inline(b"new".to_vec()), 3, &config)
        .unwrap();
    assert!(o.plan.replaced.is_some());
    let after = scan(o.new_root, &mut pool, &mut backend);
    assert_eq!(after.len(), 300);
    assert_eq!(after[5].1, LeafCellValue::Inline(b"new".to_vec()));
}

#[test]
fn btree_insert_splits_interior_pages_and_keeps_every_key() {
    let mut backend = MemoryBackend::new();
    let mut pool = BufferPool::new(MIN_BUFFER_POOL_FRAMES, PS);
    let config = BTreeConfig { page_size: PS };
    let mut next = 1u64;
    let mut root = PageId(0);
    let mut most_pages = 0usize;
    // Keys of 900 bytes: a few per page, so that splits reach interior pages.
    let key_of = |i: u32| {
        let mut k = (i * 37 % 200).to_be_bytes().to_vec();
        k.resize(900, 7);
        k
    };
    for i in 0..200u32 {
        let o = btree_insert(&mut pool, &mut backend, &mut next, root, &key_of(i), LeafCellValue::Inline(vec![i as u8; 8]), 1, &config)
            .unwrap();
        most_pages = most_pages.max(o.new_pages.len());
        assert!(o.new_pages.contains(&o.new_root));
        root = o.new_root;
    }
    assert!(most_pages >= 5);
    let all = scan(root, &mut pool, &mut backend);
    assert_eq!(all.len(), 200);
    for (j, (k, v)) in all.iter().enumerate() {
        assert_eq!(&k[..4], &(j as u32).to_be_bytes()[..]);
        let i = (0..200u32).find(|i| i * 37 % 200 == j as u32).unwrap();
        assert_eq!(v, &LeafCellValue::Inline(vec![i as u8; 8]));
    }
}
