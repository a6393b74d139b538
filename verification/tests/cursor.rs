use phonograph::backend::memory::MemoryBackend;
use phonograph::backend::WriteAt;
use phonograph::btree::cursor::BTreeCursor;
use phonograph::btree::BTreeConfig;
use phonograph::buffer_pool::{BufferPool, MIN_BUFFER_POOL_FRAMES};
use phonograph::page::interior::{InteriorCell, InteriorPage};
use phonograph::page::leaf::{LeafCell, LeafCellValue, LeafPage};
use phonograph::page::{PageId, DEFAULT_PAGE_SIZE};

const PS: usize = DEFAULT_PAGE_SIZE;

fn put_page(backend: &mut MemoryBackend, id: u64, image: &[u8]) {
    let offset = id * PS as u64;
    let needed = offset + PS as u64;
    if needed > backend.as_bytes().len() as u64 {
        backend.set_len(needed).unwrap();
    }
    backend.write_at(offset, image).unwrap();
}

fn leaf(backend: &mut MemoryBackend, id: u64, keys: &[&[u8]]) {
    let cells: Vec<LeafCell> = keys
        .iter()
        .map(|k| LeafCell { key: k.to_vec(), value: LeafCellValue::Inline(vec![k[0], 0xEE]) })
        .collect();
    let image = LeafPage::build(PageId(id), 1, &cells, PageId(0), PageId(0), PS).unwrap();
    put_page(backend, id, &image);
}

fn interior(backend: &mut MemoryBackend, id: u64, cells: &[(u64, &[u8])], right: u64) {
    let cells: Vec<InteriorCell> =
        cells.iter().map(|(c, k)| InteriorCell { left_child: PageId(*c), key: k.to_vec() }).collect();
    let image = InteriorPage::build(PageId(id), 1, &cells, PageId(right), PS).unwrap();
    put_page(backend, id, &image);
}

/// Root 3 with leaves 4 (a, b), 5 (d, e) and 6 (g, h), split at d and g.
fn two_level_tree() -> MemoryBackend {
    let mut backend = MemoryBackend::new();
    leaf(&mut backend, 4, &[b"a", b"b"]);
    leaf(&mut backend, 5, &[b"d", b"e"]);
    leaf(&mut backend, 6, &[b"g", b"h"]);
    interior(&mut backend, 3, &[(4, b"d"), (5, b"g")], 6);
    backend
}

fn collect(cursor: &mut BTreeCursor, pool: &mut BufferPool, backend: &mut MemoryBackend) -> Vec<Vec<u8>> {
    let config = BTreeConfig { page_size: PS };
    let mut keys = Vec::new();
    while let Some((k, v)) = cursor.next(pool, backend, &config).unwrap() {
        assert_eq!(v, LeafCellValue::Inline(vec![k[0], 0xEE]));
        keys.push(k);
    }
    keys
}

#[test]
fn cursor_scans_whole_tree_in_order() {
    let mut backend = two_level_tree();
    let mut pool = BufferPool::new(MIN_BUFFER_POOL_FRAMES, PS);
    let config = BTreeConfig { page_size: PS };
    let mut cursor = BTreeCursor::new(PageId(3), b"", None, &mut pool, &mut backend, &config).unwrap();
    let keys = collect(&mut cursor, &mut pool, &mut backend);
    let expected: Vec<Vec<u8>> = [b"a", b"b", b"d", b"e", b"g", b"h"].iter().map(|k| k.to_vec()).collect();
    assert_eq!(keys, expected);
    // A used-up cursor keeps answering `None`.
    assert!(cursor.next(&mut pool, &mut backend, &config).unwrap().is_none());
}

#[test]
fn cursor_starts_at_first_key_at_or_above_start() {
    let mut backend = two_level_tree();
    let mut pool = BufferPool::new(MIN_BUFFER_POOL_FRAMES, PS);
    let config = BTreeConfig { page_size: PS };
    let mut cursor = BTreeCursor::new(PageId(3), b"c", None, &mut pool, &mut backend, &config).unwrap();
    let keys = collect(&mut cursor, &mut pool, &mut backend);
    let expected: Vec<Vec<u8>> = [b"d", b"e", b"g", b"h"].iter().map(|k| k.to_vec()).collect();
    assert_eq!(keys, expected);
}

#[test]
fn cursor_stops_before_end_key() {
    let mut backend = two_level_tree();
    let mut pool = BufferPool::new(MIN_BUFFER_POOL_FRAMES, PS);
    let config = BTreeConfig { page_size: PS };
    let mut cursor = BTreeCursor::new(PageId(3), b"b", Some(b"g"), &mut pool, &mut backend, &config).unwrap();
    let keys = collect(&mut cursor, &mut pool, &mut backend);
    let expected: Vec<Vec<u8>> = [b"b", b"d", b"e"].iter().map(|k| k.to_vec()).collect();
    assert_eq!(keys, expected);
}

#[test]
fn cursor_on_empty_tree_is_exhausted() {
    let mut backend = MemoryBackend::new();
    let mut pool = BufferPool::new(MIN_BUFFER_POOL_FRAMES, PS);
    let config = BTreeConfig { page_size: PS };
    let mut cursor = BTreeCursor::new(PageId(0), b"a", None, &mut pool, &mut backend, &config).unwrap();
    assert!(cursor.next(&mut pool, &mut backend, &config).unwrap().is_none());
}

#[test]
fn cursor_over_single_leaf_root() {
    let mut backend = MemoryBackend::new();
    leaf(&mut backend, 7, &[b"k1", b"k2", b"k3"]);
    let mut pool = BufferPool::new(MIN_BUFFER_POOL_FRAMES, PS);
    let config = BTreeConfig { page_size: PS };
    let mut cursor = BTreeCursor::new(PageId(7), b"k2", None, &mut pool, &mut backend, &config).unwrap();
    let keys = collect(&mut cursor, &mut pool, &mut backend);
    assert_eq!(keys, vec![b"k2".to_vec(), b"k3".to_vec()]);
}

#[test]
fn cursor_passes_over_empty_leaf() {
    let mut backend = MemoryBackend::new();
    leaf(&mut backend, 4, &[b"a"]);
    leaf(&mut backend, 5, &[]);
    leaf(&mut backend, 6, &[b"z"]);
    interior(&mut backend, 3, &[(4, b"m"), (5, b"t")], 6);
    let mut pool = BufferPool::new(MIN_BUFFER_POOL_FRAMES, PS);
    let config = BTreeConfig { page_size: PS };
    let mut cursor = BTreeCursor::new(PageId(3), b"", None, &mut pool, &mut backend, &config).unwrap();
    // The empty middle leaf is passed over: every key of the range comes out.
    let keys = collect(&mut cursor, &mut pool, &mut backend);
    assert_eq!(keys, vec![b"a".to_vec(), b"z".to_vec()]);
}

#[test]
fn cursor_rejects_page_of_other_type() {
    let mut backend = MemoryBackend::new();
    leaf(&mut backend, 4, &[b"a"]);
    let mut pool = BufferPool::new(MIN_BUFFER_POOL_FRAMES, PS);
    let config = BTreeConfig { page_size: PS };
    // Page 9 lies past the end of the medium: reading it fails.
    assert!(BTreeCursor::new(PageId(9), b"a", None, &mut pool, &mut backend, &config).is_err());
    // An unknown type byte is refused with its value.
    let mut junk = vec![0u8; PS];
    junk[8] = 0x0f;
    let checksum = phonograph::page::header::CommonPageHeader::compute_checksum(&junk);
    junk[20..24].copy_from_slice(&checksum.to_le_bytes());
    put_page(&mut backend, 8, &junk);
    let err = BTreeCursor::new(PageId(8), b"a", None, &mut pool, &mut backend, &config).err().unwrap();
    assert_eq!(err.message, "unknown page type: 0x0f");
}

#[test]
fn cursor_three_levels() {
    let mut backend = MemoryBackend::new();
    leaf(&mut backend, 10, &[b"a"]);
    leaf(&mut backend, 11, &[b"c"]);
    leaf(&mut backend, 12, &[b"e"]);
    leaf(&mut backend, 13, &[b"g"]);
    interior(&mut backend, 20, &[(10, b"b")], 11);
    interior(&mut backend, 21, &[(12, b"f")], 13);
    interior(&mut backend, 30, &[(20, b"d")], 21);
    let mut pool = BufferPool::new(MIN_BUFFER_POOL_FRAMES, PS);
    let config = BTreeConfig { page_size: PS };
    let mut cursor = BTreeCursor::new(PageId(30), b"b", None, &mut pool, &mut backend, &config).unwrap();
    let keys = collect(&mut cursor, &mut pool, &mut backend);
    assert_eq!(keys, vec![b"c".to_vec(), b"e".to_vec(), b"g".to_vec()]);
}
