use phonograph::backend::memory::MemoryBackend;
use phonograph::backend::WriteAt;
use phonograph::buffer_pool::{BufferPool, MIN_BUFFER_POOL_FRAMES};
use phonograph::page::header::CommonPageHeader;
use phonograph::page::{PageId, PageType, DEFAULT_PAGE_SIZE};

/// Writes a valid page to the backend at the given page_id offset.
fn write_test_page(backend: &mut MemoryBackend, page_id: PageId, marker: u8) {
    let mut page = vec![0u8; DEFAULT_PAGE_SIZE];
    let header = CommonPageHeader { page_id, page_type: PageType::Leaf, flags: 0x01, txn_id: 1, checksum: 0 };
    header.serialize(&mut page);
    page[50] = marker;
    let checksum = CommonPageHeader::compute_checksum(&page);
    page[20..24].copy_from_slice(&checksum.to_le_bytes());

    let offset = page_id.0 * DEFAULT_PAGE_SIZE as u64;
    let current_len = backend.as_bytes().len();
    let needed = offset as usize + DEFAULT_PAGE_SIZE;
    if needed > current_len {
        backend.set_len(needed as u64).unwrap();
    }
    backend.write_at(offset, &page).unwrap();
}

#[test]
fn fetch_page_cache_miss_reads_from_backend() {
    let mut backend = MemoryBackend::new();
    write_test_page(&mut backend, PageId(2), 0xAB);

    let mut pool = BufferPool::new(MIN_BUFFER_POOL_FRAMES, DEFAULT_PAGE_SIZE);
    let idx = pool.fetch_page(PageId(2), &mut backend).unwrap();
    assert_eq!(pool.get_page_data(idx)[50], 0xAB);
    pool.unpin_page(idx, false);
}

#[test]
fn fetch_page_cache_hit() {
    let mut backend = MemoryBackend::new();
    write_test_page(&mut backend, PageId(2), 0xAB);

    let mut pool = BufferPool::new(MIN_BUFFER_POOL_FRAMES, DEFAULT_PAGE_SIZE);
    let idx1 = pool.fetch_page(PageId(2), &mut backend).unwrap();
    pool.unpin_page(idx1, false);

    let idx2 = pool.fetch_page(PageId(2), &mut backend).unwrap();
    assert_eq!(idx1, idx2);
    pool.unpin_page(idx2, false);
}

#[test]
fn unpin_decrements_pin_count() {
    let mut backend = MemoryBackend::new();
    write_test_page(&mut backend, PageId(2), 0);

    let mut pool = BufferPool::new(MIN_BUFFER_POOL_FRAMES, DEFAULT_PAGE_SIZE);
    let idx = pool.fetch_page(PageId(2), &mut backend).unwrap();
    let idx2 = pool.fetch_page(PageId(2), &mut backend).unwrap();
    assert_eq!(idx, idx2);
    assert_eq!(pool.pin_count(idx), 2);
    pool.unpin_page(idx, false);
    assert_eq!(pool.pin_count(idx), 1);
    pool.unpin_page(idx, false);
    assert_eq!(pool.pin_count(idx), 0);
}

#[test]
fn eviction_respects_reference_bit() {
    let mut backend = MemoryBackend::new();
    for i in 2..2 + MIN_BUFFER_POOL_FRAMES as u64 + 1 {
        write_test_page(&mut backend, PageId(i), i as u8);
    }

    let mut pool = BufferPool::new(MIN_BUFFER_POOL_FRAMES, DEFAULT_PAGE_SIZE);

    let mut indices = Vec::new();
    for i in 2..2 + MIN_BUFFER_POOL_FRAMES as u64 {
        let idx = pool.fetch_page(PageId(i), &mut backend).unwrap();
        indices.push(idx);
        pool.unpin_page(idx, false);
    }

    pool.clear_reference_bit(indices[0]);

    let extra_id = PageId(2 + MIN_BUFFER_POOL_FRAMES as u64);
    let idx = pool.fetch_page(extra_id, &mut backend).unwrap();
    assert_eq!(idx, indices[0]);
    pool.unpin_page(idx, false);
}

#[test]
fn dirty_page_flushed_on_eviction() {
    let mut backend = MemoryBackend::new();
    for i in 2..2 + MIN_BUFFER_POOL_FRAMES as u64 + 1 {
        write_test_page(&mut backend, PageId(i), i as u8);
    }

    let mut pool = BufferPool::new(MIN_BUFFER_POOL_FRAMES, DEFAULT_PAGE_SIZE);

    let idx = pool.fetch_page(PageId(2), &mut backend).unwrap();
    pool.get_page_data_mut(idx)[50] = 0xFF;
    let checksum = CommonPageHeader::compute_checksum(pool.get_page_data(idx));
    pool.get_page_data_mut(idx)[20..24].copy_from_slice(&checksum.to_le_bytes());
    pool.unpin_page(idx, true);
    pool.clear_reference_bit(idx);

    for i in 3..2 + MIN_BUFFER_POOL_FRAMES as u64 {
        let fidx = pool.fetch_page(PageId(i), &mut backend).unwrap();
        pool.unpin_page(fidx, false);
    }

    let extra_id = PageId(2 + MIN_BUFFER_POOL_FRAMES as u64);
    pool.fetch_page(extra_id, &mut backend).unwrap();

    let data = backend.as_bytes();
    let offset = 2 * DEFAULT_PAGE_SIZE;
    assert_eq!(data[offset + 50], 0xFF);
}

#[test]
fn pin_count_prevents_eviction() {
    let mut backend = MemoryBackend::new();
    for i in 2..2 + MIN_BUFFER_POOL_FRAMES as u64 + 1 {
        write_test_page(&mut backend, PageId(i), i as u8);
    }

    let mut pool = BufferPool::new(MIN_BUFFER_POOL_FRAMES, DEFAULT_PAGE_SIZE);

    for i in 2..2 + MIN_BUFFER_POOL_FRAMES as u64 {
        pool.fetch_page(PageId(i), &mut backend).unwrap();
    }

    let result = pool.fetch_page(PageId(2 + MIN_BUFFER_POOL_FRAMES as u64), &mut backend);
    assert!(result.is_err());
    assert!(result.unwrap_err().message.contains("exhausted"));
}

#[test]
fn new_page_allocates_dirty_frame() {
    let mut backend = MemoryBackend::new();
    backend.set_len(DEFAULT_PAGE_SIZE as u64 * 100).unwrap();

    let mut pool = BufferPool::new(MIN_BUFFER_POOL_FRAMES, DEFAULT_PAGE_SIZE);
    let idx = pool.new_page(PageId(50), &mut backend).unwrap();

    assert!(pool.is_dirty(idx));
    assert_eq!(pool.pin_count(idx), 1);
    assert!(pool.get_page_data(idx).iter().all(|&b| b == 0));

    pool.unpin_page(idx, true);
}

#[test]
fn flush_all_dirty() {
    let mut backend = MemoryBackend::new();
    write_test_page(&mut backend, PageId(2), 0);
    write_test_page(&mut backend, PageId(3), 0);

    let mut pool = BufferPool::new(MIN_BUFFER_POOL_FRAMES, DEFAULT_PAGE_SIZE);

    let idx1 = pool.fetch_page(PageId(2), &mut backend).unwrap();
    pool.get_page_data_mut(idx1)[50] = 0xAA;
    let cs1 = CommonPageHeader::compute_checksum(pool.get_page_data(idx1));
    pool.get_page_data_mut(idx1)[20..24].copy_from_slice(&cs1.to_le_bytes());
    pool.unpin_page(idx1, true);

    let idx2 = pool.fetch_page(PageId(3), &mut backend).unwrap();
    pool.get_page_data_mut(idx2)[50] = 0xBB;
    let cs2 = CommonPageHeader::compute_checksum(pool.get_page_data(idx2));
    pool.get_page_data_mut(idx2)[20..24].copy_from_slice(&cs2.to_le_bytes());
    pool.unpin_page(idx2, true);

    pool.flush_all_dirty(&mut backend).unwrap();

    let data = backend.as_bytes();
    assert_eq!(data[2 * DEFAULT_PAGE_SIZE + 50], 0xAA);
    assert_eq!(data[3 * DEFAULT_PAGE_SIZE + 50], 0xBB);

    assert!(!pool.is_dirty(idx1));
    assert!(!pool.is_dirty(idx2));
}

#[test]
fn clock_algorithm_second_chance() {
    let mut backend = MemoryBackend::new();
    for i in 2..2 + MIN_BUFFER_POOL_FRAMES as u64 + 2 {
        write_test_page(&mut backend, PageId(i), i as u8);
    }

    let mut pool = BufferPool::new(MIN_BUFFER_POOL_FRAMES, DEFAULT_PAGE_SIZE);

    for i in 2..2 + MIN_BUFFER_POOL_FRAMES as u64 {
        let idx = pool.fetch_page(PageId(i), &mut backend).unwrap();
        pool.unpin_page(idx, false);
    }

    let idx = pool.fetch_page(PageId(2 + MIN_BUFFER_POOL_FRAMES as u64), &mut backend).unwrap();
    pool.unpin_page(idx, false);

    assert!(pool.page_table_get(PageId(2 + MIN_BUFFER_POOL_FRAMES as u64)).is_some());
}

// --- further cases ---

#[test]
fn buffer_pool_reports_its_shape() {
    let pool = BufferPool::new(MIN_BUFFER_POOL_FRAMES, 512);
    assert_eq!(pool.capacity(), MIN_BUFFER_POOL_FRAMES);
    assert_eq!(pool.page_size(), 512);
    assert!(pool.page_table_get(PageId(1)).is_none());
}

#[test]
fn fetch_page_rejects_bad_checksum() {
    let mut backend = MemoryBackend::new();
    write_test_page(&mut backend, PageId(2), 0x11);
    // Corrupt a byte after the checksum was computed.
    backend.write_at(2 * DEFAULT_PAGE_SIZE as u64 + 60, &[0x77]).unwrap();

    let mut pool = BufferPool::new(MIN_BUFFER_POOL_FRAMES, DEFAULT_PAGE_SIZE);
    assert!(pool.fetch_page(PageId(2), &mut backend).is_err());
    assert!(pool.page_table_get(PageId(2)).is_none());
}

#[test]
fn fetch_page_read_past_end_fails() {
    let mut backend = MemoryBackend::new();
    let mut pool = BufferPool::new(MIN_BUFFER_POOL_FRAMES, DEFAULT_PAGE_SIZE);
    assert!(pool.fetch_page(PageId(5), &mut backend).is_err());
}

#[test]
fn fetch_hit_marks_referenced_and_pins() {
    let mut backend = MemoryBackend::new();
    write_test_page(&mut backend, PageId(4), 0x44);
    let mut pool = BufferPool::new(MIN_BUFFER_POOL_FRAMES, DEFAULT_PAGE_SIZE);
    let idx = pool.fetch_page(PageId(4), &mut backend).unwrap();
    assert!(pool.reference_bit(idx));
    pool.clear_reference_bit(idx);
    assert!(!pool.reference_bit(idx));
    let again = pool.fetch_page(PageId(4), &mut backend).unwrap();
    assert_eq!(again, idx);
    assert!(pool.reference_bit(idx));
    assert_eq!(pool.pin_count(idx), 2);
    assert!(!pool.is_dirty(idx));
}

#[test]
fn flush_page_writes_only_dirty_frames() {
    let mut backend = MemoryBackend::new();
    write_test_page(&mut backend, PageId(2), 0x01);
    let mut pool = BufferPool::new(MIN_BUFFER_POOL_FRAMES, DEFAULT_PAGE_SIZE);
    let idx = pool.fetch_page(PageId(2), &mut backend).unwrap();
    pool.get_page_data_mut(idx)[50] = 0x99;
    // Not marked dirty: flushing leaves the medium as it was.
    pool.flush_page(idx, &mut backend).unwrap();
    assert_eq!(backend.as_bytes()[2 * DEFAULT_PAGE_SIZE + 50], 0x01);
    pool.unpin_page(idx, true);
    pool.flush_page(idx, &mut backend).unwrap();
    assert_eq!(backend.as_bytes()[2 * DEFAULT_PAGE_SIZE + 50], 0x99);
    assert!(!pool.is_dirty(idx));
}

#[test]
fn new_page_is_cached_under_its_id() {
    let mut backend = MemoryBackend::new();
    let mut pool = BufferPool::new(MIN_BUFFER_POOL_FRAMES, DEFAULT_PAGE_SIZE);
    let idx = pool.new_page(PageId(7), &mut backend).unwrap();
    assert_eq!(pool.page_table_get(PageId(7)), Some(&idx));
    assert!(pool.reference_bit(idx));
    // The first victim of a fresh pool is frame 0.
    assert_eq!(idx, 0);
    let second = pool.new_page(PageId(8), &mut backend).unwrap();
    assert_eq!(second, 1);
}

#[test]
fn new_page_fails_when_all_frames_pinned() {
    let mut backend = MemoryBackend::new();
    let mut pool = BufferPool::new(MIN_BUFFER_POOL_FRAMES, DEFAULT_PAGE_SIZE);
    for i in 0..MIN_BUFFER_POOL_FRAMES as u64 {
        pool.new_page(PageId(10 + i), &mut backend).unwrap();
    }
    let err = pool.new_page(PageId(1000), &mut backend).unwrap_err();
    assert_eq!(err.message, "buffer pool exhausted: all frames are pinned");
}
