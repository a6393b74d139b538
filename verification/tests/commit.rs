use phonograph::backend::memory::MemoryBackend;
use phonograph::backend::{ReadAt, WriteAt};
use phonograph::buffer_pool::{BufferPool, MIN_BUFFER_POOL_FRAMES};
use phonograph::commit::commit_roots;
use phonograph::format::{create_database_file, open_database_file, select_active_superblock};
use phonograph::page::{PageId, DEFAULT_PAGE_SIZE};
use phonograph::snapshot::{Snapshot, SnapshotRoots};

const PS: usize = DEFAULT_PAGE_SIZE;

fn roots_with_node_store(base: &SnapshotRoots, id: u64) -> SnapshotRoots {
    SnapshotRoots { node_store: PageId(id), ..*base }
}

#[test]
fn commit_alternates_superblock_slots() {
    let mut backend = MemoryBackend::new();
    let sb = create_database_file(&mut backend, PS, 0).unwrap();
    let mut pool = BufferPool::new(MIN_BUFFER_POOL_FRAMES, PS);
    let (active, slot) = select_active_superblock(&backend, PS).unwrap();
    assert_eq!(slot, 0);
    assert_eq!(active.transaction_id, sb.transaction_id);

    let roots = Snapshot::from(&active).roots;
    let (sb2, slot2) =
        commit_roots(&mut backend, &mut pool, &active, slot, PS, &roots_with_node_store(&roots, 7), 3).unwrap();
    assert_eq!(slot2, 1);
    assert_eq!(sb2.transaction_id, 2);
    assert_eq!(sb2.root_node_store, PageId(7));
    assert_eq!(select_active_superblock(&backend, PS).unwrap(), (sb2, 1));

    let (sb3, slot3) =
        commit_roots(&mut backend, &mut pool, &sb2, slot2, PS, &roots_with_node_store(&roots, 9), 3).unwrap();
    assert_eq!(slot3, 0);
    assert_eq!(sb3.transaction_id, 3);
    assert_eq!(select_active_superblock(&backend, PS).unwrap(), (sb3, 0));
    // The identity header at the start of the file survives the rewrite of slot 0.
    assert_eq!(open_database_file(&backend, PS).unwrap(), sb3);
}

#[test]
fn commit_grows_file_and_writes_back_dirty_pages() {
    let mut backend = MemoryBackend::new();
    create_database_file(&mut backend, PS, 0).unwrap();
    let mut pool = BufferPool::new(MIN_BUFFER_POOL_FRAMES, PS);
    let (active, slot) = select_active_superblock(&backend, PS).unwrap();

    // A new page 4 is written through the pool.
    let idx = pool.new_page(PageId(4), &mut backend).unwrap();
    pool.get_page_data_mut(idx)[100] = 0x5A;
    pool.unpin_page(idx, true);

    let roots = roots_with_node_store(&Snapshot::from(&active).roots, 4);
    let (sb, _) = commit_roots(&mut backend, &mut pool, &active, slot, PS, &roots, 5).unwrap();
    assert_eq!(sb.total_pages, 5);
    assert_eq!(backend.as_bytes().len(), 5 * PS);
    assert_eq!(backend.as_bytes()[4 * PS + 100], 0x5A);
    assert!(!pool.is_dirty(idx));
}

#[test]
fn corrupt_new_superblock_falls_back_to_previous() {
    let mut backend = MemoryBackend::new();
    let first = create_database_file(&mut backend, PS, 0).unwrap();
    let mut pool = BufferPool::new(MIN_BUFFER_POOL_FRAMES, PS);
    let (active, slot) = select_active_superblock(&backend, PS).unwrap();
    let roots = Snapshot::from(&active).roots;
    let (_, new_slot) = commit_roots(&mut backend, &mut pool, &active, slot, PS, &roots, 3).unwrap();

    // Corrupt the checksum of the slot just written.
    let at = new_slot as u64 * PS as u64 + 184;
    let mut checksum = [0u8; 8];
    backend.read_at(at, &mut checksum).unwrap();
    checksum[0] ^= 0xFF;
    backend.write_at(at, &checksum).unwrap();

    let (sb, fallback) = select_active_superblock(&backend, PS).unwrap();
    assert_eq!(fallback, slot);
    assert_eq!(sb.transaction_id, first.transaction_id);
}
