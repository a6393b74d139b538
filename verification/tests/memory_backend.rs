use phonograph::backend::memory::{MemoryBackend, MemoryError};
use phonograph::backend::{Durability, ReadAt, StorageError, WriteAt};
use phonograph::error::StorageErrorKind;

#[test]
fn memory_error_display() {
    let err = MemoryError::OutOfBounds { offset: 10, requested: 5, size: 12 };
    let s = err.to_string();
    assert_eq!(s, "out of bounds: read at offset 10 with length 5 exceeds memory size 12");
}

#[test]
fn memory_error_kind() {
    let err = MemoryError::OutOfBounds { offset: 0, requested: 1, size: 0 };
    assert_eq!(err.kind(), StorageErrorKind::OutOfBounds);
}

#[test]
fn memory_error_clone_copy_eq() {
    let a = MemoryError::OutOfBounds { offset: 1, requested: 2, size: 3 };
    let b = a;
    assert_eq!(a, b);
    let c = Clone::clone(&a);
    assert_eq!(a, c);
}

#[test]
fn new_creates_empty() {
    let b = MemoryBackend::new();
    assert!(b.as_bytes().is_empty());
}

#[test]
fn with_size_creates_zeroed() {
    let b = MemoryBackend::with_size(4096);
    assert_eq!(b.as_bytes().len(), 4096);
    assert!(b.as_bytes().iter().all(|&x| x == 0));
}

#[test]
fn from_bytes_stores_data() {
    let b = MemoryBackend::from_bytes(vec![1, 2, 3]);
    assert_eq!(b.as_bytes(), &[1, 2, 3]);
}

#[test]
fn into_bytes_returns_data() {
    let b = MemoryBackend::from_bytes(vec![4, 5, 6]);
    assert_eq!(b.into_bytes(), vec![4, 5, 6]);
}

#[test]
fn default_is_new() {
    let a = MemoryBackend::new();
    let b = MemoryBackend::default();
    assert_eq!(a.as_bytes(), b.as_bytes());
}

#[test]
fn read_at_basic() {
    let b = MemoryBackend::from_bytes(vec![1, 2, 3, 4, 5]);
    let mut buf = [0u8; 3];
    b.read_at(0, &mut buf).unwrap();
    assert_eq!(buf, [1, 2, 3]);

    b.read_at(2, &mut buf).unwrap();
    assert_eq!(buf, [3, 4, 5]);
}

#[test]
fn read_at_all_bytes() {
    let b = MemoryBackend::from_bytes(vec![1, 2, 3, 4, 5]);
    let mut buf = [0u8; 5];
    b.read_at(0, &mut buf).unwrap();
    assert_eq!(buf, [1, 2, 3, 4, 5]);
}

#[test]
fn read_at_empty_buffer() {
    let b = MemoryBackend::new();
    b.read_at(0, &mut []).unwrap();
    b.read_at(9999, &mut []).unwrap();
}

#[test]
fn read_at_out_of_bounds_offset() {
    let b = MemoryBackend::from_bytes(vec![1, 2, 3]);
    let mut buf = [0u8; 1];
    let err = b.read_at(10, &mut buf).unwrap_err();
    assert_eq!(err, MemoryError::OutOfBounds { offset: 10, requested: 1, size: 3 });
}

#[test]
fn read_at_partial_out_of_bounds() {
    let b = MemoryBackend::from_bytes(vec![1, 2, 3]);
    let mut buf = [0u8; 2];
    let err = b.read_at(2, &mut buf).unwrap_err();
    assert_eq!(err, MemoryError::OutOfBounds { offset: 2, requested: 2, size: 3 });
}

#[test]
fn read_at_empty_backend() {
    let b = MemoryBackend::new();
    let mut buf = [0u8; 1];
    assert!(b.read_at(0, &mut buf).is_err());
}

#[test]
fn read_at_overflow() {
    let b = MemoryBackend::from_bytes(vec![1, 2, 3]);
    let mut buf = [0u8; 1];
    let err = b.read_at(u64::MAX, &mut buf).unwrap_err();
    assert_eq!(err.kind(), StorageErrorKind::OutOfBounds);
}

#[test]
fn len_returns_correct_size() {
    let b = MemoryBackend::from_bytes(vec![1, 2, 3]);
    assert_eq!(b.len().unwrap(), 3);
}

#[test]
fn len_empty() {
    let b = MemoryBackend::new();
    assert_eq!(b.len().unwrap(), 0);
}

#[test]
fn write_at_auto_extend_from_empty() {
    let mut b = MemoryBackend::new();
    b.write_at(0, &[1, 2, 3]).unwrap();
    assert_eq!(b.as_bytes(), &[1, 2, 3]);
}

#[test]
fn write_at_auto_extend_with_gap() {
    let mut b = MemoryBackend::new();
    b.write_at(10, &[0xAA, 0xBB]).unwrap();
    assert_eq!(b.as_bytes().len(), 12);
    assert!(b.as_bytes()[..10].iter().all(|&x| x == 0));
    assert_eq!(b.as_bytes()[10], 0xAA);
    assert_eq!(b.as_bytes()[11], 0xBB);
}

#[test]
fn write_at_overwrite() {
    let mut b = MemoryBackend::from_bytes(vec![1, 2, 3, 4, 5]);
    b.write_at(1, &[0xAA, 0xBB]).unwrap();
    assert_eq!(b.as_bytes(), &[1, 0xAA, 0xBB, 4, 5]);
}

#[test]
fn write_at_extend_beyond() {
    let mut b = MemoryBackend::from_bytes(vec![1, 2, 3]);
    b.write_at(2, &[0xAA, 0xBB, 0xCC]).unwrap();
    assert_eq!(b.as_bytes(), &[1, 2, 0xAA, 0xBB, 0xCC]);
}

#[test]
fn set_len_grow() {
    let mut b = MemoryBackend::new();
    b.set_len(10).unwrap();
    assert_eq!(b.len().unwrap(), 10);
    assert!(b.as_bytes().iter().all(|&x| x == 0));
}

#[test]
fn set_len_truncate() {
    let mut b = MemoryBackend::from_bytes(vec![1, 2, 3, 4, 5]);
    b.set_len(3).unwrap();
    assert_eq!(b.as_bytes(), &[1, 2, 3]);
}

#[test]
fn set_len_same_size() {
    let mut b = MemoryBackend::from_bytes(vec![1, 2, 3]);
    b.set_len(3).unwrap();
    assert_eq!(b.as_bytes(), &[1, 2, 3]);
}

#[test]
fn write_at_empty_buffer() {
    let mut b = MemoryBackend::from_bytes(vec![1, 2, 3]);
    b.write_at(0, &[]).unwrap();
    assert_eq!(b.as_bytes(), &[1, 2, 3]);
}

#[test]
fn sync_data_noop() {
    let mut b = MemoryBackend::new();
    b.sync_data().unwrap();
}

#[test]
fn sync_all_noop() {
    let mut b = MemoryBackend::new();
    b.sync_all().unwrap();
}

#[test]
fn sync_does_not_alter_data() {
    let mut b = MemoryBackend::from_bytes(vec![1, 2, 3]);
    b.sync_data().unwrap();
    b.sync_all().unwrap();
    assert_eq!(b.as_bytes(), &[1, 2, 3]);
}

#[test]
fn read_after_write_gives_written_bytes() {
    let mut b = MemoryBackend::from_bytes(vec![9; 4]);
    b.write_at(6, &[7, 8, 9]).unwrap();
    let mut buf = [0u8; 3];
    b.read_at(6, &mut buf).unwrap();
    assert_eq!(buf, [7, 8, 9]);
    assert_eq!(b.as_bytes(), &[9, 9, 9, 9, 0, 0, 7, 8, 9]);
}

#[test]
fn failed_read_leaves_buffer() {
    let b = MemoryBackend::from_bytes(vec![1, 2, 3]);
    let mut buf = [5u8; 4];
    assert!(b.read_at(0, &mut buf).is_err());
    assert_eq!(buf, [5, 5, 5, 5]);
}

#[test]
fn memory_error_message_matches_display() {
    let err = MemoryError::OutOfBounds { offset: 0, requested: 1, size: 0 };
    assert_eq!(err.message(), err.to_string());
}
