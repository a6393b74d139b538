use phonograph::backend::memory::MemoryBackend;
use phonograph::backend::WriteAt;
use phonograph::format::{
    build_superblock_page, create_database_file, decode_page_size, encode_page_size, magic,
    open_database_file, select_active_superblock, select_superblock_pages, FileIdentityHeader,
    Superblock,
};
use phonograph::page::{PageId, DEFAULT_PAGE_SIZE, IDENTITY_HEADER_SIZE};

#[test]
fn identity_header_round_trip() {
    let hdr = FileIdentityHeader::new(4096, 0x12345678).unwrap();
    let mut buf = [0u8; IDENTITY_HEADER_SIZE];
    hdr.serialize(&mut buf);
    let rt = FileIdentityHeader::deserialize(&buf).unwrap();
    assert_eq!(hdr.magic, rt.magic);
    assert_eq!(hdr.format_major, rt.format_major);
    assert_eq!(hdr.format_minor, rt.format_minor);
    assert_eq!(hdr.application_id, rt.application_id);
    assert_eq!(hdr.page_size_raw, rt.page_size_raw);
    assert_eq!(hdr.creation_timestamp, rt.creation_timestamp);
}

#[test]
fn identity_header_magic_validation() {
    let mut buf = [0u8; IDENTITY_HEADER_SIZE];
    buf[0..5].copy_from_slice(b"WRONG");
    let err = FileIdentityHeader::deserialize(&buf).unwrap_err();
    assert!(err.message.contains("magic"));
}

#[test]
fn identity_header_version_validation() {
    let mut hdr = FileIdentityHeader::new(4096, 0).unwrap();
    hdr.format_major = 2;
    assert!(hdr.validate_compatible().is_err());

    hdr.format_major = 1;
    assert!(hdr.validate_compatible().is_ok());
}

#[test]
fn page_size_encoding_round_trip() {
    for size in [4096, 8192, 16384, 32768, 65536] {
        let raw = encode_page_size(size).unwrap();
        let decoded = decode_page_size(raw).unwrap();
        assert_eq!(decoded, size);
    }
}

#[test]
fn page_size_encoding_invalid() {
    assert!(encode_page_size(1024).is_err());
    assert!(encode_page_size(0).is_err());
    assert!(encode_page_size(5000).is_err());
}

#[test]
fn superblock_round_trip() {
    let identity = FileIdentityHeader::new(4096, 0).unwrap();
    let sb = Superblock {
        transaction_id: 42,
        total_pages: 100,
        feature_flags: 0,
        root_node_store: PageId(10),
        root_edge_store: PageId(11),
        root_outgoing_adj: PageId(12),
        root_incoming_adj: PageId(13),
        root_type_index: PageId(14),
        root_schema_store: PageId(15),
        root_id_freelist: PageId(16),
        root_page_freelist: PageId(17),
        checksum: 0,
    };
    let page = build_superblock_page(&identity, &sb, DEFAULT_PAGE_SIZE);
    Superblock::validate(&page).unwrap();

    let rt = Superblock::deserialize(&page).unwrap();
    assert_eq!(rt.transaction_id, 42);
    assert_eq!(rt.total_pages, 100);
    assert_eq!(rt.root_node_store, PageId(10));
    assert_eq!(rt.root_page_freelist, PageId(17));
}

#[test]
fn superblock_checksum_failure() {
    let identity = FileIdentityHeader::new(4096, 0).unwrap();
    let sb = Superblock::initial();
    let mut page = build_superblock_page(&identity, &sb, DEFAULT_PAGE_SIZE);
    page[50] ^= 0xFF;
    let err = Superblock::validate(&page).unwrap_err();
    assert!(err.message.contains("checksum mismatch"));
}

#[test]
fn superblock_root_page_ids() {
    let sb = Superblock {
        root_node_store: PageId(2),
        root_edge_store: PageId(3),
        root_outgoing_adj: PageId(4),
        root_incoming_adj: PageId(5),
        root_type_index: PageId(6),
        root_schema_store: PageId(7),
        root_id_freelist: PageId(8),
        root_page_freelist: PageId(9),
        ..Superblock::initial()
    };
    let ids = sb.root_page_ids();
    assert_eq!(ids[0], PageId(2));
    assert_eq!(ids[5], PageId(7));
    assert_eq!(ids[7], PageId(9));
}

#[test]
fn select_both_valid_higher_txn_wins() {
    let identity = FileIdentityHeader::new(4096, 0).unwrap();
    let sb_a = Superblock { transaction_id: 5, ..Superblock::initial() };
    let sb_b = Superblock { transaction_id: 10, ..Superblock::initial() };
    let page_a = build_superblock_page(&identity, &sb_a, DEFAULT_PAGE_SIZE);
    let page_b = build_superblock_page(&identity, &sb_b, DEFAULT_PAGE_SIZE);

    let mut backend = MemoryBackend::new();
    backend.set_len(DEFAULT_PAGE_SIZE as u64 * 2).unwrap();
    backend.write_at(0, &page_a).unwrap();
    backend.write_at(DEFAULT_PAGE_SIZE as u64, &page_b).unwrap();

    let (sb, slot) = select_active_superblock(&backend, DEFAULT_PAGE_SIZE).unwrap();
    assert_eq!(sb.transaction_id, 10);
    assert_eq!(slot, 1);
}

#[test]
fn select_one_valid_fallback() {
    let identity = FileIdentityHeader::new(4096, 0).unwrap();
    let sb_a = Superblock::initial();
    let page_a = build_superblock_page(&identity, &sb_a, DEFAULT_PAGE_SIZE);

    let mut backend = MemoryBackend::new();
    backend.set_len(DEFAULT_PAGE_SIZE as u64 * 2).unwrap();
    backend.write_at(0, &page_a).unwrap();

    let (sb, slot) = select_active_superblock(&backend, DEFAULT_PAGE_SIZE).unwrap();
    assert_eq!(sb.transaction_id, 1);
    assert_eq!(slot, 0);
}

#[test]
fn select_both_invalid_error() {
    let mut backend = MemoryBackend::new();
    backend.set_len(DEFAULT_PAGE_SIZE as u64 * 2).unwrap();

    let result = select_active_superblock(&backend, DEFAULT_PAGE_SIZE);
    assert!(result.is_err());
    assert!(result.unwrap_err().message.contains("corrupt"));
}

#[test]
fn select_equal_txn_ids() {
    let identity = FileIdentityHeader::new(4096, 0).unwrap();
    let sb = Superblock::initial();
    let page = build_superblock_page(&identity, &sb, DEFAULT_PAGE_SIZE);

    let mut backend = MemoryBackend::new();
    backend.set_len(DEFAULT_PAGE_SIZE as u64 * 2).unwrap();
    backend.write_at(0, &page).unwrap();
    backend.write_at(DEFAULT_PAGE_SIZE as u64, &page).unwrap();

    let (_, slot) = select_active_superblock(&backend, DEFAULT_PAGE_SIZE).unwrap();
    assert_eq!(slot, 0);
}

#[test]
fn create_and_open_database() {
    let mut backend = MemoryBackend::new();
    let sb = create_database_file(&mut backend, DEFAULT_PAGE_SIZE, 0).unwrap();
    assert_eq!(sb.transaction_id, 1);
    assert_eq!(sb.total_pages, 3);
    assert_eq!(sb.root_schema_store, PageId(2));
    assert!(sb.root_node_store.is_null());

    assert_eq!(backend.as_bytes().len(), DEFAULT_PAGE_SIZE * 3);

    let opened = open_database_file(&backend, DEFAULT_PAGE_SIZE).unwrap();
    assert_eq!(opened.transaction_id, sb.transaction_id);
    assert_eq!(opened.total_pages, sb.total_pages);
    assert_eq!(opened.root_schema_store, sb.root_schema_store);
}

#[test]
fn open_page_size_mismatch() {
    let mut backend = MemoryBackend::new();
    create_database_file(&mut backend, 4096, 0).unwrap();

    let result = open_database_file(&backend, 8192);
    assert!(result.is_err());
    assert!(result.unwrap_err().message.contains("page size mismatch"));
}

#[test]
fn create_rejects_unsupported_page_size() {
    let mut backend = MemoryBackend::new();
    let err = create_database_file(&mut backend, 1000, 0).unwrap_err();
    assert_eq!(err.message, "invalid page size: 1000");
    assert!(backend.as_bytes().is_empty());
}

#[test]
fn identity_header_byte_layout() {
    let hdr = FileIdentityHeader::new(65536, 0x01020304).unwrap();
    assert_eq!(hdr.page_size_raw, 1);
    let mut buf = [0u8; 40];
    hdr.serialize(&mut buf);
    assert_eq!(&buf[0..14], b"EmbedGraph\r\n\x1a\n");
    assert_eq!(&buf[14..18], &[0, 1, 0, 0]);
    assert_eq!(&buf[18..24], &[4, 3, 2, 1, 1, 0]);
    assert_eq!(&buf[32..40], &[0u8; 8]);
    assert_eq!(magic(), *b"EmbedGraph\r\n\x1a\n");
    assert_eq!(hdr.page_size().unwrap(), 65536);
}

#[test]
fn identity_header_errors() {
    let err = FileIdentityHeader::deserialize(&[0u8; 10]).unwrap_err();
    assert_eq!(err.message, "identity header too short: 10 bytes, need 32");
    let mut hdr = FileIdentityHeader::new(4096, 0).unwrap();
    hdr.format_major = 3;
    hdr.format_minor = 7;
    assert_eq!(
        hdr.validate_compatible().unwrap_err().message,
        "unsupported format version: 3.7 (this reader supports up to 1.0)"
    );
    hdr.page_size_raw = 5;
    assert_eq!(hdr.page_size().unwrap_err().message, "invalid page_size_raw value: 5");
}

#[test]
fn superblock_errors() {
    assert_eq!(
        Superblock::validate(&[0u8; 100]).unwrap_err().message,
        "superblock page too short for validation"
    );
    assert_eq!(
        Superblock::validate(&[0u8; 192]).unwrap_err().message,
        "superblock magic bytes do not match"
    );
    assert_eq!(
        Superblock::deserialize(&[0u8; 191]).unwrap_err().message,
        "superblock buffer too short: 191 bytes, need 192"
    );
}

#[test]
fn superblock_checksum_message_and_hash() {
    let identity = FileIdentityHeader::new(4096, 0).unwrap();
    let page = build_superblock_page(&identity, &Superblock::initial(), DEFAULT_PAGE_SIZE);
    let computed = Superblock::compute_checksum(&page);
    assert_eq!(computed, xxhash_rust::xxh3::xxh3_64(&page[..184]));
    assert_ne!(computed, 0);
    assert!(Superblock::check_checksum(&page, computed).is_ok());
    let err = Superblock::check_checksum(&page, 0x1f).unwrap_err();
    let expected = format!(
        "superblock checksum mismatch: stored={:#018x}, computed=0x000000000000001f",
        computed
    );
    assert_eq!(err.message, expected);
}

#[test]
fn superblock_serialize_writes_fields_only() {
    let mut buf = vec![0xEEu8; 200];
    let sb = Superblock { transaction_id: 7, checksum: 9, ..Superblock::initial() };
    sb.serialize(&mut buf);
    assert_eq!(Superblock::deserialize(&buf).unwrap(), sb);
    assert_eq!(buf[0], 0xEE);
    assert_eq!(buf[150], 0xEE);
    assert_eq!(buf[199], 0xEE);
    assert_eq!(&buf[184..192], &[9, 0, 0, 0, 0, 0, 0, 0]);
}

#[test]
fn select_superblock_pages_directly() {
    let identity = FileIdentityHeader::new(4096, 0).unwrap();
    let a = build_superblock_page(&identity, &Superblock { transaction_id: 3, ..Superblock::initial() }, 4096);
    let b = build_superblock_page(&identity, &Superblock { transaction_id: 2, ..Superblock::initial() }, 4096);
    let (sb, slot) = select_superblock_pages(&a, &b).unwrap();
    assert_eq!((sb.transaction_id, slot), (3, 0));
    let zero = vec![0u8; 4096];
    let (sb, slot) = select_superblock_pages(&zero, &b).unwrap();
    assert_eq!((sb.transaction_id, slot), (2, 1));
    assert_eq!(
        select_superblock_pages(&zero, &zero).unwrap_err().message,
        "both superblocks are invalid — database is corrupt"
    );
}

#[test]
fn open_reads_back_created_schema_root() {
    let mut backend = MemoryBackend::new();
    create_database_file(&mut backend, 8192, 77).unwrap();
    let bytes = backend.as_bytes();
    let root = phonograph::page::leaf::LeafPage::parse(&bytes[2 * 8192..], 8192).unwrap();
    assert_eq!(root.cell_count(), 0);
    assert_eq!(root.header.page_id, PageId(2));
    let hdr = FileIdentityHeader::deserialize(bytes).unwrap();
    assert_eq!(hdr.application_id, 77);
    assert!(open_database_file(&backend, 8192).is_ok());
}
