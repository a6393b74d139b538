//! File identity header and dual superblocks.
//!
//! Pages 0 and 1 of a database file are superblock pages. Both start with
//! the same 32-byte file identity header (magic, format version,
//! application id, page size, creation time), followed by the mutable
//! database state and an XXH3 checksum over everything before it. Opening a
//! file picks the valid superblock with the higher transaction id.

use vstd::prelude::*;
use vstd::string::StringExecFns;
use crate::codec::{
    be16, be16_bytes, le16, le16_bytes, le32, le32_bytes, le64, le64_bytes,
    lemma_le64_outside, lemma_le64_splice, lemma_u16_round_trip, lemma_u32_round_trip,
    lemma_u64_round_trip, put_be16, put_bytes, put_le16, put_le32, put_le64, read_be16, read_le16,
    read_le32, read_le64, splice,
};
use crate::error::StorageError;
use crate::page::PageId;
use crate::text::{decimal, push_decimal, string_of};

verus! {

/// Current format major version.
pub const FORMAT_MAJOR: u16 = 1;

/// Current format minor version.
pub const FORMAT_MINOR: u16 = 0;

/// Offset of the checksum field within a superblock page.
pub const SB_CHECKSUM_OFFSET: usize = 184;

/// The 14 magic bytes that open every database file: `"EmbedGraph\r\n\x1a\n"`.
pub open spec fn magic_seq() -> Seq<u8> {
    seq![0x45u8, 0x6du8, 0x62u8, 0x65u8, 0x64u8, 0x47u8, 0x72u8, 0x61u8, 0x70u8, 0x68u8, 0x0du8, 0x0au8, 0x1au8, 0x0au8]
}

/// The 14 magic bytes that open every database file: `"EmbedGraph\r\n\x1a\n"`.
pub fn magic() -> (r: [u8; 14])
    ensures
        r@ == magic_seq(),
{
    let r: [u8; 14] = [0x45, 0x6d, 0x62, 0x65, 0x64, 0x47, 0x72, 0x61, 0x70, 0x68, 0x0d, 0x0a, 0x1a, 0x0a];
    assert(r@ =~= magic_seq());
    r
}

// ---------------------------------------------------------------------------
// Page size encoding
// ---------------------------------------------------------------------------

/// The `page_size_raw` code of a page size, if the size is supported:
/// 4096, 8192, 16384 and 32768 stand for themselves, 65536 is stored as 1.
pub open spec fn page_size_code(page_size: int) -> Option<u16> {
    if page_size == 4096 || page_size == 8192 || page_size == 16384 || page_size == 32768 {
        Some(page_size as u16)
    } else if page_size == 65536 {
        Some(1u16)
    } else {
        None
    }
}

/// The page size a `page_size_raw` code stands for, if it is a valid code.
pub open spec fn page_size_of_code(raw: u16) -> Option<usize> {
    if raw == 1 {
        Some(65536usize)
    } else if raw == 4096 || raw == 8192 || raw == 16384 || raw == 32768 {
        Some(raw as usize)
    } else {
        None
    }
}

/// Encodes a page size into the `page_size_raw` field.
///
/// Fails, with `invalid page size: {page_size}`, unless the size is 4096,
/// 8192, 16384, 32768 or 65536.
pub fn encode_page_size(page_size: usize) -> (r: Result<u16, StorageError>)
    ensures
        match r {
            Ok(raw) => page_size_code(page_size as int) == Some(raw),
            Err(e) => page_size_code(page_size as int) is None && e.message@ == "invalid page size: "@
                + decimal(page_size as nat) && e.source is None,
        },
{
    if page_size == 4096 || page_size == 8192 || page_size == 16384 || page_size == 32768 {
        Ok(page_size as u16)
    } else if page_size == 65536 {
        Ok(1)
    } else {
        let mut m = string_of("invalid page size: ");
        push_decimal(&mut m, page_size as u64);
        Err(StorageError { message: m, source: None })
    }
}

/// Decodes a `page_size_raw` field into a page size in bytes.
///
/// Fails, with `invalid page_size_raw value: {raw}`, unless the code is 1,
/// 4096, 8192, 16384 or 32768.
pub fn decode_page_size(raw: u16) -> (r: Result<usize, StorageError>)
    ensures
        match r {
            Ok(size) => page_size_of_code(raw) == Some(size),
            Err(e) => page_size_of_code(raw) is None && e.message@ == "invalid page_size_raw value: "@
                + decimal(raw as nat) && e.source is None,
        },
{
    if raw == 1 {
        Ok(65536)
    } else if raw == 4096 || raw == 8192 || raw == 16384 || raw == 32768 {
        Ok(raw as usize)
    } else {
        let mut m = string_of("invalid page_size_raw value: ");
        push_decimal(&mut m, raw as u64);
        Err(StorageError { message: m, source: None })
    }
}

/// Decoding the code of a supported page size gives the size back, and
/// encoding the size a valid code stands for gives the code back.
pub proof fn lemma_page_size_code_round_trip(page_size: int, raw: u16)
    ensures
        page_size_code(page_size) matches Some(c) ==> page_size_of_code(c) == Some(page_size as usize),
        page_size_of_code(raw) matches Some(s) ==> page_size_code(s as int) == Some(raw),
{
}

// ---------------------------------------------------------------------------
// Creation time
// ---------------------------------------------------------------------------

#[verifier::external_type_specification]
#[verifier::external_body]
pub struct ExSystemTime(std::time::SystemTime);

#[verifier::external_type_specification]
#[verifier::external_body]
pub struct ExSystemTimeError(std::time::SystemTimeError);

/// Calls `std::time::SystemTime::now`; nothing is stated of the clock.
#[verifier::external_body]
fn system_time_now() -> std::time::SystemTime {
    std::time::SystemTime::now()
}

/// Calls `std::time::SystemTime::duration_since` with the Unix epoch;
/// nothing is stated of the result, which depends on the clock.
#[verifier::external_body]
fn duration_since_epoch(t: &std::time::SystemTime) -> Result<
    core::time::Duration,
    std::time::SystemTimeError,
> {
    t.duration_since(std::time::UNIX_EPOCH)
}

/// Calls `std::time::Duration::as_micros`; nothing is stated of the result.
#[verifier::external_body]
fn duration_micros(d: &core::time::Duration) -> u128 {
    d.as_micros()
}

/// Microseconds since the Unix epoch by the system clock (truncated to 64
/// bits), or 0 when the clock reads before the epoch.
fn creation_timestamp() -> u64 {
    let now = system_time_now();
    match duration_since_epoch(&now) {
        Ok(d) => #[verifier::truncate] (duration_micros(&d) as u64),
        Err(_) => 0,
    }
}

// ---------------------------------------------------------------------------
// File identity header
// ---------------------------------------------------------------------------

/// The 32-byte file identity header at the start of both superblock pages.
///
/// | Offset | Size | Field              | Encoding |
/// |--------|------|--------------------|----------|
/// | 0      | 14   | magic              | bytes    |
/// | 14     | 2    | format_major       | u16 BE   |
/// | 16     | 2    | format_minor       | u16 BE   |
/// | 18     | 4    | application_id     | u32 LE   |
/// | 22     | 2    | page_size_raw      | u16 LE   |
/// | 24     | 8    | creation_timestamp | u64 LE (microseconds since the Unix epoch) |
#[derive(Clone, Debug, PartialEq, Eq)]
pub struct FileIdentityHeader {
    /// Magic bytes.
    pub magic: [u8; 14],
    /// Major format version.
    pub format_major: u16,
    /// Minor format version.
    pub format_minor: u16,
    /// Application identifier (0 = default).
    pub application_id: u32,
    /// Raw page size encoding; [`page_size`](Self::page_size) decodes it.
    pub page_size_raw: u16,
    /// Creation timestamp in microseconds since the Unix epoch.
    pub creation_timestamp: u64,
}

/// The 32 bytes that encode an identity header.
pub open spec fn identity_bytes(h: FileIdentityHeader) -> Seq<u8> {
    h.magic@ + be16_bytes(h.format_major) + be16_bytes(h.format_minor) + le32_bytes(h.application_id)
        + le16_bytes(h.page_size_raw) + le64_bytes(h.creation_timestamp)
}

/// `h` holds the fields that the first 32 bytes of `buf` encode.
pub open spec fn identity_decodes(buf: Seq<u8>, h: FileIdentityHeader) -> bool {
    &&& h.magic@ == buf.subrange(0, 14)
    &&& h.format_major == be16(buf, 14)
    &&& h.format_minor == be16(buf, 16)
    &&& h.application_id == le32(buf, 18)
    &&& h.page_size_raw == le16(buf, 22)
    &&& h.creation_timestamp == le64(buf, 24)
}

/// The display text of an unsupported format version.
pub open spec fn unsupported_version_text(major: u16, minor: u16) -> Seq<char> {
    "unsupported format version: "@ + decimal(major as nat) + "."@ + decimal(minor as nat)
        + " (this reader supports up to 1.0)"@
}

impl FileIdentityHeader {
    /// A header for a new file with the given page size and application id,
    /// stamped with the current time.
    ///
    /// Fails, as [`encode_page_size`] does, when the page size is not
    /// supported.
    pub fn new(page_size: usize, application_id: u32) -> (r: Result<FileIdentityHeader, StorageError>)
        ensures
            match r {
                Ok(h) => {
                    &&& page_size_code(page_size as int) == Some(h.page_size_raw)
                    &&& h.magic@ == magic_seq()
                    &&& h.format_major == FORMAT_MAJOR
                    &&& h.format_minor == FORMAT_MINOR
                    &&& h.application_id == application_id
                },
                Err(e) => page_size_code(page_size as int) is None && e.message@ == "invalid page size: "@
                    + decimal(page_size as nat),
            },
    {
        let page_size_raw = match encode_page_size(page_size) {
            Ok(raw) => raw,
            Err(e) => {
                return Err(e);
            },
        };
        let creation_timestamp = creation_timestamp();
        Ok(
            FileIdentityHeader {
                magic: magic(),
                format_major: FORMAT_MAJOR,
                format_minor: FORMAT_MINOR,
                application_id,
                page_size_raw,
                creation_timestamp,
            },
        )
    }

    /// Writes this header into the first 32 bytes of `buf`.
    pub fn serialize(&self, buf: &mut [u8])
        requires
            old(buf)@.len() >= 32,
        ensures
            final(buf)@ == splice(old(buf)@, 0, identity_bytes(*self)),
    {
        let ghost s0 = buf@;
        put_bytes(buf, 0, &self.magic);
        put_be16(buf, 14, self.format_major);
        put_be16(buf, 16, self.format_minor);
        put_le32(buf, 18, self.application_id);
        put_le16(buf, 22, self.page_size_raw);
        put_le64(buf, 24, self.creation_timestamp);
        proof {
            let a = self.magic@;
            let b = be16_bytes(self.format_major);
            let c = be16_bytes(self.format_minor);
            let d = le32_bytes(self.application_id);
            let e = le16_bytes(self.page_size_raw);
            let f = le64_bytes(self.creation_timestamp);
            crate::codec::lemma_splice_concat(s0, 0, a, b);
            crate::codec::lemma_splice_concat(s0, 0, a + b, c);
            crate::codec::lemma_splice_concat(s0, 0, a + b + c, d);
            crate::codec::lemma_splice_concat(s0, 0, a + b + c + d, e);
            crate::codec::lemma_splice_concat(s0, 0, a + b + c + d + e, f);
        }
    }

    /// Reads a header from the first 32 bytes of `buf`.
    ///
    /// Fails when `buf` is shorter than 32 bytes, and when its first 14
    /// bytes are not the magic.
    pub fn deserialize(buf: &[u8]) -> (r: Result<FileIdentityHeader, StorageError>)
        ensures
            r is Ok <==> buf@.len() >= 32 && buf@.subrange(0, 14) == magic_seq(),
            r matches Ok(h) ==> identity_decodes(buf@, h),
            r matches Err(e) ==> e.source is None && (if buf@.len() < 32 {
                e.message@ == "identity header too short: "@ + decimal(buf@.len()) + " bytes, need 32"@
            } else {
                e.message@ == "invalid file identity header: magic bytes do not match"@
            }),
    {
        let n = buf.len();
        if n < 32 {
            let mut m = string_of("identity header too short: ");
            push_decimal(&mut m, n as u64);
            m.append(" bytes, need 32");
            return Err(StorageError { message: m, source: None });
        }
        let expected = magic();
        let mut magic: [u8; 14] = [0u8; 14];
        let mut i: usize = 0;
        let mut same = true;
        while i < 14
            invariant
                i <= 14,
                n == buf@.len() >= 32,
                expected@ == magic_seq(),
                forall|k: int| 0 <= k < i ==> #[trigger] magic@[k] == buf@[k],
                same <==> forall|k: int| 0 <= k < i ==> buf@[k] == #[trigger] expected@[k],
            decreases 14 - i,
        {
            magic[i] = buf[i];
            if buf[i] != expected[i] {
                same = false;
            }
            i = i + 1;
        }
        if !same {
            proof {
                let k = choose|k: int| 0 <= k < 14 && buf@[k] != #[trigger] expected@[k];
                assert(buf@.subrange(0, 14)[k] != magic_seq()[k]);
            }
            return Err(StorageError::new("invalid file identity header: magic bytes do not match"));
        }
        assert(buf@.subrange(0, 14) =~= magic_seq());
        assert(magic@ =~= buf@.subrange(0, 14));
        Ok(
            FileIdentityHeader {
                magic,
                format_major: read_be16(buf, 14),
                format_minor: read_be16(buf, 16),
                application_id: read_le32(buf, 18),
                page_size_raw: read_le16(buf, 22),
                creation_timestamp: read_le64(buf, 24),
            },
        )
    }

    /// The page size in bytes that `page_size_raw` encodes.
    ///
    /// Fails, as [`decode_page_size`] does, when the code is not valid.
    pub fn page_size(&self) -> (r: Result<usize, StorageError>)
        ensures
            match r {
                Ok(size) => page_size_of_code(self.page_size_raw) == Some(size),
                Err(e) => page_size_of_code(self.page_size_raw) is None && e.message@
                    == "invalid page_size_raw value: "@ + decimal(self.page_size_raw as nat),
            },
    {
        decode_page_size(self.page_size_raw)
    }

    /// Checks that this reader supports the header's format version: the
    /// major version must not exceed [`FORMAT_MAJOR`].
    pub fn validate_compatible(&self) -> (r: Result<(), StorageError>)
        ensures
            r is Ok <==> self.format_major <= FORMAT_MAJOR,
            r matches Err(e) ==> e.message@ == unsupported_version_text(
                self.format_major,
                self.format_minor,
            ) && e.source is None,
    {
        if self.format_major > FORMAT_MAJOR {
            let mut m = string_of("unsupported format version: ");
            push_decimal(&mut m, self.format_major as u64);
            m.append(".");
            push_decimal(&mut m, self.format_minor as u64);
            m.append(" (this reader supports up to 1.0)");
            return Err(StorageError { message: m, source: None });
        }
        Ok(())
    }
}

/// Reading back a written identity header gives its fields.
pub proof fn lemma_identity_round_trip(buf: Seq<u8>, h: FileIdentityHeader)
    requires
        buf.len() >= 32,
        h.magic@.len() == 14,
    ensures
        identity_decodes(splice(buf, 0, identity_bytes(h)), h),
{
    let s = splice(buf, 0, identity_bytes(h));
    let b = identity_bytes(h);
    crate::codec::lemma_splice_range(buf, 0, b);
    crate::codec::lemma_subrange_of_range(s, 0, b, 0, 14);
    assert(b.subrange(0, 14) =~= h.magic@);
    lemma_u16_round_trip(h.format_major);
    lemma_u16_round_trip(h.format_minor);
    lemma_u32_round_trip(h.application_id);
    lemma_u16_round_trip(h.page_size_raw);
    lemma_u64_round_trip(h.creation_timestamp);
    crate::codec::lemma_le32_of_range(s, 0, b, 18);
    crate::codec::lemma_le16_of_range(s, 0, b, 22);
    crate::codec::lemma_le64_of_range(s, 0, b, 24);
    assert(s[14] == b[14] && s[15] == b[15] && s[16] == b[16] && s[17] == b[17]);
}

} // verus!

verus! {

// ---------------------------------------------------------------------------
// Superblock
// ---------------------------------------------------------------------------

/// The mutable database state kept in both superblock pages.
///
/// Bytes 0–31 of a superblock page hold the file identity header; bytes
/// 32–119 these fields (each a u64 LE); bytes 120–183 are reserved and
/// zero; bytes 184–191 hold the XXH3 checksum (u64 LE) of bytes 0–183.
#[derive(Clone, Copy, Debug, PartialEq, Eq, Structural)]
pub struct Superblock {
    /// Monotonically increasing commit counter.
    pub transaction_id: u64,
    /// Total number of pages in the file (superblock pages included).
    pub total_pages: u64,
    /// Optional capability flags.
    pub feature_flags: u64,
    /// Node Store B-tree root page ID (0 = empty).
    pub root_node_store: PageId,
    /// Edge Store B-tree root page ID.
    pub root_edge_store: PageId,
    /// Outgoing Adjacency Index root.
    pub root_outgoing_adj: PageId,
    /// Incoming Adjacency Index root.
    pub root_incoming_adj: PageId,
    /// Type Index root.
    pub root_type_index: PageId,
    /// Schema Store root.
    pub root_schema_store: PageId,
    /// ID Freelist root.
    pub root_id_freelist: PageId,
    /// Page Freelist root.
    pub root_page_freelist: PageId,
    /// XXH3 checksum over bytes 0–183 of the superblock page.
    pub checksum: u64,
}

/// The superblock whose fields bytes 32–119 and 184–191 of `buf` encode.
pub open spec fn superblock_of(buf: Seq<u8>) -> Superblock {
    Superblock {
        transaction_id: le64(buf, 32),
        total_pages: le64(buf, 40),
        feature_flags: le64(buf, 48),
        root_node_store: PageId(le64(buf, 56)),
        root_edge_store: PageId(le64(buf, 64)),
        root_outgoing_adj: PageId(le64(buf, 72)),
        root_incoming_adj: PageId(le64(buf, 80)),
        root_type_index: PageId(le64(buf, 88)),
        root_schema_store: PageId(le64(buf, 96)),
        root_id_freelist: PageId(le64(buf, 104)),
        root_page_freelist: PageId(le64(buf, 112)),
        checksum: le64(buf, 184),
    }
}

/// The superblock fields occupy bytes 32–119 and 184–191.
pub open spec fn in_superblock_fields(k: int) -> bool {
    (32 <= k < 120) || (184 <= k < 192)
}

/// The name of the 64-bit XXH3 hash (seed 0) of a byte sequence.
pub uninterp spec fn xxh3_64_of(data: Seq<u8>) -> u64;

/// Calls `xxhash_rust::xxh3::xxh3_64`, the one-shot 64-bit XXH3 hash with
/// the default seed. Its result is a function of the bytes alone, named
/// `xxh3_64_of`; nothing more is stated of it.
#[verifier::external_body]
fn xxh3_64(data: &[u8]) -> (r: u64)
    ensures
        r == xxh3_64_of(data@),
{
    xxhash_rust::xxh3::xxh3_64(data)
}

/// A superblock page is valid: it is at least 192 bytes long, opens with
/// the magic, and its stored checksum is the hash of bytes 0–183.
pub open spec fn superblock_valid(page: Seq<u8>) -> bool {
    &&& page.len() >= 192
    &&& page.subrange(0, 14) == magic_seq()
    &&& le64(page, 184) == xxh3_64_of(page.subrange(0, 184))
}

/// The display text of a checksum mismatch.
pub open spec fn checksum_mismatch_text(stored: u64, computed: u64) -> Seq<char> {
    "superblock checksum mismatch: stored="@ + crate::text::hex_u64(stored) + ", computed="@
        + crate::text::hex_u64(computed)
}

impl Superblock {
    /// Writes the fields into bytes 32–119 and the stored checksum into
    /// bytes 184–191 of `buf`, leaving every other byte as it was.
    pub fn serialize(&self, buf: &mut [u8])
        requires
            old(buf)@.len() >= 192,
        ensures
            final(buf)@.len() == old(buf)@.len(),
            superblock_of(final(buf)@) == *self,
            forall|k: int|
                0 <= k < old(buf)@.len() && !in_superblock_fields(k) ==> #[trigger] final(buf)@[k] == old(
                    buf,
                )@[k],
    {
        let ghost s0 = buf@;
        self.put_fields(buf);
        let ghost s1 = buf@;
        put_le64(buf, SB_CHECKSUM_OFFSET, self.checksum);
        proof {
            lemma_le64_splice(s1, 184, self.checksum);
            let f = buf@;
            let b = le64_bytes(self.checksum);
            lemma_le64_outside(s1, 184, b, 32);
            lemma_le64_outside(s1, 184, b, 40);
            lemma_le64_outside(s1, 184, b, 48);
            lemma_le64_outside(s1, 184, b, 56);
            lemma_le64_outside(s1, 184, b, 64);
            lemma_le64_outside(s1, 184, b, 72);
            lemma_le64_outside(s1, 184, b, 80);
            lemma_le64_outside(s1, 184, b, 88);
            lemma_le64_outside(s1, 184, b, 96);
            lemma_le64_outside(s1, 184, b, 104);
            lemma_le64_outside(s1, 184, b, 112);
        }
    }

    fn put_fields(&self, buf: &mut [u8])
        requires
            old(buf)@.len() >= 192,
        ensures
            final(buf)@.len() == old(buf)@.len(),
            le64(final(buf)@, 32) == self.transaction_id,
            le64(final(buf)@, 40) == self.total_pages,
            le64(final(buf)@, 48) == self.feature_flags,
            le64(final(buf)@, 56) == self.root_node_store.0,
            le64(final(buf)@, 64) == self.root_edge_store.0,
            le64(final(buf)@, 72) == self.root_outgoing_adj.0,
            le64(final(buf)@, 80) == self.root_incoming_adj.0,
            le64(final(buf)@, 88) == self.root_type_index.0,
            le64(final(buf)@, 96) == self.root_schema_store.0,
            le64(final(buf)@, 104) == self.root_id_freelist.0,
            le64(final(buf)@, 112) == self.root_page_freelist.0,
            forall|k: int|
                0 <= k < old(buf)@.len() && !(32 <= k < 120) ==> #[trigger] final(buf)@[k] == old(buf)@[k],
    {
        let ghost s0 = buf@;
        let vals: [u64; 11] = [
            self.transaction_id,
            self.total_pages,
            self.feature_flags,
            self.root_node_store.0,
            self.root_edge_store.0,
            self.root_outgoing_adj.0,
            self.root_incoming_adj.0,
            self.root_type_index.0,
            self.root_schema_store.0,
            self.root_id_freelist.0,
            self.root_page_freelist.0,
        ];
        let mut i: usize = 0;
        while i < 11
            invariant
                i <= 11,
                buf@.len() == s0.len() >= 192,
                forall|j: int| 0 <= j < i ==> #[trigger] le64(buf@, 32 + 8 * j) == vals@[j],
                forall|k: int| 0 <= k < s0.len() && !(32 <= k < 32 + 8 * i) ==> #[trigger] buf@[k] == s0[k],
            decreases 11 - i,
        {
            let ghost s = buf@;
            put_le64(buf, 32 + 8 * i, vals[i]);
            proof {
                let b = le64_bytes(vals@[i as int]);
                lemma_le64_splice(s, 32 + 8 * i, vals@[i as int]);
                assert forall|j: int| 0 <= j < i + 1 implies #[trigger] le64(buf@, 32 + 8 * j) == vals@[j] by {
                    if j < i {
                        lemma_le64_outside(s, 32 + 8 * i, b, 32 + 8 * j);
                    }
                }
            }
            i = i + 1;
        }
        proof {
            assert(le64(buf@, 32 + 8 * 0int) == vals@[0]);
            assert(le64(buf@, 32 + 8 * 1int) == vals@[1]);
            assert(le64(buf@, 32 + 8 * 2int) == vals@[2]);
            assert(le64(buf@, 32 + 8 * 3int) == vals@[3]);
            assert(le64(buf@, 32 + 8 * 4int) == vals@[4]);
            assert(le64(buf@, 32 + 8 * 5int) == vals@[5]);
            assert(le64(buf@, 32 + 8 * 6int) == vals@[6]);
            assert(le64(buf@, 32 + 8 * 7int) == vals@[7]);
            assert(le64(buf@, 32 + 8 * 8int) == vals@[8]);
            assert(le64(buf@, 32 + 8 * 9int) == vals@[9]);
            assert(le64(buf@, 32 + 8 * 10int) == vals@[10]);
        }
    }

    /// Reads the fields and the stored checksum from a superblock page.
    ///
    /// Fails when `buf` is shorter than 192 bytes.
    pub fn deserialize(buf: &[u8]) -> (r: Result<Superblock, StorageError>)
        ensures
            r is Ok <==> buf@.len() >= 192,
            r matches Ok(sb) ==> sb == superblock_of(buf@),
            r matches Err(e) ==> e.message@ == "superblock buffer too short: "@ + decimal(buf@.len())
                + " bytes, need 192"@ && e.source is None,
    {
        let n = buf.len();
        if n < 192 {
            let mut m = string_of("superblock buffer too short: ");
            push_decimal(&mut m, n as u64);
            m.append(" bytes, need 192");
            return Err(StorageError { message: m, source: None });
        }
        Ok(
            Superblock {
                transaction_id: read_le64(buf, 32),
                total_pages: read_le64(buf, 40),
                feature_flags: read_le64(buf, 48),
                root_node_store: PageId(read_le64(buf, 56)),
                root_edge_store: PageId(read_le64(buf, 64)),
                root_outgoing_adj: PageId(read_le64(buf, 72)),
                root_incoming_adj: PageId(read_le64(buf, 80)),
                root_type_index: PageId(read_le64(buf, 88)),
                root_schema_store: PageId(read_le64(buf, 96)),
                root_id_freelist: PageId(read_le64(buf, 104)),
                root_page_freelist: PageId(read_le64(buf, 112)),
                checksum: read_le64(buf, SB_CHECKSUM_OFFSET),
            },
        )
    }

    /// The XXH3 hash of bytes 0–183 of a superblock page (the bytes before
    /// the checksum field).
    pub fn compute_checksum(page_buf: &[u8]) -> (r: u64)
        requires
            page_buf@.len() >= 184,
        ensures
            r == xxh3_64_of(page_buf@.subrange(0, 184)),
    {
        xxh3_64(&page_buf[0..SB_CHECKSUM_OFFSET])
    }

    /// Compares the checksum stored in bytes 184–191 with `computed`.
    ///
    /// Fails, with `superblock checksum mismatch: stored=0x…,
    /// computed=0x…` (sixteen hexadecimal digits each), when they differ.
    pub fn check_checksum(page_buf: &[u8], computed: u64) -> (r: Result<(), StorageError>)
        requires
            page_buf@.len() >= 192,
        ensures
            r is Ok <==> le64(page_buf@, 184) == computed,
            r matches Err(e) ==> e.message@ == checksum_mismatch_text(le64(page_buf@, 184), computed)
                && e.source is None,
    {
        let stored = read_le64(page_buf, SB_CHECKSUM_OFFSET);
        if stored != computed {
            let mut m = string_of("superblock checksum mismatch: stored=");
            crate::text::push_hex_u64(&mut m, stored);
            m.append(", computed=");
            crate::text::push_hex_u64(&mut m, computed);
            return Err(StorageError { message: m, source: None });
        }
        Ok(())
    }

    /// Checks a superblock page's length, magic and checksum.
    ///
    /// Fails with `superblock page too short for validation` below 192
    /// bytes, with `superblock magic bytes do not match` when the first 14
    /// bytes are not the magic, and as [`check_checksum`](Self::check_checksum)
    /// does when the stored checksum is not the hash of bytes 0–183.
    pub fn validate(page_buf: &[u8]) -> (r: Result<(), StorageError>)
        ensures
            r is Ok <==> superblock_valid(page_buf@),
            r matches Err(e) ==> e.source is None && (if page_buf@.len() < 192 {
                e.message@ == "superblock page too short for validation"@
            } else if page_buf@.subrange(0, 14) != magic_seq() {
                e.message@ == "superblock magic bytes do not match"@
            } else {
                e.message@ == checksum_mismatch_text(
                    le64(page_buf@, 184),
                    xxh3_64_of(page_buf@.subrange(0, 184)),
                )
            }),
    {
        let n = page_buf.len();
        if n < 192 {
            return Err(StorageError::new("superblock page too short for validation"));
        }
        let expected = magic();
        let mut i: usize = 0;
        while i < 14
            invariant
                i <= 14,
                n == page_buf@.len() >= 192,
                expected@ == magic_seq(),
                forall|k: int| 0 <= k < i ==> page_buf@[k] == #[trigger] expected@[k],
            decreases 14 - i,
        {
            if page_buf[i] != expected[i] {
                proof {
                    assert(page_buf@.subrange(0, 14)[i as int] != magic_seq()[i as int]);
                }
                return Err(StorageError::new("superblock magic bytes do not match"));
            }
            i = i + 1;
        }
        assert(page_buf@.subrange(0, 14) =~= magic_seq());
        let computed = Superblock::compute_checksum(page_buf);
        Superblock::check_checksum(page_buf, computed)
    }

    /// The eight B-tree root page ids in catalog order: node store, edge
    /// store, outgoing and incoming adjacency, type index, schema store, ID
    /// freelist, page freelist.
    pub fn root_page_ids(&self) -> (r: [PageId; 8])
        ensures
            r@ == seq![
                self.root_node_store,
                self.root_edge_store,
                self.root_outgoing_adj,
                self.root_incoming_adj,
                self.root_type_index,
                self.root_schema_store,
                self.root_id_freelist,
                self.root_page_freelist,
            ],
    {
        let r = [
            self.root_node_store,
            self.root_edge_store,
            self.root_outgoing_adj,
            self.root_incoming_adj,
            self.root_type_index,
            self.root_schema_store,
            self.root_id_freelist,
            self.root_page_freelist,
        ];
        assert(r@ =~= seq![
            self.root_node_store,
            self.root_edge_store,
            self.root_outgoing_adj,
            self.root_incoming_adj,
            self.root_type_index,
            self.root_schema_store,
            self.root_id_freelist,
            self.root_page_freelist,
        ]);
        r
    }

    /// The superblock of a new database: transaction 1, three pages (the
    /// two superblock pages and the schema store root), the schema store
    /// rooted at page 2 and every other tree empty.
    pub fn initial() -> (r: Superblock)
        ensures
            r == initial_superblock(),
    {
        Superblock {
            transaction_id: 1,
            total_pages: 3,
            feature_flags: 0,
            root_node_store: PageId::null(),
            root_edge_store: PageId::null(),
            root_outgoing_adj: PageId::null(),
            root_incoming_adj: PageId::null(),
            root_type_index: PageId::null(),
            root_schema_store: PageId(2),
            root_id_freelist: PageId::null(),
            root_page_freelist: PageId::null(),
            checksum: 0,
        }
    }
}

/// The superblock of a new database.
pub open spec fn initial_superblock() -> Superblock {
    Superblock {
        transaction_id: 1,
        total_pages: 3,
        feature_flags: 0,
        root_node_store: PageId(0),
        root_edge_store: PageId(0),
        root_outgoing_adj: PageId(0),
        root_incoming_adj: PageId(0),
        root_type_index: PageId(0),
        root_schema_store: PageId(2),
        root_id_freelist: PageId(0),
        root_page_freelist: PageId(0),
        checksum: 0,
    }
}

} // verus!

verus! {

// ---------------------------------------------------------------------------
// Superblock pages and database files
// ---------------------------------------------------------------------------

/// `page` is a superblock page over the identity bytes `ident`: those 32
/// bytes in bytes 0–31, the fields of `sb` with the checksum of bytes 0–183
/// in place of its stored one, and zero bytes everywhere else.
pub open spec fn superblock_page_over(page: Seq<u8>, ident: Seq<u8>, sb: Superblock, page_size: int) -> bool {
    &&& page.len() == page_size
    &&& page.subrange(0, 32) == ident
    &&& superblock_of(page) == Superblock { checksum: xxh3_64_of(page.subrange(0, 184)), ..sb }
    &&& forall|k: int| (120 <= k < 184 || 192 <= k < page_size) ==> #[trigger] page[k] == 0u8
}

/// `page` is the superblock page for `identity` and `sb` (see
/// [`superblock_page_over`]).
pub open spec fn superblock_page_image(page: Seq<u8>, identity: FileIdentityHeader, sb: Superblock, page_size: int) -> bool {
    superblock_page_over(page, identity_bytes(identity), sb, page_size)
}

/// Builds a superblock page over the 32 identity bytes `ident`.
pub(crate) fn build_superblock_page_over(ident: &[u8], superblock: &Superblock, page_size: usize) -> (r: Vec<u8>)
    requires
        page_size >= 192,
        ident@.len() == 32,
    ensures
        superblock_page_over(r@, ident@, *superblock, page_size as int),
{
    let mut page: Vec<u8> = vec![0u8; page_size];
    let ghost z = page@;
    put_bytes(page.as_mut_slice(), 0, ident);
    let ghost s1 = page@;
    superblock.serialize(page.as_mut_slice());
    let ghost s2 = page@;
    let checksum = Superblock::compute_checksum(page.as_slice());
    put_le64(page.as_mut_slice(), SB_CHECKSUM_OFFSET, checksum);
    proof {
        let f = page@;
        let ib = ident@;
        crate::codec::lemma_splice_range(z, 0, ib);
        assert(s2.subrange(0, 32) =~= s1.subrange(0, 32));
        assert(f.subrange(0, 184) =~= s2.subrange(0, 184));
        assert(f.subrange(0, 32) =~= s2.subrange(0, 32));
        lemma_le64_splice(s2, 184, checksum);
        let b = le64_bytes(checksum);
        lemma_le64_outside(s2, 184, b, 32);
        lemma_le64_outside(s2, 184, b, 40);
        lemma_le64_outside(s2, 184, b, 48);
        lemma_le64_outside(s2, 184, b, 56);
        lemma_le64_outside(s2, 184, b, 64);
        lemma_le64_outside(s2, 184, b, 72);
        lemma_le64_outside(s2, 184, b, 80);
        lemma_le64_outside(s2, 184, b, 88);
        lemma_le64_outside(s2, 184, b, 96);
        lemma_le64_outside(s2, 184, b, 104);
        lemma_le64_outside(s2, 184, b, 112);
        assert forall|k: int| (120 <= k < 184 || 192 <= k < page_size) implies #[trigger] f[k] == 0u8 by {
            assert(s2[k] == s1[k]);
            assert(s1[k] == z[k]);
        }
    }
    page
}

/// Builds a complete superblock page: identity header, fields and checksum.
pub fn build_superblock_page(
    identity_header: &FileIdentityHeader,
    superblock: &Superblock,
    page_size: usize,
) -> (r: Vec<u8>)
    requires
        page_size >= 192,
    ensures
        superblock_page_image(r@, *identity_header, *superblock, page_size as int),
{
    let mut ident: Vec<u8> = vec![0u8; 32];
    let ghost z = ident@;
    identity_header.serialize(ident.as_mut_slice());
    proof {
        crate::codec::lemma_splice_range(z, 0, identity_bytes(*identity_header));
        assert(ident@ =~= identity_bytes(*identity_header));
    }
    build_superblock_page_over(ident.as_slice(), superblock, page_size)
}

/// A superblock page over identity bytes that start with the magic is
/// valid, and reading it back gives the superblock with its checksum.
pub proof fn lemma_superblock_page_over_valid(page: Seq<u8>, ident: Seq<u8>, sb: Superblock, page_size: int)
    requires
        superblock_page_over(page, ident, sb, page_size),
        page_size >= 192,
        ident.subrange(0, 14) == magic_seq(),
    ensures
        superblock_valid(page),
        superblock_of(page) == (Superblock { checksum: xxh3_64_of(page.subrange(0, 184)), ..sb }),
{
    assert(page.subrange(0, 14) =~= page.subrange(0, 32).subrange(0, 14));
}

/// A superblock page built for an identity header carrying the magic is
/// valid, and reading it back gives the superblock with its checksum.
pub proof fn lemma_built_superblock_page_valid(
    page: Seq<u8>,
    identity: FileIdentityHeader,
    sb: Superblock,
    page_size: int,
)
    requires
        superblock_page_image(page, identity, sb, page_size),
        page_size >= 192,
        identity.magic@ == magic_seq(),
    ensures
        superblock_valid(page),
        superblock_of(page) == (Superblock { checksum: xxh3_64_of(page.subrange(0, 184)), ..sb }),
{
    assert(identity_bytes(identity).subrange(0, 14) =~= identity.magic@);
    lemma_superblock_page_over_valid(page, identity_bytes(identity), sb, page_size);
}

/// The active superblock of two superblock pages, with its slot: the valid
/// one, or, when both are valid, the one with the higher transaction id
/// (slot 0 on a tie); `None` when neither is valid.
pub open spec fn active_superblock(page_a: Seq<u8>, page_b: Seq<u8>) -> Option<(Superblock, u8)> {
    let va = superblock_valid(page_a);
    let vb = superblock_valid(page_b);
    let sa = superblock_of(page_a);
    let sb = superblock_of(page_b);
    if va && vb {
        if sa.transaction_id >= sb.transaction_id {
            Some((sa, 0u8))
        } else {
            Some((sb, 1u8))
        }
    } else if va {
        Some((sa, 0u8))
    } else if vb {
        Some((sb, 1u8))
    } else {
        None
    }
}

/// Picks the active superblock of two superblock pages.
///
/// Fails, with `both superblocks are invalid — database is corrupt`, when
/// neither page is valid.
pub fn select_superblock_pages(page_a: &[u8], page_b: &[u8]) -> (r: Result<(Superblock, u8), StorageError>)
    ensures
        match r {
            Ok(x) => active_superblock(page_a@, page_b@) == Some(x),
            Err(e) => active_superblock(page_a@, page_b@) is None && e.message@
                == "both superblocks are invalid — database is corrupt"@ && e.source is None,
        },
{
    let valid_a = Superblock::validate(page_a).is_ok();
    let valid_b = Superblock::validate(page_b).is_ok();
    if valid_a && valid_b {
        let sb_a = match Superblock::deserialize(page_a) {
            Ok(s) => s,
            Err(e) => {
                return Err(e);
            },
        };
        let sb_b = match Superblock::deserialize(page_b) {
            Ok(s) => s,
            Err(e) => {
                return Err(e);
            },
        };
        if sb_a.transaction_id >= sb_b.transaction_id {
            Ok((sb_a, 0))
        } else {
            Ok((sb_b, 1))
        }
    } else if valid_a {
        match Superblock::deserialize(page_a) {
            Ok(s) => Ok((s, 0)),
            Err(e) => Err(e),
        }
    } else if valid_b {
        match Superblock::deserialize(page_b) {
            Ok(s) => Ok((s, 1)),
            Err(e) => Err(e),
        }
    } else {
        Err(StorageError::new("both superblocks are invalid — database is corrupt"))
    }
}

/// When both superblock pages are valid, the active one carries the higher
/// transaction id, and slot 0 wins a tie.
pub proof fn lemma_active_superblock_newest(page_a: Seq<u8>, page_b: Seq<u8>)
    requires
        superblock_valid(page_a),
        superblock_valid(page_b),
    ensures
        active_superblock(page_a, page_b) matches Some((sb, slot)) && sb.transaction_id >= superblock_of(
            page_a,
        ).transaction_id && sb.transaction_id >= superblock_of(page_b).transaction_id && (slot == 0
            <==> superblock_of(page_a).transaction_id >= superblock_of(page_b).transaction_id),
{
}

/// The `i`-th page of `page_size` bytes of `contents`.
pub open spec fn page_at(contents: Seq<u8>, i: int, page_size: int) -> Seq<u8> {
    contents.subrange(i * page_size, (i + 1) * page_size)
}

/// Turns a backend error into a storage error carrying its message.
pub(crate) fn map_backend_err<E: crate::backend::StorageError>(e: E) -> (r: StorageError)
    ensures
        r.source is None,
{
    StorageError { message: e.message(), source: None }
}

/// Reads both superblock pages from `backend` and picks the active one,
/// returning it with its slot (0 or 1).
///
/// Fails when a read fails, and as [`select_superblock_pages`] does.
pub fn select_active_superblock<B: crate::backend::ReadAt>(backend: &B, page_size: usize) -> (r: Result<
    (Superblock, u8),
    StorageError,
>)
    ensures
        r matches Ok(x) ==> backend.contents().len() >= 2 * page_size && active_superblock(
            page_at(backend.contents(), 0, page_size as int),
            page_at(backend.contents(), 1, page_size as int),
        ) == Some(x),
{
    let ghost c = backend.contents();
    let mut buf_a: Vec<u8> = vec![0u8; page_size];
    let mut buf_b: Vec<u8> = vec![0u8; page_size];
    match backend.read_at(0, buf_a.as_mut_slice()) {
        Ok(()) => {},
        Err(e) => {
            return Err(map_backend_err(e));
        },
    }
    match backend.read_at(page_size as u64, buf_b.as_mut_slice()) {
        Ok(()) => {},
        Err(e) => {
            return Err(map_backend_err(e));
        },
    }
    proof {
        if page_size == 0 {
            assert(buf_a@ =~= page_at(c, 0, 0));
            assert(buf_b@ =~= page_at(c, 1, 0));
        }
    }
    select_superblock_pages(buf_a.as_slice(), buf_b.as_slice())
}

/// What opening a database file of `page_size`-byte pages whose bytes are
/// `contents` gives: `None` when the identity header is missing or carries
/// no magic, the format is newer than this reader, the page size code is
/// invalid or differs from `page_size`, or no superblock is valid; else the
/// active superblock.
pub open spec fn open_result(contents: Seq<u8>, page_size: int) -> Option<Superblock> {
    if contents.len() < 32 || contents.subrange(0, 14) != magic_seq() || be16(contents, 14) > FORMAT_MAJOR {
        None
    } else {
        match page_size_of_code(le16(contents, 22)) {
            Some(file_page_size) => if file_page_size != page_size || contents.len() < 2 * page_size {
                None
            } else {
                match active_superblock(page_at(contents, 0, page_size), page_at(contents, 1, page_size)) {
                    Some((sb, _)) => Some(sb),
                    None => None,
                }
            },
            None => None,
        }
    }
}

/// What checking the identity header bytes `h` of a file opened with
/// `page_size`-byte pages gives: the first failing check's message (too
/// short, bad magic, newer format, invalid page size code, page size
/// mismatch), or `Ok` when all pass.
pub open spec fn identity_check(h: Seq<u8>, page_size: int) -> Result<(), Seq<char>> {
    if h.len() < 32 {
        Err("identity header too short: "@ + decimal(h.len()) + " bytes, need 32"@)
    } else if h.subrange(0, 14) != magic_seq() {
        Err("invalid file identity header: magic bytes do not match"@)
    } else if be16(h, 14) > FORMAT_MAJOR {
        Err(unsupported_version_text(be16(h, 14), be16(h, 16)))
    } else {
        match page_size_of_code(le16(h, 22)) {
            None => Err("invalid page_size_raw value: "@ + decimal(le16(h, 22) as nat)),
            Some(file_page_size) => if file_page_size != page_size {
                Err(
                    "page size mismatch: file has "@ + decimal(file_page_size as nat) + ", expected "@
                        + decimal(page_size as nat),
                )
            } else {
                Ok(())
            },
        }
    }
}

/// Checks the identity header bytes `hdr` of a file to be opened with
/// `page_size`-byte pages: magic, format version, page size code, and that
/// the file's page size is `page_size`.
pub fn check_identity(hdr: &[u8], page_size: usize) -> (r: Result<(), StorageError>)
    ensures
        match identity_check(hdr@, page_size as int) {
            Ok(()) => r is Ok,
            Err(m) => r matches Err(e) && e.message@ == m && e.source is None,
        },
{
    let identity = match FileIdentityHeader::deserialize(hdr) {
        Ok(h) => h,
        Err(e) => {
            return Err(e);
        },
    };
    match identity.validate_compatible() {
        Ok(()) => {},
        Err(e) => {
            return Err(e);
        },
    }
    let file_page_size = match identity.page_size() {
        Ok(s) => s,
        Err(e) => {
            return Err(StorageError { message: e.message, source: None });
        },
    };
    if file_page_size != page_size {
        let mut m = string_of("page size mismatch: file has ");
        push_decimal(&mut m, file_page_size as u64);
        m.append(", expected ");
        push_decimal(&mut m, page_size as u64);
        return Err(StorageError { message: m, source: None });
    }
    Ok(())
}

/// Opens an existing database file: checks the identity header (magic,
/// format version, page size) and returns the active superblock.
///
/// Fails when a read fails, and otherwise as [`open_with_identity`] does on
/// the header bytes read: when the header can be read, a refused header
/// fails with the message [`check_identity`] gives (such as `page size
/// mismatch: file has {file}, expected {page_size}`).
pub fn open_database_file<B: crate::backend::ReadAt>(backend: &B, page_size: usize) -> (r: Result<
    Superblock,
    StorageError,
>)
    ensures
        r matches Ok(sb) ==> open_result(backend.contents(), page_size as int) == Some(sb),
        backend.contents().len() >= 32 && identity_check(backend.contents().subrange(0, 32), page_size as int) is Err
            ==> r is Err,
        backend.contents().len() >= 32 && backend.readable(0, 32) ==> match identity_check(
            backend.contents().subrange(0, 32),
            page_size as int,
        ) {
            Err(m) => r matches Err(e) && e.message@ == m && e.source is None,
            Ok(()) => true,
        },
{
    let ghost c = backend.contents();
    let mut hdr_buf: [u8; 32] = [0u8; 32];
    match backend.read_at(0, &mut hdr_buf) {
        Ok(()) => {},
        Err(e) => {
            return Err(map_backend_err(e));
        },
    }
    proof {
        assert(hdr_buf@ =~= c.subrange(0, 32));
    }
    open_with_identity(backend, &hdr_buf, page_size)
}

/// Opens a database file whose identity header bytes `hdr` were read from
/// `backend`: checks them as [`check_identity`] does, failing with its
/// message, then returns the active superblock.
///
/// Fails when the header is refused (with `page size mismatch: file has
/// {file}, expected {page_size}` among the messages), when a superblock read
/// fails, and when both superblocks are invalid.
pub fn open_with_identity<B: crate::backend::ReadAt>(backend: &B, hdr: &[u8], page_size: usize) -> (r: Result<
    Superblock,
    StorageError,
>)
    requires
        backend.contents().len() >= 32 ==> hdr@ == backend.contents().subrange(0, 32),
    ensures
        identity_check(hdr@, page_size as int) matches Err(m) ==> r matches Err(e) && e.message@ == m
            && e.source is None,
        r matches Ok(sb) ==> identity_check(hdr@, page_size as int) is Ok && open_result(
            backend.contents(),
            page_size as int,
        ) == Some(sb),
{
    let ghost c = backend.contents();
    match check_identity(hdr, page_size) {
        Ok(()) => {},
        Err(e) => {
            return Err(e);
        },
    }
    let (superblock, _slot) = match select_active_superblock(backend, page_size) {
        Ok(x) => x,
        Err(e) => {
            return Err(e);
        },
    };
    proof {
        let h = hdr@;
        assert(h =~= c.subrange(0, 32));
        assert(c.subrange(0, 14) =~= h.subrange(0, 14));
        assert(be16(c, 14) == be16(h, 14));
        assert(le16(c, 22) == le16(h, 22));
    }
    Ok(superblock)
}

} // verus!

verus! {

/// `h` is an identity header for a new file of `page_size`-byte pages made
/// for `application_id` (its creation time is whatever the clock gave).
pub open spec fn identity_for(h: FileIdentityHeader, page_size: int, application_id: u32) -> bool {
    &&& h.magic@ == magic_seq()
    &&& h.format_major == FORMAT_MAJOR
    &&& h.format_minor == FORMAT_MINOR
    &&& h.application_id == application_id
    &&& page_size_code(page_size) == Some(h.page_size_raw)
}

/// `contents` is a freshly created database file: three pages, the first
/// two superblock pages (transaction 1 in slot 0, transaction 0 in slot 1)
/// sharing the identity header `h`, the third the empty schema store root
/// leaf.
pub open spec fn created_file(contents: Seq<u8>, page_size: int, h: FileIdentityHeader) -> bool {
    &&& contents.len() == 3 * page_size
    &&& superblock_page_image(page_at(contents, 0, page_size), h, initial_superblock(), page_size)
    &&& superblock_page_image(
        page_at(contents, 1, page_size),
        h,
        Superblock { transaction_id: 0, ..initial_superblock() },
        page_size,
    )
    &&& crate::page::leaf::leaf_image(
        page_at(contents, 2, page_size),
        PageId(2),
        1,
        Seq::empty(),
        PageId(0),
        PageId(0),
        page_size,
    )
}

/// Creates a new database file on `backend`: both superblock pages and the
/// empty schema store root page, sized to exactly three pages, then flushed.
/// Returns the initial superblock.
///
/// Fails, as [`encode_page_size`] does, when the page size is not
/// supported, and when an operation of the backend fails.
pub fn create_database_file<B: crate::backend::StorageBackend>(
    backend: &mut B,
    page_size: usize,
    application_id: u32,
) -> (r: Result<Superblock, StorageError>)
    ensures
        page_size_code(page_size as int) is None ==> (r matches Err(e) && e.message@
            == "invalid page size: "@ + decimal(page_size as nat)) && final(backend).contents() == old(
            backend,
        ).contents(),
        r matches Ok(sb) ==> sb == initial_superblock() && exists|h: FileIdentityHeader|
            identity_for(h, page_size as int, application_id) && #[trigger] created_file(
                final(backend).contents(),
                page_size as int,
                h,
            ),
{
    let identity = match FileIdentityHeader::new(page_size, application_id) {
        Ok(h) => h,
        Err(e) => {
            return Err(e);
        },
    };
    let ps = page_size;
    let superblock = Superblock::initial();
    let sb_page_a = build_superblock_page(&identity, &superblock, ps);
    let sb_b = Superblock { transaction_id: 0, ..superblock };
    let sb_page_b = build_superblock_page(&identity, &sb_b, ps);
    let no_cells: Vec<crate::page::leaf::LeafCell> = Vec::new();
    let schema_root_page = match crate::page::leaf::LeafPage::build(
        PageId(2),
        1,
        no_cells.as_slice(),
        PageId::null(),
        PageId::null(),
        ps,
    ) {
        Ok(p) => p,
        Err(e) => {
            proof {
                assert(crate::page::leaf::cells_view(no_cells@) =~= Seq::empty());
                assert(crate::page::leaf::leaf_cells_size(Seq::empty()) == 0);
            }
            return Err(e);
        },
    };
    proof {
        assert(crate::page::leaf::cells_view(no_cells@) =~= Seq::empty());
    }
    let ghost c0 = backend.contents();
    match backend.set_len(ps as u64 * 3) {
        Ok(()) => {},
        Err(e) => {
            return Err(map_backend_err(e));
        },
    }
    let ghost c1 = backend.contents();
    match backend.write_at(0, sb_page_a.as_slice()) {
        Ok(()) => {},
        Err(e) => {
            return Err(map_backend_err(e));
        },
    }
    let ghost c2 = backend.contents();
    match backend.write_at(ps as u64, sb_page_b.as_slice()) {
        Ok(()) => {},
        Err(e) => {
            return Err(map_backend_err(e));
        },
    }
    let ghost c3 = backend.contents();
    match backend.write_at(ps as u64 * 2, schema_root_page.as_slice()) {
        Ok(()) => {},
        Err(e) => {
            return Err(map_backend_err(e));
        },
    }
    let ghost c4 = backend.contents();
    match backend.sync_all() {
        Ok(()) => {},
        Err(e) => {
            return Err(map_backend_err(e));
        },
    }
    proof {
        let p = ps as int;
        let a = sb_page_a@;
        let b = sb_page_b@;
        let l = schema_root_page@;
        assert(c1.len() == 3 * p);
        assert(c2 == splice(c1, 0, a));
        assert(c3 == splice(c2, p, b));
        assert(c4 == splice(c3, 2 * p, l));
        crate::codec::lemma_splice_range(c1, 0, a);
        crate::codec::lemma_splice_range(c2, p, b);
        crate::codec::lemma_splice_range(c3, 2 * p, l);
        crate::codec::lemma_splice_preserves_range(c2, p, b, 0, p);
        crate::codec::lemma_splice_preserves_range(c3, 2 * p, l, 0, p);
        crate::codec::lemma_splice_preserves_range(c3, 2 * p, l, p, 2 * p);
        assert(page_at(c4, 0, p) == a);
        assert(page_at(c4, 1, p) == b);
        assert(page_at(c4, 2, p) == l);
        assert(sb_b == Superblock { transaction_id: 0, ..initial_superblock() });
        assert(identity_for(identity, p, application_id));
        assert(created_file(backend.contents(), p, identity));
    }
    Ok(superblock)
}

/// Opening a freshly created database file gives the initial superblock
/// (with the checksum of its page).
pub proof fn lemma_created_file_opens(contents: Seq<u8>, page_size: int, application_id: u32, h: FileIdentityHeader)
    requires
        identity_for(h, page_size, application_id),
        created_file(contents, page_size, h),
    ensures
        open_result(contents, page_size) == Some(
            Superblock {
                checksum: xxh3_64_of(page_at(contents, 0, page_size).subrange(0, 184)),
                ..initial_superblock()
            },
        ),
{
    let a = page_at(contents, 0, page_size);
    let b = page_at(contents, 1, page_size);
    assert(page_size >= 4096);
    lemma_built_superblock_page_valid(a, h, initial_superblock(), page_size);
    lemma_built_superblock_page_valid(b, h, Superblock { transaction_id: 0, ..initial_superblock() }, page_size);
    let ib = identity_bytes(h);
    assert(contents.subrange(0, 32) =~= a.subrange(0, 32));
    assert(splice(contents, 0, ib) =~= contents);
    lemma_identity_round_trip(contents, h);
    assert(contents.subrange(0, 14) =~= contents.subrange(0, 32).subrange(0, 14));
    assert(ib.subrange(0, 14) =~= h.magic@);
    lemma_page_size_code_round_trip(page_size, h.page_size_raw);
}

} // verus!
