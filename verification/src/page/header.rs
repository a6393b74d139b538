//! The 24-byte header common to all data pages.
//!
//! | Offset | Size | Field     | Encoding |
//! |--------|------|-----------|----------|
//! | 0      | 8    | page_id   | u64 LE   |
//! | 8      | 1    | page_type | u8       |
//! | 9      | 1    | flags     | u8       |
//! | 10     | 2    | reserved  | zero     |
//! | 12     | 8    | txn_id    | u64 LE   |
//! | 20     | 4    | checksum  | u32 LE (CRC-32C of the page without this field) |

use vstd::prelude::*;
use crate::codec::{le32, le32_bytes, le64, le64_bytes, lemma_le32_splice, read_le32, read_le64, splice, write_le32, write_le64};
use crate::crc32c::{crc32c, crc_update, lemma_crc_fold_concat};
use crate::error::StorageError;
use super::{page_type_byte, page_type_from_byte, page_type_of, PageId, PageType, COMMON_HEADER_SIZE};

verus! {

/// The common header of a data page.
#[derive(Clone, Copy, Debug, PartialEq, Eq, Structural)]
pub struct CommonPageHeader {
    /// The page's own identifier.
    pub page_id: PageId,
    /// What the page holds.
    pub page_type: PageType,
    /// Page flags (bit 0: is-leaf).
    pub flags: u8,
    /// The transaction that wrote the page.
    pub txn_id: u64,
    /// CRC-32C of the page with this field left out.
    pub checksum: u32,
}

/// The bytes a page's checksum covers: all of it but bytes 20..24.
pub open spec fn checksum_input(page: Seq<u8>) -> Seq<u8> {
    page.subrange(0, 20) + page.subrange(24, page.len() as int)
}

/// The checksum a page should carry.
pub open spec fn page_checksum(page: Seq<u8>) -> u32 {
    crc32c(checksum_input(page))
}

/// The header a page's first 24 bytes encode, if its type byte is known.
pub open spec fn header_of(page: Seq<u8>) -> Option<CommonPageHeader> {
    match page_type_of(page[8]) {
        Some(t) => Some(
            CommonPageHeader {
                page_id: PageId(le64(page, 0)),
                page_type: t,
                flags: page[9],
                txn_id: le64(page, 12),
                checksum: le32(page, 20),
            },
        ),
        None => None,
    }
}

/// The 24 bytes that encode a header.
pub open spec fn header_bytes(h: CommonPageHeader) -> Seq<u8> {
    le64_bytes(h.page_id.0) + seq![page_type_byte(h.page_type), h.flags, 0u8, 0u8] + le64_bytes(
        h.txn_id,
    ) + le32_bytes(h.checksum)
}

impl CommonPageHeader {
    /// Writes this header into the first 24 bytes of `buf`.
    pub fn serialize(&self, buf: &mut Vec<u8>)
        requires
            old(buf)@.len() >= COMMON_HEADER_SIZE,
        ensures
            final(buf)@ == splice(old(buf)@, 0, header_bytes(*self)),
    {
        write_le64(buf, 0, self.page_id.0);
        buf.set(8, self.page_type.as_u8());
        buf.set(9, self.flags);
        buf.set(10, 0);
        buf.set(11, 0);
        write_le64(buf, 12, self.txn_id);
        write_le32(buf, 20, self.checksum);
        assert(buf@ =~= splice(old(buf)@, 0, header_bytes(*self)));
    }

    /// Reads a header from the first 24 bytes of `buf`.
    ///
    /// Fails if `buf` is shorter than 24 bytes or the type byte is unknown.
    pub fn deserialize(buf: &[u8]) -> (r: Result<CommonPageHeader, StorageError>)
        ensures
            buf@.len() < COMMON_HEADER_SIZE ==> r is Err,
            buf@.len() >= COMMON_HEADER_SIZE ==> match r {
                Ok(h) => header_of(buf@) == Some(h),
                Err(_) => header_of(buf@) is None,
            },
    {
        if buf.len() < COMMON_HEADER_SIZE {
            return Err(StorageError::new("page header too short"));
        }
        match page_type_from_byte(buf[8]) {
            Some(t) => Ok(
                CommonPageHeader {
                    page_id: PageId(read_le64(buf, 0)),
                    page_type: t,
                    flags: buf[9],
                    txn_id: read_le64(buf, 12),
                    checksum: read_le32(buf, 20),
                },
            ),
            None => Err(StorageError::new("unknown page type")),
        }
    }

    /// Computes the CRC-32C of a page with its checksum field left out.
    pub fn compute_checksum(page: &[u8]) -> (r: u32)
        requires
            page@.len() >= COMMON_HEADER_SIZE,
        ensures
            r == page_checksum(page@),
    {
        let c1 = crc_update(0xFFFF_FFFFu32, page, 0, 20);
        let c2 = crc_update(c1, page, 24, page.len());
        proof {
            lemma_crc_fold_concat(
                0xFFFF_FFFFu32,
                page@.subrange(0, 20),
                page@.subrange(24, page@.len() as int),
            );
        }
        !c2
    }

    /// Checks the page's stored checksum against its contents.
    pub fn validate_checksum(page: &[u8]) -> (r: Result<(), StorageError>)
        ensures
            r is Ok <==> (page@.len() >= COMMON_HEADER_SIZE && le32(page@, 20) == page_checksum(
                page@,
            )),
    {
        if page.len() < COMMON_HEADER_SIZE {
            return Err(StorageError::new("page too short for checksum validation"));
        }
        let stored = read_le32(page, 20);
        let computed = Self::compute_checksum(page);
        if stored != computed {
            return Err(StorageError::new("page checksum mismatch"));
        }
        Ok(())
    }
}

/// Fills in the checksum field of a page whose other bytes are final.
pub fn seal_page(page: &mut Vec<u8>)
    requires
        old(page)@.len() >= COMMON_HEADER_SIZE,
    ensures
        final(page)@ == splice(old(page)@, 20, le32_bytes(page_checksum(old(page)@))),
        le32(final(page)@, 20) == page_checksum(final(page)@),
{
    let c = CommonPageHeader::compute_checksum(page.as_slice());
    write_le32(page, 20, c);
    proof {
        lemma_le32_splice(old(page)@, 20, c);
        assert(checksum_input(page@) =~= checksum_input(old(page)@));
    }
}

} // verus!
