//! CRC-32C (Castagnoli), the checksum of data pages.

use vstd::prelude::*;

verus! {

/// The reflected CRC-32C polynomial.
pub const CRC32C_POLY: u32 = 0x82F6_3B78u32;

/// One bit step of the reflected CRC register.
pub open spec fn crc_bit(c: u32) -> u32 {
    if c & 1u32 == 1u32 {
        (c >> 1u32) ^ 0x82F6_3B78u32
    } else {
        c >> 1u32
    }
}

/// The register after absorbing one byte.
pub open spec fn crc_byte(crc: u32, b: u8) -> u32 {
    let c0 = crc ^ (b as u32);
    crc_bit(crc_bit(crc_bit(crc_bit(crc_bit(crc_bit(crc_bit(crc_bit(c0))))))))
}

/// The register after absorbing `data`, starting from `crc`.
pub open spec fn crc_fold(crc: u32, data: Seq<u8>) -> u32
    decreases data.len(),
{
    if data.len() == 0 {
        crc
    } else {
        crc_byte(crc_fold(crc, data.drop_last()), data.last())
    }
}

/// The CRC-32C of `data`.
pub open spec fn crc32c(data: Seq<u8>) -> u32 {
    !crc_fold(0xFFFF_FFFFu32, data)
}

/// Absorbing a concatenation is absorbing its parts in turn.
pub proof fn lemma_crc_fold_concat(crc: u32, a: Seq<u8>, b: Seq<u8>)
    ensures
        crc_fold(crc, a + b) == crc_fold(crc_fold(crc, a), b),
    decreases b.len(),
{
    if b.len() == 0 {
        assert(a + b =~= a);
    } else {
        lemma_crc_fold_concat(crc, a, b.drop_last());
        assert((a + b).drop_last() =~= a + b.drop_last());
        assert((a + b).last() == b.last());
    }
}

fn bit_step(c: u32) -> (r: u32)
    ensures
        r == crc_bit(c),
{
    if c & 1u32 == 1u32 {
        (c >> 1u32) ^ CRC32C_POLY
    } else {
        c >> 1u32
    }
}

fn byte_step(crc: u32, b: u8) -> (r: u32)
    ensures
        r == crc_byte(crc, b),
{
    let mut c = crc ^ (b as u32);
    c = bit_step(c);
    c = bit_step(c);
    c = bit_step(c);
    c = bit_step(c);
    c = bit_step(c);
    c = bit_step(c);
    c = bit_step(c);
    c = bit_step(c);
    c
}

/// Absorbs `data[start..end]` into the register `crc`.
pub fn crc_update(crc: u32, data: &[u8], start: usize, end: usize) -> (r: u32)
    requires
        start <= end <= data@.len(),
    ensures
        r == crc_fold(crc, data@.subrange(start as int, end as int)),
{
    let mut c = crc;
    let mut i = start;
    while i < end
        invariant
            start <= i <= end <= data@.len(),
            c == crc_fold(crc, data@.subrange(start as int, i as int)),
        decreases end - i,
    {
        let ghost prev = data@.subrange(start as int, i as int);
        c = byte_step(c, data[i]);
        i = i + 1;
        assert(data@.subrange(start as int, i as int).drop_last() =~= prev);
    }
    c
}

} // verus!
