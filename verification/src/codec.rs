//! Little- and big-endian integer encodings over byte sequences.
//!
//! Every on-disk structure of the database is made of fixed-width integers
//! placed at known offsets. The spec functions here say what it means for a
//! byte sequence to hold a given integer at a given offset; the executable
//! readers and writers are proved against them.

use vstd::prelude::*;

verus! {

/// The sequence `s` with `bytes` written over it starting at `off`
/// (positions outside `s` are dropped).
pub open spec fn splice(s: Seq<u8>, off: int, bytes: Seq<u8>) -> Seq<u8> {
    Seq::new(s.len(), |i: int| if off <= i < off + bytes.len() { bytes[i - off] } else { s[i] })
}

// ---- little endian ----

pub open spec fn u16_of_le(b0: u8, b1: u8) -> u16 {
    ((b0 as u16) | ((b1 as u16) << 8u16)) as u16
}

pub open spec fn u32_of_le(b0: u8, b1: u8, b2: u8, b3: u8) -> u32 {
    ((b0 as u32) | ((b1 as u32) << 8u32) | ((b2 as u32) << 16u32) | ((b3 as u32) << 24u32)) as u32
}

pub open spec fn u64_of_le(b0: u8, b1: u8, b2: u8, b3: u8, b4: u8, b5: u8, b6: u8, b7: u8) -> u64 {
    ((b0 as u64) | ((b1 as u64) << 8u64) | ((b2 as u64) << 16u64) | ((b3 as u64) << 24u64)
        | ((b4 as u64) << 32u64) | ((b5 as u64) << 40u64) | ((b6 as u64) << 48u64) | ((b7
        as u64) << 56u64)) as u64
}

/// The little-endian `u16` stored at `off` in `s`.
pub open spec fn le16(s: Seq<u8>, off: int) -> u16 {
    u16_of_le(s[off], s[off + 1])
}

/// The little-endian `u32` stored at `off` in `s`.
pub open spec fn le32(s: Seq<u8>, off: int) -> u32 {
    u32_of_le(s[off], s[off + 1], s[off + 2], s[off + 3])
}

/// The little-endian `u64` stored at `off` in `s`.
pub open spec fn le64(s: Seq<u8>, off: int) -> u64 {
    u64_of_le(s[off], s[off + 1], s[off + 2], s[off + 3], s[off + 4], s[off + 5], s[off + 6], s[off + 7])
}

/// The two little-endian bytes of `v`.
pub open spec fn le16_bytes(v: u16) -> Seq<u8> {
    seq![v as u8, (v >> 8u16) as u8]
}

/// The four little-endian bytes of `v`.
pub open spec fn le32_bytes(v: u32) -> Seq<u8> {
    seq![v as u8, (v >> 8u32) as u8, (v >> 16u32) as u8, (v >> 24u32) as u8]
}

/// The eight little-endian bytes of `v`.
pub open spec fn le64_bytes(v: u64) -> Seq<u8> {
    seq![
        v as u8,
        (v >> 8u64) as u8,
        (v >> 16u64) as u8,
        (v >> 24u64) as u8,
        (v >> 32u64) as u8,
        (v >> 40u64) as u8,
        (v >> 48u64) as u8,
        (v >> 56u64) as u8,
    ]
}

// ---- big endian ----

/// The big-endian `u16` stored at `off` in `s`.
pub open spec fn be16(s: Seq<u8>, off: int) -> u16 {
    u16_of_le(s[off + 1], s[off])
}

/// The big-endian `u32` stored at `off` in `s`.
pub open spec fn be32(s: Seq<u8>, off: int) -> u32 {
    u32_of_le(s[off + 3], s[off + 2], s[off + 1], s[off])
}

/// The big-endian `u64` stored at `off` in `s`.
pub open spec fn be64(s: Seq<u8>, off: int) -> u64 {
    u64_of_le(s[off + 7], s[off + 6], s[off + 5], s[off + 4], s[off + 3], s[off + 2], s[off + 1], s[off])
}

/// The two big-endian bytes of `v`.
pub open spec fn be16_bytes(v: u16) -> Seq<u8> {
    seq![(v >> 8u16) as u8, v as u8]
}

/// The four big-endian bytes of `v`.
pub open spec fn be32_bytes(v: u32) -> Seq<u8> {
    seq![(v >> 24u32) as u8, (v >> 16u32) as u8, (v >> 8u32) as u8, v as u8]
}

/// The eight big-endian bytes of `v`.
pub open spec fn be64_bytes(v: u64) -> Seq<u8> {
    seq![
        (v >> 56u64) as u8,
        (v >> 48u64) as u8,
        (v >> 40u64) as u8,
        (v >> 32u64) as u8,
        (v >> 24u64) as u8,
        (v >> 16u64) as u8,
        (v >> 8u64) as u8,
        v as u8,
    ]
}

// ---- round-trip facts ----

pub proof fn lemma_u16_round_trip(v: u16)
    ensures
        u16_of_le(v as u8, (v >> 8u16) as u8) == v,
{
    assert(((v as u8) as u16 | (((v >> 8u16) as u8) as u16) << 8u16) == v) by (bit_vector);
}

pub proof fn lemma_u32_round_trip(v: u32)
    ensures
        u32_of_le(v as u8, (v >> 8u32) as u8, (v >> 16u32) as u8, (v >> 24u32) as u8) == v,
{
    assert(((v as u8) as u32 | (((v >> 8u32) as u8) as u32) << 8u32 | (((v >> 16u32) as u8) as u32)
        << 16u32 | (((v >> 24u32) as u8) as u32) << 24u32) == v) by (bit_vector);
}

pub proof fn lemma_u64_round_trip(v: u64)
    ensures
        u64_of_le(
            v as u8,
            (v >> 8u64) as u8,
            (v >> 16u64) as u8,
            (v >> 24u64) as u8,
            (v >> 32u64) as u8,
            (v >> 40u64) as u8,
            (v >> 48u64) as u8,
            (v >> 56u64) as u8,
        ) == v,
{
    assert(((v as u8) as u64 | (((v >> 8u64) as u8) as u64) << 8u64 | (((v >> 16u64) as u8) as u64)
        << 16u64 | (((v >> 24u64) as u8) as u64) << 24u64 | (((v >> 32u64) as u8) as u64) << 32u64
        | (((v >> 40u64) as u8) as u64) << 40u64 | (((v >> 48u64) as u8) as u64) << 48u64 | (((v
        >> 56u64) as u8) as u64) << 56u64) == v) by (bit_vector);
}

/// Reading back an integer just written gives the integer.
pub proof fn lemma_le16_splice(s: Seq<u8>, off: int, v: u16)
    requires
        0 <= off,
        off + 2 <= s.len(),
    ensures
        le16(splice(s, off, le16_bytes(v)), off) == v,
{
    lemma_u16_round_trip(v);
}

pub proof fn lemma_le32_splice(s: Seq<u8>, off: int, v: u32)
    requires
        0 <= off,
        off + 4 <= s.len(),
    ensures
        le32(splice(s, off, le32_bytes(v)), off) == v,
{
    lemma_u32_round_trip(v);
}

pub proof fn lemma_le64_splice(s: Seq<u8>, off: int, v: u64)
    requires
        0 <= off,
        off + 8 <= s.len(),
    ensures
        le64(splice(s, off, le64_bytes(v)), off) == v,
{
    lemma_u64_round_trip(v);
}

pub proof fn lemma_be32_bytes(v: u32)
    ensures
        be32(be32_bytes(v), 0) == v,
{
    lemma_u32_round_trip(v);
}

pub proof fn lemma_be64_bytes(v: u64)
    ensures
        be64(be64_bytes(v), 0) == v,
{
    lemma_u64_round_trip(v);
}

// ---- executable readers ----

/// Reads the little-endian `u16` at `off`.
pub fn read_le16(s: &[u8], off: usize) -> (r: u16)
    requires
        off + 2 <= s@.len(),
    ensures
        r == le16(s@, off as int),
{
    let _len = s.len();
    (s[off] as u16) | ((s[off + 1] as u16) << 8u16)
}

/// Reads the little-endian `u32` at `off`.
pub fn read_le32(s: &[u8], off: usize) -> (r: u32)
    requires
        off + 4 <= s@.len(),
    ensures
        r == le32(s@, off as int),
{
    let _len = s.len();
    (s[off] as u32) | ((s[off + 1] as u32) << 8u32) | ((s[off + 2] as u32) << 16u32) | ((s[off
        + 3] as u32) << 24u32)
}

/// Reads the little-endian `u64` at `off`.
pub fn read_le64(s: &[u8], off: usize) -> (r: u64)
    requires
        off + 8 <= s@.len(),
    ensures
        r == le64(s@, off as int),
{
    let _len = s.len();
    (s[off] as u64) | ((s[off + 1] as u64) << 8u64) | ((s[off + 2] as u64) << 16u64) | ((s[off
        + 3] as u64) << 24u64) | ((s[off + 4] as u64) << 32u64) | ((s[off + 5] as u64) << 40u64)
        | ((s[off + 6] as u64) << 48u64) | ((s[off + 7] as u64) << 56u64)
}

/// Reads the big-endian `u16` at `off`.
pub fn read_be16(s: &[u8], off: usize) -> (r: u16)
    requires
        off + 2 <= s@.len(),
    ensures
        r == be16(s@, off as int),
{
    let _len = s.len();
    (s[off + 1] as u16) | ((s[off] as u16) << 8u16)
}

/// Reads the big-endian `u32` at `off`.
pub fn read_be32(s: &[u8], off: usize) -> (r: u32)
    requires
        off + 4 <= s@.len(),
    ensures
        r == be32(s@, off as int),
{
    let _len = s.len();
    (s[off + 3] as u32) | ((s[off + 2] as u32) << 8u32) | ((s[off + 1] as u32) << 16u32) | ((s[off]
        as u32) << 24u32)
}

/// Reads the big-endian `u64` at `off`.
pub fn read_be64(s: &[u8], off: usize) -> (r: u64)
    requires
        off + 8 <= s@.len(),
    ensures
        r == be64(s@, off as int),
{
    let _len = s.len();
    (s[off + 7] as u64) | ((s[off + 6] as u64) << 8u64) | ((s[off + 5] as u64) << 16u64) | ((s[off
        + 4] as u64) << 24u64) | ((s[off + 3] as u64) << 32u64) | ((s[off + 2] as u64) << 40u64)
        | ((s[off + 1] as u64) << 48u64) | ((s[off] as u64) << 56u64)
}

// ---- executable writers ----

/// Copies `bytes` into `buf` starting at `off`.
pub fn write_bytes(buf: &mut Vec<u8>, off: usize, bytes: &[u8])
    requires
        off + bytes@.len() <= old(buf)@.len(),
    ensures
        final(buf)@ == splice(old(buf)@, off as int, bytes@),
{
    let _len = buf.len();
    let mut i: usize = 0;
    while i < bytes.len()
        invariant
            i <= bytes@.len(),
            off + bytes@.len() <= old(buf)@.len(),
            old(buf)@.len() <= usize::MAX,
            buf@.len() == old(buf)@.len(),
            forall|j: int|
                0 <= j < buf@.len() ==> #[trigger] buf@[j] == (if off <= j < off + i {
                    bytes@[j - off]
                } else {
                    old(buf)@[j]
                }),
        decreases bytes@.len() - i,
    {
        buf.set(off + i, bytes[i]);
        i = i + 1;
    }
    assert(buf@ =~= splice(old(buf)@, off as int, bytes@));
}

/// Writes `v` little-endian at `off`.
pub fn write_le16(buf: &mut Vec<u8>, off: usize, v: u16)
    requires
        off + 2 <= old(buf)@.len(),
    ensures
        final(buf)@ == splice(old(buf)@, off as int, le16_bytes(v)),
{
    let _len = buf.len();
    buf.set(off, v as u8);
    buf.set(off + 1, (v >> 8u16) as u8);
    assert(buf@ =~= splice(old(buf)@, off as int, le16_bytes(v)));
}

/// Writes `v` little-endian at `off`.
pub fn write_le32(buf: &mut Vec<u8>, off: usize, v: u32)
    requires
        off + 4 <= old(buf)@.len(),
    ensures
        final(buf)@ == splice(old(buf)@, off as int, le32_bytes(v)),
{
    let _len = buf.len();
    buf.set(off, v as u8);
    buf.set(off + 1, (v >> 8u32) as u8);
    buf.set(off + 2, (v >> 16u32) as u8);
    buf.set(off + 3, (v >> 24u32) as u8);
    assert(buf@ =~= splice(old(buf)@, off as int, le32_bytes(v)));
}

/// Writes `v` little-endian at `off`.
pub fn write_le64(buf: &mut Vec<u8>, off: usize, v: u64)
    requires
        off + 8 <= old(buf)@.len(),
    ensures
        final(buf)@ == splice(old(buf)@, off as int, le64_bytes(v)),
{
    let _len = buf.len();
    buf.set(off, v as u8);
    buf.set(off + 1, (v >> 8u64) as u8);
    buf.set(off + 2, (v >> 16u64) as u8);
    buf.set(off + 3, (v >> 24u64) as u8);
    buf.set(off + 4, (v >> 32u64) as u8);
    buf.set(off + 5, (v >> 40u64) as u8);
    buf.set(off + 6, (v >> 48u64) as u8);
    buf.set(off + 7, (v >> 56u64) as u8);
    assert(buf@ =~= splice(old(buf)@, off as int, le64_bytes(v)));
}

/// Writes `v` big-endian at `off`.
pub fn write_be32(buf: &mut Vec<u8>, off: usize, v: u32)
    requires
        off + 4 <= old(buf)@.len(),
    ensures
        final(buf)@ == splice(old(buf)@, off as int, be32_bytes(v)),
{
    let _len = buf.len();
    buf.set(off, (v >> 24u32) as u8);
    buf.set(off + 1, (v >> 16u32) as u8);
    buf.set(off + 2, (v >> 8u32) as u8);
    buf.set(off + 3, v as u8);
    assert(buf@ =~= splice(old(buf)@, off as int, be32_bytes(v)));
}

/// Writes `v` big-endian at `off`.
pub fn write_be64(buf: &mut Vec<u8>, off: usize, v: u64)
    requires
        off + 8 <= old(buf)@.len(),
    ensures
        final(buf)@ == splice(old(buf)@, off as int, be64_bytes(v)),
{
    let _len = buf.len();
    buf.set(off, (v >> 56u64) as u8);
    buf.set(off + 1, (v >> 48u64) as u8);
    buf.set(off + 2, (v >> 40u64) as u8);
    buf.set(off + 3, (v >> 32u64) as u8);
    buf.set(off + 4, (v >> 24u64) as u8);
    buf.set(off + 5, (v >> 16u64) as u8);
    buf.set(off + 6, (v >> 8u64) as u8);
    buf.set(off + 7, v as u8);
    assert(buf@ =~= splice(old(buf)@, off as int, be64_bytes(v)));
}

/// Copies `s[start..start + len]` into a fresh vector.
pub fn copy_range(s: &[u8], start: usize, len: usize) -> (r: Vec<u8>)
    requires
        start + len <= s@.len(),
    ensures
        r@ == s@.subrange(start as int, start + len),
{
    let _len = s.len();
    let mut r: Vec<u8> = Vec::with_capacity(len);
    let mut i: usize = 0;
    while i < len
        invariant
            i <= len,
            start + len <= s@.len(),
            s@.len() <= usize::MAX,
            r@ == s@.subrange(start as int, start + i),
        decreases len - i,
    {
        r.push(s[start + i]);
        i = i + 1;
        assert(r@ =~= s@.subrange(start as int, start + i));
    }
    r
}

} // verus!

verus! {

/// Writing two pieces one after the other is writing their concatenation.
pub proof fn lemma_splice_concat(s: Seq<u8>, off: int, a: Seq<u8>, b: Seq<u8>)
    ensures
        splice(splice(s, off, a), off + a.len(), b) == splice(s, off, a + b),
{
    assert(splice(splice(s, off, a), off + a.len(), b) =~= splice(s, off, a + b));
}

/// A write leaves every range it does not touch as it was.
pub proof fn lemma_splice_preserves_range(s: Seq<u8>, off: int, b: Seq<u8>, lo: int, hi: int)
    requires
        0 <= lo <= hi <= s.len(),
        hi <= off || off + b.len() <= lo,
    ensures
        splice(s, off, b).subrange(lo, hi) == s.subrange(lo, hi),
{
    assert(splice(s, off, b).subrange(lo, hi) =~= s.subrange(lo, hi));
}

/// After a write, the written range holds the written bytes.
pub proof fn lemma_splice_range(s: Seq<u8>, off: int, b: Seq<u8>)
    requires
        0 <= off,
        off + b.len() <= s.len(),
    ensures
        splice(s, off, b).subrange(off, off + b.len()) == b,
        splice(s, off, b).len() == s.len(),
{
    assert(splice(s, off, b).subrange(off, off + b.len()) =~= b);
}

/// Reading an integer out of a range known to hold an encoding.
pub proof fn lemma_le16_of_range(s: Seq<u8>, off: int, b: Seq<u8>, k: int)
    requires
        0 <= off,
        0 <= k,
        k + 2 <= b.len(),
        off + b.len() <= s.len(),
        s.subrange(off, off + b.len()) == b,
    ensures
        le16(s, off + k) == le16(b, k),
{
    assert(s[off + k] == s.subrange(off, off + b.len())[k]);
    assert(s[off + k + 1] == s.subrange(off, off + b.len())[k + 1]);
}

pub proof fn lemma_le32_of_range(s: Seq<u8>, off: int, b: Seq<u8>, k: int)
    requires
        0 <= off,
        0 <= k,
        k + 4 <= b.len(),
        off + b.len() <= s.len(),
        s.subrange(off, off + b.len()) == b,
    ensures
        le32(s, off + k) == le32(b, k),
{
    assert(s[off + k] == s.subrange(off, off + b.len())[k]);
    assert(s[off + k + 1] == s.subrange(off, off + b.len())[k + 1]);
    assert(s[off + k + 2] == s.subrange(off, off + b.len())[k + 2]);
    assert(s[off + k + 3] == s.subrange(off, off + b.len())[k + 3]);
}

pub proof fn lemma_le64_of_range(s: Seq<u8>, off: int, b: Seq<u8>, k: int)
    requires
        0 <= off,
        0 <= k,
        k + 8 <= b.len(),
        off + b.len() <= s.len(),
        s.subrange(off, off + b.len()) == b,
    ensures
        le64(s, off + k) == le64(b, k),
{
    assert(s[off + k] == s.subrange(off, off + b.len())[k]);
    assert(s[off + k + 1] == s.subrange(off, off + b.len())[k + 1]);
    assert(s[off + k + 2] == s.subrange(off, off + b.len())[k + 2]);
    assert(s[off + k + 3] == s.subrange(off, off + b.len())[k + 3]);
    assert(s[off + k + 4] == s.subrange(off, off + b.len())[k + 4]);
    assert(s[off + k + 5] == s.subrange(off, off + b.len())[k + 5]);
    assert(s[off + k + 6] == s.subrange(off, off + b.len())[k + 6]);
    assert(s[off + k + 7] == s.subrange(off, off + b.len())[k + 7]);
}

/// A sub-piece of a range known to hold `b` holds the matching piece of `b`.
pub proof fn lemma_subrange_of_range(s: Seq<u8>, off: int, b: Seq<u8>, lo: int, hi: int)
    requires
        0 <= off,
        0 <= lo <= hi <= b.len(),
        off + b.len() <= s.len(),
        s.subrange(off, off + b.len()) == b,
    ensures
        s.subrange(off + lo, off + hi) == b.subrange(lo, hi),
{
    assert forall|j: int| 0 <= j < hi - lo implies s.subrange(off + lo, off + hi)[j] == b.subrange(
        lo,
        hi,
    )[j] by {
        assert(s[off + lo + j] == s.subrange(off, off + b.len())[lo + j]);
    }
    assert(s.subrange(off + lo, off + hi) =~= b.subrange(lo, hi));
}

} // verus!

verus! {

// ---- executable writers over fixed-length buffers ----

/// Writes `bytes` into `buf` starting at `off`.
pub fn put_bytes(buf: &mut [u8], off: usize, bytes: &[u8])
    requires
        off + bytes@.len() <= old(buf)@.len(),
    ensures
        final(buf)@ == splice(old(buf)@, off as int, bytes@),
{
    let n = bytes.len();
    let blen = buf.len();
    let mut i: usize = 0;
    while i < n
        invariant
            i <= n == bytes@.len(),
            off + n <= buf@.len() == blen,
            buf@.len() == old(buf)@.len(),
            forall|k: int| 0 <= k < buf@.len() ==> #[trigger] buf@[k] == (if off <= k < off + i { bytes@[k - off] } else { old(buf)@[k] }),
        decreases n - i,
    {
        buf[off + i] = bytes[i];
        i = i + 1;
    }
    assert(buf@ =~= splice(old(buf)@, off as int, bytes@));
}

/// Writes `v` little-endian at `off`.
pub fn put_le16(buf: &mut [u8], off: usize, v: u16)
    requires
        off + 2 <= old(buf)@.len(),
    ensures
        final(buf)@ == splice(old(buf)@, off as int, le16_bytes(v)),
{
    buf[off] = v as u8;
    buf[off + 1] = (v >> 8u16) as u8;
    assert(buf@ =~= splice(old(buf)@, off as int, le16_bytes(v)));
}

/// Writes `v` little-endian at `off`.
pub fn put_le32(buf: &mut [u8], off: usize, v: u32)
    requires
        off + 4 <= old(buf)@.len(),
    ensures
        final(buf)@ == splice(old(buf)@, off as int, le32_bytes(v)),
{
    buf[off] = v as u8;
    buf[off + 1] = (v >> 8u32) as u8;
    buf[off + 2] = (v >> 16u32) as u8;
    buf[off + 3] = (v >> 24u32) as u8;
    assert(buf@ =~= splice(old(buf)@, off as int, le32_bytes(v)));
}

/// Writes `v` little-endian at `off`.
pub fn put_le64(buf: &mut [u8], off: usize, v: u64)
    requires
        off + 8 <= old(buf)@.len(),
    ensures
        final(buf)@ == splice(old(buf)@, off as int, le64_bytes(v)),
{
    buf[off] = v as u8;
    buf[off + 1] = (v >> 8u64) as u8;
    buf[off + 2] = (v >> 16u64) as u8;
    buf[off + 3] = (v >> 24u64) as u8;
    buf[off + 4] = (v >> 32u64) as u8;
    buf[off + 5] = (v >> 40u64) as u8;
    buf[off + 6] = (v >> 48u64) as u8;
    buf[off + 7] = (v >> 56u64) as u8;
    assert(buf@ =~= splice(old(buf)@, off as int, le64_bytes(v)));
}

/// Writes `v` big-endian at `off`.
pub fn put_be16(buf: &mut [u8], off: usize, v: u16)
    requires
        off + 2 <= old(buf)@.len(),
    ensures
        final(buf)@ == splice(old(buf)@, off as int, be16_bytes(v)),
{
    buf[off] = (v >> 8u16) as u8;
    buf[off + 1] = v as u8;
    assert(buf@ =~= splice(old(buf)@, off as int, be16_bytes(v)));
}

/// A write leaves the little-endian integers outside it as they were.
pub proof fn lemma_le64_outside(s: Seq<u8>, off: int, b: Seq<u8>, at: int)
    requires
        0 <= at,
        at + 8 <= s.len(),
        at + 8 <= off || off + b.len() <= at,
    ensures
        le64(splice(s, off, b), at) == le64(s, at),
{
}

} // verus!
