//! In-memory storage backend backed by a `Vec<u8>`.
//!
//! Useful for tests, for short-lived databases, and wherever no file system
//! is available. Reads beyond the current size fail; writes past the end
//! grow the storage, zero-filling any gap.

use vstd::prelude::*;
use vstd::string::StringExecFns;
use crate::error::StorageErrorKind;
use crate::text::{decimal, push_decimal, string_of};
use super::{
    Durability, ReadAt, StorageError, StorageErrorType, WriteAt, resized, written, zeros,
};

verus! {

/// Error type of the in-memory backend.
///
/// Writes to a growable vector cannot fail; the one failure is a read that
/// extends past the current size.
#[derive(Debug, Clone, Copy, PartialEq, Eq, Structural)]
pub enum MemoryError {
    /// A read was attempted beyond the current storage size.
    OutOfBounds {
        /// Byte offset of the read.
        offset: u64,
        /// Number of bytes requested.
        requested: usize,
        /// Current size of the backing storage.
        size: u64,
    },
}

/// The display text of a [`MemoryError`].
pub open spec fn memory_error_text(e: MemoryError) -> Seq<char> {
    match e {
        MemoryError::OutOfBounds { offset, requested, size } => "out of bounds: read at offset "@
            + decimal(offset as nat) + " with length "@ + decimal(requested as nat)
            + " exceeds memory size "@ + decimal(size as nat),
    }
}

impl MemoryError {
    /// The display text: `out of bounds: read at offset {offset} with length
    /// {requested} exceeds memory size {size}`.
    pub fn to_string(&self) -> (r: String)
        ensures
            r@ == memory_error_text(*self),
    {
        match self {
            MemoryError::OutOfBounds { offset, requested, size } => {
                let mut s = string_of("out of bounds: read at offset ");
                push_decimal(&mut s, *offset);
                s.append(" with length ");
                push_decimal(&mut s, *requested as u64);
                s.append(" exceeds memory size ");
                push_decimal(&mut s, *size);
                s
            },
        }
    }
}

impl StorageError for MemoryError {
    fn kind(&self) -> (r: StorageErrorKind)
        ensures
            r == StorageErrorKind::OutOfBounds,
    {
        StorageErrorKind::OutOfBounds
    }

    fn message(&self) -> (r: String)
        ensures
            r@ == memory_error_text(*self),
    {
        self.to_string()
    }
}

/// In-memory storage backend backed by a `Vec<u8>`.
pub struct MemoryBackend {
    data: Vec<u8>,
}

impl View for MemoryBackend {
    type V = Seq<u8>;

    /// The bytes held.
    closed spec fn view(&self) -> Seq<u8> {
        self.data@
    }
}

impl MemoryBackend {
    /// Creates an empty backend; it grows on writes.
    pub fn new() -> (r: MemoryBackend)
        ensures
            r@ == Seq::<u8>::empty(),
    {
        MemoryBackend { data: Vec::new() }
    }

    /// Creates a backend holding `size` zero bytes.
    pub fn with_size(size: usize) -> (r: MemoryBackend)
        ensures
            r@ == zeros(size as nat),
    {
        let data = vec![0u8; size];
        assert(data@ =~= zeros(size as nat));
        MemoryBackend { data }
    }

    /// Creates a backend holding `data`, such as a database image taken
    /// earlier with [`as_bytes`](Self::as_bytes) or
    /// [`into_bytes`](Self::into_bytes).
    pub fn from_bytes(data: Vec<u8>) -> (r: MemoryBackend)
        ensures
            r@ == data@,
    {
        MemoryBackend { data }
    }

    /// The bytes held.
    pub fn as_bytes(&self) -> (r: &[u8])
        ensures
            r@ == self@,
    {
        self.data.as_slice()
    }

    /// Consumes the backend and returns the bytes held.
    pub fn into_bytes(self) -> (r: Vec<u8>)
        ensures
            r@ == self@,
    {
        self.data
    }
}

impl Default for MemoryBackend {
    fn default() -> (r: MemoryBackend)
        ensures
            r@ == Seq::<u8>::empty(),
    {
        MemoryBackend::new()
    }
}

impl StorageErrorType for MemoryBackend {
    type Error = MemoryError;

    open spec fn contents(&self) -> Seq<u8> {
        self@
    }
}

impl ReadAt for MemoryBackend {
    /// A read is sure to succeed when it ends within the medium.
    open spec fn readable(&self, offset: int, len: int) -> bool {
        offset + len <= self@.len()
    }

    /// Reads exactly `buf.len()` bytes starting at `offset`.
    ///
    /// An empty buffer succeeds at any offset. A read that ends past the
    /// current size, or whose end overflows, fails with `OutOfBounds` and
    /// leaves the buffer as it was.
    fn read_at(&self, offset: u64, buf: &mut [u8]) -> (r: Result<(), MemoryError>)
        ensures
            old(buf)@.len() == 0 ==> r is Ok && final(buf)@ == old(buf)@,
            old(buf)@.len() > 0 ==> (r is Ok <==> offset + old(buf)@.len() <= self@.len()),
            r is Err ==> final(buf)@ == old(buf)@,
            r matches Err(e) ==> e == (MemoryError::OutOfBounds {
                offset,
                requested: old(buf)@.len() as usize,
                size: self@.len() as u64,
            }),
    {
        let n = buf.len();
        if n == 0 {
            return Ok(());
        }
        let size = self.data.len();
        let end = match offset.checked_add(n as u64) {
            Some(e) => e,
            None => {
                return Err(MemoryError::OutOfBounds { offset, requested: n, size: size as u64 });
            },
        };
        if end > size as u64 {
            return Err(MemoryError::OutOfBounds { offset, requested: n, size: size as u64 });
        }
        let start = offset as usize;
        let mut i: usize = 0;
        while i < n
            invariant
                i <= n == buf@.len() == old(buf)@.len(),
                start + n <= self.data@.len() == size,
                start == offset,
                forall|k: int| 0 <= k < i ==> #[trigger] buf@[k] == self.data@[start + k],
            decreases n - i,
        {
            buf[i] = self.data[start + i];
            i = i + 1;
        }
        assert(buf@ =~= self@.subrange(offset as int, offset + n));
        Ok(())
    }

    /// The current size in bytes; never fails.
    fn len(&self) -> (r: Result<u64, MemoryError>)
        ensures
            r == Ok::<u64, MemoryError>(self@.len() as u64),
    {
        Ok(self.data.len() as u64)
    }
}

impl WriteAt for MemoryBackend {
    /// Writes all of `buf` at `offset`, first growing the storage with zero
    /// bytes when the write ends past the current size. Never fails.
    fn write_at(&mut self, offset: u64, buf: &[u8]) -> (r: Result<(), MemoryError>)
        ensures
            r is Ok,
            final(self)@ == written(old(self)@, offset as int, buf@),
    {
        let n = buf.len();
        if n == 0 {
            return Ok(());
        }
        let start = offset as usize;
        let end = start + n;
        let ghost s0 = self.data@;
        if end > self.data.len() {
            self.data.resize(end, 0u8);
            proof {
                assert forall|k: int| s0.len() <= k < end implies #[trigger] self.data@[k] == 0u8 by {
                    assert(vstd::pervasive::cloned::<u8>(0u8, self.data@[k]));
                }
                assert(self.data@ =~= resized(s0, end as nat));
            }
        }
        let ghost s1 = self.data@;
        let mut i: usize = 0;
        while i < n
            invariant
                i <= n == buf@.len(),
                start == offset,
                end == start + n,
                self.data@.len() == s1.len(),
                end <= s1.len(),
                forall|k: int| 0 <= k < s1.len() ==> #[trigger] self.data@[k] == (if start <= k < start + i {
                    buf@[k - start]
                } else {
                    s1[k]
                }),
            decreases n - i,
        {
            self.data.set(start + i, buf[i]);
            i = i + 1;
        }
        assert(self.data@ =~= crate::codec::splice(s1, offset as int, buf@));
        Ok(())
    }

    /// Sets the size to `new_size` bytes, truncating or extending with zero
    /// bytes. Never fails.
    fn set_len(&mut self, new_size: u64) -> (r: Result<(), MemoryError>)
        ensures
            r is Ok,
            final(self)@ == resized(old(self)@, new_size as nat),
    {
        let ghost s0 = self.data@;
        self.data.resize(new_size as usize, 0u8);
        proof {
            if new_size > s0.len() {
                assert forall|k: int| s0.len() <= k < new_size implies #[trigger] self.data@[k] == 0u8 by {
                    assert(vstd::pervasive::cloned::<u8>(0u8, self.data@[k]));
                }
            }
            assert(self.data@ =~= resized(s0, new_size as nat));
        }
        Ok(())
    }
}

impl Durability for MemoryBackend {
    /// Nothing to flush: writes are visible at once. Never fails.
    fn sync_data(&mut self) -> (r: Result<(), MemoryError>)
        ensures
            r is Ok,
    {
        Ok(())
    }

    /// Nothing to flush: writes are visible at once. Never fails.
    fn sync_all(&mut self) -> (r: Result<(), MemoryError>)
        ensures
            r is Ok,
    {
        Ok(())
    }
}

} // verus!
