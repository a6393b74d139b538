//! Storage backend traits.
//!
//! A backend is a byte-addressable medium: it can be read at an offset,
//! written at an offset, resized and flushed. The traits state what each
//! operation does to the bytes the medium holds, so that code generic over
//! the backend (creating and opening database files) is verified against
//! them.
//!
//! ```text
//! StorageErrorType (error type and contents)
//!     ├── ReadAt      (&self: reads)
//!     ├── WriteAt     (&mut self: writes and resizing)
//!     └── Durability  (&mut self: flushing)
//!           └── StorageBackend = ReadAt + WriteAt + Durability
//! ```

pub mod memory;

use vstd::prelude::*;
use crate::codec::splice;
use crate::error::StorageErrorKind;

verus! {

/// `n` zero bytes.
pub open spec fn zeros(n: nat) -> Seq<u8> {
    Seq::new(n, |i: int| 0u8)
}

/// `s` cut, or extended with zero bytes, to exactly `n` bytes.
pub open spec fn resized(s: Seq<u8>, n: nat) -> Seq<u8> {
    if n <= s.len() {
        s.subrange(0, n as int)
    } else {
        s + zeros((n - s.len()) as nat)
    }
}

/// The bytes after writing `b` at `off` into `s`, the medium first growing
/// with zero bytes when the write ends past its end. An empty write changes
/// nothing.
pub open spec fn written(s: Seq<u8>, off: int, b: Seq<u8>) -> Seq<u8> {
    if b.len() == 0 {
        s
    } else if off + b.len() <= s.len() {
        splice(s, off, b)
    } else {
        splice(resized(s, (off + b.len()) as nat), off, b)
    }
}

/// Reading back a range just written gives the written bytes; the medium
/// then reaches at least the end of the write, and every byte it held
/// outside the written range is unchanged.
pub proof fn lemma_read_after_write(s: Seq<u8>, off: int, b: Seq<u8>)
    requires
        0 <= off,
        b.len() > 0,
    ensures
        written(s, off, b).len() == if off + b.len() <= s.len() { s.len() as int } else { off + b.len() },
        written(s, off, b).subrange(off, off + b.len()) == b,
        forall|k: int|
            0 <= k < s.len() && !(off <= k < off + b.len()) ==> #[trigger] written(s, off, b)[k] == s[k],
{
    let w = written(s, off, b);
    assert(w.subrange(off, off + b.len()) =~= b);
}

/// Resizing keeps the bytes below the new size and fills the rest with
/// zero bytes.
pub proof fn lemma_resized_contents(s: Seq<u8>, n: nat)
    ensures
        resized(s, n).len() == n,
        forall|k: int| 0 <= k < n ==> #[trigger] resized(s, n)[k] == if k < s.len() { s[k] } else { 0u8 },
{
}

/// An error of a storage backend, with its category.
pub trait StorageError {
    /// The category of this error.
    fn kind(&self) -> StorageErrorKind;

    /// A human-readable description of this error.
    fn message(&self) -> String;
}

/// Associates an error type with a storage medium, and names the bytes the
/// medium holds.
pub trait StorageErrorType {
    /// The error type of this backend's operations.
    type Error: StorageError;

    /// The bytes the medium currently holds.
    spec fn contents(&self) -> Seq<u8>;
}

/// Positioned reads.
pub trait ReadAt: StorageErrorType {
    /// Whether a read of `len` bytes at `offset` is sure to succeed. A
    /// medium whose reads can fail for reasons of its own (an I/O error)
    /// says so by leaving this false.
    spec fn readable(&self, offset: int, len: int) -> bool;

    /// Reads exactly `buf.len()` bytes starting at `offset`.
    ///
    /// On success the buffer holds those bytes of the medium (an empty
    /// buffer is left as it is). A read that the medium calls readable
    /// succeeds.
    fn read_at(&self, offset: u64, buf: &mut [u8]) -> (r: Result<(), Self::Error>)
        ensures
            final(buf)@.len() == old(buf)@.len(),
            self.readable(offset as int, old(buf)@.len() as int) ==> r is Ok,
            r is Ok && old(buf)@.len() > 0 ==> offset + old(buf)@.len() <= self.contents().len()
                && final(buf)@ == self.contents().subrange(offset as int, offset + old(buf)@.len()),
    ;

    /// The current size of the medium in bytes.
    fn len(&self) -> (r: Result<u64, Self::Error>)
        ensures
            r matches Ok(n) ==> n == self.contents().len(),
    ;
}

/// Positioned writes and resizing.
pub trait WriteAt: StorageErrorType {
    /// Writes all of `buf` at `offset`.
    fn write_at(&mut self, offset: u64, buf: &[u8]) -> (r: Result<(), Self::Error>)
        requires
            offset + buf@.len() <= usize::MAX,
        ensures
            r is Ok ==> final(self).contents() == written(old(self).contents(), offset as int, buf@),
    ;

    /// Sets the size of the medium to `new_size` bytes, truncating or
    /// extending with zero bytes.
    fn set_len(&mut self, new_size: u64) -> (r: Result<(), Self::Error>)
        requires
            new_size <= usize::MAX,
        ensures
            r is Ok ==> final(self).contents() == resized(old(self).contents(), new_size as nat),
    ;
}

/// Durability control.
pub trait Durability: StorageErrorType {
    /// Flushes written data to the medium.
    fn sync_data(&mut self) -> (r: Result<(), Self::Error>)
        ensures
            final(self).contents() == old(self).contents(),
    ;

    /// Flushes written data and metadata to the medium.
    fn sync_all(&mut self) -> (r: Result<(), Self::Error>)
        ensures
            final(self).contents() == old(self).contents(),
    ;
}

/// A complete storage backend: reads, writes and durability control.
pub trait StorageBackend: ReadAt + WriteAt + Durability {

}

impl<T: ReadAt + WriteAt + Durability> StorageBackend for T {

}

/// Open/create semantics for backends that manage an external resource
/// (a file, for instance).
pub trait OpenableBackend: StorageBackend + Sized {
    /// Configuration for opening or creating the backend.
    type Config;

    /// Opens an existing storage medium.
    fn open(config: Self::Config) -> Result<Self, Self::Error>;

    /// Creates a new storage medium.
    fn create(config: Self::Config) -> Result<Self, Self::Error>;

    /// Opens an existing storage medium, or creates it when opening fails.
    ///
    /// The result is what `open` gave on a clone of `config` when that
    /// succeeded, and otherwise what `create` gave on `config`.
    fn open_or_create(config: Self::Config) -> (r: Result<Self, Self::Error>) where Self::Config: Clone
        ensures
            (exists|c: Self::Config, b: Self|
                #[trigger] call_ensures(Self::open, (c,), Ok::<Self, Self::Error>(b)) && cloned(config, c) && r
                    == Ok::<Self, Self::Error>(b)) || ((exists|c: Self::Config, e: Self::Error|
                #[trigger] call_ensures(Self::open, (c,), Err::<Self, Self::Error>(e)) && cloned(config, c))
                && call_ensures(Self::create, (config,), r)),
    {
        match Self::open(config.clone()) {
            Ok(backend) => Ok(backend),
            Err(_) => Self::create(config),
        }
    }
}

} // verus!
