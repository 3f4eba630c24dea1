//! Key-addressed blob storage with a page-granular, write-back cache.
//!
//! The heart of the crate is the [`BlobStore`] contract — the behavioral
//! interface every storage backend satisfies — together with
//! [`cache::MemoryCache`], a paged write-back cache that wraps any such
//! backend, and [`pool::ResourcePool`], a bounded least-recently-used pool
//! of expensive-to-create handles.

use vstd::prelude::*;

pub mod cache;
pub mod error;
pub mod ffi;
pub mod mem_store;
mod page_lru;
pub mod pool;

verus! {

use crate::error::Error;

/// Fixed 20-byte identifier of a blob.
pub type Key = [u8; 20];

/// A byte offset within a blob.
pub type Offset = usize;

/// Metadata of a blob: its current logical length in bytes.
#[derive(Clone, Copy, Debug, PartialEq, Eq, Structural)]
pub struct BlobMeta {
    pub size: usize,
}

/// A half-open byte interval `[start, end)` within a blob.
#[derive(Clone, Copy, Debug, PartialEq, Eq, Structural)]
pub struct BlobRange {
    pub start: usize,
    pub end: usize,
}

impl BlobRange {
    /// Not reversed, and fully contained in `[0, size)` as a half-open range.
    pub open spec fn is_valid_for(&self, size: int) -> bool {
        self.start <= self.end && self.end <= size
    }

    pub open spec fn spec_len(&self) -> int {
        self.end - self.start
    }

    pub fn len(&self) -> (n: usize)
        requires
            self.start <= self.end,
        ensures
            n == self.spec_len(),
    {
        self.end - self.start
    }

    /// Whether a blob of length `size` contains this range.
    pub fn check_within(&self, size: usize) -> (ok: bool)
        ensures
            ok == self.is_valid_for(size as int),
    {
        self.start <= self.end && self.end <= size
    }
}

/// `s` with `v` written over the positions `[at, at + v.len())`.
pub open spec fn splice(s: Seq<u8>, at: int, v: Seq<u8>) -> Seq<u8> {
    Seq::new(s.len(), |i: int| if at <= i < at + v.len() { v[i - at] } else { s[i] })
}

/// Equality of two keys, byte for byte.
pub fn key_eq(a: &Key, b: &Key) -> (r: bool)
    ensures
        r == (a@ == b@),
{
    let mut i: usize = 0;
    while i < 20
        invariant
            i <= 20,
            forall|j: int| 0 <= j < i ==> a@[j] == b@[j],
        decreases 20 - i,
    {
        if a[i] != b[i] {
            assert(a@[i as int] != b@[i as int]);
            return false;
        }
        i += 1;
    }
    proof {
        assert(a@ =~= b@);
    }
    true
}

/// Byte `i` (big-endian, most significant first) of a 64-bit integer.
pub open spec fn u64_be_byte(n: u64, i: int) -> u8 {
    (n >> ((8 * (7 - i)) as u64)) as u8
}

/// A value that can serve as a blob key.
pub trait KeyLike {
    /// The 20 bytes this value stands for.
    spec fn key_spec(&self) -> Seq<u8>;

    fn as_key(&self) -> (k: Key)
        ensures
            k@ == self.key_spec(),
    ;
}

/// A 64-bit integer keys a blob by its big-endian bytes written into the
/// low-order 8 bytes of the key, the remainder zero-filled.
impl KeyLike for u64 {
    open spec fn key_spec(&self) -> Seq<u8> {
        Seq::new(20, |i: int| if i < 8 { u64_be_byte(*self, i) } else { 0u8 })
    }

    fn as_key(&self) -> (k: Key) {
        let n: u64 = *self;
        let mut k: Key = [0u8; 20];
        k[0] = (n >> 56u64) as u8;
        k[1] = #[verifier::truncate] ((n >> 48u64) as u8);
        k[2] = #[verifier::truncate] ((n >> 40u64) as u8);
        k[3] = #[verifier::truncate] ((n >> 32u64) as u8);
        k[4] = #[verifier::truncate] ((n >> 24u64) as u8);
        k[5] = #[verifier::truncate] ((n >> 16u64) as u8);
        k[6] = #[verifier::truncate] ((n >> 8u64) as u8);
        k[7] = #[verifier::truncate] (n as u8);
        proof {
            assert(k@ =~= self.key_spec()) by {
                assert(n >> 56u64 == n >> ((8 * (7 - 0)) as u64));
                assert(n >> 48u64 == n >> ((8 * (7 - 1)) as u64));
                assert(n >> 40u64 == n >> ((8 * (7 - 2)) as u64));
                assert(n >> 32u64 == n >> ((8 * (7 - 3)) as u64));
                assert(n >> 24u64 == n >> ((8 * (7 - 4)) as u64));
                assert(n >> 16u64 == n >> ((8 * (7 - 5)) as u64));
                assert(n >> 8u64 == n >> ((8 * (7 - 6)) as u64));
                assert(n == n >> ((8 * (7 - 7)) as u64)) by (bit_vector);
            }
        }
        k
    }
}

/// A raw 20-byte value is its own key.
impl KeyLike for Key {
    open spec fn key_spec(&self) -> Seq<u8> {
        self@
    }

    fn as_key(&self) -> (k: Key) {
        *self
    }
}

/// How `BlobStore::put` addresses a blob.
#[derive(Debug, Clone, Copy)]
pub enum PutOpt {
    /// Create the blob if it doesn't exist, fail if it does.
    Create,
    /// Replace the bytes of the given range if the blob exists, fail if it
    /// doesn't; the blob's length never changes.
    Replace(BlobRange),
}

/// How `BlobStore::get` addresses a blob.
#[derive(Debug, Clone, Copy)]
pub enum GetOpt {
    /// Get all the content of the blob.
    All,
    /// Get a range of the blob.
    Range(BlobRange),
}

/// How `BlobStore::delete` treats the removed content.
#[derive(Debug, Clone, Copy)]
pub enum DeleteOpt {
    /// Delete the blob and return the content of the given range.
    Interest(BlobRange),
    /// Delete the blob and discard its content.
    Discard,
}

/// The behavioral contract every blob store backend satisfies.
///
/// The abstract state is `blobs()`: the bytes of each stored blob, by key.
/// Conditions the store's rules decide (`NotFound`, `AlreadyExists`,
/// `RangeError`, `Unsupported`) are reported as such and leave the state
/// unchanged; opaque `Io`/`Other` failures of the medium may happen on any
/// operation but also leave `blobs()` unchanged — a conforming backend
/// applies each single operation atomically or not at all.
pub trait BlobStore {
    /// Abstract state: each stored blob's bytes, by key. Backends outside
    /// the verified world leave this at its unspecified default.
    open spec fn blobs(&self) -> Map<Seq<u8>, Seq<u8>> {
        arbitrary()
    }

    /// The backend's internal well-formedness, established by its
    /// constructor and preserved by every operation.
    open spec fn inv(&self) -> bool {
        arbitrary()
    }

    /// Whether `key` addresses a stored blob; fails only on an opaque fault.
    fn contains(&self, key: Key) -> (r: Result<bool, Error>)
        requires
            self.inv(),
        ensures
            match r {
                Ok(b) => b == self.blobs().contains_key(key@),
                Err(e) => e.is_opaque(),
            },
    ;

    /// The blob's metadata; `NotFound` if absent.
    fn meta(&self, key: Key) -> (r: Result<BlobMeta, Error>)
        requires
            self.inv(),
        ensures
            match r {
                Ok(m) => self.blobs().contains_key(key@) && m.size == self.blobs()[key@].len(),
                Err(e) => {
                    &&& e.is_not_found() || e.is_opaque()
                    &&& e.is_not_found() ==> !self.blobs().contains_key(key@)
                },
            },
    ;

    /// Create a blob of exactly `value`, or overwrite a range of an
    /// existing blob in place.
    fn put(&mut self, key: Key, value: &Vec<u8>, opt: PutOpt) -> (r: Result<(), Error>)
        requires
            old(self).inv(),
        ensures
            final(self).inv(),
            match r {
                Ok(()) => match opt {
                    PutOpt::Create => !old(self).blobs().contains_key(key@) && final(self).blobs()
                        == old(self).blobs().insert(key@, value@),
                    PutOpt::Replace(rg) => {
                        &&& old(self).blobs().contains_key(key@)
                        &&& rg.is_valid_for(old(self).blobs()[key@].len() as int)
                        &&& rg.spec_len() == value@.len()
                        &&& final(self).blobs() == old(self).blobs().insert(
                            key@,
                            splice(old(self).blobs()[key@], rg.start as int, value@),
                        )
                    },
                },
                Err(e) => {
                    &&& final(self).blobs() == old(self).blobs()
                    &&& match opt {
                        PutOpt::Create => {
                            &&& e.is_already_exists() || e.is_opaque()
                            &&& old(self).blobs().contains_key(key@) <==> e.is_already_exists()
                        },
                        PutOpt::Replace(rg) => {
                            &&& e.is_not_found() || e.is_range_error() || e.is_opaque()
                            &&& e.is_not_found() ==> !old(self).blobs().contains_key(key@)
                            &&& e.is_range_error() ==> old(self).blobs().contains_key(key@) && !(
                            rg.is_valid_for(old(self).blobs()[key@].len() as int)
                                && rg.spec_len() == value@.len())
                        },
                    }
                },
            },
    ;

    /// Read the whole blob (`All`: `buf` must be exactly the blob's length)
    /// or a range of it (`Range`: `buf` must be exactly the range's length).
    fn get(&self, key: Key, buf: &mut Vec<u8>, opt: GetOpt) -> (r: Result<(), Error>)
        requires
            self.inv(),
        ensures
            final(buf)@.len() == old(buf)@.len(),
            match r {
                Ok(()) => {
                    &&& self.blobs().contains_key(key@)
                    &&& match opt {
                        GetOpt::All => old(buf)@.len() == self.blobs()[key@].len() && final(buf)@
                            == self.blobs()[key@],
                        GetOpt::Range(rg) => {
                            &&& rg.is_valid_for(self.blobs()[key@].len() as int)
                            &&& rg.spec_len() == old(buf)@.len()
                            &&& final(buf)@ == self.blobs()[key@].subrange(
                                rg.start as int,
                                rg.end as int,
                            )
                        },
                    }
                },
                Err(e) => {
                    &&& e.is_not_found() || e.is_range_error() || e.is_opaque()
                    &&& e.is_not_found() ==> !self.blobs().contains_key(key@)
                    &&& e.is_range_error() ==> self.blobs().contains_key(key@) && match opt {
                        GetOpt::All => old(buf)@.len() != self.blobs()[key@].len(),
                        GetOpt::Range(rg) => !(rg.is_valid_for(self.blobs()[key@].len() as int)
                            && rg.spec_len() == old(buf)@.len()),
                    }
                },
            },
    ;

    /// Remove the blob. `Interest` returns the removed bytes of the given
    /// range where the backend supports it; backends that do not must fail
    /// with `Unsupported`.
    fn delete(&mut self, key: Key, opt: DeleteOpt) -> (r: Result<Option<Vec<u8>>, Error>)
        requires
            old(self).inv(),
        ensures
            final(self).inv(),
            match r {
                Ok(ret) => {
                    &&& old(self).blobs().contains_key(key@)
                    &&& final(self).blobs() == old(self).blobs().remove(key@)
                    &&& match opt {
                        DeleteOpt::Discard => ret is None,
                        DeleteOpt::Interest(rg) => match ret {
                            Some(v) => rg.is_valid_for(old(self).blobs()[key@].len() as int) && v@
                                == old(self).blobs()[key@].subrange(rg.start as int, rg.end as int),
                            None => false,
                        },
                    }
                },
                Err(e) => {
                    &&& final(self).blobs() == old(self).blobs()
                    &&& e.is_not_found() || e.is_range_error() || e.is_unsupported()
                        || e.is_opaque()
                    &&& e.is_not_found() ==> !old(self).blobs().contains_key(key@)
                    &&& e.is_unsupported() || e.is_range_error() ==> opt matches DeleteOpt::Interest(_)
                },
            },
    ;

    /// Read the whole blob, or a range of it, into a fresh buffer of the
    /// right length.
    fn get_owned(&self, key: Key, opt: GetOpt) -> (r: Result<Vec<u8>, Error>)
        requires
            self.inv(),
        ensures
            match r {
                Ok(v) => {
                    &&& self.blobs().contains_key(key@)
                    &&& match opt {
                        GetOpt::All => v@ == self.blobs()[key@],
                        GetOpt::Range(rg) => rg.is_valid_for(self.blobs()[key@].len() as int) && v@
                            == self.blobs()[key@].subrange(rg.start as int, rg.end as int),
                    }
                },
                Err(e) => {
                    &&& e.is_not_found() || e.is_range_error() || e.is_opaque()
                    &&& e.is_not_found() ==> !self.blobs().contains_key(key@)
                    &&& e.is_range_error() ==> match opt {
                        GetOpt::All => false,
                        GetOpt::Range(rg) => rg.start > rg.end || (self.blobs().contains_key(
                            key@,
                        ) && !rg.is_valid_for(self.blobs()[key@].len() as int)),
                    }
                },
            },
            (opt matches GetOpt::Range(rg) && rg.start > rg.end) ==> r == Err::<Vec<u8>, Error>(
                Error::Blob(crate::error::BlobError::RangeError),
            ),
    {
        let len: usize = match &opt {
            GetOpt::All => match self.meta(key) {
                Ok(m) => m.size,
                Err(e) => {
                    return Err(e);
                },
            },
            GetOpt::Range(rg) => {
                if !(rg.start <= rg.end) {
                    // A reversed range can never be valid for any size.
                    return Err(Error::Blob(crate::error::BlobError::RangeError));
                }
                rg.end - rg.start
            },
        };
        let mut buf: Vec<u8> = vec![0u8; len];
        match self.get(key, &mut buf, opt) {
            Ok(()) => Ok(buf),
            Err(e) => Err(e),
        }
    }
}

/// Copy `len` bytes of `src` starting at `src_off` into `dst` starting at
/// `dst_off`; the rest of `dst` is unchanged.
pub fn copy_range(dst: &mut Vec<u8>, dst_off: usize, src: &Vec<u8>, src_off: usize, len: usize)
    requires
        dst_off + len <= old(dst)@.len(),
        src_off + len <= src@.len(),
    ensures
        final(dst)@ == splice(
            old(dst)@,
            dst_off as int,
            src@.subrange(src_off as int, src_off + len),
        ),
{
    let dst_len: usize = dst.len();
    let src_len: usize = src.len();
    let mut i: usize = 0;
    while i < len
        invariant
            i <= len,
            dst_off + len <= dst_len,
            src_off + len <= src_len,
            dst_len == old(dst)@.len(),
            src_len == src@.len(),
            dst@.len() == old(dst)@.len(),
            forall|j: int|
                0 <= j < old(dst)@.len() && !(dst_off <= j < dst_off + i) ==> dst@[j] == old(
                    dst,
                )@[j],
            forall|j: int| 0 <= j < i ==> #[trigger] dst@[dst_off + j] == src@[src_off + j],
        decreases len - i,
    {
        dst[dst_off + i] = src[src_off + i];
        i += 1;
    }
    proof {
        let spliced = splice(old(dst)@, dst_off as int, src@.subrange(src_off as int, src_off + len));
        assert forall|j: int| 0 <= j < old(dst)@.len() implies dst@[j] == spliced[j] by {
            if dst_off <= j < dst_off + len {
                assert(dst@[dst_off + (j - dst_off)] == src@[src_off + (j - dst_off)]);
            }
        }
        assert(dst@ =~= spliced);
    }
}

/// A fresh buffer holding `src[from..to]`.
pub fn subvec(src: &Vec<u8>, from: usize, to: usize) -> (out: Vec<u8>)
    requires
        from <= to,
        to <= src@.len(),
    ensures
        out@ == src@.subrange(from as int, to as int),
{
    let mut out: Vec<u8> = Vec::new();
    let mut i: usize = from;
    while i < to
        invariant
            from <= i <= to,
            to <= src@.len(),
            out@ == src@.subrange(from as int, i as int),
        decreases to - i,
    {
        out.push(src[i]);
        proof {
            assert(out@ =~= src@.subrange(from as int, i + 1));
        }
        i += 1;
    }
    proof {
        assert(out@ =~= src@.subrange(from as int, to as int));
    }
    out
}

} // verus!
