//! Flat adapters over a [`BlobStore`]: the five contract operations keyed
//! by raw 20-byte arrays, with ranges given as an offset and the buffer's
//! length. A foreign-function bridge links against these without knowing
//! the contract's option types.

use vstd::prelude::*;

verus! {

use crate::error::Error;
use crate::{BlobRange, BlobStore, DeleteOpt, GetOpt, Key, Offset, PutOpt};

/// The local-filesystem-backed store, behind a flat byte-array interface.
pub struct LocalFileSystemBlobStoreFFI<S: BlobStore>(pub S);

impl<S: BlobStore> LocalFileSystemBlobStoreFFI<S> {
    pub fn contains(&self, key: [u8; 20]) -> (r: Result<bool, Error>)
        requires
            self.0.inv(),
        ensures
            match r {
                Ok(b) => b == self.0.blobs().contains_key(key@),
                Err(e) => e.is_opaque(),
            },
    {
        self.0.contains(key)
    }

    pub fn blob_size(&self, key: [u8; 20]) -> (r: Result<usize, Error>)
        requires
            self.0.inv(),
        ensures
            match r {
                Ok(n) => self.0.blobs().contains_key(key@) && n == self.0.blobs()[key@].len(),
                Err(e) => (e.is_not_found() || e.is_opaque()) && (e.is_not_found()
                    ==> !self.0.blobs().contains_key(key@)),
            },
    {
        match self.0.meta(key) {
            Ok(meta) => Ok(meta.size),
            Err(e) => Err(e),
        }
    }

    pub fn create(&mut self, key: [u8; 20], value: &Vec<u8>) -> (r: Result<(), Error>)
        requires
            old(self).0.inv(),
        ensures
            final(self).0.inv(),
            match r {
                Ok(()) => !old(self).0.blobs().contains_key(key@) && final(self).0.blobs() == old(
                    self,
                ).0.blobs().insert(key@, value@),
                Err(e) => final(self).0.blobs() == old(self).0.blobs() && (e.is_already_exists()
                    <==> old(self).0.blobs().contains_key(key@)),
            },
    {
        self.0.put(key, value, PutOpt::Create)
    }

    pub fn put(&mut self, key: [u8; 20], value: &Vec<u8>, offset: Offset) -> (r: Result<
        (),
        Error,
    >)
        requires
            old(self).0.inv(),
            offset + value@.len() <= usize::MAX,
        ensures
            final(self).0.inv(),
            match r {
                Ok(()) => {
                    &&& old(self).0.blobs().contains_key(key@)
                    &&& offset + value@.len() <= old(self).0.blobs()[key@].len()
                    &&& final(self).0.blobs() == old(self).0.blobs().insert(
                        key@,
                        crate::splice(old(self).0.blobs()[key@], offset as int, value@),
                    )
                },
                Err(e) => {
                    &&& final(self).0.blobs() == old(self).0.blobs()
                    &&& e.is_not_found() || e.is_range_error() || e.is_opaque()
                    &&& e.is_not_found() ==> !old(self).0.blobs().contains_key(key@)
                    &&& e.is_range_error() ==> old(self).0.blobs().contains_key(key@) && offset
                        + value@.len() > old(self).0.blobs()[key@].len()
                },
            },
    {
        let rg = BlobRange { start: offset, end: offset + value.len() };
        self.0.put(key, value, PutOpt::Replace(rg))
    }

    pub fn get_all(&self, key: [u8; 20], buf: &mut Vec<u8>) -> (r: Result<(), Error>)
        requires
            self.0.inv(),
        ensures
            final(buf)@.len() == old(buf)@.len(),
            match r {
                Ok(()) => self.0.blobs().contains_key(key@) && final(buf)@ == self.0.blobs()[key@],
                Err(e) => {
                    &&& e.is_not_found() || e.is_range_error() || e.is_opaque()
                    &&& e.is_not_found() ==> !self.0.blobs().contains_key(key@)
                    &&& e.is_range_error() ==> self.0.blobs().contains_key(key@) && old(buf)@.len()
                        != self.0.blobs()[key@].len()
                },
            },
    {
        self.0.get(key, buf, GetOpt::All)
    }

    pub fn get_offset(&self, key: [u8; 20], buf: &mut Vec<u8>, offset: Offset) -> (r: Result<
        (),
        Error,
    >)
        requires
            self.0.inv(),
            offset + old(buf)@.len() <= usize::MAX,
        ensures
            final(buf)@.len() == old(buf)@.len(),
            match r {
                Ok(()) => {
                    &&& self.0.blobs().contains_key(key@)
                    &&& offset + old(buf)@.len() <= self.0.blobs()[key@].len()
                    &&& final(buf)@ == self.0.blobs()[key@].subrange(
                        offset as int,
                        offset + old(buf)@.len(),
                    )
                },
                Err(e) => {
                    &&& e.is_not_found() || e.is_range_error() || e.is_opaque()
                    &&& e.is_not_found() ==> !self.0.blobs().contains_key(key@)
                    &&& e.is_range_error() ==> self.0.blobs().contains_key(key@) && offset + old(
                        buf,
                    )@.len() > self.0.blobs()[key@].len()
                },
            },
    {
        let rg = BlobRange { start: offset, end: offset + buf.len() };
        self.0.get(key, buf, GetOpt::Range(rg))
    }
}

/// The memory-mapped-file-backed store, behind the same flat interface,
/// with removal included.
pub struct MemMapFileStoreFFI<S: BlobStore>(pub S);

impl<S: BlobStore> MemMapFileStoreFFI<S> {
    pub fn contains(&self, key: [u8; 20]) -> (r: Result<bool, Error>)
        requires
            self.0.inv(),
        ensures
            match r {
                Ok(b) => b == self.0.blobs().contains_key(key@),
                Err(e) => e.is_opaque(),
            },
    {
        self.0.contains(key)
    }

    pub fn blob_size(&self, key: [u8; 20]) -> (r: Result<usize, Error>)
        requires
            self.0.inv(),
        ensures
            match r {
                Ok(n) => self.0.blobs().contains_key(key@) && n == self.0.blobs()[key@].len(),
                Err(e) => (e.is_not_found() || e.is_opaque()) && (e.is_not_found()
                    ==> !self.0.blobs().contains_key(key@)),
            },
    {
        match self.0.meta(key) {
            Ok(meta) => Ok(meta.size),
            Err(e) => Err(e),
        }
    }

    pub fn create(&mut self, key: [u8; 20], value: &Vec<u8>) -> (r: Result<(), Error>)
        requires
            old(self).0.inv(),
        ensures
            final(self).0.inv(),
            match r {
                Ok(()) => !old(self).0.blobs().contains_key(key@) && final(self).0.blobs() == old(
                    self,
                ).0.blobs().insert(key@, value@),
                Err(e) => final(self).0.blobs() == old(self).0.blobs() && (e.is_already_exists()
                    <==> old(self).0.blobs().contains_key(key@)),
            },
    {
        self.0.put(key, value, PutOpt::Create)
    }

    pub fn put(&mut self, key: [u8; 20], value: &Vec<u8>, offset: Offset) -> (r: Result<
        (),
        Error,
    >)
        requires
            old(self).0.inv(),
            offset + value@.len() <= usize::MAX,
        ensures
            final(self).0.inv(),
            match r {
                Ok(()) => {
                    &&& old(self).0.blobs().contains_key(key@)
                    &&& offset + value@.len() <= old(self).0.blobs()[key@].len()
                    &&& final(self).0.blobs() == old(self).0.blobs().insert(
                        key@,
                        crate::splice(old(self).0.blobs()[key@], offset as int, value@),
                    )
                },
                Err(e) => {
                    &&& final(self).0.blobs() == old(self).0.blobs()
                    &&& e.is_not_found() || e.is_range_error() || e.is_opaque()
                    &&& e.is_not_found() ==> !old(self).0.blobs().contains_key(key@)
                    &&& e.is_range_error() ==> old(self).0.blobs().contains_key(key@) && offset
                        + value@.len() > old(self).0.blobs()[key@].len()
                },
            },
    {
        let rg = BlobRange { start: offset, end: offset + value.len() };
        self.0.put(key, value, PutOpt::Replace(rg))
    }

    pub fn get_all(&self, key: [u8; 20], buf: &mut Vec<u8>) -> (r: Result<(), Error>)
        requires
            self.0.inv(),
        ensures
            final(buf)@.len() == old(buf)@.len(),
            match r {
                Ok(()) => self.0.blobs().contains_key(key@) && final(buf)@ == self.0.blobs()[key@],
                Err(e) => {
                    &&& e.is_not_found() || e.is_range_error() || e.is_opaque()
                    &&& e.is_not_found() ==> !self.0.blobs().contains_key(key@)
                    &&& e.is_range_error() ==> self.0.blobs().contains_key(key@) && old(buf)@.len()
                        != self.0.blobs()[key@].len()
                },
            },
    {
        self.0.get(key, buf, GetOpt::All)
    }

    pub fn get_offset(&self, key: [u8; 20], buf: &mut Vec<u8>, offset: Offset) -> (r: Result<
        (),
        Error,
    >)
        requires
            self.0.inv(),
            offset + old(buf)@.len() <= usize::MAX,
        ensures
            final(buf)@.len() == old(buf)@.len(),
            match r {
                Ok(()) => {
                    &&& self.0.blobs().contains_key(key@)
                    &&& offset + old(buf)@.len() <= self.0.blobs()[key@].len()
                    &&& final(buf)@ == self.0.blobs()[key@].subrange(
                        offset as int,
                        offset + old(buf)@.len(),
                    )
                },
                Err(e) => {
                    &&& e.is_not_found() || e.is_range_error() || e.is_opaque()
                    &&& e.is_not_found() ==> !self.0.blobs().contains_key(key@)
                    &&& e.is_range_error() ==> self.0.blobs().contains_key(key@) && offset + old(
                        buf,
                    )@.len() > self.0.blobs()[key@].len()
                },
            },
    {
        let rg = BlobRange { start: offset, end: offset + buf.len() };
        self.0.get(key, buf, GetOpt::Range(rg))
    }

    pub fn delete(&mut self, key: [u8; 20]) -> (r: Result<(), Error>)
        requires
            old(self).0.inv(),
        ensures
            final(self).0.inv(),
            match r {
                Ok(()) => old(self).0.blobs().contains_key(key@) && final(self).0.blobs() == old(
                    self,
                ).0.blobs().remove(key@),
                Err(e) => final(self).0.blobs() == old(self).0.blobs() && (e.is_not_found()
                    ==> !old(self).0.blobs().contains_key(key@)),
            },
    {
        match self.0.delete(key, DeleteOpt::Discard) {
            Ok(_) => Ok(()),
            Err(e) => Err(e),
        }
    }
}

} // verus!
