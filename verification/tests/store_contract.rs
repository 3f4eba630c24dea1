//! The storage contract, exercised through the in-memory store.

use blob_store::error::{BlobError, Error};
use blob_store::mem_store::MemoryBlobStore;
use blob_store::{BlobRange, BlobStore, DeleteOpt, GetOpt, Key, KeyLike, PutOpt};

fn key(n: u64) -> Key {
    n.as_key()
}

#[test]
fn u64_keys_are_big_endian() {
    let k = 0x0102030405060708u64.as_key();
    assert_eq!(
        k,
        [1u8, 2, 3, 4, 5, 6, 7, 8, 0, 0, 0, 0, 0, 0, 0, 0, 0, 0, 0, 0]
    );
    let raw: Key = [9u8; 20];
    assert_eq!(raw.as_key(), raw);
}

#[test]
fn create_then_read_all() {
    let mut store = MemoryBlobStore::new();
    let data: Vec<u8> = (0u8..40).collect();
    store.put(key(1), &data, PutOpt::Create).unwrap();
    assert_eq!(store.contains(key(1)).unwrap(), true);
    assert_eq!(store.contains(key(2)).unwrap(), false);
    assert_eq!(store.meta(key(1)).unwrap().size, 40);
    let back = store.get_owned(key(1), GetOpt::All).unwrap();
    assert_eq!(back, data);
}

#[test]
fn create_twice_fails() {
    let mut store = MemoryBlobStore::new();
    store.put(key(7), &vec![1, 2, 3], PutOpt::Create).unwrap();
    let r = store.put(key(7), &vec![4, 5], PutOpt::Create);
    assert!(matches!(r, Err(Error::Blob(BlobError::AlreadyExists))));
    // the original content is untouched
    assert_eq!(store.get_owned(key(7), GetOpt::All).unwrap(), vec![1, 2, 3]);
}

#[test]
fn replace_overwrites_in_place() {
    let mut store = MemoryBlobStore::new();
    store.put(key(3), &vec![0u8; 10], PutOpt::Create).unwrap();
    store
        .put(
            key(3),
            &vec![9u8, 8, 7],
            PutOpt::Replace(BlobRange { start: 4, end: 7 }),
        )
        .unwrap();
    let back = store.get_owned(key(3), GetOpt::All).unwrap();
    assert_eq!(back, vec![0, 0, 0, 0, 9, 8, 7, 0, 0, 0]);
    assert_eq!(store.meta(key(3)).unwrap().size, 10);
}

#[test]
fn replace_validates_range() {
    let mut store = MemoryBlobStore::new();
    store.put(key(4), &vec![0u8; 10], PutOpt::Create).unwrap();
    // length mismatch
    let r = store.put(
        key(4),
        &vec![1u8, 2],
        PutOpt::Replace(BlobRange { start: 0, end: 3 }),
    );
    assert!(matches!(r, Err(Error::Blob(BlobError::RangeError))));
    // out of bounds
    let r = store.put(
        key(4),
        &vec![1u8, 2, 3],
        PutOpt::Replace(BlobRange { start: 8, end: 11 }),
    );
    assert!(matches!(r, Err(Error::Blob(BlobError::RangeError))));
    // absent key
    let r = store.put(
        key(5),
        &vec![1u8],
        PutOpt::Replace(BlobRange { start: 0, end: 1 }),
    );
    assert!(matches!(r, Err(Error::Blob(BlobError::NotFound))));
    assert_eq!(store.get_owned(key(4), GetOpt::All).unwrap(), vec![0u8; 10]);
}

#[test]
fn get_range_and_violations() {
    let mut store = MemoryBlobStore::new();
    let data: Vec<u8> = (0u8..20).collect();
    store.put(key(6), &data, PutOpt::Create).unwrap();
    let part = store
        .get_owned(key(6), GetOpt::Range(BlobRange { start: 5, end: 9 }))
        .unwrap();
    assert_eq!(part, vec![5, 6, 7, 8]);
    let mut buf = vec![0u8; 3];
    let r = store.get(key(6), &mut buf, GetOpt::Range(BlobRange { start: 18, end: 21 }));
    assert!(matches!(r, Err(Error::Blob(BlobError::RangeError))));
    let mut buf = vec![0u8; 5];
    let r = store.get(key(6), &mut buf, GetOpt::All);
    assert!(matches!(r, Err(Error::Blob(BlobError::RangeError))));
    let mut buf = vec![0u8; 2];
    let r = store.get(key(9), &mut buf, GetOpt::All);
    assert!(matches!(r, Err(Error::Blob(BlobError::NotFound))));
}

#[test]
fn get_owned_rejects_reversed_ranges() {
    let mut store = MemoryBlobStore::new();
    store.put(key(30), &vec![1u8, 2, 3], PutOpt::Create).unwrap();
    let r = store.get_owned(key(30), GetOpt::Range(BlobRange { start: 2, end: 1 }));
    assert!(matches!(r, Err(Error::Blob(BlobError::RangeError))));
    // a reversed range is rejected even for an absent key
    let r = store.get_owned(key(31), GetOpt::Range(BlobRange { start: 5, end: 0 }));
    assert!(matches!(r, Err(Error::Blob(BlobError::RangeError))));
}

#[test]
fn delete_removes_and_interest_is_unsupported() {
    let mut store = MemoryBlobStore::new();
    store.put(key(8), &vec![1u8, 2, 3], PutOpt::Create).unwrap();
    let r = store.delete(key(8), DeleteOpt::Interest(BlobRange { start: 0, end: 1 }));
    assert!(matches!(r, Err(Error::Blob(BlobError::Unsupported))));
    assert_eq!(store.delete(key(8), DeleteOpt::Discard).unwrap(), None);
    assert_eq!(store.contains(key(8)).unwrap(), false);
    let r = store.delete(key(8), DeleteOpt::Discard);
    assert!(matches!(r, Err(Error::Blob(BlobError::NotFound))));
}

#[test]
fn error_descriptions() {
    assert_eq!(
        Error::Blob(BlobError::NotFound).describe(),
        "blob not found".to_string()
    );
    assert_eq!(
        Error::Io("disk on fire".to_string()).describe(),
        "disk on fire".to_string()
    );
}
