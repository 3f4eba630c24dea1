//! The bounded resource pool and the flat store adapters.

use blob_store::ffi::{LocalFileSystemBlobStoreFFI, MemMapFileStoreFFI};
use blob_store::mem_store::MemoryBlobStore;
use blob_store::pool::ResourcePool;
use blob_store::KeyLike;

#[test]
fn pool_get_or_create_and_eviction_order() {
    let mut pool: ResourcePool<String> = ResourcePool::with_capacity(2);
    assert!(pool.get(&b"a".to_vec()).is_none());
    assert!(pool.insert(b"a".to_vec(), "handle-a".to_string()).is_none());
    assert!(pool.insert(b"b".to_vec(), "handle-b".to_string()).is_none());
    assert_eq!(pool.len(), 2);
    // a hit promotes "a", so "b" is now the least recently used
    assert_eq!(pool.get(&b"a".to_vec()).unwrap(), "handle-a");
    let evicted = pool.insert(b"c".to_vec(), "handle-c".to_string()).unwrap();
    assert_eq!(evicted.0, b"b".to_vec());
    assert_eq!(evicted.1, "handle-b".to_string());
    assert!(pool.get(&b"b".to_vec()).is_none());
    assert_eq!(pool.get(&b"a".to_vec()).unwrap(), "handle-a");
    assert_eq!(pool.get(&b"c".to_vec()).unwrap(), "handle-c");
    assert_eq!(pool.len(), 2);
}

#[test]
fn local_fs_adapter_round_trip() {
    let mut ffi = LocalFileSystemBlobStoreFFI(MemoryBlobStore::new());
    let k = 21u64.as_key();
    ffi.create(k, &vec![0u8; 12]).unwrap();
    assert_eq!(ffi.contains(k).unwrap(), true);
    assert_eq!(ffi.blob_size(k).unwrap(), 12);
    ffi.put(k, &vec![3u8, 4, 5], 6).unwrap();
    let mut buf = vec![0u8; 3];
    ffi.get_offset(k, &mut buf, 6).unwrap();
    assert_eq!(buf, vec![3, 4, 5]);
    let mut all = vec![0u8; 12];
    ffi.get_all(k, &mut all).unwrap();
    assert_eq!(all, vec![0, 0, 0, 0, 0, 0, 3, 4, 5, 0, 0, 0]);
}

#[test]
fn memmap_adapter_round_trip_and_delete() {
    let mut ffi = MemMapFileStoreFFI(MemoryBlobStore::new());
    let k = 22u64.as_key();
    ffi.create(k, &vec![7u8; 8]).unwrap();
    ffi.put(k, &vec![1u8, 2], 0).unwrap();
    let mut all = vec![0u8; 8];
    ffi.get_all(k, &mut all).unwrap();
    assert_eq!(all, vec![1, 2, 7, 7, 7, 7, 7, 7]);
    ffi.delete(k).unwrap();
    assert_eq!(ffi.contains(k).unwrap(), false);
}
