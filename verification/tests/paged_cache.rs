//! The paged write-back cache over the in-memory store.

use blob_store::cache::MemoryCache;
use blob_store::error::{BlobError, Error};
use blob_store::mem_store::MemoryBlobStore;
use blob_store::{BlobRange, BlobStore, DeleteOpt, GetOpt, Key, KeyLike, PutOpt};

type Cache16 = MemoryCache<MemoryBlobStore, 16>;

fn key(n: u64) -> Key {
    n.as_key()
}

fn rg(start: usize, end: usize) -> BlobRange {
    BlobRange { start, end }
}

fn cache(cap: usize) -> Cache16 {
    MemoryCache::with_capacity(MemoryBlobStore::new(), cap)
}

fn read(c: &mut Cache16, k: Key, r: BlobRange) -> Vec<u8> {
    let mut buf = vec![0u8; r.end - r.start];
    c.get(k, &mut buf, GetOpt::Range(r)).unwrap();
    buf
}

#[test]
fn split_range_shapes() {
    let segs = Cache16::split_range(rg(10, 20), 40);
    assert_eq!(segs, vec![(0usize, rg(10, 16)), (1usize, rg(16, 20))]);
    // a range inside a single unaligned page collapses to one segment
    let segs = Cache16::split_range(rg(3, 7), 40);
    assert_eq!(segs, vec![(0usize, rg(3, 7))]);
    let segs = Cache16::split_range(rg(16, 32), 40);
    assert_eq!(segs, vec![(1usize, rg(16, 32))]);
    let segs = Cache16::split_range(rg(5, 37), 40);
    assert_eq!(
        segs,
        vec![(0usize, rg(5, 16)), (1usize, rg(16, 32)), (2usize, rg(32, 37))]
    );
    let segs = Cache16::split_range(rg(8, 8), 40);
    assert_eq!(segs, vec![]);
}

#[test]
fn scenario_page_cache() {
    // page size 16, capacity 2 pages
    let mut c: Cache16 = MemoryCache::with_capacity(MemoryBlobStore::new(), 2);
    let a = key(0xA);
    let b = key(0xB);
    c.put(a, &vec![0u8; 40], PutOpt::Create).unwrap();
    assert_eq!(c.resident_pages(), 0);
    // spans page 0 [10,16) and page 1 [16,20): both become resident
    c.put(a, &vec![b'X'; 10], PutOpt::Replace(rg(10, 20))).unwrap();
    assert_eq!(c.resident_pages(), 2);
    assert_eq!(read(&mut c, a, rg(10, 20)), vec![b'X'; 10]);
    // a third distinct page forces eviction of A's least recently touched
    c.put(b, &vec![0u8; 40], PutOpt::Create).unwrap();
    c.put(b, &vec![b'Y'; 16], PutOpt::Replace(rg(0, 16))).unwrap();
    assert_eq!(c.resident_pages(), 2);
    // the evicted page of A was written back: a direct backend read shows
    // the buffered value
    let mut expect = vec![0u8; 16];
    for i in 10..16 {
        expect[i] = b'X';
    }
    let direct = c
        .backing_store()
        .get_owned(a, GetOpt::Range(rg(0, 16)))
        .unwrap();
    assert_eq!(direct, expect);
}

#[test]
fn round_trip_alignments() {
    // aligned, inside one page, crossing one boundary, whole pages,
    // and spanning three pages
    let cases = [(0usize, 16usize), (3, 7), (10, 20), (0, 40), (5, 37), (16, 32), (39, 40)];
    for (case, &(start, end)) in cases.iter().enumerate() {
        let mut c = cache(8);
        let k = key(case as u64 + 1);
        c.put(k, &vec![0u8; 40], PutOpt::Create).unwrap();
        let value: Vec<u8> = (0..end - start).map(|i| (i as u8).wrapping_add(100)).collect();
        c.put(k, &value, PutOpt::Replace(rg(start, end))).unwrap();
        assert_eq!(read(&mut c, k, rg(start, end)), value);
    }
}

#[test]
fn round_trip_survives_eviction_pressure() {
    // capacity 1 page: every segment of a multi-page write evicts the one
    // before it, yet the written range reads back exactly
    let mut c: Cache16 = MemoryCache::with_capacity(MemoryBlobStore::new(), 1);
    let k = key(42);
    c.put(k, &vec![0u8; 48], PutOpt::Create).unwrap();
    let value: Vec<u8> = (0u8..32).collect();
    c.put(k, &value, PutOpt::Replace(rg(8, 40))).unwrap();
    assert_eq!(read(&mut c, k, rg(8, 40)), value);
}

#[test]
fn eviction_writes_back_lru_page() {
    let mut c: Cache16 = MemoryCache::with_capacity(MemoryBlobStore::new(), 2);
    let k = key(5);
    c.put(k, &vec![0u8; 48], PutOpt::Create).unwrap();
    // touch pages 0 and 1 with writes, then page 2: page 0 is evicted
    c.put(k, &vec![1u8; 16], PutOpt::Replace(rg(0, 16))).unwrap();
    c.put(k, &vec![2u8; 16], PutOpt::Replace(rg(16, 32))).unwrap();
    c.put(k, &vec![3u8; 16], PutOpt::Replace(rg(32, 48))).unwrap();
    assert_eq!(c.resident_pages(), 2);
    let direct = c
        .backing_store()
        .get_owned(k, GetOpt::Range(rg(0, 16)))
        .unwrap();
    assert_eq!(direct, vec![1u8; 16]);
}

#[test]
fn partial_tail_is_clamped_on_writeback() {
    // a 20-byte blob: page 1 covers [16,32) nominally but only [16,20)
    // exists; eviction and flush truncate the write-back to the blob
    let mut c: Cache16 = MemoryCache::with_capacity(MemoryBlobStore::new(), 2);
    let k = key(11);
    c.put(k, &vec![0u8; 20], PutOpt::Create).unwrap();
    c.put(k, &vec![7u8; 4], PutOpt::Replace(rg(16, 20))).unwrap();
    c.flush().unwrap();
    assert_eq!(c.resident_pages(), 0);
    // the blob's length never changed and the tail bytes arrived
    assert_eq!(c.backing_store().meta(k).unwrap().size, 20);
    let direct = c.backing_store().get_owned(k, GetOpt::All).unwrap();
    let mut expect = vec![0u8; 20];
    for i in 16..20 {
        expect[i] = 7;
    }
    assert_eq!(direct, expect);
}

#[test]
fn delete_clears_residency() {
    let mut c = cache(4);
    let k = key(12);
    c.put(k, &vec![0u8; 40], PutOpt::Create).unwrap();
    c.put(k, &vec![9u8; 20], PutOpt::Replace(rg(0, 20))).unwrap();
    assert!(c.resident_pages() > 0);
    assert_eq!(c.delete(k, DeleteOpt::Discard).unwrap(), None);
    assert_eq!(c.resident_pages(), 0);
    assert_eq!(c.contains(k).unwrap(), false);
    assert_eq!(c.backing_store().contains(k).unwrap(), false);
}

#[test]
fn delete_with_interest_is_unsupported() {
    let mut c = cache(2);
    let k = key(13);
    c.put(k, &vec![0u8; 8], PutOpt::Create).unwrap();
    let r = c.delete(k, DeleteOpt::Interest(rg(0, 4)));
    assert!(matches!(r, Err(Error::Blob(BlobError::Unsupported))));
    // the blob is still there
    assert_eq!(c.contains(k).unwrap(), true);
}

#[test]
fn create_bypasses_the_cache() {
    let mut c = cache(4);
    let k = key(14);
    c.put(k, &vec![5u8; 64], PutOpt::Create).unwrap();
    assert_eq!(c.resident_pages(), 0);
    assert_eq!(c.backing_store().meta(k).unwrap().size, 64);
}

#[test]
fn range_violations_mutate_nothing() {
    let mut c = cache(4);
    let k = key(15);
    c.put(k, &vec![1u8; 20], PutOpt::Create).unwrap();
    let r = c.put(k, &vec![2u8; 5], PutOpt::Replace(rg(18, 23)));
    assert!(matches!(r, Err(Error::Blob(BlobError::RangeError))));
    let r = c.put(k, &vec![2u8; 3], PutOpt::Replace(rg(0, 5)));
    assert!(matches!(r, Err(Error::Blob(BlobError::RangeError))));
    let mut buf = vec![0u8; 7];
    let r = c.get(k, &mut buf, GetOpt::Range(rg(15, 22)));
    assert!(matches!(r, Err(Error::Blob(BlobError::RangeError))));
    assert_eq!(c.resident_pages(), 0);
    // nothing was written
    assert_eq!(read(&mut c, k, rg(0, 20)), vec![1u8; 20]);
}

#[test]
fn meta_and_contains_are_served_from_records() {
    let mut c = cache(4);
    let k = key(16);
    c.put(k, &vec![0u8; 24], PutOpt::Create).unwrap();
    // no record yet: answers come from the backend
    assert_eq!(c.meta(k).unwrap().size, 24);
    assert_eq!(c.resident_pages(), 0);
    // a read makes pages resident and creates the record
    let _ = read(&mut c, k, rg(0, 24));
    assert_eq!(c.resident_pages(), 2);
    assert_eq!(c.meta(k).unwrap().size, 24);
    assert_eq!(c.contains(k).unwrap(), true);
}

#[test]
fn reads_promote_pages_to_resident() {
    let mut c = cache(4);
    let k = key(17);
    let data: Vec<u8> = (0u8..32).collect();
    c.put(k, &data, PutOpt::Create).unwrap();
    // a full read faults every page in and is served exactly
    let mut buf = vec![0u8; 32];
    c.get(k, &mut buf, GetOpt::All).unwrap();
    assert_eq!(buf, data);
    assert_eq!(c.resident_pages(), 2);
    // a later partial read hits the resident pages and agrees
    assert_eq!(read(&mut c, k, rg(4, 12)), (4u8..12).collect::<Vec<u8>>());
    assert_eq!(c.resident_pages(), 2);
}

#[test]
fn flush_empties_and_persists() {
    let mut c = cache(6);
    let k = key(18);
    c.put(k, &vec![0u8; 33], PutOpt::Create).unwrap();
    c.put(k, &vec![8u8; 33], PutOpt::Replace(rg(0, 33))).unwrap();
    assert!(c.resident_pages() > 0);
    c.flush().unwrap();
    assert_eq!(c.resident_pages(), 0);
    assert_eq!(
        c.backing_store().get_owned(k, GetOpt::All).unwrap(),
        vec![8u8; 33]
    );
}
