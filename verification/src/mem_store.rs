//! An in-memory blob store: the reference implementer of the
//! [`BlobStore`] contract, useful on its own and as the backend under
//! test for the paged cache.

use vstd::prelude::*;

verus! {

use crate::error::{BlobError, Error};
use crate::{copy_range, key_eq, splice, subvec, BlobMeta, BlobStore, DeleteOpt, GetOpt, Key,
    PutOpt};

/// One entry per stored blob, keys distinct.
type Entry = (Key, Vec<u8>);

pub(crate) open spec fn distinct_keys(es: Seq<Entry>) -> bool {
    forall|i: int, j: int| 0 <= i < j < es.len() ==> es[i].0@ != es[j].0@
}

pub(crate) open spec fn has_key(es: Seq<Entry>, k: Seq<u8>) -> bool {
    exists|i: int| 0 <= i < es.len() && es[i].0@ == k
}

pub(crate) open spec fn idx_of(es: Seq<Entry>, k: Seq<u8>) -> int {
    choose|i: int| 0 <= i < es.len() && es[i].0@ == k
}

/// The association list as a map from key bytes to blob bytes.
pub(crate) open spec fn entries_map(es: Seq<Entry>) -> Map<Seq<u8>, Seq<u8>> {
    Map::new(|k: Seq<u8>| has_key(es, k), |k: Seq<u8>| es[idx_of(es, k)].1@)
}

/// With distinct keys, the index of a key is the only witness.
proof fn lemma_idx_unique(es: Seq<Entry>, i: int)
    requires
        distinct_keys(es),
        0 <= i < es.len(),
    ensures
        has_key(es, es[i].0@),
        idx_of(es, es[i].0@) == i,
{
    let k = es[i].0@;
    assert(has_key(es, k));
    let j = idx_of(es, k);
    if j != i {
        if j < i {
            assert(es[j].0@ != es[i].0@);
        } else {
            assert(es[i].0@ != es[j].0@);
        }
    }
}

/// Appending an entry with a fresh key inserts it into the map view.
proof fn lemma_push_fresh(es: Seq<Entry>, e: Entry)
    requires
        distinct_keys(es),
        !has_key(es, e.0@),
    ensures
        distinct_keys(es.push(e)),
        entries_map(es.push(e)) == entries_map(es).insert(e.0@, e.1@),
{
    let es2 = es.push(e);
    assert forall|i: int, j: int| 0 <= i < j < es2.len() implies es2[i].0@ != es2[j].0@ by {
        if j == es.len() {
            assert(es2[i] == es[i]);
            if es[i].0@ == e.0@ {
                assert(has_key(es, e.0@));
            }
        }
    }
    assert forall|k: Seq<u8>| true implies #[trigger] has_key(es2, k) == (has_key(es, k) || k
        == e.0@) by {
        if has_key(es2, k) {
            let i = choose|i: int| 0 <= i < es2.len() && es2[i].0@ == k;
            if i < es.len() {
                assert(es[i].0@ == k);
                assert(has_key(es, k));
            }
        }
        if has_key(es, k) {
            let i = choose|i: int| 0 <= i < es.len() && es[i].0@ == k;
            assert(es2[i].0@ == k);
        }
        if k == e.0@ {
            assert(es2[es.len() as int].0@ == k);
        }
    }
    assert forall|k: Seq<u8>| has_key(es2, k) implies entries_map(es2)[k] == entries_map(
        es,
    ).insert(e.0@, e.1@)[k] by {
        if k == e.0@ {
            lemma_idx_unique(es2, es.len() as int);
        } else {
            let i = choose|i: int| 0 <= i < es.len() && es[i].0@ == k;
            lemma_idx_unique(es, i);
            lemma_idx_unique(es2, i);
        }
    }
    assert(entries_map(es2) =~= entries_map(es).insert(e.0@, e.1@));
}

/// Replacing the payload at one index updates the map view at its key.
proof fn lemma_update_payload(es: Seq<Entry>, i: int, e: Entry)
    requires
        distinct_keys(es),
        0 <= i < es.len(),
        e.0@ == es[i].0@,
    ensures
        distinct_keys(es.update(i, e)),
        entries_map(es.update(i, e)) == entries_map(es).insert(e.0@, e.1@),
{
    let es2 = es.update(i, e);
    assert forall|p: int, q: int| 0 <= p < q < es2.len() implies es2[p].0@ != es2[q].0@ by {
        assert(es2[p].0@ == es[p].0@);
        assert(es2[q].0@ == es[q].0@);
    }
    assert forall|k: Seq<u8>| true implies #[trigger] has_key(es2, k) == has_key(es, k) by {
        if has_key(es2, k) {
            let p = choose|p: int| 0 <= p < es2.len() && es2[p].0@ == k;
            assert(es[p].0@ == k);
        }
        if has_key(es, k) {
            let p = choose|p: int| 0 <= p < es.len() && es[p].0@ == k;
            assert(es2[p].0@ == k);
        }
    }
    assert forall|k: Seq<u8>| has_key(es2, k) implies entries_map(es2)[k] == entries_map(
        es,
    ).insert(e.0@, e.1@)[k] by {
        if k == e.0@ {
            lemma_idx_unique(es2, i);
        } else {
            let p = choose|p: int| 0 <= p < es.len() && es[p].0@ == k;
            lemma_idx_unique(es, p);
            lemma_idx_unique(es2, p);
        }
    }
    assert(entries_map(es2) =~= entries_map(es).insert(e.0@, e.1@));
}

/// Swap-removing one index removes its key from the map view.
proof fn lemma_swap_remove(es: Seq<Entry>, i: int)
    requires
        distinct_keys(es),
        0 <= i < es.len(),
    ensures
        distinct_keys(es.update(i, es.last()).drop_last()),
        entries_map(es.update(i, es.last()).drop_last()) == entries_map(es).remove(es[i].0@),
{
    let k0 = es[i].0@;
    let es2 = es.update(i, es.last()).drop_last();
    assert forall|p: int, q: int| 0 <= p < q < es2.len() implies es2[p].0@ != es2[q].0@ by {
        let n = es.len() - 1;
        let sp: int = if p == i { n } else { p };
        let sq: int = if q == i { n } else { q };
        assert(es2[p].0@ == es[sp].0@);
        assert(es2[q].0@ == es[sq].0@);
    }
    assert forall|k: Seq<u8>| true implies #[trigger] has_key(es2, k) == (has_key(es, k) && k
        != k0) by {
        let n = es.len() - 1;
        if has_key(es2, k) {
            let p = choose|p: int| 0 <= p < es2.len() && es2[p].0@ == k;
            let sp: int = if p == i { n } else { p };
            assert(es[sp].0@ == k);
            if k == k0 {
                lemma_idx_unique(es, i);
                lemma_idx_unique(es, sp);
            }
        }
        if has_key(es, k) && k != k0 {
            let p = choose|p: int| 0 <= p < es.len() && es[p].0@ == k;
            if p == n {
                if i < n {
                    assert(es2[i].0@ == k);
                }
                // if i == n then k == k0, excluded
            } else {
                assert(es2[p].0@ == k);
            }
        }
    }
    assert forall|k: Seq<u8>| has_key(es2, k) implies entries_map(es2)[k] == entries_map(
        es,
    ).remove(k0)[k] by {
        let n = es.len() - 1;
        let p = choose|p: int| 0 <= p < es2.len() && es2[p].0@ == k;
        let sp: int = if p == i { n } else { p };
        assert(es[sp].0@ == k);
        lemma_idx_unique(es2, p);
        lemma_idx_unique(es, sp);
        assert(es2[p].1@ == es[sp].1@);
    }
    assert(entries_map(es2) =~= entries_map(es).remove(k0));
}

/// A blob store held entirely in memory, as a list of `(key, bytes)`
/// entries with distinct keys.
pub struct MemoryBlobStore {
    entries: Vec<Entry>,
}

impl MemoryBlobStore {
    /// An empty store.
    pub fn new() -> (s: Self)
        ensures
            s.inv(),
            s.blobs() == Map::<Seq<u8>, Seq<u8>>::empty(),
    {
        let s = MemoryBlobStore { entries: Vec::new() };
        proof {
            assert(s.blobs() =~= Map::<Seq<u8>, Seq<u8>>::empty());
        }
        s
    }

    /// The index of the entry for `key`, if there is one.
    fn find(&self, key: &Key) -> (r: Option<usize>)
        requires
            self.inv(),
        ensures
            match r {
                Some(i) => i < self.entries@.len() && self.entries@[i as int].0@ == key@
                    && self.blobs().contains_key(key@) && self.blobs()[key@]
                    == self.entries@[i as int].1@,
                None => !self.blobs().contains_key(key@),
            },
    {
        let mut i: usize = 0;
        let n: usize = self.entries.len();
        while i < n
            invariant
                i <= n,
                n == self.entries@.len(),
                self.inv(),
                forall|j: int| 0 <= j < i ==> self.entries@[j].0@ != key@,
            decreases n - i,
        {
            if key_eq(&self.entries[i].0, key) {
                proof {
                    lemma_idx_unique(self.entries@, i as int);
                }
                return Some(i);
            }
            i += 1;
        }
        proof {
            if has_key(self.entries@, key@) {
                let j = choose|j: int| 0 <= j < self.entries@.len() && self.entries@[j].0@
                    == key@;
                assert(self.entries@[j].0@ != key@);
            }
        }
        None
    }
}

impl BlobStore for MemoryBlobStore {
    closed spec fn blobs(&self) -> Map<Seq<u8>, Seq<u8>> {
        entries_map(self.entries@)
    }

    closed spec fn inv(&self) -> bool {
        distinct_keys(self.entries@)
    }

    fn contains(&self, key: Key) -> (r: Result<bool, Error>)
        ensures
            r == Ok::<bool, Error>(self.blobs().contains_key(key@)),
    {
        Ok(self.find(&key).is_some())
    }

    fn meta(&self, key: Key) -> (r: Result<BlobMeta, Error>)
        ensures
            r matches Ok(_) <==> self.blobs().contains_key(key@),
            !self.blobs().contains_key(key@) ==> r == Err::<BlobMeta, Error>(
                Error::Blob(BlobError::NotFound),
            ),
    {
        match self.find(&key) {
            Some(i) => Ok(BlobMeta { size: self.entries[i].1.len() }),
            None => Err(Error::Blob(BlobError::NotFound)),
        }
    }

    fn put(&mut self, key: Key, value: &Vec<u8>, opt: PutOpt) -> (r: Result<(), Error>)
        ensures
            match opt {
                PutOpt::Create => if old(self).blobs().contains_key(key@) {
                    r == Err::<(), Error>(Error::Blob(BlobError::AlreadyExists))
                } else {
                    r matches Ok(_)
                },
                PutOpt::Replace(rg) => if !old(self).blobs().contains_key(key@) {
                    r == Err::<(), Error>(Error::Blob(BlobError::NotFound))
                } else if !(rg.is_valid_for(old(self).blobs()[key@].len() as int)
                    && rg.spec_len() == value@.len()) {
                    r == Err::<(), Error>(Error::Blob(BlobError::RangeError))
                } else {
                    r matches Ok(_)
                },
            },
    {
        match opt {
            PutOpt::Create => {
                if self.find(&key).is_some() {
                    return Err(Error::Blob(BlobError::AlreadyExists));
                }
                let bytes = subvec(value, 0, value.len());
                proof {
                    lemma_push_fresh(self.entries@, (key, bytes));
                    assert(value@.subrange(0, value@.len() as int) =~= value@);
                }
                self.entries.push((key, bytes));
                Ok(())
            },
            PutOpt::Replace(rg) => {
                let i = match self.find(&key) {
                    Some(i) => i,
                    None => {
                        return Err(Error::Blob(BlobError::NotFound));
                    },
                };
                let size: usize = self.entries[i].1.len();
                if !(rg.check_within(size) && rg.len() == value.len()) {
                    return Err(Error::Blob(BlobError::RangeError));
                }
                let ghost es0 = self.entries@;
                let ghost oldmap = entries_map(es0);
                let mut entry = self.entries.swap_remove(i);
                let ghost es1 = self.entries@;
                copy_range(&mut entry.1, rg.start, value, 0, value.len());
                let ghost e = entry;
                proof {
                    lemma_swap_remove(es0, i as int);
                    assert(value@.subrange(0, value@.len() as int) =~= value@);
                    assert(e.1@ == splice(es0[i as int].1@, rg.start as int, value@));
                    assert(!has_key(es1, key@));
                    lemma_push_fresh(es1, e);
                }
                self.entries.push(entry);
                proof {
                    assert(self.entries@ == es1.push(e));
                    assert(entries_map(self.entries@) =~= oldmap.insert(key@, e.1@));
                }
                Ok(())
            },
        }
    }

    fn get(&self, key: Key, buf: &mut Vec<u8>, opt: GetOpt) -> (r: Result<(), Error>)
        ensures
            if !self.blobs().contains_key(key@) {
                r == Err::<(), Error>(Error::Blob(BlobError::NotFound))
            } else if !(match opt {
                GetOpt::All => old(buf)@.len() == self.blobs()[key@].len(),
                GetOpt::Range(rg) => rg.is_valid_for(self.blobs()[key@].len() as int)
                    && rg.spec_len() == old(buf)@.len(),
            }) {
                r == Err::<(), Error>(Error::Blob(BlobError::RangeError))
            } else {
                r matches Ok(_)
            },
    {
        let i = match self.find(&key) {
            Some(i) => i,
            None => {
                return Err(Error::Blob(BlobError::NotFound));
            },
        };
        let size: usize = self.entries[i].1.len();
        let rg = match opt {
            GetOpt::All => crate::BlobRange { start: 0, end: size },
            GetOpt::Range(rg) => rg,
        };
        if !(rg.check_within(size) && rg.len() == buf.len()) {
            return Err(Error::Blob(BlobError::RangeError));
        }
        copy_range(buf, 0, &self.entries[i].1, rg.start, rg.end - rg.start);
        proof {
            assert(final(buf)@ =~= self.blobs()[key@].subrange(rg.start as int, rg.end as int));
        }
        Ok(())
    }

    fn get_owned(&self, key: Key, opt: GetOpt) -> (r: Result<Vec<u8>, Error>)
        ensures
            match opt {
                GetOpt::All => if self.blobs().contains_key(key@) {
                    r matches Ok(v) && v@ == self.blobs()[key@]
                } else {
                    r == Err::<Vec<u8>, Error>(Error::Blob(BlobError::NotFound))
                },
                GetOpt::Range(rg) => if rg.start > rg.end {
                    r == Err::<Vec<u8>, Error>(Error::Blob(BlobError::RangeError))
                } else if !self.blobs().contains_key(key@) {
                    r == Err::<Vec<u8>, Error>(Error::Blob(BlobError::NotFound))
                } else if !rg.is_valid_for(self.blobs()[key@].len() as int) {
                    r == Err::<Vec<u8>, Error>(Error::Blob(BlobError::RangeError))
                } else {
                    r matches Ok(v) && v@ == self.blobs()[key@].subrange(
                        rg.start as int,
                        rg.end as int,
                    )
                },
            },
    {
        let len: usize = match &opt {
            GetOpt::All => match self.meta(key) {
                Ok(m) => m.size,
                Err(e) => {
                    return Err(e);
                },
            },
            GetOpt::Range(rg) => {
                if !(rg.start <= rg.end) {
                    return Err(Error::Blob(BlobError::RangeError));
                }
                rg.end - rg.start
            },
        };
        let mut buf: Vec<u8> = vec![0u8; len];
        match self.get(key, &mut buf, opt) {
            Ok(()) => Ok(buf),
            Err(e) => Err(e),
        }
    }

    fn delete(&mut self, key: Key, opt: DeleteOpt) -> (r: Result<Option<Vec<u8>>, Error>)
        ensures
            match opt {
                DeleteOpt::Interest(_) => r == Err::<Option<Vec<u8>>, Error>(
                    Error::Blob(BlobError::Unsupported),
                ),
                DeleteOpt::Discard => if old(self).blobs().contains_key(key@) {
                    r == Ok::<Option<Vec<u8>>, Error>(None)
                } else {
                    r == Err::<Option<Vec<u8>>, Error>(Error::Blob(BlobError::NotFound))
                },
            },
    {
        if let DeleteOpt::Interest(_) = opt {
            return Err(Error::Blob(BlobError::Unsupported));
        }
        match self.find(&key) {
            Some(i) => {
                proof {
                    lemma_swap_remove(self.entries@, i as int);
                }
                let _ = self.entries.swap_remove(i);
                Ok(None)
            },
            None => Err(Error::Blob(BlobError::NotFound)),
        }
    }
}

} // verus!
