//! Trusted view of `lru::LruCache` as used by the paged cache: a bounded
//! least-recently-used map from `(key, page index)` to a page buffer.
//!
//! The cache's contents are modeled as a sequence of entries ordered from
//! most recently to least recently used; `lru_cap` names the bound the
//! cache was created with. Every contract here states only what the `lru`
//! crate's source shows of `with_hasher`, `len`, `pop`, `push` and `pop_lru`.

use vstd::prelude::*;

verus! {

use crate::Key;

/// The concrete cache type the paged cache uses: keyed by `(key, page
/// index)`, hashed by std's `RandomState`.
pub type PageLru = lru::LruCache<(Key, usize), Vec<u8>, std::collections::hash_map::RandomState>;

/// One modeled entry: `((key bytes, page index), page bytes)`.
pub type PageEntry = ((Seq<u8>, int), Seq<u8>);

#[verifier::external_type_specification]
#[verifier::external_body]
#[verifier::reject_recursive_types(K)]
#[verifier::reject_recursive_types(V)]
#[verifier::reject_recursive_types(S)]
pub struct ExLruCache<K, V, S>(lru::LruCache<K, V, S>);

/// The entries of the cache, most recently used first.
pub uninterp spec fn lru_entries(c: PageLru) -> Seq<PageEntry>;

/// The capacity the cache was created with.
pub uninterp spec fn lru_cap(c: PageLru) -> int;

/// Some entry carries this key.
pub open spec fn lru_has(es: Seq<PageEntry>, k: (Seq<u8>, int)) -> bool {
    exists|i: int| 0 <= i < es.len() && es[i].0 == k
}

/// The position of the entry carrying this key.
pub open spec fn lru_idx(es: Seq<PageEntry>, k: (Seq<u8>, int)) -> int {
    choose|i: int| 0 <= i < es.len() && es[i].0 == k
}

/// The page bytes stored under this key.
pub open spec fn lru_lookup(es: Seq<PageEntry>, k: (Seq<u8>, int)) -> Seq<u8> {
    es[lru_idx(es, k)].1
}

/// No two entries carry the same key.
pub open spec fn lru_distinct(es: Seq<PageEntry>) -> bool {
    forall|i: int, j: int| 0 <= i < j < es.len() ==> es[i].0 != es[j].0
}

/// The modeled key of an exec `(key, page index)` pair.
pub open spec fn page_id(k: (Key, usize)) -> (Seq<u8>, int) {
    (k.0@, k.1 as int)
}

/// Relies on `lru::LruCache::with_hasher`: a fresh cache is empty and holds at
/// most `cap` entries thereafter.
#[verifier::external_body]
pub(crate) fn lru_new(cap: usize) -> (c: PageLru)
    requires
        cap >= 1,
    ensures
        lru_entries(c) == Seq::<PageEntry>::empty(),
        lru_cap(c) == cap,
{
    lru::LruCache::with_hasher(
        std::num::NonZeroUsize::new(cap).unwrap(),
        std::collections::hash_map::RandomState::new(),
    )
}

/// Relies on `lru::LruCache::len`: the number of stored entries.
#[verifier::external_body]
pub(crate) fn lru_len(c: &PageLru) -> (n: usize)
    ensures
        n == lru_entries(*c).len(),
{
    c.len()
}

/// Relies on `lru::LruCache::pop`: removes and returns the value stored
/// under the given key, leaving the recency order of the rest unchanged.
#[verifier::external_body]
pub(crate) fn lru_pop(c: &mut PageLru, k: &(Key, usize)) -> (r:
    Option<Vec<u8>>)
    requires
        lru_distinct(lru_entries(*old(c))),
    ensures
        lru_cap(*final(c)) == lru_cap(*old(c)),
        ({
            let es = lru_entries(*old(c));
            if lru_has(es, page_id(*k)) {
                let i = lru_idx(es, page_id(*k));
                &&& r matches Some(v) && v@ == es[i].1
                &&& lru_entries(*final(c)) == es.remove(i)
            } else {
                r is None && lru_entries(*final(c)) == es
            }
        }),
{
    c.pop(k)
}

/// Relies on `lru::LruCache::push` called on an absent key: the entry is
/// inserted as the most recently used; if the cache is at capacity, the
/// least recently used entry is removed first and returned.
#[verifier::external_body]
pub(crate) fn lru_push(
    c: &mut PageLru,
    k: (Key, usize),
    v: Vec<u8>,
) -> (r: Option<((Key, usize), Vec<u8>)>)
    requires
        lru_distinct(lru_entries(*old(c))),
        !lru_has(lru_entries(*old(c)), page_id(k)),
        lru_entries(*old(c)).len() <= lru_cap(*old(c)),
    ensures
        lru_cap(*final(c)) == lru_cap(*old(c)),
        ({
            let es = lru_entries(*old(c));
            if es.len() < lru_cap(*old(c)) {
                r is None && lru_entries(*final(c)) == seq![(page_id(k), v@)] + es
            } else {
                &&& r matches Some(ev) && page_id(ev.0) == es.last().0 && ev.1@ == es.last().1
                &&& lru_entries(*final(c)) == seq![(page_id(k), v@)] + es.drop_last()
            }
        }),
{
    c.push(k, v)
}

/// Relies on `lru::LruCache::pop_lru`: removes and returns the least
/// recently used entry, or nothing if the cache is empty.
#[verifier::external_body]
pub(crate) fn lru_pop_lru(c: &mut PageLru) -> (r: Option<
    ((Key, usize), Vec<u8>)>)
    ensures
        lru_cap(*final(c)) == lru_cap(*old(c)),
        ({
            let es = lru_entries(*old(c));
            if es.len() == 0 {
                r is None && lru_entries(*final(c)) == es
            } else {
                &&& r matches Some(ev) && page_id(ev.0) == es.last().0 && ev.1@ == es.last().1
                &&& lru_entries(*final(c)) == es.drop_last()
            }
        }),
{
    c.pop_lru()
}

} // verus!
