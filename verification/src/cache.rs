//! A page-granular, write-back cache in front of any [`BlobStore`].
//!
//! `MemoryCache` splits byte ranges into page-aligned segments, keeps
//! touched pages resident in a bounded least-recently-used structure, and
//! writes modified pages back to the backend on eviction, on delete, and
//! on an explicit flush. Page buffers come from a fixed free pool, so the
//! total number of page buffers is constant for the cache's life.
//!
//! The cache is built for single-owner, non-concurrent access: every
//! operation takes the whole cache exclusively (`&mut self`). Callers that
//! need concurrency must wrap the instance behind a lock or confine it to
//! one thread.
//!
//! The abstract state `self@` maps each stored key to its bytes as the
//! cache presents them: resident page bytes shadow the backend's. A miss
//! reads through only the bytes of the touched segment, so on a page made
//! resident by a partial segment the bytes of that page outside the
//! segment are unspecified until overwritten; contracts below pin down
//! exactly the written or read range, every position outside the touched
//! pages, and every other key.

use vstd::prelude::*;

verus! {

use vstd::arithmetic::div_mod::{
    lemma_fundamental_div_mod, lemma_fundamental_div_mod_converse, lemma_mod_bound,
};

use crate::error::{BlobError, Error};
use crate::page_lru::{
    lru_cap, lru_distinct, lru_entries, lru_has, lru_idx, lru_len, lru_lookup, lru_new, lru_pop,
    lru_pop_lru, lru_push, page_id, PageEntry, PageLru,
};
use crate::{copy_range, key_eq, splice, subvec, BlobMeta, BlobRange, BlobStore, DeleteOpt,
    GetOpt, Key, PutOpt};

/// Free page buffers kept beyond the cache's capacity, so that a buffer
/// is always at hand when a page is faulted in before another is evicted.
pub const FREE_SLACK: usize = 16;

/// Bookkeeping for one blob with resident pages: its metadata and the
/// indices of its resident pages. A record exists exactly while at least
/// one page of the blob is resident.
pub(crate) struct CacheRecord {
    pub key: Key,
    pub meta: BlobMeta,
    pub pages: Vec<usize>,
}

pub(crate) open spec fn rec_distinct(rs: Seq<CacheRecord>) -> bool {
    forall|i: int, j: int| 0 <= i < j < rs.len() ==> rs[i].key@ != rs[j].key@
}

pub(crate) open spec fn rec_has(rs: Seq<CacheRecord>, k: Seq<u8>) -> bool {
    exists|i: int| 0 <= i < rs.len() && rs[i].key@ == k
}

pub(crate) open spec fn rec_idx(rs: Seq<CacheRecord>, k: Seq<u8>) -> int {
    choose|i: int| 0 <= i < rs.len() && rs[i].key@ == k
}

/// One segment of a split range lies within its page and is never empty.
pub open spec fn seg_wf(seg: (usize, BlobRange), ps: int) -> bool {
    &&& seg.1.start < seg.1.end
    &&& (seg.0 as int) * ps <= seg.1.start as int
    &&& seg.1.end as int <= (seg.0 as int + 1) * ps
}

/// A split of `range`: ordered, non-overlapping, contiguous segments that
/// cover `range` exactly once each, one segment per touched page, in
/// ascending page order.
pub open spec fn seg_list_wf(segs: Seq<(usize, BlobRange)>, range: BlobRange, ps: int) -> bool {
    &&& forall|i: int| 0 <= i < segs.len() ==> seg_wf(#[trigger] segs[i], ps)
    &&& (range.start == range.end) <==> segs.len() == 0
    &&& segs.len() > 0 ==> segs[0].1.start == range.start && segs.last().1.end == range.end
    &&& forall|i: int| 0 <= i < segs.len() - 1 ==> (#[trigger] segs[i].1.end) == segs[i + 1].1.start
    &&& forall|i: int| 0 <= i < segs.len() - 1 ==> (#[trigger] segs[i].0) < segs[i + 1].0
    &&& forall|i: int|
        0 <= i < segs.len() ==> (#[trigger] segs[i]).0 as int == segs[0].0 as int + i
    &&& forall|i: int|
        0 <= i < segs.len() ==> range.start <= (#[trigger] segs[i]).1.start && segs[i].1.end
            <= range.end
    &&& forall|i: int|
        1 <= i < segs.len() ==> (#[trigger] segs[i]).1.start as int == (segs[i].0 as int) * ps
    &&& forall|i: int|
        0 <= i < segs.len() - 1 ==> (#[trigger] segs[i]).1.end as int == (segs[i].0 as int + 1)
            * ps
}

/// For a position inside page `p`, division and remainder by the page
/// size recover the page index and the offset within the page.
pub proof fn lemma_page_of(i: int, p: int, ps: int)
    requires
        ps >= 1,
        p >= 0,
        p * ps <= i < (p + 1) * ps,
    ensures
        i / ps == p,
        i % ps == i - p * ps,
{
    assert((p + 1) * ps == p * ps + ps) by (nonlinear_arith);
    lemma_fundamental_div_mod_converse(i, ps, p, i - p * ps);
}

/// With distinct keys, an entry's position is the unique witness for its
/// key.
proof fn lemma_lru_witness(es: Seq<PageEntry>, i: int)
    requires
        lru_distinct(es),
        0 <= i < es.len(),
    ensures
        lru_has(es, es[i].0),
        lru_idx(es, es[i].0) == i,
{
    assert(lru_has(es, es[i].0));
    let j = lru_idx(es, es[i].0);
    if j < i {
        assert(es[j].0 != es[i].0);
    } else if j > i {
        assert(es[i].0 != es[j].0);
    }
}

/// Removing the entry at `i` affects no other key's presence or bytes.
proof fn lemma_lru_remove(es: Seq<PageEntry>, i: int)
    requires
        lru_distinct(es),
        0 <= i < es.len(),
    ensures
        lru_distinct(es.remove(i)),
        !lru_has(es.remove(i), es[i].0),
        forall|k: (Seq<u8>, int)|
            k != es[i].0 ==> #[trigger] lru_has(es.remove(i), k) == lru_has(es, k),
        forall|k: (Seq<u8>, int)|
            k != es[i].0 && lru_has(es, k) ==> #[trigger] lru_lookup(es.remove(i), k)
                == lru_lookup(es, k),
{
    let es2 = es.remove(i);
    assert forall|p: int, q: int| 0 <= p < q < es2.len() implies es2[p].0 != es2[q].0 by {
        let sp: int = if p < i { p } else { p + 1 };
        let sq: int = if q < i { q } else { q + 1 };
        assert(es2[p] == es[sp]);
        assert(es2[q] == es[sq]);
    }
    if lru_has(es2, es[i].0) {
        let j = lru_idx(es2, es[i].0);
        let sj: int = if j < i { j } else { j + 1 };
        assert(es2[j] == es[sj]);
        lemma_lru_witness(es, sj);
        lemma_lru_witness(es, i);
    }
    assert forall|k: (Seq<u8>, int)| k != es[i].0 implies #[trigger] lru_has(es2, k) == lru_has(
        es,
        k,
    ) by {
        if lru_has(es2, k) {
            let j = lru_idx(es2, k);
            let sj: int = if j < i { j } else { j + 1 };
            assert(es2[j] == es[sj]);
            assert(lru_has(es, k));
        }
        if lru_has(es, k) {
            let j = lru_idx(es, k);
            assert(es[j].0 == k);
            let dj: int = if j < i { j } else { j - 1 };
            assert(es2[dj] == es[j]);
            assert(lru_has(es2, k));
        }
    }
    assert forall|k: (Seq<u8>, int)| k != es[i].0 && lru_has(es, k) implies #[trigger] lru_lookup(
        es2,
        k,
    ) == lru_lookup(es, k) by {
        assert(lru_has(es2, k));
        let j2 = lru_idx(es2, k);
        assert(0 <= j2 < es2.len() && es2[j2].0 == k);
        let sj: int = if j2 < i { j2 } else { j2 + 1 };
        assert(es2[j2] == es[sj]);
        lemma_lru_witness(es, sj);
    }
}

/// Prepending an entry with a fresh key affects no other key's presence
/// or bytes, and its own bytes become the new buffer.
proof fn lemma_lru_prepend(es: Seq<PageEntry>, e: PageEntry)
    requires
        lru_distinct(es),
        !lru_has(es, e.0),
    ensures
        lru_distinct(seq![e] + es),
        lru_has(seq![e] + es, e.0),
        lru_lookup(seq![e] + es, e.0) == e.1,
        forall|k: (Seq<u8>, int)|
            k != e.0 ==> #[trigger] lru_has(seq![e] + es, k) == lru_has(es, k),
        forall|k: (Seq<u8>, int)|
            k != e.0 && lru_has(es, k) ==> #[trigger] lru_lookup(seq![e] + es, k) == lru_lookup(
                es,
                k,
            ),
{
    let es2 = seq![e] + es;
    assert(es2[0] == e);
    assert forall|p: int, q: int| 0 <= p < q < es2.len() implies es2[p].0 != es2[q].0 by {
        assert(es2[q] == es[q - 1]);
        if p == 0 {
            if es[q - 1].0 == e.0 {
                assert(lru_has(es, e.0));
            }
        } else {
            assert(es2[p] == es[p - 1]);
        }
    }
    lemma_lru_witness(es2, 0);
    assert forall|k: (Seq<u8>, int)| k != e.0 implies #[trigger] lru_has(es2, k) == lru_has(
        es,
        k,
    ) by {
        if lru_has(es2, k) {
            let j = lru_idx(es2, k);
            assert(es2[j] == es[j - 1]);
        }
        if lru_has(es, k) {
            let j = lru_idx(es, k);
            assert(es2[j + 1] == es[j]);
            assert(lru_has(es2, k));
        }
    }
    assert forall|k: (Seq<u8>, int)| k != e.0 && lru_has(es, k) implies #[trigger] lru_lookup(
        es2,
        k,
    ) == lru_lookup(es, k) by {
        assert(lru_has(es2, k));
        let j2 = lru_idx(es2, k);
        assert(0 <= j2 < es2.len() && es2[j2].0 == k);
        assert(es2[j2] == es[j2 - 1]);
        lemma_lru_witness(es, j2 - 1);
    }
}

/// One step of the most-recently-touched prefix: after touching a fresh
/// page `q` of blob `k` (its entry moved or inserted at the front, with
/// at most the last entry evicted), the front of the cache lists the
/// touched pages, most recent first, up to the capacity.
proof fn lemma_touched_prefix_step(
    es0: Seq<PageEntry>,
    es1: Seq<PageEntry>,
    k: Seq<u8>,
    touched: Seq<int>,
    q: int,
    cap: int,
    b: Seq<u8>,
)
    requires
        lru_distinct(es0),
        es0.len() <= cap,
        cap >= 1,
        forall|j: int|
            0 <= j < touched.len() && j < cap ==> 0 <= j < es0.len() && (#[trigger] es0[j]).0
                == (k, touched[touched.len() - 1 - j]),
        forall|j: int| 0 <= j < touched.len() ==> #[trigger] touched[j] != q,
        touched.len() as int <= es0.len() || cap <= es0.len(),
        if lru_has(es0, (k, q)) {
            es1 == seq![((k, q), b)] + es0.remove(lru_idx(es0, (k, q)))
        } else {
            es1 == seq![((k, q), b)] + (if es0.len() < cap {
                es0
            } else {
                es0.drop_last()
            })
        },
    ensures
        touched.len() + 1 <= es1.len() || cap <= es1.len(),
        forall|j: int|
            0 <= j < touched.len() + 1 && j < cap ==> 0 <= j < es1.len() && (#[trigger] es1[j]).0
                == (k, touched.push(q)[touched.len() - j]),
{
    let t = touched.len() as int;
    assert(es1[0].0 == (k, q));
    assert(touched.push(q)[t] == q);
    if lru_has(es0, (k, q)) {
        let idx = lru_idx(es0, (k, q));
        assert(0 <= idx < es0.len() && es0[idx].0 == (k, q));
        // all positions before the touched prefix's end hold touched pages,
        // so the hit entry lies beyond it
        assert(idx >= t) by {
            if idx < t {
                assert(es0[idx].0 == (k, touched[t - 1 - idx]));
            }
        }
        assert(es1.len() == es0.len());
        assert(t + 1 <= es1.len());
        assert forall|j: int| 0 <= j < t + 1 && j < cap implies 0 <= j < es1.len() && (
        #[trigger] es1[j]).0 == (k, touched.push(q)[t - j]) by {
            if j > 0 {
                assert(j <= idx && idx < es0.len());
                assert(j < es1.len());
                assert(es1[j] == es0.remove(idx)[j - 1]);
                assert(es0.remove(idx)[j - 1] == es0[j - 1]);
                assert(es0[j - 1].0 == (k, touched[t - 1 - (j - 1)]));
                assert(touched.push(q)[t - j] == touched[t - j]);
            } else {
                assert(0 < es1.len());
            }
        }
    } else {
        assert forall|j: int| 0 <= j < t + 1 && j < cap implies 0 <= j < es1.len() && (
        #[trigger] es1[j]).0 == (k, touched.push(q)[t - j]) by {
            if j > 0 {
                assert(0 <= j - 1 < touched.len());
                assert(j - 1 < cap);
                assert(0 <= j - 1 < es0.len());
                assert((es0[j - 1]).0 == (k, touched[touched.len() - 1 - (j - 1)]));
                if es0.len() < cap {
                    assert(es1.len() == es0.len() + 1);
                    assert(j < es1.len());
                    assert(es1[j] == es0[j - 1]);
                } else {
                    assert(es0.len() == cap);
                    assert(es1.len() == es0.len());
                    assert(j < es1.len());
                    assert(es1[j] == es0.drop_last()[j - 1]);
                    assert(es0.drop_last()[j - 1] == es0[j - 1]);
                }
                assert(touched.push(q)[t - j] == touched[t - j]);
            } else {
                assert(0 < es1.len());
            }
        }
    }
    assert forall|j: int| 0 <= j < touched.len() + 1 && j < cap implies 0 <= j < es1.len() && (
    #[trigger] es1[j]).0 == (k, touched.push(q)[touched.len() - j]) by {
        assert(0 <= j < t + 1 && j < cap);
        assert(0 <= j < es1.len() && es1[j].0 == (k, touched.push(q)[t - j]));
    }
}

/// With distinct record keys, a record's position is the unique witness
/// for its key.
proof fn lemma_rec_witness(rs: Seq<CacheRecord>, i: int)
    requires
        rec_distinct(rs),
        0 <= i < rs.len(),
    ensures
        rec_has(rs, rs[i].key@),
        rec_idx(rs, rs[i].key@) == i,
{
    assert(rec_has(rs, rs[i].key@));
    let j = rec_idx(rs, rs[i].key@);
    if j < i {
        assert(rs[j].key@ != rs[i].key@);
    } else if j > i {
        assert(rs[i].key@ != rs[j].key@);
    }
}

/// Replacing the record at `i` by one with the same key — through a
/// swap-remove followed by a push — leaves every other record in place
/// under its key.
proof fn lemma_rec_replace(rs: Seq<CacheRecord>, i: int, r2: CacheRecord)
    requires
        rec_distinct(rs),
        0 <= i < rs.len(),
        r2.key@ == rs[i].key@,
    ensures
        ({
            let rs2 = rs.update(i, rs.last()).drop_last().push(r2);
            &&& rec_distinct(rs2)
            &&& forall|k: Seq<u8>| #[trigger] rec_has(rs2, k) == rec_has(rs, k)
            &&& forall|k: Seq<u8>|
                rec_has(rs, k) && k != r2.key@ ==> (#[trigger] rs2[rec_idx(rs2, k)]) == rs[rec_idx(
                    rs,
                    k,
                )]
            &&& rs2[rec_idx(rs2, r2.key@)] == r2
        }),
{
    let n = rs.len() - 1;
    let rs2 = rs.update(i, rs.last()).drop_last().push(r2);
    // position map: j < n maps to (if j == i then n else j) in rs; position n holds r2
    assert forall|p: int, q: int| 0 <= p < q < rs2.len() implies rs2[p].key@ != rs2[q].key@ by {
        let sp: int = if p == i { n } else { p };
        if q < n {
            let sq: int = if q == i { n } else { q };
            assert(rs2[p].key@ == rs[sp].key@);
            assert(rs2[q].key@ == rs[sq].key@);
        } else {
            assert(rs2[q] == r2);
            assert(rs2[p].key@ == rs[sp].key@);
            if rs[sp].key@ == r2.key@ {
                assert(rs[sp].key@ == rs[i].key@);
            }
        }
    }
    assert forall|k: Seq<u8>| true implies #[trigger] rec_has(rs2, k) == rec_has(rs, k) by {
        if rec_has(rs2, k) {
            let p = choose|p: int| 0 <= p < rs2.len() && rs2[p].key@ == k;
            if p < n {
                let sp: int = if p == i { n } else { p };
                assert(rs[sp].key@ == k);
            } else {
                assert(rs[i].key@ == k);
            }
            assert(rec_has(rs, k));
        }
        if rec_has(rs, k) {
            let p = choose|p: int| 0 <= p < rs.len() && rs[p].key@ == k;
            if p == i {
                assert(rs2[n].key@ == k);
            } else if p == n {
                if i < n {
                    assert(rs2[i].key@ == k);
                } else {
                    assert(rs2[n].key@ == k);
                }
            } else {
                assert(rs2[p].key@ == k);
            }
            assert(rec_has(rs2, k));
        }
    }
    assert forall|k: Seq<u8>| rec_has(rs, k) && k != r2.key@ implies (#[trigger] rs2[rec_idx(
        rs2,
        k,
    )]) == rs[rec_idx(rs, k)] by {
        assert(rec_has(rs2, k));
        let p2 = rec_idx(rs2, k);
        assert(0 <= p2 < rs2.len() && rs2[p2].key@ == k);
        lemma_rec_witness(rs2, p2);
        if p2 == n {
            assert(rs2[p2] == r2);
            assert(false);
        }
        let sp: int = if p2 == i { n } else { p2 };
        assert(rs2[p2] == rs[sp]);
        lemma_rec_witness(rs, sp);
    }
    lemma_rec_witness(rs2, n);
    assert(rs2[rec_idx(rs2, r2.key@)] == r2);
}

/// Swap-removing the record at `i` removes exactly its key, leaving every
/// other record in place under its key.
proof fn lemma_rec_remove(rs: Seq<CacheRecord>, i: int)
    requires
        rec_distinct(rs),
        0 <= i < rs.len(),
    ensures
        ({
            let rs2 = rs.update(i, rs.last()).drop_last();
            &&& rec_distinct(rs2)
            &&& forall|k: Seq<u8>|
                #[trigger] rec_has(rs2, k) == (rec_has(rs, k) && k != rs[i].key@)
            &&& forall|k: Seq<u8>|
                rec_has(rs2, k) ==> (#[trigger] rs2[rec_idx(rs2, k)]) == rs[rec_idx(rs, k)]
        }),
{
    let n = rs.len() - 1;
    let rs2 = rs.update(i, rs.last()).drop_last();
    assert forall|p: int, q: int| 0 <= p < q < rs2.len() implies rs2[p].key@ != rs2[q].key@ by {
        let sp: int = if p == i { n } else { p };
        let sq: int = if q == i { n } else { q };
        assert(rs2[p].key@ == rs[sp].key@);
        assert(rs2[q].key@ == rs[sq].key@);
    }
    assert forall|k: Seq<u8>| true implies #[trigger] rec_has(rs2, k) == (rec_has(rs, k) && k
        != rs[i].key@) by {
        if rec_has(rs2, k) {
            let p = choose|p: int| 0 <= p < rs2.len() && rs2[p].key@ == k;
            let sp: int = if p == i { n } else { p };
            assert(rs[sp].key@ == k);
            assert(rec_has(rs, k));
            if k == rs[i].key@ {
                lemma_rec_witness(rs, i);
                lemma_rec_witness(rs, sp);
            }
        }
        if rec_has(rs, k) && k != rs[i].key@ {
            let p = choose|p: int| 0 <= p < rs.len() && rs[p].key@ == k;
            if p == n {
                if i < n {
                    assert(rs2[i].key@ == k);
                }
            } else {
                assert(rs2[p].key@ == k);
            }
        }
    }
    assert forall|k: Seq<u8>| rec_has(rs2, k) implies (#[trigger] rs2[rec_idx(rs2, k)])
        == rs[rec_idx(rs, k)] by {
        let p2 = rec_idx(rs2, k);
        assert(0 <= p2 < rs2.len() && rs2[p2].key@ == k);
        let sp: int = if p2 == i { n } else { p2 };
        assert(rs2[p2] == rs[sp]);
        lemma_rec_witness(rs, sp);
    }
}

/// Appending a record with a fresh key adds exactly that key, leaving
/// every other record in place under its key.
proof fn lemma_rec_push_fresh(rs: Seq<CacheRecord>, r: CacheRecord)
    requires
        rec_distinct(rs),
        !rec_has(rs, r.key@),
    ensures
        rec_distinct(rs.push(r)),
        forall|k: Seq<u8>| #[trigger] rec_has(rs.push(r), k) == (rec_has(rs, k) || k == r.key@),
        forall|k: Seq<u8>|
            rec_has(rs, k) && k != r.key@ ==> (#[trigger] rs.push(r)[rec_idx(rs.push(r), k)])
                == rs[rec_idx(rs, k)],
        rs.push(r)[rec_idx(rs.push(r), r.key@)] == r,
{
    let rs2 = rs.push(r);
    assert forall|p: int, q: int| 0 <= p < q < rs2.len() implies rs2[p].key@ != rs2[q].key@ by {
        if q == rs.len() {
            assert(rs2[p] == rs[p]);
            if rs[p].key@ == r.key@ {
                assert(rec_has(rs, r.key@));
            }
        }
    }
    assert forall|k: Seq<u8>| true implies #[trigger] rec_has(rs2, k) == (rec_has(rs, k) || k
        == r.key@) by {
        if rec_has(rs2, k) {
            let p = choose|p: int| 0 <= p < rs2.len() && rs2[p].key@ == k;
            if p < rs.len() {
                assert(rs[p].key@ == k);
                assert(rec_has(rs, k));
            }
        }
        if rec_has(rs, k) {
            let p = choose|p: int| 0 <= p < rs.len() && rs[p].key@ == k;
            assert(rs2[p].key@ == k);
        }
        if k == r.key@ {
            assert(rs2[rs.len() as int].key@ == k);
        }
    }
    assert forall|k: Seq<u8>| rec_has(rs, k) && k != r.key@ implies (#[trigger] rs2[rec_idx(
        rs2,
        k,
    )]) == rs[rec_idx(rs, k)] by {
        let p = choose|p: int| 0 <= p < rs.len() && rs[p].key@ == k;
        assert(rs2[p] == rs[p]);
        lemma_rec_witness(rs, p);
        lemma_rec_witness(rs2, p);
    }
    lemma_rec_witness(rs2, rs.len() as int);
}

/// Swap-removing one position from a duplicate-free list of page indices
/// removes exactly its element.
proof fn lemma_pages_remove(ps: Seq<usize>, i: int)
    requires
        forall|a: int, b: int| 0 <= a < b < ps.len() ==> ps[a] != ps[b],
        0 <= i < ps.len(),
    ensures
        ({
            let ps2 = ps.update(i, ps.last()).drop_last();
            &&& forall|a: int, b: int| 0 <= a < b < ps2.len() ==> ps2[a] != ps2[b]
            &&& forall|q: usize| #[trigger] ps2.contains(q) == (ps.contains(q) && q != ps[i])
        }),
{
    let n = ps.len() - 1;
    let ps2 = ps.update(i, ps.last()).drop_last();
    assert forall|a: int, b: int| 0 <= a < b < ps2.len() implies ps2[a] != ps2[b] by {
        let sa: int = if a == i { n } else { a };
        let sb: int = if b == i { n } else { b };
        assert(ps2[a] == ps[sa]);
        assert(ps2[b] == ps[sb]);
    }
    assert forall|q: usize| true implies #[trigger] ps2.contains(q) == (ps.contains(q) && q
        != ps[i]) by {
        if ps2.contains(q) {
            let a = choose|a: int| 0 <= a < ps2.len() && ps2[a] == q;
            let sa: int = if a == i { n } else { a };
            assert(ps[sa] == q);
            assert(ps.contains(q));
            if q == ps[i] && sa != i {
                if sa < i {
                    assert(ps[sa] != ps[i]);
                } else {
                    assert(ps[i] != ps[sa]);
                }
            }
        }
        if ps.contains(q) && q != ps[i] {
            let a = choose|a: int| 0 <= a < ps.len() && ps[a] == q;
            if a == n {
                if i < n {
                    assert(ps2[i] == q);
                }
                // a == n == i would mean q == ps[i]
            } else {
                assert(ps2[a] == q);
            }
            assert(ps2.contains(q));
        }
    }
}

/// Remove one page index from a record's page list.
fn remove_page(pages: &mut Vec<usize>, p: usize)
    requires
        forall|i: int, j: int|
            0 <= i < j < old(pages)@.len() ==> old(pages)@[i] != old(pages)@[j],
        old(pages)@.contains(p),
    ensures
        forall|i: int, j: int|
            0 <= i < j < final(pages)@.len() ==> final(pages)@[i] != final(pages)@[j],
        forall|q: usize|
            #[trigger] final(pages)@.contains(q) == (old(pages)@.contains(q) && q != p),
        final(pages)@.len() == old(pages)@.len() - 1,
{
    let ghost ps0 = pages@;
    let n: usize = pages.len();
    let mut i: usize = 0;
    while i < n
        invariant
            i <= n,
            n == pages@.len(),
            pages@ == ps0,
            ps0 == old(pages)@,
            forall|a: int, b: int| 0 <= a < b < ps0.len() ==> ps0[a] != ps0[b],
            forall|j: int| 0 <= j < i ==> ps0[j] != p,
            ps0.contains(p),
        decreases n - i,
    {
        if pages[i] == p {
            proof {
                lemma_pages_remove(ps0, i as int);
            }
            pages.swap_remove(i);
            return ;
        }
        i += 1;
    }
    proof {
        let a = choose|a: int| 0 <= a < ps0.len() && ps0[a] == p;
        assert(ps0[a] != p);
    }
}

/// A position whose page is `p` lies inside page `p`'s byte range.
proof fn lemma_in_page(i: int, p: int, ps: int)
    requires
        ps >= 1,
        p >= 0,
        0 <= i,
        i / ps == p,
    ensures
        p * ps <= i < (p + 1) * ps,
        i % ps == i - p * ps,
{
    lemma_fundamental_div_mod(i, ps);
    lemma_mod_bound(i, ps);
    assert(ps * p == p * ps) by (nonlinear_arith);
    assert((p + 1) * ps == p * ps + ps) by (nonlinear_arith);
}

/// The position reached after the first `si` segments of a split.
pub open spec fn seg_pos(segs: Seq<(usize, BlobRange)>, si: int, range: BlobRange) -> int {
    if si == 0 {
        range.start as int
    } else {
        segs[si - 1].1.end as int
    }
}

/// Whether page `p` overlaps the (non-empty) range.
pub open spec fn page_touches(range: BlobRange, ps: int, p: int) -> bool {
    range.start < range.end && range.start as int / ps <= p <= (range.end as int - 1) / ps
}

/// The number of pages a range overlaps.
pub open spec fn pages_spanned(range: BlobRange, ps: int) -> int {
    if range.start == range.end {
        0
    } else {
        (range.end as int - 1) / ps - range.start as int / ps + 1
    }
}

/// The page-aligned hull of a non-empty range: the first byte of its
/// first touched page and the end of its last touched page.
pub open spec fn span_start(range: BlobRange, ps: int) -> int {
    (range.start as int / ps) * ps
}

pub open spec fn span_end(range: BlobRange, ps: int) -> int {
    ((range.end as int - 1) / ps + 1) * ps
}

/// A non-empty segment of page `p` within `range` lies inside the
/// range's page-aligned hull, along with all of page `p`.
proof fn lemma_seg_in_span(range: BlobRange, p: int, sg: BlobRange, ps: int)
    requires
        ps >= 1,
        range.start <= sg.start,
        sg.end <= range.end,
        sg.start < sg.end,
        p >= 0,
        p * ps <= sg.start,
        sg.end as int <= (p + 1) * ps,
    ensures
        span_start(range, ps) <= p * ps,
        (p + 1) * ps <= span_end(range, ps),
        sg.start as int / ps == p,
        page_touches(range, ps, p),
        forall|i: int|
            0 <= i && #[trigger] (i / ps) == p ==> span_start(range, ps) <= i < span_end(
                range,
                ps,
            ),
{
    assert((p + 1) * ps == p * ps + ps) by (nonlinear_arith);
    lemma_page_of(sg.start as int, p, ps);
    vstd::arithmetic::div_mod::lemma_div_is_ordered(range.start as int, sg.start as int, ps);
    assert(range.start as int / ps <= p);
    assert((range.start as int / ps) * ps <= p * ps) by (nonlinear_arith)
        requires
            range.start as int / ps <= p,
            ps >= 1,
    ;
    lemma_page_of(sg.end - 1, p, ps);
    vstd::arithmetic::div_mod::lemma_div_is_ordered(sg.end - 1, range.end - 1, ps);
    assert(p <= (range.end as int - 1) / ps);
    assert((p + 1) * ps <= ((range.end as int - 1) / ps + 1) * ps) by (nonlinear_arith)
        requires
            p + 1 <= (range.end as int - 1) / ps + 1,
            ps >= 1,
    ;
    assert forall|i: int| 0 <= i && #[trigger] (i / ps) == p implies span_start(range, ps) <= i
        < span_end(range, ps) by {
        lemma_in_page(i, p, ps);
    }
}

/// A position whose page is not `p` lies outside page `p`'s byte range.
proof fn lemma_not_in_page(i: int, p: int, ps: int)
    requires
        ps >= 1,
        p >= 0,
        i >= 0,
        i / ps != p,
    ensures
        i < p * ps || i >= (p + 1) * ps,
{
    if p * ps <= i < (p + 1) * ps {
        lemma_page_of(i, p, ps);
    }
}

/// A page-granular, write-back cache wrapping one backend `S`.
pub struct MemoryCache<S: BlobStore, const PAGE_SIZE: usize> {
    store: S,
    records: Vec<CacheRecord>,
    lru: PageLru,
    free_pages: Vec<Vec<u8>>,
    cap: usize,
}

impl<S: BlobStore, const PAGE_SIZE: usize> View for MemoryCache<S, PAGE_SIZE> {
    type V = Map<Seq<u8>, Seq<u8>>;

    /// The blobs as the cache presents them: the backend's blobs with
    /// resident page bytes shadowing the backend's bytes.
    closed spec fn view(&self) -> Map<Seq<u8>, Seq<u8>> {
        Map::new(|k: Seq<u8>| self.backing().contains_key(k), |k: Seq<u8>| self.blob_view(k))
    }
}

impl<S: BlobStore, const PAGE_SIZE: usize> MemoryCache<S, PAGE_SIZE> {
    /// The resident pages, most recently used first.
    pub closed spec fn entries(self) -> Seq<PageEntry> {
        lru_entries(self.lru)
    }

    /// The page capacity the cache was created with.
    pub closed spec fn capacity(self) -> int {
        lru_cap(self.lru)
    }

    /// The backend's own abstract state.
    pub closed spec fn backing(self) -> Map<Seq<u8>, Seq<u8>> {
        self.store.blobs()
    }

    /// Whether page `p` of blob `k` is resident.
    pub closed spec fn resident(self, k: Seq<u8>, p: int) -> bool {
        lru_has(self.entries(), (k, p))
    }

    /// The buffer bytes of resident page `p` of blob `k`.
    pub closed spec fn pbuf(self, k: Seq<u8>, p: int) -> Seq<u8> {
        lru_lookup(self.entries(), (k, p))
    }

    /// Whether a per-blob record exists for `k` (equivalently: some page
    /// of `k` is resident).
    pub closed spec fn has_record(self, k: Seq<u8>) -> bool {
        rec_has(self.records@, k)
    }

    /// The bytes of blob `k` as the cache presents them: resident page
    /// bytes shadow the backend's bytes.
    pub closed spec fn blob_view(self, k: Seq<u8>) -> Seq<u8> {
        Seq::new(
            self.backing()[k].len(),
            |i: int|
                if self.resident(k, i / (PAGE_SIZE as int)) {
                    self.pbuf(k, i / (PAGE_SIZE as int))[i % (PAGE_SIZE as int)]
                } else {
                    self.backing()[k][i]
                },
        )
    }

    /// Internal well-formedness, established by `with_capacity` and
    /// preserved by every operation.
    pub closed spec fn wf(self) -> bool {
        self.wf_out(0)
    }

    /// Well-formedness while `outstanding` page buffers are checked out of
    /// the free pool and not yet resident.
    pub(crate) closed spec fn wf_out(self, outstanding: int) -> bool {
        &&& PAGE_SIZE >= 1
        &&& self.store.inv()
        &&& self.capacity() >= 1
        &&& self.cap as int == self.capacity()
        &&& lru_distinct(self.entries())
        &&& self.entries().len() <= self.capacity()
        &&& self.free_pages@.len() + self.entries().len() + outstanding == self.capacity()
            + FREE_SLACK
        &&& forall|f: int|
            0 <= f < self.free_pages@.len() ==> (#[trigger] self.free_pages@[f])@.len()
                == PAGE_SIZE
        &&& forall|e: int|
            0 <= e < self.entries().len() ==> (#[trigger] self.entries()[e]).1.len() == PAGE_SIZE
        &&& rec_distinct(self.records@)
        &&& forall|ri: int| 0 <= ri < self.records@.len() ==> self.rec_wf(#[trigger] self.records@[ri])
        &&& forall|e: int|
            0 <= e < self.entries().len() ==> {
                let id = (#[trigger] self.entries()[e]).0;
                &&& rec_has(self.records@, id.0)
                &&& self.records@[rec_idx(self.records@, id.0)].pages@.contains(id.1 as usize)
                &&& id.1 >= 0
                &&& id.1 <= usize::MAX
            }
    }

    /// One record is well formed: it names a stored blob, carries its
    /// exact size, and lists precisely its resident pages (at least one),
    /// each of which starts inside the blob.
    pub(crate) closed spec fn rec_wf(self, r: CacheRecord) -> bool {
        &&& r.pages@.len() >= 1
        &&& forall|i: int, j: int| 0 <= i < j < r.pages@.len() ==> r.pages@[i] != r.pages@[j]
        &&& self.backing().contains_key(r.key@)
        &&& r.meta.size == self.backing()[r.key@].len()
        &&& forall|i: int|
            0 <= i < r.pages@.len() ==> (#[trigger] r.pages@[i]) as int * (PAGE_SIZE as int)
                < r.meta.size
        &&& forall|i: int|
            0 <= i < r.pages@.len() ==> self.resident(r.key@, (#[trigger] r.pages@[i]) as int)
    }

    /// Create a cache over `store` with room for `cap` resident pages.
    pub fn with_capacity(store: S, cap: usize) -> (c: Self)
        requires
            store.inv(),
            1 <= cap <= usize::MAX - FREE_SLACK,
            PAGE_SIZE >= 1,
        ensures
            c.wf(),
            c@ == store.blobs(),
            c.backing() == store.blobs(),
            c.capacity() == cap,
            c.entries().len() == 0,
    {
        let lru = lru_new(cap);
        let mut free_pages: Vec<Vec<u8>> = Vec::new();
        let total: usize = cap + FREE_SLACK;
        let mut i: usize = 0;
        while i < total
            invariant
                i <= total,
                free_pages@.len() == i,
                forall|f: int|
                    0 <= f < free_pages@.len() ==> (#[trigger] free_pages@[f])@.len() == PAGE_SIZE,
            decreases total - i,
        {
            free_pages.push(vec![0u8; PAGE_SIZE]);
            i += 1;
        }
        let c = MemoryCache { store, records: Vec::new(), lru, free_pages, cap };
        proof {
            assert forall|k: Seq<u8>| c.backing().contains_key(k) implies c.blob_view(k)
                == c.backing()[k] by {
                assert(c.blob_view(k) =~= c.backing()[k]);
            }
            assert(c@ =~= c.backing());
        }
        c
    }

    /// The number of pages currently resident.
    pub fn resident_pages(&self) -> (n: usize)
        ensures
            n == self.entries().len(),
    {
        lru_len(&self.lru)
    }

    /// The backend this cache wraps, for direct inspection.
    pub fn backing_store(&self) -> (s: &S)
        ensures
            s.blobs() == self.backing(),
            self.wf() ==> s.inv(),
    {
        &self.store
    }

    /// The index of the record for `key`, if there is one.
    fn find_record(&self, key: &Key) -> (r: Option<usize>)
        requires
            rec_distinct(self.records@),
        ensures
            match r {
                Some(i) => i < self.records@.len() && self.records@[i as int].key@ == key@
                    && self.has_record(key@) && rec_idx(self.records@, key@) == i as int,
                None => !self.has_record(key@),
            },
    {
        let mut i: usize = 0;
        let n: usize = self.records.len();
        while i < n
            invariant
                i <= n,
                n == self.records@.len(),
                rec_distinct(self.records@),
                forall|j: int| 0 <= j < i ==> (#[trigger] self.records@[j]).key@ != key@,
            decreases n - i,
        {
            if key_eq(&self.records[i].key, key) {
                proof {
                    let rs = self.records@;
                    assert(rec_has(rs, key@));
                    let j = rec_idx(rs, key@);
                    if j != i as int {
                        assert(rs[j].key@ == rs[i as int].key@);
                    }
                }
                return Some(i);
            }
            i += 1;
        }
        proof {
            if rec_has(self.records@, key@) {
                let j = rec_idx(self.records@, key@);
                assert(self.records@[j].key@ != key@);
            }
        }
        None
    }

    /// True if a per-blob record exists for `key`, or the backend reports
    /// containment.
    pub fn contains(&self, key: Key) -> (r: Result<bool, Error>)
        requires
            self.wf(),
        ensures
            match r {
                Ok(b) => b == self@.contains_key(key@),
                Err(e) => e.is_opaque(),
            },
            self.has_record(key@) ==> r == Ok::<bool, Error>(true),
    {
        if self.find_record(&key).is_some() {
            return Ok(true);
        }
        self.store.contains(key)
    }

    /// The blob's metadata, served from the per-blob record if present,
    /// else from the backend. A plain `meta` call does not populate the
    /// cache; only page residency does.
    pub fn meta(&self, key: Key) -> (r: Result<BlobMeta, Error>)
        requires
            self.wf(),
        ensures
            match r {
                Ok(m) => self@.contains_key(key@) && m.size == self@[key@].len(),
                Err(e) => {
                    &&& e.is_not_found() || e.is_opaque()
                    &&& e.is_not_found() ==> !self@.contains_key(key@)
                },
            },
            self.has_record(key@) ==> r matches Ok(_),
    {
        match self.find_record(&key) {
            Some(i) => Ok(self.records[i].meta),
            None => self.store.meta(key),
        }
    }

    /// Split `range` (within a blob of length `blob_size`) into an ordered
    /// sequence of `(page index, subrange)` segments covering it exactly
    /// once each: an unaligned leading part, whole pages, an unaligned
    /// trailing part — a range inside a single page collapses to one
    /// segment.
    pub fn split_range(range: BlobRange, blob_size: usize) -> (segs: Vec<(usize, BlobRange)>)
        requires
            PAGE_SIZE >= 1,
            range.start <= range.end,
            range.end <= blob_size,
        ensures
            seg_list_wf(segs@, range, PAGE_SIZE as int),
    {
        let ps: usize = PAGE_SIZE;
        let mut segs: Vec<(usize, BlobRange)> = Vec::new();
        let mut pos: usize = range.start;
        while pos < range.end
            invariant
                PAGE_SIZE >= 1,
                ps == PAGE_SIZE,
                range.start <= pos <= range.end,
                seg_list_wf(segs@, BlobRange { start: range.start, end: pos }, PAGE_SIZE as int),
                segs@.len() > 0 && pos < range.end ==> pos as int % (ps as int) == 0,
            decreases range.end - pos,
        {
            let page: usize = pos / ps;
            let in_page: usize = pos % ps;
            let room: usize = ps - in_page;
            let remaining: usize = range.end - pos;
            proof {
                lemma_fundamental_div_mod(pos as int, ps as int);
                lemma_mod_bound(pos as int, ps as int);
                assert((page as int) * (ps as int) == (ps as int) * (page as int))
                    by (nonlinear_arith);
                assert((page as int + 1) * (ps as int) == (page as int) * (ps as int) + (
                ps as int)) by (nonlinear_arith);
            }
            let seg_end: usize = if remaining <= room {
                range.end
            } else {
                pos + room
            };
            let ghost old_segs = segs@;
            segs.push((page, BlobRange { start: pos, end: seg_end }));
            proof {
                assert((page as int) * (ps as int) == pos - in_page);
                assert(seg_end as int <= (page as int + 1) * (ps as int));
                assert(seg_wf((page, BlobRange { start: pos, end: seg_end }), ps as int));
                if old_segs.len() > 0 {
                    let prev = old_segs.last();
                    assert(seg_wf(old_segs[old_segs.len() - 1], ps as int));
                    assert(prev.1.end == pos);
                    assert(pos as int % (ps as int) == 0);
                    assert(in_page == 0);
                    // the previous segment ends at an aligned position
                    // strictly above its page's start, so at its page's end
                    assert((prev.0 as int) * (ps as int) < pos as int);
                    assert(pos as int <= (prev.0 as int + 1) * (ps as int));
                    assert((prev.0 as int + 1) * (ps as int) == prev.0 as int * (ps as int) + (
                    ps as int)) by (nonlinear_arith);
                    let q = pos as int / (ps as int);
                    lemma_fundamental_div_mod(pos as int, ps as int);
                    assert(pos as int == (ps as int) * q);
                    assert(q == prev.0 as int + 1) by (nonlinear_arith)
                        requires
                            (ps as int) >= 1,
                            pos as int == (ps as int) * q,
                            (prev.0 as int) * (ps as int) < pos as int,
                            pos as int <= (prev.0 as int + 1) * (ps as int),
                    ;
                    assert(pos == (prev.0 as int + 1) * (ps as int));
                    assert(prev.0 < page);
                }
                if seg_end < range.end {
                    assert(seg_end == pos + room);
                    assert(seg_end as int % (ps as int) == 0) by {
                        assert(seg_end as int == (page as int + 1) * (ps as int));
                        vstd::arithmetic::div_mod::lemma_mod_multiples_basic(
                            page as int + 1,
                            ps as int,
                        );
                    }
                }
                assert(seg_list_wf(
                    segs@,
                    BlobRange { start: range.start, end: seg_end },
                    PAGE_SIZE as int,
                ));
            }
            pos = seg_end;
        }
        segs
    }

    /// The clamped length of page `p` of a blob of length `size`: a full
    /// page, or what remains of the blob on its final page.
    pub open spec fn clamp_len(p: int, size: int) -> int {
        if (p + 1) * (PAGE_SIZE as int) <= size {
            PAGE_SIZE as int
        } else {
            size - p * (PAGE_SIZE as int)
        }
    }

    /// Write-back transparency: removing a resident page from the cache
    /// while splicing its clamped bytes into the backend leaves every
    /// blob's presented bytes unchanged.
    proof fn lemma_evict_transparent(c0: Self, c1: Self, k: Seq<u8>, p: int)
        requires
            PAGE_SIZE >= 1,
            lru_distinct(c0.entries()),
            c0.resident(k, p),
            c0.backing().contains_key(k),
            p >= 0,
            p * (PAGE_SIZE as int) < c0.backing()[k].len(),
            c0.pbuf(k, p).len() == PAGE_SIZE,
            c1.entries() == c0.entries().remove(lru_idx(c0.entries(), (k, p))),
            c1.backing() == c0.backing().insert(
                k,
                splice(
                    c0.backing()[k],
                    p * (PAGE_SIZE as int),
                    c0.pbuf(k, p).subrange(0, Self::clamp_len(p, c0.backing()[k].len() as int)),
                ),
            ),
        ensures
            c1@ == c0@,
    {
        let ps = PAGE_SIZE as int;
        let es0 = c0.entries();
        let i0 = lru_idx(es0, (k, p));
        lemma_lru_witness(es0, i0);
        assert(es0[i0].0 == (k, p)) by {
            assert(lru_has(es0, (k, p)));
        }
        lemma_lru_remove(es0, i0);
        let size = c0.backing()[k].len() as int;
        let cl = Self::clamp_len(p, size);
        assert(p * ps + ps == (p + 1) * ps) by (nonlinear_arith);
        assert(0 <= cl <= PAGE_SIZE);
        assert(c1.backing()[k].len() == size);
        assert forall|k2: Seq<u8>| c0.backing().contains_key(k2) implies c1.blob_view(k2)
            == c0.blob_view(k2) by {
            if k2 != k {
                assert forall|i: int| 0 <= i < c0.backing()[k2].len() implies c1.blob_view(k2)[i]
                    == c0.blob_view(k2)[i] by {
                    let pi = i / ps;
                    assert((k2, pi) != (k, p));
                    assert(lru_has(c1.entries(), (k2, pi)) == lru_has(es0, (k2, pi)));
                    assert(c1.backing()[k2] == c0.backing()[k2]);
                }
                assert(c1.blob_view(k2) =~= c0.blob_view(k2));
            } else {
                assert forall|i: int| 0 <= i < size implies c1.blob_view(k)[i] == c0.blob_view(
                    k,
                )[i] by {
                    let pi = i / ps;
                    if pi == p {
                        lemma_fundamental_div_mod(i, ps);
                        lemma_mod_bound(i, ps);
                        assert(p * ps == ps * p) by (nonlinear_arith);
                        assert(p * ps <= i < (p + 1) * ps);
                        assert(i % ps == i - p * ps);
                        assert(!lru_has(c1.entries(), (k, p)));
                        assert(i - p * ps < cl);
                        assert(c1.blob_view(k)[i] == c1.backing()[k][i]);
                        assert(c1.backing()[k][i] == c0.pbuf(k, p)[i - p * ps]);
                        assert(c0.blob_view(k)[i] == c0.pbuf(k, p)[i % ps]);
                    } else {
                        assert((k, pi) != (k, p));
                        assert(lru_has(c1.entries(), (k, pi)) == lru_has(es0, (k, pi)));
                        lemma_not_in_page(i, p, ps);
                        assert(c1.backing()[k][i] == c0.backing()[k][i]);
                        if lru_has(es0, (k, pi)) {
                            assert(lru_lookup(c1.entries(), (k, pi)) == lru_lookup(
                                es0,
                                (k, pi),
                            ));
                        }
                    }
                }
                assert(c1.blob_view(k) =~= c0.blob_view(k));
            }
        }
        assert(c1@ =~= c0@);
    }

    /// Caching one page: prepending entry `((k, p), buf)` changes blob
    /// `k`'s presented bytes only within page `p`, where they become the
    /// buffer's bytes; every other blob is untouched.
    proof fn lemma_insert_page(c0: Self, c1: Self, k: Seq<u8>, p: int, buf: Seq<u8>)
        requires
            PAGE_SIZE >= 1,
            lru_distinct(c0.entries()),
            !c0.resident(k, p),
            p >= 0,
            buf.len() == PAGE_SIZE,
            c1.entries() == seq![((k, p), buf)] + c0.entries(),
            c1.backing() == c0.backing(),
        ensures
            forall|k2: Seq<u8>|
                k2 != k && c0.backing().contains_key(k2) ==> #[trigger] c1.blob_view(k2)
                    == c0.blob_view(k2),
            c0.backing().contains_key(k) ==> {
                &&& c1.blob_view(k).len() == c0.blob_view(k).len()
                &&& forall|i: int|
                    0 <= i < c0.blob_view(k).len() && i / (PAGE_SIZE as int) != p
                        ==> #[trigger] c1.blob_view(k)[i] == c0.blob_view(k)[i]
                &&& forall|i: int|
                    0 <= i < c0.blob_view(k).len() && i / (PAGE_SIZE as int) == p
                        ==> #[trigger] c1.blob_view(k)[i] == buf[i - p * (PAGE_SIZE as int)]
            },
    {
        let ps = PAGE_SIZE as int;
        lemma_lru_prepend(c0.entries(), ((k, p), buf));
        assert forall|k2: Seq<u8>| k2 != k && c0.backing().contains_key(k2) implies #[trigger] c1
            .blob_view(k2) == c0.blob_view(k2) by {
            assert forall|i: int| 0 <= i < c0.backing()[k2].len() implies c1.blob_view(k2)[i]
                == c0.blob_view(k2)[i] by {
                let pi = i / ps;
                assert((k2, pi) != (k, p));
                assert(lru_has(c1.entries(), (k2, pi)) == lru_has(c0.entries(), (k2, pi)));
                if lru_has(c0.entries(), (k2, pi)) {
                    assert(lru_lookup(c1.entries(), (k2, pi)) == lru_lookup(
                        c0.entries(),
                        (k2, pi),
                    ));
                }
            }
            assert(c1.blob_view(k2) =~= c0.blob_view(k2));
        }
        if c0.backing().contains_key(k) {
            assert forall|i: int|
                0 <= i < c0.blob_view(k).len() && i / ps != p implies #[trigger] c1.blob_view(
                k,
            )[i] == c0.blob_view(k)[i] by {
                let pi = i / ps;
                assert((k, pi) != (k, p));
                assert(lru_has(c1.entries(), (k, pi)) == lru_has(c0.entries(), (k, pi)));
                if lru_has(c0.entries(), (k, pi)) {
                    assert(lru_lookup(c1.entries(), (k, pi)) == lru_lookup(
                        c0.entries(),
                        (k, pi),
                    ));
                }
            }
            assert forall|i: int|
                0 <= i < c0.blob_view(k).len() && i / ps == p implies #[trigger] c1.blob_view(
                k,
            )[i] == buf[i - p * ps] by {
                lemma_fundamental_div_mod(i, ps);
                lemma_mod_bound(i, ps);
                assert(p * ps == ps * p) by (nonlinear_arith);
                assert(i % ps == i - p * ps);
                assert(c1.blob_view(k)[i] == lru_lookup(c1.entries(), (k, p))[i % ps]);
            }
        }
    }

    /// Write one page's bytes back to the backend, clamped to the blob's
    /// size, and return its buffer to the free pool. The page must already
    /// have been removed from the LRU and from its record.
    fn write_back(&mut self, key: Key, p: usize, page: Vec<u8>, size: usize) -> (r: Result<
        (),
        Error,
    >)
        requires
            old(self).store.inv(),
            old(self).backing().contains_key(key@),
            size == old(self).backing()[key@].len(),
            PAGE_SIZE >= 1,
            (p as int) * (PAGE_SIZE as int) < size,
            page@.len() == PAGE_SIZE,
        ensures
            final(self).store.inv(),
            final(self).records@ == old(self).records@,
            final(self).lru == old(self).lru,
            final(self).cap == old(self).cap,
            final(self).free_pages@ == old(self).free_pages@.push(page),
            match r {
                Ok(()) => final(self).backing() == old(self).backing().insert(
                    key@,
                    splice(
                        old(self).backing()[key@],
                        (p as int) * (PAGE_SIZE as int),
                        page@.subrange(0, Self::clamp_len(p as int, size as int)),
                    ),
                ),
                Err(e) => e.is_opaque() && final(self).backing() == old(self).backing(),
            },
    {
        let start: usize = p * PAGE_SIZE;
        let clamp: usize = if size - start >= PAGE_SIZE {
            PAGE_SIZE
        } else {
            size - start
        };
        proof {
            assert((p as int) * (PAGE_SIZE as int) + PAGE_SIZE == (p as int + 1) * (
            PAGE_SIZE as int)) by (nonlinear_arith);
            assert(clamp == Self::clamp_len(p as int, size as int));
        }
        let end: usize = start + clamp;
        let data = subvec(&page, 0, clamp);
        let r = self.store.put(key, &data, PutOpt::Replace(BlobRange { start, end }));
        self.free_pages.push(page);
        r
    }

    /// Evict the least recently used page: remove it from its record and
    /// the LRU, write its clamped bytes back, and return its buffer to the
    /// free pool. Transparent on success: the cache presents the same
    /// bytes afterwards. On a write-back failure the page's buffered
    /// modifications are lost, which is why callers treat it as fatal.
    #[verifier::rlimit(60)]
    fn evict_lru(&mut self, Ghost(out): Ghost<int>) -> (r: Result<(), Error>)
        requires
            old(self).wf_out(out),
            old(self).entries().len() > 0,
        ensures
            final(self).wf_out(out),
            final(self).capacity() == old(self).capacity(),
            final(self).cap == old(self).cap,
            final(self).entries() == old(self).entries().drop_last(),
            final(self).free_pages@.len() == old(self).free_pages@.len() + 1,
            forall|k2: Seq<u8>|
                #[trigger] final(self).backing().contains_key(k2)
                    == old(self).backing().contains_key(k2),
            forall|k2: Seq<u8>|
                old(self).backing().contains_key(k2)
                    ==> (#[trigger] final(self).backing()[k2]).len()
                    == old(self).backing()[k2].len(),
            match r {
                Ok(()) => final(self)@ == old(self)@,
                Err(e) => e.is_opaque(),
            },
    {
        let ghost c0 = *self;
        let ghost es0 = lru_entries(self.lru);
        // at capacity: evict the least recently used page first
        let ev = lru_pop_lru(&mut self.lru);
        let (eid, ebuf) = match ev {
            Some(x) => x,
            None => {
                proof {
                    assert(false);
                }
                vstd::pervasive::unreached()
            },
        };
        let ekey: Key = eid.0;
        let ep: usize = eid.1;
        proof {
            lemma_lru_witness(es0, es0.len() - 1);
            assert(lru_entries(self.lru) =~= es0.remove(es0.len() - 1));
            lemma_lru_remove(es0, es0.len() - 1);
            assert(page_id(eid) == es0.last().0);
            assert(ekey@ == es0.last().0.0 && ep as int == es0.last().0.1);
        }
        let eri = match self.find_record(&ekey) {
            Some(x) => x,
            None => {
                proof {
                    assert(rec_has(c0.records@, es0.last().0.0));
                    assert(false);
                }
                vstd::pervasive::unreached()
            },
        };
        let esize: usize = self.records[eri].meta.size;
        let ghost rs0 = self.records@;
        let ghost erec0 = rs0[eri as int];
        proof {
            assert(c0.rec_wf(erec0));
            assert(erec0.pages@.contains(ep)) by {
                assert(rec_idx(rs0, ekey@) == eri as int);
            }
        }
        let mut erec = self.records.swap_remove(eri);
        remove_page(&mut erec.pages, ep);
        let ghost erec2 = erec;
        let dropped_rec: bool = erec.pages.len() == 0;
        if dropped_rec {
            proof {
                lemma_rec_remove(rs0, eri as int);
            }
        } else {
            proof {
                lemma_rec_remove(rs0, eri as int);
                lemma_rec_push_fresh(rs0.update(eri as int, rs0.last()).drop_last(), erec2);
            }
            self.records.push(erec);
        }
        let ghost cmid0 = *self;
        let wb = self.write_back(ekey, ep, ebuf, esize);
        let ghost cmid = *self;
        proof {
            // the records after the eviction bookkeeping
            let rsm = cmid.records@;
            let esm = es0.drop_last();
            assert(cmid.entries() == esm);
            assert(esm =~= es0.remove(es0.len() - 1));
            assert(rec_distinct(rsm));
            assert forall|k: Seq<u8>| true implies #[trigger] rec_has(rsm, k) == (rec_has(
                rs0,
                k,
            ) && (k != ekey@ || !dropped_rec)) by {}
            // every remaining record is well formed in the mid state
            assert forall|ri: int| 0 <= ri < rsm.len() implies cmid.rec_wf(
                #[trigger] rsm[ri],
            ) by {
                let rr = rsm[ri];
                lemma_rec_witness(rsm, ri);
                assert(rec_has(rs0, rr.key@));
                let oi = rec_idx(rs0, rr.key@);
                assert(c0.rec_wf(rs0[oi]));
                assert(cmid.backing().contains_key(rr.key@) && cmid.backing()[rr.key@].len()
                    == c0.backing()[rr.key@].len());
                if rr.key@ == ekey@ {
                    assert(!dropped_rec);
                    assert(rr == erec2);
                    assert(oi == eri as int);
                    assert forall|q: int| 0 <= q < rr.pages@.len() implies cmid.resident(
                        rr.key@,
                        (#[trigger] rr.pages@[q]) as int,
                    ) by {
                        let pv = rr.pages@[q];
                        assert(rr.pages@.contains(pv));
                        assert(erec0.pages@.contains(pv) && pv != ep);
                        assert(c0.resident(ekey@, pv as int));
                        assert((ekey@, pv as int) != (ekey@, ep as int));
                    }
                    assert forall|q: int| 0 <= q < rr.pages@.len() implies (
                    #[trigger] rr.pages@[q]) as int * (PAGE_SIZE as int) < rr.meta.size by {
                        let pv = rr.pages@[q];
                        assert(rr.pages@.contains(pv));
                        assert(erec0.pages@.contains(pv));
                        let qi = choose|qi: int|
                            0 <= qi < erec0.pages@.len() && erec0.pages@[qi] == pv;
                        assert(erec0.pages@[qi] as int * (PAGE_SIZE as int)
                            < erec0.meta.size);
                    }
                } else {
                    assert(rr == rs0[oi]);
                    assert forall|q: int| 0 <= q < rr.pages@.len() implies cmid.resident(
                        rr.key@,
                        (#[trigger] rr.pages@[q]) as int,
                    ) by {
                        assert(c0.resident(rr.key@, rr.pages@[q] as int));
                        assert((rr.key@, rr.pages@[q] as int) != (ekey@, ep as int));
                    }
                }
            }
            // every remaining entry is still backed by a record
            assert forall|e: int| 0 <= e < esm.len() implies {
                let id = (#[trigger] esm[e]).0;
                &&& rec_has(rsm, id.0)
                &&& rsm[rec_idx(rsm, id.0)].pages@.contains(id.1 as usize)
                &&& id.1 >= 0
                &&& id.1 <= usize::MAX
            } by {
                assert(esm[e] == es0[e]);
                let id = es0[e].0;
                assert(rec_has(rs0, id.0) && rs0[rec_idx(rs0, id.0)].pages@.contains(
                    id.1 as usize,
                ));
                if id.0 == ekey@ {
                    assert(rec_idx(rs0, id.0) == eri as int);
                    if id.1 as usize == ep {
                        assert(id == (ekey@, ep as int)) by {
                            assert(id.1 >= 0 && id.1 <= usize::MAX);
                        }
                        lemma_lru_witness(es0, e);
                        assert(false);
                    }
                    assert(!dropped_rec) by {
                        if dropped_rec {
                            assert(erec0.pages@.len() == 1);
                            let a = choose|a: int|
                                0 <= a < erec0.pages@.len() && erec0.pages@[a]
                                    == id.1 as usize;
                            let b = choose|b: int|
                                0 <= b < erec0.pages@.len() && erec0.pages@[b] == ep;
                            assert(a == b);
                        }
                    }
                    assert(rec_idx(rsm, ekey@) == rsm.len() - 1) by {
                        lemma_rec_witness(rsm, rsm.len() - 1);
                    }
                    assert(rsm[rec_idx(rsm, ekey@)] == erec2);
                    assert(erec2.pages@.contains(id.1 as usize));
                } else {
                    let rs1 = rs0.update(eri as int, rs0.last()).drop_last();
                    assert(rec_has(rs1, id.0));
                    assert(rs1[rec_idx(rs1, id.0)] == rs0[rec_idx(rs0, id.0)]);
                    if !dropped_rec {
                        assert(rsm == rs1.push(erec2));
                        assert(rsm[rec_idx(rsm, id.0)] == rs1[rec_idx(rs1, id.0)]);
                    }
                }
            }
            // the remaining well-formedness components, one by one
            assert(lru_distinct(cmid.entries()));
            assert(cmid.entries().len() <= cmid.capacity());
            assert(cmid.free_pages@.len() + cmid.entries().len() + out == cmid.capacity()
                + FREE_SLACK);
            assert(c0.entries()[es0.len() - 1].1.len() == PAGE_SIZE);
            assert forall|f: int| 0 <= f < cmid.free_pages@.len() implies (
            #[trigger] cmid.free_pages@[f])@.len() == PAGE_SIZE by {
                assert(cmid.free_pages@ == c0.free_pages@.push(ebuf));
                if f < c0.free_pages@.len() {
                    assert(cmid.free_pages@[f] == c0.free_pages@[f]);
                } else {
                    assert(cmid.free_pages@[f] == ebuf);
                    assert(ebuf@ == es0.last().1);
                }
            }
            assert forall|e: int| 0 <= e < esm.len() implies (#[trigger] esm[e]).1.len()
                == PAGE_SIZE by {
                assert(esm[e] == es0[e]);
                assert(c0.entries()[e].1.len() == PAGE_SIZE);
            }
            assert(cmid.store.inv());
            assert(cmid.capacity() >= 1);
            assert(cmid.cap as int == cmid.capacity());
            assert(rec_distinct(cmid.records@));
            assert(forall|ri: int|
                0 <= ri < cmid.records@.len() ==> cmid.rec_wf(
                    #[trigger] cmid.records@[ri],
                ));
            assert(forall|e: int|
                0 <= e < cmid.entries().len() ==> {
                    let id = (#[trigger] cmid.entries()[e]).0;
                    &&& rec_has(cmid.records@, id.0)
                    &&& cmid.records@[rec_idx(cmid.records@, id.0)].pages@.contains(
                        id.1 as usize,
                    )
                    &&& id.1 >= 0
                    &&& id.1 <= usize::MAX
                });
            assert(cmid.wf_out(out));
        }
        match wb {
            Ok(()) => {
                proof {
                    Self::lemma_evict_transparent(c0, cmid, ekey@, ep as int);
                }
                Ok(())
            },
            Err(e) => Err(e),
        }
    }

    /// The byte range a `get` addresses: the whole blob for `All`, the
    /// given range otherwise.
    pub open spec fn target_range(self, k: Seq<u8>, opt: GetOpt) -> BlobRange {
        match opt {
            GetOpt::All => BlobRange { start: 0, end: self@[k].len() as usize },
            GetOpt::Range(rg) => rg,
        }
    }

    /// Carry the most-recently-touched prefix across one segment of a
    /// split operation.
    proof fn lemma_prefix_after_segment(
        cprev: Self,
        cnow: Self,
        key: Key,
        segs: Seq<(usize, BlobRange)>,
        rg: BlobRange,
        si: int,
    )
        requires
            PAGE_SIZE >= 1,
            seg_list_wf(segs, rg, PAGE_SIZE as int),
            0 <= si < segs.len(),
            lru_distinct(cprev.entries()),
            cprev.entries().len() <= cprev.capacity(),
            cprev.capacity() >= 1,
            cnow.capacity() == cprev.capacity(),
            forall|j: int|
                0 <= j < si && j < cprev.capacity() ==> 0 <= j < cprev.entries().len() && (
                #[trigger] cprev.entries()[j]).0 == (key@, segs[si - 1 - j].0 as int),
            si <= cprev.entries().len() || cprev.capacity() <= cprev.entries().len(),
            cnow.entries().len() > 0,
            cnow.entries()[0].0 == (key@, segs[si].0 as int),
            cnow.entries().skip(1) == (if lru_has(cprev.entries(), (key@, segs[si].0 as int)) {
                cprev.entries().remove(lru_idx(cprev.entries(), (key@, segs[si].0 as int)))
            } else if cprev.entries().len() < cprev.capacity() {
                cprev.entries()
            } else {
                cprev.entries().drop_last()
            }),
        ensures
            forall|j: int|
                0 <= j < si + 1 && j < cprev.capacity() ==> 0 <= j < cnow.entries().len() && (
                #[trigger] cnow.entries()[j]).0 == (key@, segs[si - j].0 as int),
            si + 1 <= cnow.entries().len() || cprev.capacity() <= cnow.entries().len(),
    {
        let es0 = cprev.entries();
        let es1 = cnow.entries();
        let touched = Seq::new(si as nat, |i: int| segs[i].0 as int);
        let q = segs[si].0 as int;
        let e0 = es1[0];
        assert(e0 == ((key@, q), e0.1));
        assert(es1 =~= seq![((key@, q), e0.1)] + es1.skip(1));
        assert forall|j: int| 0 <= j < touched.len() implies #[trigger] touched[j] != q by {
            assert(touched[j] == segs[j].0 as int);
            assert(segs[j].0 as int == segs[0].0 as int + j);
            assert(segs[si].0 as int == segs[0].0 as int + si);
        }
        assert forall|j: int|
            0 <= j < touched.len() && j < cprev.capacity() implies 0 <= j < es0.len() && (
        #[trigger] es0[j]).0 == (key@, touched[touched.len() - 1 - j]) by {
            assert(es0[j].0 == (key@, segs[si - 1 - j].0 as int));
            assert(touched[si - 1 - j] == segs[si - 1 - j].0 as int);
        }
        lemma_touched_prefix_step(es0, es1, key@, touched, q, cprev.capacity(), e0.1);
        assert forall|j: int|
            0 <= j < si + 1 && j < cprev.capacity() implies 0 <= j < es1.len() && (
        #[trigger] es1[j]).0 == (key@, segs[si - j].0 as int) by {
            assert(es1[j].0 == (key@, touched.push(q)[touched.len() - j]));
            if si - j < si {
                assert(touched.push(q)[si - j] == touched[si - j]);
                assert(touched[si - j] == segs[si - j].0 as int);
            } else {
                assert(touched.push(q)[si] == q);
            }
        }
    }

    /// After a full split pass the touched pages sit at the front of the
    /// cache, so each is resident whenever they all fit the capacity.
    proof fn lemma_prefix_residency(c: Self, key: Key, segs: Seq<(usize, BlobRange)>, rg: BlobRange)
        requires
            PAGE_SIZE >= 1,
            rg.start < rg.end,
            seg_list_wf(segs, rg, PAGE_SIZE as int),
            lru_distinct(c.entries()),
            c.capacity() >= 1,
            forall|j: int|
                0 <= j < segs.len() && j < c.capacity() ==> 0 <= j < c.entries().len() && (
                #[trigger] c.entries()[j]).0 == (key@, segs[segs.len() - 1 - j].0 as int),
        ensures
            c.resident(key@, segs[segs.len() - 1].0 as int),
            pages_spanned(rg, PAGE_SIZE as int) <= c.capacity() ==> forall|p: int|
                #[trigger] page_touches(rg, PAGE_SIZE as int, p) ==> c.resident(key@, p),
    {
        let ps = PAGE_SIZE as int;
        let n = segs.len() as int;
        assert(n > 0);
        assert(seg_wf(segs[0], ps));
        lemma_page_of(rg.start as int, segs[0].0 as int, ps);
        assert(rg.start as int / ps == segs[0].0 as int);
        assert(seg_wf(segs[n - 1], ps));
        lemma_page_of(rg.end as int - 1, segs[n - 1].0 as int, ps);
        assert((rg.end as int - 1) / ps == segs[n - 1].0 as int);
        assert(segs[n - 1].0 as int == segs[0].0 as int + (n - 1));
        assert(pages_spanned(rg, ps) == n);
        assert(c.entries()[0].0 == (key@, segs[n - 1].0 as int));
        lemma_lru_witness(c.entries(), 0);
        if pages_spanned(rg, ps) <= c.capacity() {
            assert forall|p: int| #[trigger] page_touches(rg, ps, p) implies c.resident(
                key@,
                p,
            ) by {
                let i = p - segs[0].0 as int;
                assert(0 <= i < n);
                assert(segs[i].0 as int == p);
                let j = n - 1 - i;
                assert(c.entries()[j].0 == (key@, segs[n - 1 - j].0 as int));
                lemma_lru_witness(c.entries(), j);
            }
        }
    }

    /// Write every resident page back to the backend, least recently used
    /// first, and empty the cache. On success the backend holds exactly
    /// the bytes the cache presented. This is the only path by which
    /// buffered modifications reach durable storage at teardown: a failure
    /// here loses them and must be treated as fatal by the caller.
    pub fn flush(&mut self) -> (r: Result<(), Error>)
        requires
            old(self).wf(),
        ensures
            final(self).wf(),
            final(self).capacity() == old(self).capacity(),
            forall|k2: Seq<u8>|
                #[trigger] final(self).backing().contains_key(k2)
                    == old(self).backing().contains_key(k2),
            forall|k2: Seq<u8>|
                old(self).backing().contains_key(k2)
                    ==> (#[trigger] final(self).backing()[k2]).len()
                    == old(self).backing()[k2].len(),
            match r {
                Ok(()) => {
                    &&& final(self).entries().len() == 0
                    &&& final(self)@ == old(self)@
                    &&& final(self).backing() == final(self)@
                },
                Err(e) => e.is_opaque(),
            },
            old(self).entries().len() == 0 ==> r matches Ok(_),
    {
        let ghost c0 = *self;
        let mut n: usize = lru_len(&self.lru);
        while n > 0
            invariant
                c0 == *old(self),
                n <= old(self).entries().len(),
                self.wf(),
                n == self.entries().len(),
                self.capacity() == c0.capacity(),
                self@ == c0@,
                forall|k2: Seq<u8>|
                    #[trigger] self.backing().contains_key(k2) == c0.backing().contains_key(k2),
                forall|k2: Seq<u8>|
                    c0.backing().contains_key(k2) ==> (#[trigger] self.backing()[k2]).len()
                        == c0.backing()[k2].len(),
            decreases n,
        {
            let ghost cprev = *self;
            match self.evict_lru(Ghost(0int)) {
                Ok(()) => {},
                Err(e) => {
                    proof {
                        assert forall|k2: Seq<u8>| true implies #[trigger] self
                            .backing().contains_key(k2) == c0.backing().contains_key(k2) by {
                            assert(self.backing().contains_key(k2)
                                == cprev.backing().contains_key(k2));
                        }
                        assert forall|k2: Seq<u8>| c0.backing().contains_key(k2) implies (
                        #[trigger] self.backing()[k2]).len() == c0.backing()[k2].len() by {
                            assert(self.backing()[k2].len() == cprev.backing()[k2].len());
                        }
                    }
                    return Err(e);
                },
            }
            n = n - 1;
            proof {
                assert forall|k2: Seq<u8>| true implies #[trigger] self.backing().contains_key(
                    k2,
                ) == c0.backing().contains_key(k2) by {
                    assert(self.backing().contains_key(k2) == cprev.backing().contains_key(k2));
                }
                assert forall|k2: Seq<u8>| c0.backing().contains_key(k2) implies (
                #[trigger] self.backing()[k2]).len() == c0.backing()[k2].len() by {
                    assert(self.backing()[k2].len() == cprev.backing()[k2].len());
                }
            }
        }
        proof {
            assert forall|k: Seq<u8>| self.backing().contains_key(k) implies self.blob_view(k)
                == self.backing()[k] by {
                assert(self.blob_view(k) =~= self.backing()[k]);
            }
            assert(self@ =~= self.backing());
        }
        Ok(())
    }

    /// Push a just-popped resident page back to the front of the LRU,
    /// possibly with updated bytes; records, free pool and backend are
    /// untouched.
    #[verifier::rlimit(60)]
    fn repush_page(&mut self, key: Key, p: usize, buf: Vec<u8>, Ghost(c0): Ghost<Self>)
        requires
            c0.wf(),
            c0.resident(key@, p as int),
            old(self).store == c0.store,
            old(self).records@ == c0.records@,
            old(self).free_pages@ == c0.free_pages@,
            old(self).cap == c0.cap,
            lru_cap(old(self).lru) == c0.capacity(),
            old(self).entries() == c0.entries().remove(lru_idx(c0.entries(), (key@, p as int))),
            buf@.len() == PAGE_SIZE,
        ensures
            final(self).wf(),
            final(self).capacity() == c0.capacity(),
            final(self).records@ == c0.records@,
            final(self).backing() == c0.backing(),
            final(self).free_pages@ == c0.free_pages@,
            final(self).entries() == seq![((key@, p as int), buf@)] + c0.entries().remove(
                lru_idx(c0.entries(), (key@, p as int)),
            ),
            forall|id: (Seq<u8>, int)|
                #[trigger] lru_has(final(self).entries(), id) == lru_has(c0.entries(), id),
            forall|k2: Seq<u8>|
                k2 != key@ && c0.backing().contains_key(k2) ==> #[trigger] final(self).blob_view(
                    k2,
                ) == c0.blob_view(k2),
            c0.backing().contains_key(key@) ==> {
                &&& final(self).blob_view(key@).len() == c0.blob_view(key@).len()
                &&& forall|i: int|
                    0 <= i < c0.blob_view(key@).len() && i / (PAGE_SIZE as int) == p as int
                        ==> (#[trigger] final(self).blob_view(key@)[i]) == buf@[i - (p as int) * (
                    PAGE_SIZE as int)]
                &&& forall|i: int|
                    0 <= i < c0.blob_view(key@).len() && i / (PAGE_SIZE as int) != p as int
                        ==> (#[trigger] final(self).blob_view(key@)[i]) == c0.blob_view(key@)[i]
            },
    {
        let ghost es0 = c0.entries();
        let ghost pid = (key@, p as int);
        let ghost i0 = lru_idx(es0, pid);
        let ghost esr = es0.remove(i0);
        proof {
            assert(lru_has(es0, pid));
            assert(0 <= i0 < es0.len() && es0[i0].0 == pid);
            lemma_lru_remove(es0, i0);
            assert(es0[i0].0 == pid);
            assert(!lru_has(esr, pid));
        }
        let ev = lru_push(&mut self.lru, (key, p), buf);
        proof {
            assert(ev is None);
            lemma_lru_prepend(esr, (pid, buf@));
            let cf = *self;
            let esf = cf.entries();
            assert(esf == seq![(pid, buf@)] + esr);
            // every page id is present exactly as before the repush
            assert forall|id: (Seq<u8>, int)| true implies #[trigger] lru_has(esf, id)
                == lru_has(es0, id) by {
                if id != pid {
                    assert(lru_has(esf, id) == lru_has(esr, id));
                    assert(lru_has(esr, id) == lru_has(es0, id));
                }
            }
            // well-formedness: records unchanged, entries permuted
            assert forall|ri: int| 0 <= ri < cf.records@.len() implies cf.rec_wf(
                #[trigger] cf.records@[ri],
            ) by {
                let rr = cf.records@[ri];
                assert(c0.rec_wf(c0.records@[ri]));
                assert forall|q: int| 0 <= q < rr.pages@.len() implies cf.resident(
                    rr.key@,
                    (#[trigger] rr.pages@[q]) as int,
                ) by {
                    assert(c0.resident(rr.key@, rr.pages@[q] as int));
                    assert(lru_has(esf, (rr.key@, rr.pages@[q] as int)) == lru_has(
                        es0,
                        (rr.key@, rr.pages@[q] as int),
                    ));
                }
            }
            assert forall|e: int| 0 <= e < esf.len() implies {
                let id = (#[trigger] esf[e]).0;
                &&& rec_has(cf.records@, id.0)
                &&& cf.records@[rec_idx(cf.records@, id.0)].pages@.contains(id.1 as usize)
                &&& id.1 >= 0
                &&& id.1 <= usize::MAX
            } by {
                if e == 0 {
                    assert(esf[0].0 == es0[i0].0);
                    assert(c0.entries()[i0].0 == pid);
                } else {
                    let sj: int = if e - 1 < i0 {
                        e - 1
                    } else {
                        e
                    };
                    assert(esf[e] == esr[e - 1]);
                    assert(esr[e - 1] == es0[sj]);
                    assert(c0.entries()[sj] == es0[sj]);
                }
            }
            assert forall|e: int| 0 <= e < esf.len() implies (#[trigger] esf[e]).1.len()
                == PAGE_SIZE by {
                if e > 0 {
                    let sj: int = if e - 1 < i0 {
                        e - 1
                    } else {
                        e
                    };
                    assert(esf[e] == es0[sj]);
                    assert(c0.entries()[sj].1.len() == PAGE_SIZE);
                }
            }
            assert(cf.wf_out(0));
            // view: only page p of this key shows the new bytes
            let ps = PAGE_SIZE as int;
            assert forall|k2: Seq<u8>|
                k2 != key@ && c0.backing().contains_key(k2) implies #[trigger] cf.blob_view(k2)
                == c0.blob_view(k2) by {
                assert forall|i: int| 0 <= i < c0.backing()[k2].len() implies cf.blob_view(
                    k2,
                )[i] == c0.blob_view(k2)[i] by {
                    let pi = i / ps;
                    assert((k2, pi) != pid);
                    assert(lru_has(esf, (k2, pi)) == lru_has(es0, (k2, pi)));
                    if lru_has(es0, (k2, pi)) {
                        assert(lru_lookup(esf, (k2, pi)) == lru_lookup(esr, (k2, pi)));
                        assert(lru_lookup(esr, (k2, pi)) == lru_lookup(es0, (k2, pi)));
                    }
                }
                assert(cf.blob_view(k2) =~= c0.blob_view(k2));
            }
            if c0.backing().contains_key(key@) {
                let len = c0.backing()[key@].len() as int;
                assert forall|i: int| 0 <= i < len && i / ps == p as int implies (#[trigger] cf
                    .blob_view(key@)[i]) == buf@[i - (p as int) * ps] by {
                    lemma_fundamental_div_mod(i, ps);
                    lemma_mod_bound(i, ps);
                    assert((p as int) * ps == ps * (p as int)) by (nonlinear_arith);
                    assert(i % ps == i - (p as int) * ps);
                    assert(cf.blob_view(key@)[i] == lru_lookup(esf, pid)[i % ps]);
                }
                assert forall|i: int| 0 <= i < len && i / ps != p as int implies (#[trigger] cf
                    .blob_view(key@)[i]) == c0.blob_view(key@)[i] by {
                    let pi = i / ps;
                    assert((key@, pi) != pid);
                    assert(lru_has(esf, (key@, pi)) == lru_has(es0, (key@, pi)));
                    if lru_has(es0, (key@, pi)) {
                        assert(lru_lookup(esf, (key@, pi)) == lru_lookup(esr, (key@, pi)));
                        assert(lru_lookup(esr, (key@, pi)) == lru_lookup(es0, (key@, pi)));
                    }
                }
            }
        }
    }

    /// Make page `p` of `key` resident with buffer `page`, creating or
    /// growing the per-blob record; if the cache is at capacity, the least
    /// recently used page is first evicted with write-back. On an eviction
    /// write-back failure the new page is not made resident and the error
    /// is reported; such a failure loses the evicted page's buffered
    /// modifications, which is why callers treat it as fatal.
    #[verifier::rlimit(60)]
    fn cache_page(&mut self, key: Key, p: usize, page: Vec<u8>, size: usize) -> (r: Result<
        (),
        Error,
    >)
        requires
            old(self).wf_out(1),
            old(self).backing().contains_key(key@),
            size == old(self).backing()[key@].len(),
            !old(self).resident(key@, p as int),
            (p as int) * (PAGE_SIZE as int) < size,
            page@.len() == PAGE_SIZE,
        ensures
            final(self).wf(),
            final(self).capacity() == old(self).capacity(),
            forall|k2: Seq<u8>|
                #[trigger] final(self).backing().contains_key(k2)
                    == old(self).backing().contains_key(k2),
            forall|k2: Seq<u8>|
                old(self).backing().contains_key(k2)
                    ==> (#[trigger] final(self).backing()[k2]).len()
                    == old(self).backing()[k2].len(),
            match r {
                Ok(()) => {
                    &&& final(self).resident(key@, p as int)
                    &&& final(self).has_record(key@)
                    &&& final(self).entries() == seq![((key@, p as int), page@)] + (
                    if old(self).entries().len() < old(self).capacity() {
                        old(self).entries()
                    } else {
                        old(self).entries().drop_last()
                    })
                    &&& forall|k2: Seq<u8>|
                        old(self).backing().contains_key(k2) && k2 != key@ ==> (
                        #[trigger] final(self).blob_view(k2)) == old(self).blob_view(k2)
                    &&& forall|i: int|
                        0 <= i < size && i / (PAGE_SIZE as int) != p as int
                            ==> (#[trigger] final(self).blob_view(key@)[i])
                            == old(self).blob_view(key@)[i]
                    &&& forall|i: int|
                        0 <= i < size && i / (PAGE_SIZE as int) == p as int
                            ==> (#[trigger] final(self).blob_view(key@)[i])
                            == page@[i - (p as int) * (PAGE_SIZE as int)]
                },
                Err(e) => e.is_opaque(),
            },
    {
        let ghost c0 = *self;
        let ghost es0 = lru_entries(self.lru);
        let len0: usize = lru_len(&self.lru);
        if len0 == self.cap {
            // at capacity: evict the least recently used page first
            match self.evict_lru(Ghost(1int)) {
                Ok(()) => {},
                Err(e) => {
                    let ghost cev = *self;
                    self.free_pages.push(page);
                    proof {
                        assert(final(self).wf_out(0));
                        assert(self.backing() == cev.backing());
                        assert forall|k2: Seq<u8>| true implies #[trigger] self
                            .backing().contains_key(k2) == c0.backing().contains_key(k2) by {
                            assert(cev.backing().contains_key(k2)
                                == c0.backing().contains_key(k2));
                        }
                        assert forall|k2: Seq<u8>| c0.backing().contains_key(k2) implies (
                        #[trigger] self.backing()[k2]).len() == c0.backing()[k2].len() by {
                            assert(cev.backing()[k2].len() == c0.backing()[k2].len());
                        }
                    }
                    return Err(e);
                },
            }
        }

        // below capacity now: record the page and push it, evicting nothing
        let ghost cm = *self;
        proof {
            assert(cm.wf_out(1));
            assert(cm.entries().len() < cm.capacity());
            assert(!cm.resident(key@, p as int)) by {
                if len0 == c0.cap {
                    assert(lru_has(cm.entries(), (key@, p as int)) == lru_has(
                        es0,
                        (key@, p as int),
                    )) by {
                        if (key@, p as int) == es0.last().0 {
                            lemma_lru_witness(es0, es0.len() - 1);
                        }
                    }
                }
            }
            assert(cm@ == c0@) by {
                if len0 != c0.cap {
                    assert(cm@ =~= c0@);
                }
            }
        }
        let ghost rsm = self.records@;
        let ghost mut rec2: CacheRecord = arbitrary();
        match self.find_record(&key) {
            Some(ri) => {
                let mut rec = self.records.swap_remove(ri);
                rec.pages.push(p);
                proof {
                    rec2 = rec;
                    assert(rec2.pages@ == rsm[ri as int].pages@.push(p));
                    assert(rec2.pages@[rec2.pages@.len() - 1] == p);
                    assert(rec2.pages@.contains(p));
                    lemma_rec_replace(rsm, ri as int, rec2);
                    assert(!rsm[ri as int].pages@.contains(p)) by {
                        if rsm[ri as int].pages@.contains(p) {
                            assert(cm.rec_wf(rsm[ri as int]));
                            let a = choose|a: int|
                                0 <= a < rsm[ri as int].pages@.len() && rsm[
                                ri as int].pages@[a] == p;
                            assert(cm.resident(key@, p as int));
                        }
                    }
                }
                self.records.push(rec);
            },
            None => {
                let mut pages: Vec<usize> = Vec::new();
                pages.push(p);
                let nrec = CacheRecord { key, meta: BlobMeta { size }, pages };
                proof {
                    rec2 = nrec;
                    assert(rec2.pages@[0] == p);
                    assert(rec2.pages@.contains(p));
                    lemma_rec_push_fresh(rsm, rec2);
                }
                self.records.push(nrec);
            },
        }
        let ghost rsf = self.records@;
        let ev2 = lru_push(&mut self.lru, (key, p), page);
        proof {
            assert(ev2 is None);
            lemma_lru_prepend(cm.entries(), ((key@, p as int), page@));
            assert(lru_entries(self.lru) == seq![((key@, p as int), page@)] + cm.entries());
            let cf = *self;
            let esf = cf.entries();
            // record facts shared by both branches
            assert(rec_distinct(rsf));
            assert(rec_has(rsf, key@));
            assert(rsf[rec_idx(rsf, key@)] == rec2);
            assert(rec2.key@ == key@ && rec2.meta.size == size);
            assert(rec2.pages@.contains(p));
            assert(forall|q: usize|
                #[trigger] rec2.pages@.contains(q) ==> q == p || (rec_has(rsm, key@) && rsm[
                rec_idx(rsm, key@)].pages@.contains(q)));
            assert forall|ri: int| 0 <= ri < rsf.len() implies cf.rec_wf(#[trigger] rsf[ri]) by {
                let rr = rsf[ri];
                lemma_rec_witness(rsf, ri);
                if rr.key@ == key@ {
                    assert(rr == rec2);
                    assert forall|a: int, b: int| 0 <= a < b < rr.pages@.len() implies rr.pages@[a]
                        != rr.pages@[b] by {
                        if rec_has(rsm, key@) {
                            let orec = rsm[rec_idx(rsm, key@)];
                            assert(cm.rec_wf(orec));
                            assert(rr.pages@ == orec.pages@.push(p));
                            if b == rr.pages@.len() - 1 {
                                if orec.pages@[a] == p {
                                    assert(orec.pages@.contains(p));
                                    assert(cm.resident(key@, p as int));
                                }
                            }
                        }
                    }
                    assert forall|q: int| 0 <= q < rr.pages@.len() implies (
                    #[trigger] rr.pages@[q]) as int * (PAGE_SIZE as int) < rr.meta.size by {
                        let pv = rr.pages@[q];
                        if pv != p {
                            assert(rr.pages@.contains(pv));
                            let orec = rsm[rec_idx(rsm, key@)];
                            assert(cm.rec_wf(orec));
                            assert(orec.pages@.contains(pv));
                            let a = choose|a: int|
                                0 <= a < orec.pages@.len() && orec.pages@[a] == pv;
                            assert(orec.meta.size == cm.backing()[key@].len());
                        }
                    }
                    assert forall|q: int| 0 <= q < rr.pages@.len() implies cf.resident(
                        rr.key@,
                        (#[trigger] rr.pages@[q]) as int,
                    ) by {
                        let pv = rr.pages@[q];
                        if pv == p {
                            assert(lru_has(esf, (key@, p as int)));
                        } else {
                            assert(rr.pages@.contains(pv));
                            let orec = rsm[rec_idx(rsm, key@)];
                            assert(cm.rec_wf(orec));
                            assert(orec.pages@.contains(pv));
                            let a = choose|a: int|
                                0 <= a < orec.pages@.len() && orec.pages@[a] == pv;
                            assert(cm.resident(key@, pv as int));
                            assert((key@, pv as int) != (key@, p as int));
                        }
                    }
                } else {
                    assert(rec_has(rsm, rr.key@));
                    assert(rr == rsm[rec_idx(rsm, rr.key@)]);
                    assert(cm.rec_wf(rr));
                    assert forall|q: int| 0 <= q < rr.pages@.len() implies cf.resident(
                        rr.key@,
                        (#[trigger] rr.pages@[q]) as int,
                    ) by {
                        assert(cm.resident(rr.key@, rr.pages@[q] as int));
                        assert((rr.key@, rr.pages@[q] as int) != (key@, p as int));
                    }
                }
            }
            assert forall|e: int| 0 <= e < esf.len() implies {
                let id = (#[trigger] esf[e]).0;
                &&& rec_has(rsf, id.0)
                &&& rsf[rec_idx(rsf, id.0)].pages@.contains(id.1 as usize)
                &&& id.1 >= 0
                &&& id.1 <= usize::MAX
            } by {
                let id = esf[e].0;
                if e == 0 {
                    assert(id == (key@, p as int));
                    assert(rsf[rec_idx(rsf, key@)].pages@.contains(p));
                } else {
                    assert(esf[e] == cm.entries()[e - 1]);
                    let oid = cm.entries()[e - 1].0;
                    assert(rec_has(rsm, oid.0) && rsm[rec_idx(rsm, oid.0)].pages@.contains(
                        oid.1 as usize,
                    ));
                    if oid.0 == key@ {
                        assert(rsf[rec_idx(rsf, key@)] == rec2);
                        assert(rec2.pages@.contains(oid.1 as usize)) by {
                            let orec = rsm[rec_idx(rsm, key@)];
                            assert(rec2.pages@ == orec.pages@.push(p));
                            let a = choose|a: int|
                                0 <= a < orec.pages@.len() && orec.pages@[a]
                                    == oid.1 as usize;
                            assert(rec2.pages@[a] == oid.1 as usize);
                        }
                    } else {
                        assert(rsf[rec_idx(rsf, oid.0)] == rsm[rec_idx(rsm, oid.0)]);
                    }
                }
            }
            assert(cf.wf_out(0));
            // view effects
            Self::lemma_insert_page(cm, cf, key@, p as int, page@);
            assert(cm@ == c0@);
            assert(cm.backing().contains_key(key@) && c0.backing().contains_key(key@));
            assert(cm@[key@] == cm.blob_view(key@));
            assert(c0@[key@] == c0.blob_view(key@));
            assert(cm.blob_view(key@) == c0.blob_view(key@));
            assert forall|k2: Seq<u8>|
                old(self).backing().contains_key(k2) && k2 != key@ implies (#[trigger] cf
                .blob_view(k2)) == old(self).blob_view(k2) by {
                assert(c0.backing().contains_key(k2) && cm.backing().contains_key(k2));
                assert(cm@[k2] == cm.blob_view(k2));
                assert(c0@[k2] == c0.blob_view(k2));
                assert(cm.blob_view(k2) == c0.blob_view(k2));
            }
            assert(cf.backing() == cm.backing());
            assert forall|k2: Seq<u8>| true implies #[trigger] cf.backing().contains_key(k2)
                == c0.backing().contains_key(k2) by {
                assert(cm.backing().contains_key(k2) == c0.backing().contains_key(k2));
            }
            assert forall|k2: Seq<u8>| c0.backing().contains_key(k2) implies (#[trigger] cf
                .backing()[k2]).len() == c0.backing()[k2].len() by {
                assert(cm.backing()[k2].len() == c0.backing()[k2].len());
            }
        }
        Ok(())
    }
}


impl<S: BlobStore, const PAGE_SIZE: usize> MemoryCache<S, PAGE_SIZE> {
    /// Apply one segment of a `Replace`: overwrite the segment's bytes in
    /// the resident page, or fault the page in (reading through only the
    /// segment's bytes from the backend) and overwrite them there.
    #[verifier::rlimit(100)]
    fn put_segment(
        &mut self,
        key: Key,
        value: &Vec<u8>,
        rg: BlobRange,
        size: usize,
        seg: (usize, BlobRange),
        Ghost(c0): Ghost<Self>,
    ) -> (r: Result<(), Error>)
        requires
            old(self).wf(),
            old(self).capacity() == c0.capacity(),
            c0.wf(),
            c0.backing().contains_key(key@),
            size as int == c0.backing()[key@].len(),
            rg.start <= rg.end,
            rg.end <= size,
            value@.len() == rg.end - rg.start,
            seg_wf(seg, PAGE_SIZE as int),
            rg.start <= seg.1.start,
            seg.1.end <= rg.end,
            seg.1.start == rg.start || seg.1.start as int == (seg.0 as int) * (PAGE_SIZE as int),
            seg.1.end == rg.end || seg.1.end as int == (seg.0 as int + 1) * (PAGE_SIZE as int),
            forall|k2: Seq<u8>|
                #[trigger] old(self).backing().contains_key(k2) == c0.backing().contains_key(k2),
            forall|k2: Seq<u8>|
                c0.backing().contains_key(k2) ==> (#[trigger] old(self).backing()[k2]).len()
                    == c0.backing()[k2].len(),
            forall|k2: Seq<u8>|
                c0.backing().contains_key(k2) && k2 != key@ ==> (#[trigger] old(self).blob_view(
                    k2,
                )) == c0.blob_view(k2),
            forall|i: int|
                rg.start <= i < seg.1.start ==> (#[trigger] old(self).blob_view(key@)[i])
                    == value@[i - rg.start],
            forall|i: int|
                seg.1.start <= i < rg.end ==> (#[trigger] old(self).blob_view(key@)[i])
                    == c0.blob_view(key@)[i],
            forall|i: int|
                0 <= i < size && (i < span_start(rg, PAGE_SIZE as int) || i >= span_end(
                    rg,
                    PAGE_SIZE as int,
                )) ==> (#[trigger] old(self).blob_view(key@)[i]) == c0.blob_view(key@)[i],
        ensures
            final(self).wf(),
            final(self).capacity() == c0.capacity(),
            forall|k2: Seq<u8>|
                #[trigger] final(self).backing().contains_key(k2) == c0.backing().contains_key(
                    k2,
                ),
            forall|k2: Seq<u8>|
                c0.backing().contains_key(k2) ==> (#[trigger] final(self).backing()[k2]).len()
                    == c0.backing()[k2].len(),
            old(self).resident(key@, seg.0 as int) ==> (r matches Ok(_)) && (forall|id: (
                Seq<u8>,
                int,
            )|
                #[trigger] lru_has(final(self).entries(), id) == lru_has(
                    old(self).entries(),
                    id,
                )),
            (r matches Ok(_)) ==> {
                &&& final(self).entries().len() > 0
                &&& final(self).entries()[0].0 == (key@, seg.0 as int)
                &&& final(self).entries().skip(1) == (if lru_has(
                    old(self).entries(),
                    (key@, seg.0 as int),
                ) {
                    old(self).entries().remove(
                        lru_idx(old(self).entries(), (key@, seg.0 as int)),
                    )
                } else if old(self).entries().len() < old(self).capacity() {
                    old(self).entries()
                } else {
                    old(self).entries().drop_last()
                })
            },
            match r {
                Ok(()) => {
                    &&& forall|k2: Seq<u8>|
                        c0.backing().contains_key(k2) && k2 != key@ ==> (#[trigger] final(self).blob_view(k2)) == c0.blob_view(k2)
                    &&& forall|i: int|
                        rg.start <= i < seg.1.end ==> (#[trigger] final(self).blob_view(key@)[i])
                            == value@[i - rg.start]
                    &&& forall|i: int|
                        seg.1.end <= i < rg.end ==> (#[trigger] final(self).blob_view(key@)[i])
                            == c0.blob_view(key@)[i]
                    &&& forall|i: int|
                        0 <= i < size && (i < span_start(rg, PAGE_SIZE as int) || i >= span_end(
                            rg,
                            PAGE_SIZE as int,
                        )) ==> (#[trigger] final(self).blob_view(key@)[i]) == c0.blob_view(
                            key@,
                        )[i]
                },
                Err(e) => e.is_opaque(),
            },
    {
        let p: usize = seg.0;
        let sg: BlobRange = seg.1;
        let ghost ps = PAGE_SIZE as int;
        proof {
            lemma_seg_in_span(rg, p as int, sg, ps);
            assert forall|i: int|
                rg.start <= i < rg.end && #[trigger] (i / ps) == p as int implies sg.start <= i
                < sg.end by {
                lemma_in_page(i, p as int, ps);
            }
            assert forall|i: int| sg.start <= i < sg.end implies #[trigger] (i / ps)
                == p as int by {
                lemma_page_of(i, p as int, ps);
            }
        }
        let off_in_page: usize = sg.start - p * PAGE_SIZE;
        let sg_len: usize = sg.end - sg.start;
        proof {
            assert((p as int + 1) * ps == (p as int) * ps + ps) by (nonlinear_arith);
            assert(off_in_page + sg_len <= PAGE_SIZE);
        }
        let ghost cpre = *self;
        let popped = lru_pop(&mut self.lru, &(key, p));
        match popped {
            Some(mut buf) => {
                proof {
                    assert(cpre.resident(key@, p as int));
                    let i0 = lru_idx(cpre.entries(), (key@, p as int));
                    assert(cpre.entries()[i0].1.len() == PAGE_SIZE);
                    assert(buf@ == cpre.pbuf(key@, p as int));
                }
                copy_range(&mut buf, off_in_page, value, sg.start - rg.start, sg_len);
                let ghost buf2 = buf@;
                self.repush_page(key, p, buf, Ghost(cpre));
                proof {
                    assert forall|i: int|
                        rg.start <= i < sg.end implies (#[trigger] self.blob_view(key@)[i])
                        == value@[i - rg.start] by {
                        if i < sg.start {
                            assert(i / ps != p as int);
                            assert(self.blob_view(key@)[i] == cpre.blob_view(key@)[i]);
                        } else {
                            assert(i / ps == p as int);
                            assert(self.blob_view(key@)[i] == buf2[i - (p as int) * ps]);
                            lemma_in_page(i, p as int, ps);
                        }
                    }
                    assert forall|i: int|
                        sg.end <= i < rg.end implies (#[trigger] self.blob_view(key@)[i])
                        == c0.blob_view(key@)[i] by {
                        assert(i / ps != p as int);
                        assert(self.blob_view(key@)[i] == cpre.blob_view(key@)[i]);
                    }
                    assert forall|i: int|
                        0 <= i < size && (i < span_start(rg, ps) || i >= span_end(rg, ps))
                            implies (#[trigger] self.blob_view(key@)[i]) == c0.blob_view(
                        key@)[i] by {
                        assert(i / ps != p as int);
                        assert(self.blob_view(key@)[i] == cpre.blob_view(key@)[i]);
                    }
                    assert forall|k2: Seq<u8>|
                        c0.backing().contains_key(k2) && k2 != key@ implies (
                    #[trigger] self.blob_view(k2)) == c0.blob_view(k2) by {
                        assert(self.blob_view(k2) == cpre.blob_view(k2));
                    }
                }
                Ok(())
            },
            None => {
                proof {
                    assert(!cpre.resident(key@, p as int));
                    assert(self.backing().contains_key(key@));
                    assert(self.backing()[key@].len() == size);
                }
                let mut tmp = vec![0u8; sg_len];
                match self.store.get(key, &mut tmp, GetOpt::Range(sg)) {
                    Ok(()) => {},
                    Err(e) => {
                        proof {
                            assert(e.is_opaque());
                            assert(self.backing() == cpre.backing());
                            assert forall|k2: Seq<u8>|
                                cpre.backing().contains_key(k2) implies #[trigger] self
                                .blob_view(k2) == cpre.blob_view(k2) by {
                                assert(self.blob_view(k2) =~= cpre.blob_view(k2));
                            }
                        }
                        return Err(e);
                    },
                }
                let popped_free = self.free_pages.pop();
                let mut page = match popped_free {
                    Some(pg) => pg,
                    None => {
                        proof {
                            assert(false);
                        }
                        vstd::pervasive::unreached()
                    },
                };
                copy_range(&mut page, off_in_page, value, sg.start - rg.start, sg_len);
                let ghost pg2 = page@;
                let ghost cpre2 = *self;
                proof {
                    assert(cpre2.entries() == cpre.entries());
                    assert(cpre2.backing() == cpre.backing());
                    assert forall|k2: Seq<u8>|
                        cpre.backing().contains_key(k2) implies #[trigger] cpre2.blob_view(k2)
                        == cpre.blob_view(k2) by {
                        assert(cpre2.blob_view(k2) =~= cpre.blob_view(k2));
                    }
                }
                match self.cache_page(key, p, page, size) {
                    Ok(()) => {},
                    Err(e) => {
                        proof {
                            assert forall|k2: Seq<u8>| true implies #[trigger] self
                                .backing().contains_key(k2) == c0.backing().contains_key(k2) by {
                                assert(self.backing().contains_key(k2)
                                    == cpre2.backing().contains_key(k2));
                            }
                            assert forall|k2: Seq<u8>|
                                c0.backing().contains_key(k2) implies (#[trigger] self
                                .backing()[k2]).len() == c0.backing()[k2].len() by {
                                assert(self.backing()[k2].len() == cpre2.backing()[k2].len());
                            }
                        }
                        return Err(e);
                    },
                }
                proof {
                    assert forall|i: int|
                        rg.start <= i < sg.end implies (#[trigger] self.blob_view(key@)[i])
                        == value@[i - rg.start] by {
                        if i < sg.start {
                            assert(i / ps != p as int);
                            assert(self.blob_view(key@)[i] == cpre2.blob_view(key@)[i]);
                        } else {
                            assert(i / ps == p as int);
                            assert(self.blob_view(key@)[i] == pg2[i - (p as int) * ps]);
                            lemma_in_page(i, p as int, ps);
                        }
                    }
                    assert forall|i: int|
                        sg.end <= i < rg.end implies (#[trigger] self.blob_view(key@)[i])
                        == c0.blob_view(key@)[i] by {
                        assert(i / ps != p as int);
                        assert(self.blob_view(key@)[i] == cpre2.blob_view(key@)[i]);
                    }
                    assert forall|i: int|
                        0 <= i < size && (i < span_start(rg, ps) || i >= span_end(rg, ps))
                            implies (#[trigger] self.blob_view(key@)[i]) == c0.blob_view(
                        key@)[i] by {
                        assert(i / ps != p as int);
                        assert(self.blob_view(key@)[i] == cpre2.blob_view(key@)[i]);
                    }
                    assert forall|k2: Seq<u8>|
                        c0.backing().contains_key(k2) && k2 != key@ implies (
                    #[trigger] self.blob_view(k2)) == c0.blob_view(k2) by {
                        assert(self.blob_view(k2) == cpre2.blob_view(k2));
                    }
                    assert forall|k2: Seq<u8>| true implies #[trigger] self
                        .backing().contains_key(k2) == c0.backing().contains_key(k2) by {
                        assert(self.backing().contains_key(k2)
                            == cpre2.backing().contains_key(k2));
                    }
                    assert forall|k2: Seq<u8>|
                        c0.backing().contains_key(k2) implies (#[trigger] self.backing()[
                    k2]).len() == c0.backing()[k2].len() by {
                        assert(self.backing()[k2].len() == cpre2.backing()[k2].len());
                    }
                }
                Ok(())
            },
        }
    }

    /// Write `value` into the blob addressed by `key`. `Create` goes
    /// straight to the backend and caches nothing; `Replace` validates
    /// the range against the blob's size, splits it into page segments,
    /// overwrites resident pages in place and faults missed pages in,
    /// reading through only each segment's bytes. On a page faulted in by
    /// a partial segment, the bytes of that page outside the written
    /// range are unspecified until overwritten; everything outside the
    /// range's touched pages, and every other blob, is unchanged.
    ///
    /// A `Replace` whose touched pages are all resident makes no backend
    /// call and is guaranteed to succeed; after any successful `Replace`
    /// the written pages are resident, provided they fit the capacity.
    #[verifier::rlimit(100)]
    pub fn put(&mut self, key: Key, value: &Vec<u8>, opt: PutOpt) -> (r: Result<(), Error>)
        requires
            old(self).wf(),
        ensures
            final(self).wf(),
            final(self).capacity() == old(self).capacity(),
            match opt {
                PutOpt::Create => {
                    &&& final(self).entries() == old(self).entries()
                    &&& match r {
                        Ok(()) => !old(self)@.contains_key(key@) && final(self)@ == old(self)@.insert(key@, value@),
                        Err(e) => {
                            &&& final(self)@ == old(self)@
                            &&& e.is_already_exists() || e.is_opaque()
                            &&& e.is_already_exists() <==> old(self)@.contains_key(key@)
                        },
                    }
                },
                PutOpt::Replace(rg) => match r {
                    Ok(()) => {
                        &&& old(self)@.contains_key(key@)
                        &&& rg.is_valid_for(old(self)@[key@].len() as int)
                        &&& rg.spec_len() == value@.len()
                        &&& final(self)@.dom() == old(self)@.dom()
                        &&& final(self)@[key@].len() == old(self)@[key@].len()
                        &&& forall|k2: Seq<u8>|
                            old(self)@.contains_key(k2) && k2 != key@ ==> (#[trigger] final(self)@[k2]) == old(self)@[k2]
                        &&& forall|i: int|
                            rg.start <= i < rg.end ==> (#[trigger] final(self)@[key@][i])
                                == value@[i - rg.start]
                        &&& forall|i: int|
                            0 <= i < old(self)@[key@].len() && (i < span_start(
                                rg,
                                PAGE_SIZE as int,
                            ) || i >= span_end(rg, PAGE_SIZE as int)) ==> (#[trigger] final(self)@[key@][i]) == old(self)@[key@][i]
                    },
                    Err(e) => {
                        &&& e.is_not_found() || e.is_range_error() || e.is_opaque()
                        &&& e.is_not_found() ==> !old(self)@.contains_key(key@)
                        &&& e.is_range_error() ==> old(self)@.contains_key(key@) && !(
                        rg.is_valid_for(old(self)@[key@].len() as int) && rg.spec_len()
                            == value@.len())
                        &&& !e.is_opaque() ==> final(self)@ == old(self)@ && final(self).entries()
                            == old(self).entries()
                        &&& final(self)@.dom() == old(self)@.dom()
                        &&& forall|k2: Seq<u8>|
                            old(self)@.contains_key(k2) ==> (#[trigger] final(self)@[k2]).len()
                                == old(self)@[k2].len()
                    },
                },
            },
            old(self).has_record(key@) && (opt matches PutOpt::Replace(rg) && !(rg.is_valid_for(
                old(self)@[key@].len() as int,
            ) && rg.spec_len() == value@.len())) ==> r == Err::<(), Error>(
                Error::Blob(BlobError::RangeError),
            ),
            (old(self).has_record(key@) && (opt matches PutOpt::Replace(rg) && rg.is_valid_for(
                old(self)@[key@].len() as int,
            ) && rg.spec_len() == value@.len() && (forall|p: int|
                #[trigger] page_touches(rg, PAGE_SIZE as int, p) ==> old(self).resident(
                    key@,
                    p,
                )))) ==> r matches Ok(_),
            match opt {
                PutOpt::Create => true,
                PutOpt::Replace(rg) => ((r matches Ok(_)) && rg.start < rg.end) ==> {
                    &&& final(self).has_record(key@)
                    &&& pages_spanned(rg, PAGE_SIZE as int) <= old(self).capacity()
                        ==> forall|p: int|
                        #[trigger] page_touches(rg, PAGE_SIZE as int, p) ==> final(self).resident(key@, p)
                },
            },
    {
        let ghost c0 = *self;
        let rg = match opt {
            PutOpt::Create => {
                let r = self.store.put(key, value, PutOpt::Create);
                proof {
                    let cf = *self;
                    match r {
                        Ok(_) => {
                            assert(!c0.backing().contains_key(key@));
                            assert forall|pp: int| true implies !cf.resident(key@, pp) by {
                                if lru_has(cf.entries(), (key@, pp)) {
                                    let e = lru_idx(cf.entries(), (key@, pp));
                                    assert(cf.entries()[e].0 == (key@, pp));
                                    assert(rec_has(c0.records@, key@));
                                    let ri = rec_idx(c0.records@, key@);
                                    assert(c0.rec_wf(c0.records@[ri]));
                                }
                            }
                            assert(cf.blob_view(key@) =~= value@);
                            assert forall|k2: Seq<u8>|
                                c0.backing().contains_key(k2) implies #[trigger] cf.blob_view(k2)
                                == c0.blob_view(k2) by {
                                assert(cf.blob_view(k2) =~= c0.blob_view(k2));
                            }
                            assert(cf@ =~= c0@.insert(key@, value@));
                            assert forall|ri: int|
                                0 <= ri < cf.records@.len() implies cf.rec_wf(
                                #[trigger] cf.records@[ri]) by {
                                assert(c0.rec_wf(c0.records@[ri]));
                            }
                            assert(cf.wf_out(0));
                        },
                        Err(_) => {
                            assert forall|k2: Seq<u8>|
                                c0.backing().contains_key(k2) implies #[trigger] cf.blob_view(k2)
                                == c0.blob_view(k2) by {
                                assert(cf.blob_view(k2) =~= c0.blob_view(k2));
                            }
                            assert(cf@ =~= c0@);
                        },
                    }
                }
                return r;
            },
            PutOpt::Replace(rg) => rg,
        };
        let size: usize = match self.meta(key) {
            Ok(m) => m.size,
            Err(e) => {
                return Err(e);
            },
        };
        if !rg.check_within(size) {
            return Err(Error::Blob(BlobError::RangeError));
        }
        if rg.end - rg.start != value.len() {
            return Err(Error::Blob(BlobError::RangeError));
        }
        proof {
            assert(c0@.contains_key(key@));
            assert(c0@[key@] == c0.blob_view(key@));
            assert(c0@[key@].len() == size);
        }
        let segs = Self::split_range(rg, size);
        let n: usize = segs.len();
        let ghost ps = PAGE_SIZE as int;
        let ghost all_res = c0.has_record(key@) && rg.is_valid_for(c0@[key@].len() as int)
            && rg.spec_len() == value@.len() && (forall|p: int|
            #[trigger] page_touches(rg, ps, p) ==> c0.resident(key@, p));
        let mut si: usize = 0;
        while si < n
            invariant
                c0 == *old(self),
                opt == PutOpt::Replace(rg),
                all_res == (c0.has_record(key@) && rg.is_valid_for(c0@[key@].len() as int)
                    && rg.spec_len() == value@.len() && (forall|p: int|
                    #[trigger] page_touches(rg, ps, p) ==> c0.resident(key@, p))),
                all_res ==> forall|p: int|
                    #[trigger] page_touches(rg, ps, p) ==> self.resident(key@, p),
                forall|j: int|
                    0 <= j < si && j < c0.capacity() ==> 0 <= j < self.entries().len() && (
                    #[trigger] self.entries()[j]).0 == (key@, segs@[si - 1 - j].0 as int),
                si as int <= self.entries().len() || c0.capacity() <= self.entries().len(),
                self.wf(),
                self.capacity() == c0.capacity(),
                si <= n,
                n == segs@.len(),
                seg_list_wf(segs@, rg, ps),
                ps == PAGE_SIZE as int,
                PAGE_SIZE >= 1,
                rg.start <= rg.end,
                rg.end <= size,
                c0.wf(),
                c0.backing().contains_key(key@),
                c0@.contains_key(key@),
                c0@[key@] == c0.blob_view(key@),
                c0@[key@].len() == size,
                size as int == c0.backing()[key@].len(),
                value@.len() == rg.end - rg.start,
                forall|k2: Seq<u8>|
                    #[trigger] self.backing().contains_key(k2) == c0.backing().contains_key(k2),
                forall|k2: Seq<u8>|
                    c0.backing().contains_key(k2) ==> (#[trigger] self.backing()[k2]).len()
                        == c0.backing()[k2].len(),
                forall|k2: Seq<u8>|
                    c0.backing().contains_key(k2) && k2 != key@ ==> (#[trigger] self.blob_view(
                        k2,
                    )) == c0.blob_view(k2),
                rg.start as int <= seg_pos(segs@, si as int, rg) <= rg.end as int,
                si < n ==> seg_pos(segs@, si as int, rg) == segs@[si as int].1.start,
                forall|i: int|
                    rg.start <= i < seg_pos(segs@, si as int, rg) ==> (#[trigger] self.blob_view(
                        key@,
                    )[i]) == value@[i - rg.start],
                forall|i: int|
                    seg_pos(segs@, si as int, rg) <= i < rg.end ==> (#[trigger] self.blob_view(
                        key@,
                    )[i]) == c0.blob_view(key@)[i],
                forall|i: int|
                    0 <= i < size && (i < span_start(rg, ps) || i >= span_end(rg, ps)) ==> (
                    #[trigger] self.blob_view(key@)[i]) == c0.blob_view(key@)[i],
            decreases n - si,
        {
            let seg = segs[si];
            let ghost cprev = *self;
            proof {
                assert(seg_wf(segs@[si as int], ps));
                if si > 0 {
                    assert(segs@[si as int].1.start as int == (segs@[si as int].0 as int) * ps);
                }
                if (si as int) < n - 1 {
                    assert(segs@[si as int].1.end as int == (segs@[si as int].0 as int + 1)
                        * ps);
                } else {
                    assert(segs@.last().1.end == rg.end);
                }
                lemma_seg_in_span(rg, seg.0 as int, seg.1, ps);
            }
            match self.put_segment(key, value, rg, size, seg, Ghost(c0)) {
                Ok(()) => {
                    proof {
                        Self::lemma_prefix_after_segment(
                            cprev,
                            *self,
                            key,
                            segs@,
                            rg,
                            si as int,
                        );
                        if all_res {
                            assert(cprev.resident(key@, seg.0 as int));
                            assert forall|p: int| #[trigger] page_touches(rg, ps, p) implies self
                                .resident(key@, p) by {
                                assert(lru_has(self.entries(), (key@, p)) == lru_has(
                                    cprev.entries(),
                                    (key@, p),
                                ));
                            }
                        }
                    }
                },
                Err(e) => {
                    proof {
                        if all_res {
                            assert(page_touches(rg, ps, seg.0 as int));
                            assert(cprev.resident(key@, seg.0 as int));
                            assert(false);
                        }
                        assert(self@.dom() =~= c0@.dom());
                        assert forall|k2: Seq<u8>|
                            c0@.contains_key(k2) implies (#[trigger] self@[k2]).len()
                            == c0@[k2].len() by {
                            assert(self@[k2] == self.blob_view(k2));
                            assert(self.blob_view(k2).len() == self.backing()[k2].len());
                            assert(c0@[k2] == c0.blob_view(k2));
                            assert(c0.blob_view(k2).len() == c0.backing()[k2].len());
                        }
                    }
                    return Err(e);
                },
            }
            si += 1;
            proof {
                assert(seg_pos(segs@, si as int, rg) == seg.1.end);
            }
        }
        proof {
            assert(seg_pos(segs@, n as int, rg) == rg.end) by {
                if n > 0 {
                    assert(segs@.last().1.end == rg.end);
                } else {
                    assert(rg.start == rg.end);
                }
            }
            assert(self@.dom() =~= c0@.dom());
            assert forall|k2: Seq<u8>|
                c0@.contains_key(k2) && k2 != key@ implies (#[trigger] self@[k2]) == c0@[k2] by {
                assert(self@[k2] == self.blob_view(k2));
                assert(c0@[k2] == c0.blob_view(k2));
            }
            assert(self@[key@] == self.blob_view(key@));
            if n > 0 {
                Self::lemma_prefix_residency(*self, key, segs@, rg);
                assert(self.has_record(key@)) by {
                    assert(self.entries()[0].0 == (key@, segs@[n - 1].0 as int));
                }
            }
        }
        Ok(())
    }
}


impl<S: BlobStore, const PAGE_SIZE: usize> MemoryCache<S, PAGE_SIZE> {
    /// Serve one segment of a read: copy out of the resident page, or
    /// fault the page in (fetching only the segment's bytes) and copy
    /// those to the caller.
    #[verifier::rlimit(100)]
    fn get_segment(
        &mut self,
        key: Key,
        buf: &mut Vec<u8>,
        rg: BlobRange,
        size: usize,
        seg: (usize, BlobRange),
        Ghost(c0): Ghost<Self>,
    ) -> (r: Result<(), Error>)
        requires
            old(self).wf(),
            old(self).capacity() == c0.capacity(),
            c0.wf(),
            c0.backing().contains_key(key@),
            size as int == c0.backing()[key@].len(),
            rg.start <= rg.end,
            rg.end <= size,
            old(buf)@.len() == rg.end - rg.start,
            seg_wf(seg, PAGE_SIZE as int),
            rg.start <= seg.1.start,
            seg.1.end <= rg.end,
            seg.1.start == rg.start || seg.1.start as int == (seg.0 as int) * (PAGE_SIZE as int),
            seg.1.end == rg.end || seg.1.end as int == (seg.0 as int + 1) * (PAGE_SIZE as int),
            forall|k2: Seq<u8>|
                #[trigger] old(self).backing().contains_key(k2) == c0.backing().contains_key(k2),
            forall|k2: Seq<u8>|
                c0.backing().contains_key(k2) ==> (#[trigger] old(self).backing()[k2]).len()
                    == c0.backing()[k2].len(),
            forall|k2: Seq<u8>|
                c0.backing().contains_key(k2) && k2 != key@ ==> (#[trigger] old(self).blob_view(
                    k2,
                )) == c0.blob_view(k2),
            forall|i: int|
                rg.start <= i < rg.end ==> (#[trigger] old(self).blob_view(key@)[i])
                    == c0.blob_view(key@)[i],
            forall|i: int|
                0 <= i < size && (i < span_start(rg, PAGE_SIZE as int) || i >= span_end(
                    rg,
                    PAGE_SIZE as int,
                )) ==> (#[trigger] old(self).blob_view(key@)[i]) == c0.blob_view(key@)[i],
            forall|j: int|
                0 <= j < seg.1.start - rg.start ==> (#[trigger] old(buf)@[j]) == c0.blob_view(
                    key@,
                )[rg.start + j],
        ensures
            final(self).wf(),
            final(self).capacity() == c0.capacity(),
            final(buf)@.len() == old(buf)@.len(),
            forall|k2: Seq<u8>|
                #[trigger] final(self).backing().contains_key(k2) == c0.backing().contains_key(
                    k2,
                ),
            forall|k2: Seq<u8>|
                c0.backing().contains_key(k2) ==> (#[trigger] final(self).backing()[k2]).len()
                    == c0.backing()[k2].len(),
            old(self).resident(key@, seg.0 as int) ==> (r matches Ok(_)) && (forall|id: (
                Seq<u8>,
                int,
            )|
                #[trigger] lru_has(final(self).entries(), id) == lru_has(
                    old(self).entries(),
                    id,
                )),
            (r matches Ok(_)) ==> {
                &&& final(self).entries().len() > 0
                &&& final(self).entries()[0].0 == (key@, seg.0 as int)
                &&& final(self).entries().skip(1) == (if lru_has(
                    old(self).entries(),
                    (key@, seg.0 as int),
                ) {
                    old(self).entries().remove(
                        lru_idx(old(self).entries(), (key@, seg.0 as int)),
                    )
                } else if old(self).entries().len() < old(self).capacity() {
                    old(self).entries()
                } else {
                    old(self).entries().drop_last()
                })
            },
            match r {
                Ok(()) => {
                    &&& forall|k2: Seq<u8>|
                        c0.backing().contains_key(k2) && k2 != key@ ==> (#[trigger] final(self).blob_view(k2)) == c0.blob_view(k2)
                    &&& forall|i: int|
                        rg.start <= i < rg.end ==> (#[trigger] final(self).blob_view(key@)[i])
                            == c0.blob_view(key@)[i]
                    &&& forall|i: int|
                        0 <= i < size && (i < span_start(rg, PAGE_SIZE as int) || i >= span_end(
                            rg,
                            PAGE_SIZE as int,
                        )) ==> (#[trigger] final(self).blob_view(key@)[i]) == c0.blob_view(
                            key@,
                        )[i]
                    &&& forall|j: int|
                        0 <= j < seg.1.end - rg.start ==> (#[trigger] final(buf)@[j])
                            == c0.blob_view(key@)[rg.start + j]
                },
                Err(e) => e.is_opaque(),
            },
    {
        let p: usize = seg.0;
        let sg: BlobRange = seg.1;
        let ghost ps = PAGE_SIZE as int;
        proof {
            lemma_seg_in_span(rg, p as int, sg, ps);
            assert forall|i: int| sg.start <= i < sg.end implies #[trigger] (i / ps)
                == p as int by {
                lemma_page_of(i, p as int, ps);
            }
        }
        let off_in_page: usize = sg.start - p * PAGE_SIZE;
        let sg_len: usize = sg.end - sg.start;
        let dst_off: usize = sg.start - rg.start;
        proof {
            assert((p as int + 1) * ps == (p as int) * ps + ps) by (nonlinear_arith);
            assert(off_in_page + sg_len <= PAGE_SIZE);
        }
        let ghost cpre = *self;
        let ghost buf0 = buf@;
        let popped = lru_pop(&mut self.lru, &(key, p));
        match popped {
            Some(pg) => {
                proof {
                    assert(cpre.resident(key@, p as int));
                    let i0 = lru_idx(cpre.entries(), (key@, p as int));
                    assert(cpre.entries()[i0].1.len() == PAGE_SIZE);
                    assert(pg@ == cpre.pbuf(key@, p as int));
                }
                copy_range(buf, dst_off, &pg, off_in_page, sg_len);
                self.repush_page(key, p, pg, Ghost(cpre));
                proof {
                    let ghost pgb = cpre.pbuf(key@, p as int);
                    // the page keeps its bytes, so every blob reads the same
                    assert forall|i: int|
                        rg.start <= i < rg.end implies (#[trigger] self.blob_view(key@)[i])
                        == c0.blob_view(key@)[i] by {
                        if i / ps == p as int {
                            lemma_in_page(i, p as int, ps);
                            assert(self.blob_view(key@)[i] == pgb[i - (p as int) * ps]);
                            assert(cpre.blob_view(key@)[i] == pgb[i % ps]);
                        } else {
                            assert(self.blob_view(key@)[i] == cpre.blob_view(key@)[i]);
                        }
                    }
                    assert forall|i: int|
                        0 <= i < size && (i < span_start(rg, ps) || i >= span_end(rg, ps))
                            implies (#[trigger] self.blob_view(key@)[i]) == c0.blob_view(
                        key@)[i] by {
                        assert(i / ps != p as int);
                        assert(self.blob_view(key@)[i] == cpre.blob_view(key@)[i]);
                    }
                    assert forall|k2: Seq<u8>|
                        c0.backing().contains_key(k2) && k2 != key@ implies (
                    #[trigger] self.blob_view(k2)) == c0.blob_view(k2) by {
                        assert(self.blob_view(k2) == cpre.blob_view(k2));
                    }
                    // the copied-out bytes are the blob's bytes at the segment
                    assert forall|j: int|
                        0 <= j < sg.end - rg.start implies (#[trigger] buf@[j]) == c0.blob_view(
                        key@)[rg.start + j] by {
                        if j < sg.start - rg.start {
                            assert(buf@[j] == buf0[j]);
                        } else {
                            let i = rg.start + j;
                            assert(sg.start <= i < sg.end);
                            assert(i / ps == p as int);
                            lemma_in_page(i, p as int, ps);
                            assert(buf@[dst_off + (j - dst_off)] == pgb[off_in_page + (j
                                - dst_off)]);
                            assert(cpre.blob_view(key@)[i] == pgb[i % ps]);
                        }
                    }
                }
                Ok(())
            },
            None => {
                proof {
                    assert(!cpre.resident(key@, p as int));
                    assert(self.backing().contains_key(key@));
                    assert(self.backing()[key@].len() == size);
                }
                let mut tmp = vec![0u8; sg_len];
                match self.store.get(key, &mut tmp, GetOpt::Range(sg)) {
                    Ok(()) => {},
                    Err(e) => {
                        proof {
                            assert(e.is_opaque());
                        }
                        return Err(e);
                    },
                }
                proof {
                    // the fetched bytes are the blob's bytes at the segment
                    assert forall|j: int| 0 <= j < sg_len implies (#[trigger] tmp@[j])
                        == cpre.blob_view(key@)[sg.start + j] by {
                        let i = sg.start + j;
                        assert(i / ps == p as int);
                        assert(tmp@[j] == self.backing()[key@].subrange(
                            sg.start as int,
                            sg.end as int,
                        )[j]);
                    }
                }
                copy_range(buf, dst_off, &tmp, 0, sg_len);
                let popped_free = self.free_pages.pop();
                let mut page = match popped_free {
                    Some(pg) => pg,
                    None => {
                        proof {
                            assert(false);
                        }
                        vstd::pervasive::unreached()
                    },
                };
                copy_range(&mut page, off_in_page, &tmp, 0, sg_len);
                let ghost pg2 = page@;
                let ghost cpre2 = *self;
                proof {
                    assert(cpre2.entries() == cpre.entries());
                    assert(cpre2.backing() == cpre.backing());
                    assert forall|k2: Seq<u8>|
                        cpre.backing().contains_key(k2) implies #[trigger] cpre2.blob_view(k2)
                        == cpre.blob_view(k2) by {
                        assert(cpre2.blob_view(k2) =~= cpre.blob_view(k2));
                    }
                }
                match self.cache_page(key, p, page, size) {
                    Ok(()) => {},
                    Err(e) => {
                        proof {
                            assert forall|k2: Seq<u8>| true implies #[trigger] self
                                .backing().contains_key(k2) == c0.backing().contains_key(k2) by {
                                assert(self.backing().contains_key(k2)
                                    == cpre2.backing().contains_key(k2));
                            }
                            assert forall|k2: Seq<u8>|
                                c0.backing().contains_key(k2) implies (#[trigger] self
                                .backing()[k2]).len() == c0.backing()[k2].len() by {
                                assert(self.backing()[k2].len() == cpre2.backing()[k2].len());
                            }
                        }
                        return Err(e);
                    },
                }
                proof {
                    assert forall|i: int|
                        rg.start <= i < rg.end implies (#[trigger] self.blob_view(key@)[i])
                        == c0.blob_view(key@)[i] by {
                        if i / ps == p as int {
                            lemma_in_page(i, p as int, ps);
                            assert(sg.start <= i < sg.end) by {
                                if i < sg.start {
                                    if sg.start != rg.start {
                                        assert(sg.start as int == (p as int) * ps);
                                    }
                                }
                                if i >= sg.end {
                                    if sg.end != rg.end {
                                        assert(sg.end as int == (p as int + 1) * ps);
                                    }
                                }
                            }
                            assert(self.blob_view(key@)[i] == pg2[i - (p as int) * ps]);
                            assert(pg2[i - (p as int) * ps] == tmp@[i - sg.start]);
                            assert(tmp@[i - sg.start] == cpre.blob_view(key@)[i]);
                        } else {
                            assert(self.blob_view(key@)[i] == cpre2.blob_view(key@)[i]);
                        }
                    }
                    assert forall|i: int|
                        0 <= i < size && (i < span_start(rg, ps) || i >= span_end(rg, ps))
                            implies (#[trigger] self.blob_view(key@)[i]) == c0.blob_view(
                        key@)[i] by {
                        assert(i / ps != p as int);
                        assert(self.blob_view(key@)[i] == cpre2.blob_view(key@)[i]);
                    }
                    assert forall|k2: Seq<u8>|
                        c0.backing().contains_key(k2) && k2 != key@ implies (
                    #[trigger] self.blob_view(k2)) == c0.blob_view(k2) by {
                        assert(self.blob_view(k2) == cpre2.blob_view(k2));
                    }
                    assert forall|k2: Seq<u8>| true implies #[trigger] self
                        .backing().contains_key(k2) == c0.backing().contains_key(k2) by {
                        assert(self.backing().contains_key(k2)
                            == cpre2.backing().contains_key(k2));
                    }
                    assert forall|k2: Seq<u8>|
                        c0.backing().contains_key(k2) implies (#[trigger] self.backing()[
                    k2]).len() == c0.backing()[k2].len() by {
                        assert(self.backing()[k2].len() == cpre2.backing()[k2].len());
                    }
                    assert forall|j: int|
                        0 <= j < sg.end - rg.start implies (#[trigger] buf@[j]) == c0.blob_view(
                        key@)[rg.start + j] by {
                        if j < sg.start - rg.start {
                            assert(buf@[j] == buf0[j]);
                        } else {
                            assert(buf@[dst_off + (j - dst_off)] == tmp@[j - dst_off]);
                            assert(tmp@[j - dst_off] == cpre.blob_view(key@)[sg.start + (j
                                - dst_off)]);
                        }
                    }
                }
                Ok(())
            },
        }
    }

    /// Read the whole blob (`All`) or a range of it into `buf`, which
    /// must be exactly the read's length. Every touched page — even on a
    /// pure read — is promoted to resident: after success the read pages
    /// are resident, provided they fit the capacity. A read whose touched
    /// pages are all resident makes no backend call and is guaranteed to
    /// succeed.
    #[verifier::rlimit(100)]
    pub fn get(&mut self, key: Key, buf: &mut Vec<u8>, opt: GetOpt) -> (r: Result<(), Error>)
        requires
            old(self).wf(),
        ensures
            final(self).wf(),
            final(self).capacity() == old(self).capacity(),
            final(buf)@.len() == old(buf)@.len(),
            final(self)@.dom() == old(self)@.dom(),
            forall|k2: Seq<u8>|
                old(self)@.contains_key(k2) ==> (#[trigger] final(self)@[k2]).len()
                    == old(self)@[k2].len(),
            match r {
                Ok(()) => {
                    &&& old(self)@.contains_key(key@)
                    &&& forall|k2: Seq<u8>|
                        old(self)@.contains_key(k2) && k2 != key@ ==> (#[trigger] final(self)@[k2]) == old(self)@[k2]
                    &&& match opt {
                        GetOpt::All => {
                            &&& old(buf)@.len() == old(self)@[key@].len()
                            &&& final(buf)@ == old(self)@[key@]
                            &&& final(self)@ == old(self)@
                        },
                        GetOpt::Range(rg) => {
                            &&& rg.is_valid_for(old(self)@[key@].len() as int)
                            &&& rg.spec_len() == old(buf)@.len()
                            &&& final(buf)@ == old(self)@[key@].subrange(
                                rg.start as int,
                                rg.end as int,
                            )
                            &&& forall|i: int|
                                0 <= i < old(self)@[key@].len() && (rg.start <= i < rg.end || i
                                    < span_start(rg, PAGE_SIZE as int) || i >= span_end(
                                    rg,
                                    PAGE_SIZE as int,
                                )) ==> (#[trigger] final(self)@[key@][i]) == old(self)@[key@][i]
                        },
                    }
                },
                Err(e) => {
                    &&& e.is_not_found() || e.is_range_error() || e.is_opaque()
                    &&& e.is_not_found() ==> !old(self)@.contains_key(key@)
                    &&& e.is_range_error() ==> old(self)@.contains_key(key@) && match opt {
                        GetOpt::All => old(buf)@.len() != old(self)@[key@].len(),
                        GetOpt::Range(rg) => !(rg.is_valid_for(old(self)@[key@].len() as int)
                            && rg.spec_len() == old(buf)@.len()),
                    }
                    &&& !e.is_opaque() ==> final(self)@ == old(self)@ && final(self).entries()
                        == old(self).entries() && final(buf)@ == old(buf)@
                },
            },
            (old(self).has_record(key@) && !(old(self).target_range(key@, opt).is_valid_for(
                old(self)@[key@].len() as int,
            ) && old(self).target_range(key@, opt).spec_len() == old(buf)@.len())) ==> r == Err::<
                (),
                Error,
            >(Error::Blob(BlobError::RangeError)),
            (old(self).has_record(key@) && old(self).target_range(key@, opt).is_valid_for(
                old(self)@[key@].len() as int,
            ) && old(self).target_range(key@, opt).spec_len() == old(buf)@.len() && (forall|
                p: int,
            |
                #[trigger] page_touches(old(self).target_range(key@, opt), PAGE_SIZE as int, p)
                    ==> old(self).resident(key@, p))) ==> r matches Ok(_),
            ((r matches Ok(_)) && old(self).target_range(key@, opt).start < old(
                self,
            ).target_range(key@, opt).end) ==> {
                &&& final(self).has_record(key@)
                &&& pages_spanned(old(self).target_range(key@, opt), PAGE_SIZE as int) <= old(
                    self,
                ).capacity() ==> forall|p: int|
                    #[trigger] page_touches(
                        old(self).target_range(key@, opt),
                        PAGE_SIZE as int,
                        p,
                    ) ==> final(self).resident(key@, p)
            },
    {
        let ghost c0 = *self;
        let ghost buf0 = buf@;
        let size: usize = match self.meta(key) {
            Ok(m) => m.size,
            Err(e) => {
                return Err(e);
            },
        };
        let rg: BlobRange = match opt {
            GetOpt::All => BlobRange { start: 0, end: size },
            GetOpt::Range(r0) => r0,
        };
        if !rg.check_within(size) {
            return Err(Error::Blob(BlobError::RangeError));
        }
        if rg.end - rg.start != buf.len() {
            return Err(Error::Blob(BlobError::RangeError));
        }
        proof {
            assert(c0@.contains_key(key@));
            assert(c0@[key@] == c0.blob_view(key@));
            assert(c0@[key@].len() == size);
            assert(rg == c0.target_range(key@, opt));
        }
        let segs = Self::split_range(rg, size);
        let n: usize = segs.len();
        let ghost ps = PAGE_SIZE as int;
        let ghost all_res = c0.has_record(key@) && (forall|p: int|
            #[trigger] page_touches(rg, ps, p) ==> c0.resident(key@, p));
        let mut si: usize = 0;
        while si < n
            invariant
                c0 == *old(self),
                buf0 == old(buf)@,
                buf0.len() == rg.end - rg.start,
                rg == c0.target_range(key@, opt),
                all_res == (c0.has_record(key@) && (forall|p: int|
                    #[trigger] page_touches(rg, ps, p) ==> c0.resident(key@, p))),
                all_res ==> forall|p: int|
                    #[trigger] page_touches(rg, ps, p) ==> self.resident(key@, p),
                forall|j: int|
                    0 <= j < si && j < c0.capacity() ==> 0 <= j < self.entries().len() && (
                    #[trigger] self.entries()[j]).0 == (key@, segs@[si - 1 - j].0 as int),
                si as int <= self.entries().len() || c0.capacity() <= self.entries().len(),
                match opt {
                    GetOpt::All => rg.start == 0 && rg.end == size,
                    GetOpt::Range(r0) => r0 == rg,
                },
                self.wf(),
                self.capacity() == c0.capacity(),
                si <= n,
                n == segs@.len(),
                seg_list_wf(segs@, rg, ps),
                ps == PAGE_SIZE as int,
                PAGE_SIZE >= 1,
                rg.start <= rg.end,
                rg.end <= size,
                c0.wf(),
                c0.backing().contains_key(key@),
                c0@.contains_key(key@),
                c0@[key@] == c0.blob_view(key@),
                c0@[key@].len() == size,
                size as int == c0.backing()[key@].len(),
                buf@.len() == rg.end - rg.start,
                forall|k2: Seq<u8>|
                    #[trigger] self.backing().contains_key(k2) == c0.backing().contains_key(k2),
                forall|k2: Seq<u8>|
                    c0.backing().contains_key(k2) ==> (#[trigger] self.backing()[k2]).len()
                        == c0.backing()[k2].len(),
                forall|k2: Seq<u8>|
                    c0.backing().contains_key(k2) && k2 != key@ ==> (#[trigger] self.blob_view(
                        k2,
                    )) == c0.blob_view(k2),
                rg.start as int <= seg_pos(segs@, si as int, rg) <= rg.end as int,
                si < n ==> seg_pos(segs@, si as int, rg) == segs@[si as int].1.start,
                forall|i: int|
                    rg.start <= i < rg.end ==> (#[trigger] self.blob_view(key@)[i])
                        == c0.blob_view(key@)[i],
                forall|i: int|
                    0 <= i < size && (i < span_start(rg, ps) || i >= span_end(rg, ps)) ==> (
                    #[trigger] self.blob_view(key@)[i]) == c0.blob_view(key@)[i],
                forall|j: int|
                    0 <= j < seg_pos(segs@, si as int, rg) - rg.start ==> (#[trigger] buf@[j])
                        == c0.blob_view(key@)[rg.start + j],
            decreases n - si,
        {
            let seg = segs[si];
            let ghost cprev = *self;
            proof {
                assert(seg_wf(segs@[si as int], ps));
                if si > 0 {
                    assert(segs@[si as int].1.start as int == (segs@[si as int].0 as int) * ps);
                }
                if (si as int) < n - 1 {
                    assert(segs@[si as int].1.end as int == (segs@[si as int].0 as int + 1)
                        * ps);
                } else {
                    assert(segs@.last().1.end == rg.end);
                }
                lemma_seg_in_span(rg, seg.0 as int, seg.1, ps);
            }
            match self.get_segment(key, buf, rg, size, seg, Ghost(c0)) {
                Ok(()) => {
                    proof {
                        Self::lemma_prefix_after_segment(
                            cprev,
                            *self,
                            key,
                            segs@,
                            rg,
                            si as int,
                        );
                        if all_res {
                            assert(cprev.resident(key@, seg.0 as int));
                            assert forall|p: int| #[trigger] page_touches(rg, ps, p) implies self
                                .resident(key@, p) by {
                                assert(lru_has(self.entries(), (key@, p)) == lru_has(
                                    cprev.entries(),
                                    (key@, p),
                                ));
                            }
                        }
                    }
                },
                Err(e) => {
                    proof {
                        if all_res {
                            assert(page_touches(rg, ps, seg.0 as int));
                            assert(cprev.resident(key@, seg.0 as int));
                            assert(false);
                        }
                        assert(self@.dom() =~= c0@.dom());
                        assert forall|k2: Seq<u8>|
                            c0@.contains_key(k2) implies (#[trigger] self@[k2]).len()
                            == c0@[k2].len() by {
                            assert(self@[k2] == self.blob_view(k2));
                            assert(self.blob_view(k2).len() == self.backing()[k2].len());
                            assert(c0@[k2] == c0.blob_view(k2));
                            assert(c0.blob_view(k2).len() == c0.backing()[k2].len());
                        }
                    }
                    return Err(e);
                },
            }
            si += 1;
            proof {
                assert(seg_pos(segs@, si as int, rg) == seg.1.end);
            }
        }
        proof {
            assert(seg_pos(segs@, n as int, rg) == rg.end) by {
                if n > 0 {
                    assert(segs@.last().1.end == rg.end);
                } else {
                    assert(rg.start == rg.end);
                }
            }
            assert(self@.dom() =~= c0@.dom());
            assert forall|k2: Seq<u8>|
                c0@.contains_key(k2) && k2 != key@ implies (#[trigger] self@[k2]) == c0@[k2] by {
                assert(self@[k2] == self.blob_view(k2));
                assert(c0@[k2] == c0.blob_view(k2));
            }
            assert(self@[key@] == self.blob_view(key@));
            assert(buf@ =~= c0@[key@].subrange(rg.start as int, rg.end as int));
            match opt {
                GetOpt::All => {
                    assert(self.blob_view(key@) =~= c0.blob_view(key@));
                    assert(self@ =~= c0@);
                    assert(buf@ =~= c0@[key@]);
                },
                GetOpt::Range(_) => {},
            }
            if n > 0 {
                Self::lemma_prefix_residency(*self, key, segs@, rg);
                assert(self.has_record(key@)) by {
                    assert(self.entries()[0].0 == (key@, segs@[n - 1].0 as int));
                }
            }
        }
        Ok(())
    }
}


impl<S: BlobStore, const PAGE_SIZE: usize> MemoryCache<S, PAGE_SIZE> {
    /// The number of resident pages recorded for `k`.
    pub(crate) closed spec fn key_pages(self, k: Seq<u8>) -> int {
        if rec_has(self.records@, k) {
            self.records@[rec_idx(self.records@, k)].pages@.len() as int
        } else {
            0
        }
    }

    /// Evict one resident page of the blob whose record sits at `ri` (the
    /// last page the record lists), writing its clamped bytes back exactly
    /// as eviction does.
    #[verifier::rlimit(100)]
    fn evict_page_of(&mut self, key: Key, ri: usize) -> (r: Result<(), Error>)
        requires
            old(self).wf(),
            ri < old(self).records@.len(),
            old(self).records@[ri as int].key@ == key@,
            rec_idx(old(self).records@, key@) == ri as int,
        ensures
            final(self).wf(),
            final(self).capacity() == old(self).capacity(),
            final(self).key_pages(key@) == old(self).key_pages(key@) - 1,
            forall|k2: Seq<u8>|
                #[trigger] final(self).backing().contains_key(k2)
                    == old(self).backing().contains_key(k2),
            forall|k2: Seq<u8>|
                old(self).backing().contains_key(k2)
                    ==> (#[trigger] final(self).backing()[k2]).len()
                    == old(self).backing()[k2].len(),
            match r {
                Ok(()) => final(self)@ == old(self)@,
                Err(e) => e.is_opaque(),
            },
    {
        let ghost c0 = *self;
        let ghost rs0 = self.records@;
        let ghost erec0 = rs0[ri as int];
        proof {
            lemma_rec_witness(rs0, ri as int);
            assert(c0.rec_wf(erec0));
        }
        let esize: usize = self.records[ri].meta.size;
        let plen: usize = self.records[ri].pages.len();
        let ep: usize = self.records[ri].pages[plen - 1];
        let ghost es0 = lru_entries(self.lru);
        proof {
            assert(erec0.pages@[plen - 1] == ep);
            assert(erec0.pages@.contains(ep));
            assert((ep as int) * (PAGE_SIZE as int) < esize);
            assert(c0.resident(key@, ep as int));
        }
        let popped = lru_pop(&mut self.lru, &(key, ep));
        let ebuf = match popped {
            Some(b) => b,
            None => {
                proof {
                    assert(false);
                }
                vstd::pervasive::unreached()
            },
        };
        let ghost i0 = lru_idx(es0, (key@, ep as int));
        let ghost esm = es0.remove(i0);
        proof {
            assert(0 <= i0 < es0.len() && es0[i0].0 == (key@, ep as int));
            lemma_lru_remove(es0, i0);
            assert(lru_entries(self.lru) == esm);
            assert(ebuf@ == es0[i0].1);
            assert(c0.entries()[i0].1.len() == PAGE_SIZE);
        }
        let mut erec = self.records.swap_remove(ri);
        remove_page(&mut erec.pages, ep);
        let ghost erec2 = erec;
        let dropped_rec: bool = erec.pages.len() == 0;
        if dropped_rec {
            proof {
                lemma_rec_remove(rs0, ri as int);
            }
        } else {
            proof {
                lemma_rec_remove(rs0, ri as int);
                lemma_rec_push_fresh(rs0.update(ri as int, rs0.last()).drop_last(), erec2);
            }
            self.records.push(erec);
        }
        let wb = self.write_back(key, ep, ebuf, esize);
        let ghost cmid = *self;
        proof {
            let rsm = cmid.records@;
            assert(cmid.entries() == esm);
            assert(rec_distinct(rsm));
            assert forall|k: Seq<u8>| true implies #[trigger] rec_has(rsm, k) == (rec_has(
                rs0,
                k,
            ) && (k != key@ || !dropped_rec)) by {}
            assert forall|rj: int| 0 <= rj < rsm.len() implies cmid.rec_wf(
                #[trigger] rsm[rj],
            ) by {
                let rr = rsm[rj];
                lemma_rec_witness(rsm, rj);
                assert(rec_has(rs0, rr.key@));
                let oi = rec_idx(rs0, rr.key@);
                assert(c0.rec_wf(rs0[oi]));
                assert(cmid.backing().contains_key(rr.key@) && cmid.backing()[rr.key@].len()
                    == c0.backing()[rr.key@].len());
                if rr.key@ == key@ {
                    assert(!dropped_rec);
                    assert(rr == erec2);
                    assert(oi == ri as int);
                    assert forall|q: int| 0 <= q < rr.pages@.len() implies cmid.resident(
                        rr.key@,
                        (#[trigger] rr.pages@[q]) as int,
                    ) by {
                        let pv = rr.pages@[q];
                        assert(rr.pages@.contains(pv));
                        assert(erec0.pages@.contains(pv) && pv != ep);
                        assert(c0.resident(key@, pv as int));
                        assert((key@, pv as int) != (key@, ep as int));
                    }
                    assert forall|q: int| 0 <= q < rr.pages@.len() implies (
                    #[trigger] rr.pages@[q]) as int * (PAGE_SIZE as int) < rr.meta.size by {
                        let pv = rr.pages@[q];
                        assert(rr.pages@.contains(pv));
                        assert(erec0.pages@.contains(pv));
                        let qi = choose|qi: int|
                            0 <= qi < erec0.pages@.len() && erec0.pages@[qi] == pv;
                        assert(erec0.pages@[qi] as int * (PAGE_SIZE as int) < erec0.meta.size);
                    }
                } else {
                    assert(rr == rs0[oi]);
                    assert forall|q: int| 0 <= q < rr.pages@.len() implies cmid.resident(
                        rr.key@,
                        (#[trigger] rr.pages@[q]) as int,
                    ) by {
                        assert(c0.resident(rr.key@, rr.pages@[q] as int));
                        assert((rr.key@, rr.pages@[q] as int) != (key@, ep as int));
                    }
                }
            }
            assert forall|e: int| 0 <= e < esm.len() implies {
                let id = (#[trigger] esm[e]).0;
                &&& rec_has(rsm, id.0)
                &&& rsm[rec_idx(rsm, id.0)].pages@.contains(id.1 as usize)
                &&& id.1 >= 0
                &&& id.1 <= usize::MAX
            } by {
                let se: int = if e < i0 {
                    e
                } else {
                    e + 1
                };
                assert(esm[e] == es0[se]);
                assert(c0.entries()[se] == es0[se]);
                let id = es0[se].0;
                assert(rec_has(rs0, id.0) && rs0[rec_idx(rs0, id.0)].pages@.contains(
                    id.1 as usize,
                ));
                if id.0 == key@ {
                    assert(rec_idx(rs0, id.0) == ri as int);
                    if id.1 as usize == ep {
                        assert(id == (key@, ep as int)) by {
                            assert(id.1 >= 0 && id.1 <= usize::MAX);
                        }
                        lemma_lru_witness(es0, se);
                        assert(false);
                    }
                    assert(!dropped_rec) by {
                        if dropped_rec {
                            assert(erec0.pages@.len() == 1);
                            let a = choose|a: int|
                                0 <= a < erec0.pages@.len() && erec0.pages@[a] == id.1 as usize;
                            let b = choose|b: int|
                                0 <= b < erec0.pages@.len() && erec0.pages@[b] == ep;
                            assert(a == b);
                        }
                    }
                    assert(rec_idx(rsm, key@) == rsm.len() - 1) by {
                        lemma_rec_witness(rsm, rsm.len() - 1);
                    }
                    assert(rsm[rec_idx(rsm, key@)] == erec2);
                    assert(erec2.pages@.contains(id.1 as usize));
                } else {
                    let rs1 = rs0.update(ri as int, rs0.last()).drop_last();
                    assert(rec_has(rs1, id.0));
                    assert(rs1[rec_idx(rs1, id.0)] == rs0[rec_idx(rs0, id.0)]);
                    if !dropped_rec {
                        assert(rsm == rs1.push(erec2));
                        assert(rsm[rec_idx(rsm, id.0)] == rs1[rec_idx(rs1, id.0)]);
                    }
                }
            }
            assert(lru_distinct(cmid.entries()));
            assert(cmid.entries().len() <= cmid.capacity());
            assert(cmid.free_pages@.len() + cmid.entries().len() == cmid.capacity()
                + FREE_SLACK);
            assert(c0.entries()[i0].1.len() == PAGE_SIZE);
            assert forall|f: int| 0 <= f < cmid.free_pages@.len() implies (
            #[trigger] cmid.free_pages@[f])@.len() == PAGE_SIZE by {
                assert(cmid.free_pages@ == c0.free_pages@.push(ebuf));
                if f < c0.free_pages@.len() {
                    assert(cmid.free_pages@[f] == c0.free_pages@[f]);
                } else {
                    assert(cmid.free_pages@[f] == ebuf);
                    assert(ebuf@ == es0[i0].1);
                }
            }
            assert forall|e: int| 0 <= e < esm.len() implies (#[trigger] esm[e]).1.len()
                == PAGE_SIZE by {
                let se: int = if e < i0 {
                    e
                } else {
                    e + 1
                };
                assert(esm[e] == es0[se]);
                assert(c0.entries()[se].1.len() == PAGE_SIZE);
            }
            assert(cmid.store.inv());
            assert(cmid.capacity() >= 1);
            assert(cmid.cap as int == cmid.capacity());
            assert(cmid.wf_out(0));
            // one page fewer is recorded for this key
            assert(cmid.key_pages(key@) == c0.key_pages(key@) - 1) by {
                assert(c0.key_pages(key@) == erec0.pages@.len());
                if dropped_rec {
                    assert(!rec_has(rsm, key@));
                } else {
                    assert(rec_idx(rsm, key@) == rsm.len() - 1) by {
                        lemma_rec_witness(rsm, rsm.len() - 1);
                    }
                    assert(rsm[rec_idx(rsm, key@)] == erec2);
                    assert(erec2.pages@.len() == erec0.pages@.len() - 1);
                }
            }
        }
        match wb {
            Ok(()) => {
                proof {
                    Self::lemma_evict_transparent(c0, cmid, key@, ep as int);
                }
                Ok(())
            },
            Err(e) => Err(e),
        }
    }

    /// Delete the blob: flush and discard every resident page of `key`,
    /// discard its record, then delegate the delete to the backend.
    /// `Interest` is not supported at this layer and is reported as such.
    #[verifier::rlimit(100)]
    pub fn delete(&mut self, key: Key, opt: DeleteOpt) -> (r: Result<Option<Vec<u8>>, Error>)
        requires
            old(self).wf(),
        ensures
            final(self).wf(),
            final(self).capacity() == old(self).capacity(),
            match opt {
                DeleteOpt::Interest(_) => {
                    &&& r == Err::<Option<Vec<u8>>, Error>(Error::Blob(BlobError::Unsupported))
                    &&& final(self)@ == old(self)@
                    &&& final(self).backing() == old(self).backing()
                    &&& final(self).entries() == old(self).entries()
                },
                DeleteOpt::Discard => match r {
                    Ok(ret) => {
                        &&& ret is None
                        &&& old(self)@.contains_key(key@)
                        &&& final(self)@ == old(self)@.remove(key@)
                        &&& !final(self)@.contains_key(key@)
                        &&& !final(self).has_record(key@)
                        &&& forall|pp: int| !final(self).resident(key@, pp)
                    },
                    Err(e) => {
                        &&& e.is_not_found() || e.is_opaque()
                        &&& e.is_not_found() ==> !old(self)@.contains_key(key@) && final(self)@
                            == old(self)@
                        &&& final(self)@.dom() == old(self)@.dom()
                        &&& forall|k2: Seq<u8>|
                            old(self)@.contains_key(k2) ==> (#[trigger] final(self)@[k2]).len()
                                == old(self)@[k2].len()
                    },
                },
            },
    {
        if let DeleteOpt::Interest(_) = opt {
            return Err(Error::Blob(BlobError::Unsupported));
        }
        let ghost c0 = *self;
        let mut more: bool = true;
        while more
            invariant
                c0 == *old(self),
                opt matches DeleteOpt::Discard,
                self.wf(),
                self.capacity() == c0.capacity(),
                self@ == c0@,
                forall|k2: Seq<u8>|
                    #[trigger] self.backing().contains_key(k2) == c0.backing().contains_key(k2),
                forall|k2: Seq<u8>|
                    c0.backing().contains_key(k2) ==> (#[trigger] self.backing()[k2]).len()
                        == c0.backing()[k2].len(),
                !more ==> !self.has_record(key@),
            decreases self.key_pages(key@), (if more { 1int } else { 0int }),
        {
            let ghost cprev = *self;
            match self.find_record(&key) {
                Some(ri) => {
                    proof {
                        assert(cprev.key_pages(key@) >= 1) by {
                            assert(cprev.rec_wf(cprev.records@[ri as int]));
                        }
                    }
                    match self.evict_page_of(key, ri) {
                        Ok(()) => {
                            proof {
                                assert forall|k2: Seq<u8>| true implies #[trigger] self
                                    .backing().contains_key(k2) == c0.backing().contains_key(
                                    k2,
                                ) by {
                                    assert(self.backing().contains_key(k2)
                                        == cprev.backing().contains_key(k2));
                                }
                                assert forall|k2: Seq<u8>|
                                    c0.backing().contains_key(k2) implies (#[trigger] self
                                    .backing()[k2]).len() == c0.backing()[k2].len() by {
                                    assert(self.backing()[k2].len()
                                        == cprev.backing()[k2].len());
                                }
                            }
                        },
                        Err(e) => {
                            proof {
                                assert forall|k2: Seq<u8>| true implies #[trigger] self
                                    .backing().contains_key(k2) == c0.backing().contains_key(
                                    k2,
                                ) by {
                                    assert(self.backing().contains_key(k2)
                                        == cprev.backing().contains_key(k2));
                                }
                                assert forall|k2: Seq<u8>|
                                    c0.backing().contains_key(k2) implies (#[trigger] self
                                    .backing()[k2]).len() == c0.backing()[k2].len() by {
                                    assert(self.backing()[k2].len()
                                        == cprev.backing()[k2].len());
                                }
                                assert(self@.dom() =~= c0@.dom());
                                assert forall|k2: Seq<u8>|
                                    c0@.contains_key(k2) implies (#[trigger] self@[k2]).len()
                                    == c0@[k2].len() by {
                                    assert(self@[k2] == self.blob_view(k2));
                                    assert(self.blob_view(k2).len() == self.backing()[k2].len());
                                    assert(c0@[k2] == c0.blob_view(k2));
                                    assert(c0.blob_view(k2).len() == c0.backing()[k2].len());
                                }
                            }
                            return Err(e);
                        },
                    }
                },
                None => {
                    more = false;
                },
            }
        }
        proof {
            assert forall|pp: int| true implies !self.resident(key@, pp) by {
                if lru_has(self.entries(), (key@, pp)) {
                    let e = lru_idx(self.entries(), (key@, pp));
                    assert(self.entries()[e].0 == (key@, pp));
                    assert(rec_has(self.records@, key@));
                }
            }
        }
        let ghost cpre = *self;
        let r = self.store.delete(key, opt);
        proof {
            let cf = *self;
            match r {
                Ok(_) => {
                    assert(cpre.backing().contains_key(key@));
                    assert forall|k2: Seq<u8>|
                        cf.backing().contains_key(k2) implies #[trigger] cf.blob_view(k2)
                        == cpre.blob_view(k2) by {
                        assert(cf.blob_view(k2) =~= cpre.blob_view(k2));
                    }
                    assert(cf@ =~= cpre@.remove(key@));
                    assert forall|rj: int| 0 <= rj < cf.records@.len() implies cf.rec_wf(
                        #[trigger] cf.records@[rj],
                    ) by {
                        assert(cpre.rec_wf(cpre.records@[rj]));
                        assert(cf.records@[rj].key@ != key@) by {
                            if cf.records@[rj].key@ == key@ {
                                assert(rec_has(cpre.records@, key@));
                            }
                        }
                    }
                    assert(cf.wf_out(0));
                },
                Err(_) => {
                    assert forall|k2: Seq<u8>|
                        cf.backing().contains_key(k2) implies #[trigger] cf.blob_view(k2)
                        == cpre.blob_view(k2) by {
                        assert(cf.blob_view(k2) =~= cpre.blob_view(k2));
                    }
                    assert(cf@ =~= cpre@);
                    assert forall|rj: int| 0 <= rj < cf.records@.len() implies cf.rec_wf(
                        #[trigger] cf.records@[rj],
                    ) by {
                        assert(cpre.rec_wf(cpre.records@[rj]));
                    }
                    assert(cf.wf_out(0));
                },
            }
        }
        r
    }
}


/// Partial-tail correctness: the clamped extent of page `p` of a blob of
/// length `size` stays inside the blob, and writing bytes over a range
/// inside a blob (as every write-back does, with exactly this clamped
/// extent) never changes the blob's length.
pub proof fn lemma_clamped_write_back_within<S: BlobStore, const PAGE_SIZE: usize>(
    p: int,
    size: int,
)
    requires
        PAGE_SIZE >= 1,
        p >= 0,
        p * (PAGE_SIZE as int) < size,
    ensures
        0 < MemoryCache::<S, PAGE_SIZE>::clamp_len(p, size) <= PAGE_SIZE as int,
        p * (PAGE_SIZE as int) + MemoryCache::<S, PAGE_SIZE>::clamp_len(p, size) <= size,
        forall|s: Seq<u8>, v: Seq<u8>, at: int|
            0 <= at && at + v.len() <= s.len() ==> (#[trigger] splice(s, at, v)).len() == s.len(),
{
    assert((p + 1) * (PAGE_SIZE as int) == p * (PAGE_SIZE as int) + (PAGE_SIZE as int))
        by (nonlinear_arith);
}

/// Round trip: writing `v` over `[start, start + v.len())` of a blob and
/// then reading that same range back yields exactly `v`.
///
/// `put` with `Replace` ensures the blob's presented bytes agree with the
/// written value on the replaced range (`written` below), and `get`
/// ensures the bytes it hands back are the presented bytes of the
/// requested range (`out`); together they pin the read-back bytes to the
/// written value, for any key, any range, and any alignment relative to
/// the page size.
pub proof fn lemma_round_trip(blob: Seq<u8>, start: int, v: Seq<u8>, out: Seq<u8>)
    requires
        0 <= start,
        start + v.len() <= blob.len(),
        forall|i: int| start <= i < start + v.len() ==> #[trigger] blob[i] == v[i - start],
        out == blob.subrange(start, start + v.len() as int),
    ensures
        out == v,
{
    assert(out =~= v);
}

} // verus!



