//! A bounded, least-recently-used pool of expensive-to-create handles,
//! keyed by an arbitrary byte-string resource identifier.
//!
//! The pool holds at most `capacity` handles. A hit promotes the entry to
//! most recently used and hands out the handle; an insert of a fresh key
//! evicts the least recently used entry once the capacity is exceeded and
//! returns it, so the caller can release it. Construction of new handles
//! happens outside the pool, between a missed `get` and the `insert`.

use vstd::prelude::*;

verus! {

/// A fixed-capacity recency-ordered pool of handles: entries are kept
/// most recently used first.
pub struct ResourcePool<H> {
    cap: usize,
    entries: Vec<(Vec<u8>, H)>,
}

pub open spec fn pool_distinct<H>(es: Seq<(Vec<u8>, H)>) -> bool {
    forall|i: int, j: int| 0 <= i < j < es.len() ==> es[i].0@ != es[j].0@
}

pub open spec fn pool_has<H>(es: Seq<(Vec<u8>, H)>, k: Seq<u8>) -> bool {
    exists|i: int| 0 <= i < es.len() && es[i].0@ == k
}

pub open spec fn pool_idx<H>(es: Seq<(Vec<u8>, H)>, k: Seq<u8>) -> int {
    choose|i: int| 0 <= i < es.len() && es[i].0@ == k
}

impl<H> ResourcePool<H> {
    /// The entries, most recently used first.
    pub closed spec fn entries(self) -> Seq<(Vec<u8>, H)> {
        self.entries@
    }

    pub closed spec fn capacity(self) -> int {
        self.cap as int
    }

    /// Whether a handle is pooled under `k`.
    pub open spec fn has(self, k: Seq<u8>) -> bool {
        pool_has(self.entries(), k)
    }

    /// The handle pooled under `k`.
    pub open spec fn handle(self, k: Seq<u8>) -> H {
        self.entries()[pool_idx(self.entries(), k)].1
    }

    pub closed spec fn wf(self) -> bool {
        &&& self.cap >= 1
        &&& pool_distinct(self.entries@)
        &&& self.entries@.len() <= self.cap
    }

    /// An empty pool that will keep at most `capacity` handles alive.
    pub fn with_capacity(capacity: usize) -> (p: Self)
        requires
            capacity >= 1,
        ensures
            p.wf(),
            p.entries() == Seq::<(Vec<u8>, H)>::empty(),
            p.capacity() == capacity,
    {
        ResourcePool { cap: capacity, entries: Vec::new() }
    }

    /// The number of handles currently pooled.
    pub fn len(&self) -> (n: usize)
        ensures
            n == self.entries().len(),
    {
        self.entries.len()
    }

    /// The position of the entry for `key`, if there is one.
    fn find(&self, key: &Vec<u8>) -> (r: Option<usize>)
        requires
            self.wf(),
        ensures
            match r {
                Some(i) => i < self.entries().len() && self.entries()[i as int].0@ == key@
                    && pool_idx(self.entries(), key@) == i as int && self.has(key@),
                None => !self.has(key@),
            },
    {
        let n: usize = self.entries.len();
        let mut i: usize = 0;
        while i < n
            invariant
                i <= n,
                n == self.entries@.len(),
                pool_distinct(self.entries@),
                forall|j: int| 0 <= j < i ==> (#[trigger] self.entries@[j]).0@ != key@,
            decreases n - i,
        {
            if bytes_eq(&self.entries[i].0, key) {
                proof {
                    let es = self.entries@;
                    assert(pool_has(es, key@));
                    let j = pool_idx(es, key@);
                    if j != i as int {
                        assert(es[j].0@ == es[i as int].0@);
                    }
                }
                return Some(i);
            }
            i += 1;
        }
        proof {
            if pool_has(self.entries@, key@) {
                let j = pool_idx(self.entries@, key@);
                assert(self.entries@[j].0@ != key@);
            }
        }
        None
    }

    /// Look up the handle for `key`, promoting its entry to most recently
    /// used on a hit; the set of pooled handles is unchanged.
    pub fn get(&mut self, key: &Vec<u8>) -> (r: Option<&H>)
        requires
            old(self).wf(),
        ensures
            final(self).wf(),
            final(self).capacity() == old(self).capacity(),
            forall|k: Seq<u8>| #[trigger] final(self).has(k) == old(self).has(k),
            match r {
                Some(h) => {
                    &&& old(self).has(key@)
                    &&& *h == old(self).handle(key@)
                    &&& final(self).entries().len() == old(self).entries().len()
                    &&& final(self).entries()[0].0@ == key@
                    &&& forall|k: Seq<u8>|
                        old(self).has(k) ==> #[trigger] final(self).handle(k) == old(self).handle(k)
                },
                None => !old(self).has(key@) && *final(self) == *old(self),
            },
    {
        let i = match self.find(key) {
            Some(i) => i,
            None => {
                return None;
            },
        };
        let ghost es0 = self.entries@;
        let entry = self.entries.remove(i);
        self.entries.insert(0, entry);
        proof {
            let es2 = self.entries@;
            assert(es2 == es0.remove(i as int).insert(0, es0[i as int]));
            assert forall|a: int, b: int| 0 <= a < b < es2.len() implies es2[a].0@ != es2[b].0@
                by {
                let sa: int = if a == 0 {
                    i as int
                } else if a <= i {
                    a - 1
                } else {
                    a
                };
                let sb: int = if b <= i {
                    b - 1
                } else {
                    b
                };
                assert(es2[a] == es0[sa]);
                assert(es2[b] == es0[sb]);
            }
            assert forall|k: Seq<u8>| true implies #[trigger] pool_has(es2, k) == pool_has(
                es0,
                k,
            ) by {
                if pool_has(es2, k) {
                    let a = pool_idx(es2, k);
                    let sa: int = if a == 0 {
                        i as int
                    } else if a <= i {
                        a - 1
                    } else {
                        a
                    };
                    assert(es2[a] == es0[sa]);
                    assert(pool_has(es0, k));
                }
                if pool_has(es0, k) {
                    let a = pool_idx(es0, k);
                    let da: int = if a == i {
                        0
                    } else if a < i {
                        a + 1
                    } else {
                        a
                    };
                    assert(es2[da] == es0[a]);
                    assert(pool_has(es2, k));
                }
            }
            assert forall|k: Seq<u8>| pool_has(es0, k) implies #[trigger] es2[pool_idx(es2, k)].1
                == es0[pool_idx(es0, k)].1 by {
                assert(pool_has(es2, k));
                let a = pool_idx(es2, k);
                assert(0 <= a < es2.len() && es2[a].0@ == k);
                let sa: int = if a == 0 {
                    i as int
                } else if a <= i {
                    a - 1
                } else {
                    a
                };
                assert(es2[a] == es0[sa]);
                let b = pool_idx(es0, k);
                assert(0 <= b < es0.len() && es0[b].0@ == k);
                if b != sa {
                    if b < sa {
                        assert(es0[b].0@ != es0[sa].0@);
                    } else {
                        assert(es0[sa].0@ != es0[b].0@);
                    }
                }
            }
            assert(es2[0].0@ == key@);
        }
        Some(&self.entries[0].1)
    }

    /// Insert a freshly built handle for an absent key as most recently
    /// used; if the pool is over capacity afterwards, the least recently
    /// used entry is removed and returned for the caller to release.
    pub fn insert(&mut self, key: Vec<u8>, handle: H) -> (evicted: Option<(Vec<u8>, H)>)
        requires
            old(self).wf(),
            !old(self).has(key@),
        ensures
            final(self).wf(),
            final(self).capacity() == old(self).capacity(),
            final(self).has(key@),
            final(self).handle(key@) == handle,
            match evicted {
                None => {
                    &&& old(self).entries().len() < old(self).capacity()
                    &&& forall|k: Seq<u8>|
                        k != key@ ==> #[trigger] final(self).has(k) == old(self).has(k)
                    &&& forall|k: Seq<u8>|
                        k != key@ && old(self).has(k) ==> #[trigger] final(self).handle(k)
                            == old(self).handle(k)
                },
                Some(ev) => {
                    &&& old(self).entries().len() == old(self).capacity()
                    &&& ev.0@ == old(self).entries().last().0@
                    &&& ev.1 == old(self).entries().last().1
                    &&& forall|k: Seq<u8>|
                        k != key@ && k != ev.0@ ==> #[trigger] final(self).has(k) == old(self).has(k)
                    &&& !final(self).has(ev.0@) || ev.0@ == key@
                    &&& forall|k: Seq<u8>|
                        k != key@ && k != ev.0@ && old(self).has(k) ==> #[trigger] final(self).handle(k) == old(self).handle(k)
                },
            },
    {
        let ghost es0 = self.entries@;
        let at_cap: bool = self.entries.len() == self.cap;
        let evicted: Option<(Vec<u8>, H)> = if at_cap {
            let ev = self.entries.pop();
            proof {
                assert(self.entries@ == es0.drop_last());
                assert(es0.drop_last() =~= es0.remove(es0.len() - 1));
            }
            ev
        } else {
            None
        };
        let ghost es1 = self.entries@;
        proof {
            assert forall|a: int, b: int| 0 <= a < b < es1.len() implies es1[a].0@ != es1[b].0@
                by {
                assert(es1[a] == es0[a]);
                assert(es1[b] == es0[b]);
            }
            assert forall|k: Seq<u8>| #[trigger] pool_has(es1, k) implies pool_has(es0, k) by {
                let a = pool_idx(es1, k);
                assert(es1[a] == es0[a]);
            }
        }
        self.entries.insert(0, (key, handle));
        proof {
            let es2 = self.entries@;
            assert(es2 == es1.insert(0, (key, handle)));
            assert(es2[0].0@ == key@);
            assert forall|a: int, b: int| 0 <= a < b < es2.len() implies es2[a].0@ != es2[b].0@
                by {
                assert(es2[b] == es1[b - 1]);
                assert(es1[b - 1] == es0[b - 1]);
                if a > 0 {
                    assert(es2[a] == es1[a - 1]);
                } else {
                    if es0[b - 1].0@ == key@ {
                        assert(pool_has(es0, key@));
                    }
                }
            }
            assert forall|k: Seq<u8>| k != key@ implies #[trigger] pool_has(es2, k) == pool_has(
                es1,
                k,
            ) by {
                if pool_has(es2, k) {
                    let a = pool_idx(es2, k);
                    assert(es2[a] == es1[a - 1]);
                    assert(pool_has(es1, k));
                }
                if pool_has(es1, k) {
                    let a = pool_idx(es1, k);
                    assert(es2[a + 1] == es1[a]);
                    assert(pool_has(es2, k));
                }
            }
            assert forall|k: Seq<u8>| k != key@ && pool_has(es1, k) implies #[trigger] es2[
                pool_idx(es2, k)].1 == es1[pool_idx(es1, k)].1 by {
                assert(pool_has(es2, k));
                let a = pool_idx(es2, k);
                assert(0 <= a < es2.len() && es2[a].0@ == k);
                assert(es2[a] == es1[a - 1]);
                let b = pool_idx(es1, k);
                if b != a - 1 {
                    if b < a - 1 {
                        assert(es1[b].0@ != es1[a - 1].0@);
                    } else {
                        assert(es1[a - 1].0@ != es1[b].0@);
                    }
                }
            }
            // the pooled keys of es1 are those of es0 minus any evicted one
            assert forall|k: Seq<u8>| k != key@ && pool_has(es0, k) && (match evicted {
                Some(ev) => k != ev.0@,
                None => true,
            }) implies #[trigger] pool_has(es1, k) by {
                let a = pool_idx(es0, k);
                if at_cap {
                    if a == es0.len() - 1 {
                    } else {
                        assert(es1[a] == es0[a]);
                    }
                } else {
                    assert(es1[a] == es0[a]);
                }
            }
            assert forall|k: Seq<u8>|
                k != key@ && pool_has(es1, k) implies es1[pool_idx(es1, k)].1 == es0[pool_idx(
                es0,
                k,
            )].1 by {
                let a = pool_idx(es1, k);
                assert(es1[a] == es0[a]);
                let b = pool_idx(es0, k);
                if b != a {
                    if b < a {
                        assert(es0[b].0@ != es0[a].0@);
                    } else {
                        assert(es0[a].0@ != es0[b].0@);
                    }
                }
            }
            if at_cap {
                assert(pool_has(es0, es0.last().0@)) by {
                    assert(es0[es0.len() - 1].0@ == es0.last().0@);
                }
                if pool_has(es1, es0.last().0@) {
                    let a = pool_idx(es1, es0.last().0@);
                    assert(es1[a] == es0[a]);
                    assert(es0[a].0@ == es0[es0.len() - 1].0@);
                }
            }
        }
        evicted
    }
}

/// Equality of two byte strings.
pub fn bytes_eq(a: &Vec<u8>, b: &Vec<u8>) -> (r: bool)
    ensures
        r == (a@ == b@),
{
    let n: usize = a.len();
    if n != b.len() {
        proof {
            assert(a@.len() != b@.len());
        }
        return false;
    }
    let mut i: usize = 0;
    while i < n
        invariant
            i <= n,
            n == a@.len(),
            n == b@.len(),
            forall|j: int| 0 <= j < i ==> a@[j] == b@[j],
        decreases n - i,
    {
        if a[i] != b[i] {
            return false;
        }
        i += 1;
    }
    proof {
        assert(a@ =~= b@);
    }
    true
}

} // verus!
