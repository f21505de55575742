//! The ordered-entry primitive shared by the list-based policies: a sequence
//! of key-value entries with distinct keys, supporting detach, push to either
//! end, and eviction from either end. LRU and MRU order it by recency, FIFO by
//! insertion, ARC and SLRU use one instance per logical list, and the ghost
//! (key-only) histories of ARC, CAR and 2Q are instances with unit values.

use vstd::prelude::*;
use crate::CacheKey;

verus! {

/// Whether the entry sequence holds key `k`.
pub open spec fn seq_contains_key<K, V>(s: Seq<(K, V)>, k: K) -> bool {
    exists|i: int| 0 <= i < s.len() && (#[trigger] s[i]).0 == k
}

/// The index at which the entry sequence holds `k` (meaningful only when
/// present; unique when the keys are distinct).
pub open spec fn seq_index_of<K, V>(s: Seq<(K, V)>, k: K) -> int {
    choose|i: int| 0 <= i < s.len() && (#[trigger] s[i]).0 == k
}

/// The association an entry sequence represents, as an optional value per
/// key.
pub open spec fn seq_lookup<K, V>(s: Seq<(K, V)>, k: K) -> Option<V> {
    if seq_contains_key(s, k) {
        Some(s[seq_index_of(s, k)].1)
    } else {
        None
    }
}

/// An ordered list of key-value entries whose keys are pairwise distinct.
/// Index 0 is the front; the back is the highest index.
pub struct KeyedList<K, V> {
    entries: Vec<(K, V)>,
}

impl<K, V> View for KeyedList<K, V> {
    type V = Seq<(K, V)>;

    closed spec fn view(&self) -> Seq<(K, V)> {
        self.entries@
    }
}

impl<K, V> KeyedList<K, V> {
    /// All keys, in list order.
    pub open spec fn key_seq(self) -> Seq<K> {
        self@.map_values(|e: (K, V)| e.0)
    }

    /// Well-formed: no key occurs twice.
    pub open spec fn wf(self) -> bool {
        forall|i: int, j: int|
            0 <= i < j < self@.len() ==> (#[trigger] self@[i]).0 != (#[trigger] self@[j]).0
    }

    pub open spec fn contains_key(self, k: K) -> bool {
        exists|i: int| 0 <= i < self@.len() && (#[trigger] self@[i]).0 == k
    }

    /// The index at which `k` is stored (meaningful only when present; under
    /// `wf` it is unique).
    pub open spec fn index_of(self, k: K) -> int {
        choose|i: int| 0 <= i < self@.len() && (#[trigger] self@[i]).0 == k
    }

    /// The value stored under `k` (meaningful only when present).
    pub open spec fn value_of(self, k: K) -> V {
        self@[self.index_of(k)].1
    }

    /// The association the list represents, as an optional value per key.
    pub open spec fn lookup(self, k: K) -> Option<V> {
        if self.contains_key(k) {
            Some(self.value_of(k))
        } else {
            None
        }
    }

    /// `lookup` agrees with the sequence-level association of the view: the
    /// bridge between a policy's published order and what it caches.
    pub proof fn lemma_lookup_matches_seq(self)
        requires
            self.wf(),
        ensures
            forall|k: K| #[trigger] self.lookup(k) == seq_lookup(self@, k),
    {
        assert forall|k: K| #[trigger] self.lookup(k) == seq_lookup(self@, k) by {
            if self.contains_key(k) {
                let i0 = self.index_of(k);
                assert(0 <= i0 < self@.len() && self@[i0].0 == k);
                assert(seq_contains_key(self@, k));
                let i1 = seq_index_of(self@, k);
                assert(0 <= i1 < self@.len() && self@[i1].0 == k);
                self.lemma_index_unique(i1);
            } else {
                if seq_contains_key(self@, k) {
                    let i1 = seq_index_of(self@, k);
                    assert(0 <= i1 < self@.len() && self@[i1].0 == k);
                    assert(self.contains_key(k));
                }
            }
        }
    }

    /// Under `wf`, an entry's index determines `index_of` and `value_of`.
    pub proof fn lemma_index_unique(self, i: int)
        requires
            self.wf(),
            0 <= i < self@.len(),
        ensures
            self.contains_key(self@[i].0),
            self.index_of(self@[i].0) == i,
            self.value_of(self@[i].0) == self@[i].1,
    {
        assert(self.contains_key(self@[i].0));
        let j = self.index_of(self@[i].0);
        if i < j {
            assert(self@[i].0 != self@[j].0);
        } else if j < i {
            assert(self@[j].0 != self@[i].0);
        }
    }

    /// How `lookup` changes when the entry at index `i` is removed: exactly
    /// that entry's key disappears, every other association is kept.
    pub proof fn lemma_remove_lookup(pre: Self, post: Self, i: int)
        requires
            pre.wf(),
            0 <= i < pre@.len(),
            post@ == pre@.remove(i),
        ensures
            forall|k2: K| #[trigger]
                post.lookup(k2) == if k2 == pre@[i].0 {
                    None
                } else {
                    pre.lookup(k2)
                },
            forall|k2: K| #[trigger]
                post.contains_key(k2) == (k2 != pre@[i].0 && pre.contains_key(k2)),
    {
        assert forall|k2: K| #[trigger]
            post.lookup(k2) == (if k2 == pre@[i].0 {
                None::<V>
            } else {
                pre.lookup(k2)
            }) by {
            if k2 == pre@[i].0 {
                assert forall|j: int| 0 <= j < post@.len() implies (#[trigger] post@[j]).0 != k2 by {
                    let oj = if j < i {
                        j
                    } else {
                        j + 1
                    };
                    assert(post@[j] == pre@[oj]);
                    if oj < i {
                        assert(pre@[oj].0 != pre@[i].0);
                    } else {
                        assert(pre@[i].0 != pre@[oj].0);
                    }
                }
                assert(!post.contains_key(k2));
            } else {
                if pre.contains_key(k2) {
                    let oi = pre.index_of(k2);
                    assert(0 <= oi < pre@.len() && pre@[oi].0 == k2);
                    let ni = if oi < i {
                        oi
                    } else {
                        oi - 1
                    };
                    assert(post@[ni] == pre@[oi]);
                    assert(post.contains_key(k2));
                    assert(post@[post.index_of(k2)].0 == k2);
                    post.lemma_wf_of_remove(pre, i);
                    post.lemma_index_unique(ni);
                    pre.lemma_index_unique(oi);
                    assert(post.value_of(k2) == pre.value_of(k2));
                } else {
                    if post.contains_key(k2) {
                        let ni = post.index_of(k2);
                        assert(0 <= ni < post@.len() && post@[ni].0 == k2);
                        let oi = if ni < i {
                            ni
                        } else {
                            ni + 1
                        };
                        assert(post@[ni] == pre@[oi]);
                        assert(pre.contains_key(k2));
                    }
                }
            }
        }
        assert forall|k2: K| #[trigger]
            post.contains_key(k2) == (k2 != pre@[i].0 && pre.contains_key(k2)) by {
            assert(post.lookup(k2) == if k2 == pre@[i].0 {
                None::<V>
            } else {
                pre.lookup(k2)
            });
        }
    }

    /// Removing an entry keeps the keys pairwise distinct.
    pub proof fn lemma_wf_of_remove(self, pre: Self, i: int)
        requires
            pre.wf(),
            0 <= i < pre@.len(),
            self@ == pre@.remove(i),
        ensures
            self.wf(),
    {
        assert forall|p: int, q: int|
            0 <= p < q < self@.len() implies (#[trigger] self@[p]).0 != (#[trigger] self@[q]).0 by {
            let op = if p < i {
                p
            } else {
                p + 1
            };
            let oq = if q < i {
                q
            } else {
                q + 1
            };
            assert(self@[p] == pre@[op]);
            assert(self@[q] == pre@[oq]);
        }
    }

    /// How `lookup` changes when `(k, v)` is put at the front of a list that
    /// does not hold `k`: only `k` gains an association.
    pub proof fn lemma_push_front_lookup(pre: Self, post: Self, k: K, v: V)
        requires
            pre.wf(),
            !pre.contains_key(k),
            post@ == seq![(k, v)] + pre@,
        ensures
            forall|k2: K| #[trigger]
                post.lookup(k2) == if k2 == k {
                    Some(v)
                } else {
                    pre.lookup(k2)
                },
            forall|k2: K| #[trigger] post.contains_key(k2) == (k2 == k || pre.contains_key(k2)),
    {
        assert forall|p: int, q: int|
            0 <= p < q < post@.len() implies (#[trigger] post@[p]).0 != (#[trigger] post@[q]).0 by {
            if 0 < p {
                assert(post@[p] == pre@[p - 1]);
            }
            assert(post@[q] == pre@[q - 1]);
        }
        assert forall|k2: K| #[trigger]
            post.lookup(k2) == (if k2 == k {
                Some(v)
            } else {
                pre.lookup(k2)
            }) by {
            if k2 == k {
                assert(post@[0].0 == k2);
                post.lemma_index_unique(0);
            } else {
                if pre.contains_key(k2) {
                    let oi = pre.index_of(k2);
                    assert(0 <= oi < pre@.len() && pre@[oi].0 == k2);
                    assert(post@[oi + 1] == pre@[oi]);
                    post.lemma_index_unique(oi + 1);
                    pre.lemma_index_unique(oi);
                } else {
                    if post.contains_key(k2) {
                        let ni = post.index_of(k2);
                        assert(0 <= ni < post@.len() && post@[ni].0 == k2);
                        assert(ni != 0);
                        assert(post@[ni] == pre@[ni - 1]);
                        assert(pre.contains_key(k2));
                    }
                }
            }
        }
        assert forall|k2: K| #[trigger]
            post.contains_key(k2) == (k2 == k || pre.contains_key(k2)) by {
            assert(post.lookup(k2) == if k2 == k {
                Some(v)
            } else {
                pre.lookup(k2)
            });
        }
    }

    /// How `lookup` changes when `(k, v)` is appended to a list that does not
    /// hold `k`: only `k` gains an association.
    pub proof fn lemma_push_back_lookup(pre: Self, post: Self, k: K, v: V)
        requires
            pre.wf(),
            !pre.contains_key(k),
            post@ == pre@.push((k, v)),
        ensures
            forall|k2: K| #[trigger]
                post.lookup(k2) == if k2 == k {
                    Some(v)
                } else {
                    pre.lookup(k2)
                },
            forall|k2: K| #[trigger] post.contains_key(k2) == (k2 == k || pre.contains_key(k2)),
    {
        let n = pre@.len() as int;
        assert forall|p: int, q: int|
            0 <= p < q < post@.len() implies (#[trigger] post@[p]).0 != (#[trigger] post@[q]).0 by {
            assert(post@[p] == pre@[p]);
            if q < n {
                assert(post@[q] == pre@[q]);
            }
        }
        assert forall|k2: K| #[trigger]
            post.lookup(k2) == (if k2 == k {
                Some(v)
            } else {
                pre.lookup(k2)
            }) by {
            if k2 == k {
                assert(post@[n].0 == k2);
                post.lemma_index_unique(n);
            } else {
                if pre.contains_key(k2) {
                    let oi = pre.index_of(k2);
                    assert(0 <= oi < pre@.len() && pre@[oi].0 == k2);
                    assert(post@[oi] == pre@[oi]);
                    post.lemma_index_unique(oi);
                    pre.lemma_index_unique(oi);
                } else {
                    if post.contains_key(k2) {
                        let ni = post.index_of(k2);
                        assert(0 <= ni < post@.len() && post@[ni].0 == k2);
                        assert(ni != n);
                        assert(post@[ni] == pre@[ni]);
                        assert(pre.contains_key(k2));
                    }
                }
            }
        }
        assert forall|k2: K| #[trigger]
            post.contains_key(k2) == (k2 == k || pre.contains_key(k2)) by {
            assert(post.lookup(k2) == if k2 == k {
                Some(v)
            } else {
                pre.lookup(k2)
            });
        }
    }

    /// An unchanged list keeps its whole association; stated once so callers
    /// of no-op branches need no index reasoning.
    pub proof fn lemma_same_lookup(pre: Self, post: Self)
        requires
            post@ == pre@,
        ensures
            forall|k2: K| #[trigger] post.lookup(k2) == pre.lookup(k2),
            forall|k2: K| #[trigger] post.contains_key(k2) == pre.contains_key(k2),
    {
        assert forall|k2: K| #[trigger]
            post.lookup(k2) == pre.lookup(k2) && post.contains_key(k2) == pre.contains_key(
            k2) by {
            assert(post.contains_key(k2) == pre.contains_key(k2));
        }
    }

    pub fn new() -> (r: Self)
        ensures
            r.wf(),
            r@ =~= Seq::<(K, V)>::empty(),
    {
        KeyedList { entries: Vec::new() }
    }

    pub fn len(&self) -> (r: usize)
        ensures
            r == self@.len(),
    {
        self.entries.len()
    }

    pub fn is_empty(&self) -> (r: bool)
        ensures
            r <==> self@.len() == 0,
    {
        self.entries.len() == 0
    }

    /// A borrow of the entry at index `i`.
    pub fn at(&self, i: usize) -> (r: &(K, V))
        requires
            i < self@.len(),
        ensures
            *r == self@[i as int],
    {
        &self.entries[i]
    }

    /// Remove and return the entry at index `i`.
    pub fn remove_at(&mut self, i: usize) -> (r: (K, V))
        requires
            old(self).wf(),
            i < old(self)@.len(),
        ensures
            final(self).wf(),
            r == old(self)@[i as int],
            final(self)@ == old(self)@.remove(i as int),
    {
        let r = self.entries.remove(i);
        proof {
            assert forall|p: int, q: int|
                0 <= p < q < self@.len() implies (#[trigger] self@[p]).0 != (#[trigger] self@[q]).0 by {
                let op = if p < i { p } else { p + 1 };
                let oq = if q < i { q } else { q + 1 };
                assert(self@[p] == old(self)@[op]);
                assert(self@[q] == old(self)@[oq]);
            }
        }
        r
    }

    pub fn clear(&mut self)
        ensures
            final(self).wf(),
            final(self)@ =~= Seq::<(K, V)>::empty(),
    {
        self.entries.clear();
    }
}

impl<K: CacheKey, V> KeyedList<K, V> {
    /// The index holding key `k`, if any.
    pub fn position(&self, k: &K) -> (r: Option<usize>)
        requires
            self.wf(),
        ensures
            match r {
                Some(i) => {
                    &&& i < self@.len()
                    &&& self@[i as int].0 == *k
                    &&& self.contains_key(*k)
                    &&& self.index_of(*k) == i as int
                },
                None => !self.contains_key(*k),
            },
    {
        let n = self.entries.len();
        let mut i: usize = 0;
        while i < n
            invariant
                self.wf(),
                n == self@.len(),
                i <= n,
                forall|j: int| 0 <= j < i ==> (#[trigger] self@[j]).0 != *k,
            decreases n - i,
        {
            if self.entries[i].0.key_eq(k) {
                proof {
                    self.lemma_index_unique(i as int);
                }
                return Some(i);
            }
            i += 1;
        }
        None
    }

    pub fn contains(&self, k: &K) -> (r: bool)
        requires
            self.wf(),
        ensures
            r <==> self.contains_key(*k),
    {
        self.position(k).is_some()
    }

    /// A borrow of the value stored under `k`, if any.
    pub fn get_ref(&self, k: &K) -> (r: Option<&V>)
        requires
            self.wf(),
        ensures
            match r {
                Some(v) => self.contains_key(*k) && *v == self.value_of(*k),
                None => !self.contains_key(*k),
            },
    {
        match self.position(k) {
            Some(i) => Some(&self.entries[i].1),
            None => None,
        }
    }

    /// Add an entry at the front; the key must be absent.
    pub fn push_front(&mut self, k: K, v: V)
        requires
            old(self).wf(),
            !old(self).contains_key(k),
        ensures
            final(self).wf(),
            final(self)@ == seq![(k, v)] + old(self)@,
    {
        self.entries.insert(0, (k, v));
        proof {
            assert(self@ =~= seq![(k, v)] + old(self)@);
            assert forall|p: int, q: int|
                0 <= p < q < self@.len() implies (#[trigger] self@[p]).0 != (#[trigger] self@[q]).0 by {
                if 0 < p {
                    assert(self@[p] == old(self)@[p - 1]);
                }
                assert(self@[q] == old(self)@[q - 1]);
            }
        }
    }

    /// Add an entry at the back; the key must be absent.
    pub fn push_back(&mut self, k: K, v: V)
        requires
            old(self).wf(),
            !old(self).contains_key(k),
        ensures
            final(self).wf(),
            final(self)@ == old(self)@.push((k, v)),
    {
        self.entries.push((k, v));
        proof {
            assert forall|p: int, q: int|
                0 <= p < q < self@.len() implies (#[trigger] self@[p]).0 != (#[trigger] self@[q]).0 by {
                if q < self@.len() - 1 {
                    assert(self@[p] == old(self)@[p]);
                    assert(self@[q] == old(self)@[q]);
                } else {
                    assert(self@[p] == old(self)@[p]);
                }
            }
        }
    }

    /// Remove and return the front entry.
    pub fn pop_front(&mut self) -> (r: Option<(K, V)>)
        requires
            old(self).wf(),
        ensures
            final(self).wf(),
            old(self)@.len() == 0 ==> r is None && final(self)@ == old(self)@,
            old(self)@.len() > 0 ==> r == Some(old(self)@[0]) && final(self)@ == old(self)@.drop_first()
                && final(self)@ == old(self)@.remove(0),
    {
        if self.entries.len() == 0 {
            None
        } else {
            let e = self.remove_at(0);
            proof {
                assert(self@ =~= old(self)@.drop_first());
                assert(self@ =~= old(self)@.remove(0));
            }
            Some(e)
        }
    }

    /// Remove and return the back entry.
    pub fn pop_back(&mut self) -> (r: Option<(K, V)>)
        requires
            old(self).wf(),
        ensures
            final(self).wf(),
            old(self)@.len() == 0 ==> r is None && final(self)@ == old(self)@,
            old(self)@.len() > 0 ==> r == Some(old(self)@.last()) && final(self)@ == old(self)@.drop_last()
                && final(self)@ == old(self)@.remove(old(self)@.len() - 1),
    {
        let r = self.entries.pop();
        proof {
            if old(self)@.len() > 0 {
                assert(self@ =~= old(self)@.drop_last());
                assert(self@ =~= old(self)@.remove(old(self)@.len() - 1));
            }
        }
        r
    }

    /// Replace the value stored under `k`, keeping the entry's position, and
    /// return the previous value.
    pub fn set_value(&mut self, k: &K, v: V) -> (r: Option<V>)
        requires
            old(self).wf(),
        ensures
            final(self).wf(),
            !old(self).contains_key(*k) ==> r is None && final(self)@ == old(self)@,
            old(self).contains_key(*k) ==> {
                &&& r == Some(old(self).value_of(*k))
                &&& final(self)@ == old(self)@.update(
                    old(self).index_of(*k),
                    (old(self)@[old(self).index_of(*k)].0, v),
                )
                &&& forall|k2: K| #[trigger]
                    final(self).lookup(k2) == if k2 == *k {
                        Some(v)
                    } else {
                        old(self).lookup(k2)
                    }
                &&& forall|k2: K| #[trigger]
                    final(self).contains_key(k2) == old(self).contains_key(k2)
            },
    {
        let ghost pre = *self;
        match self.position(k) {
            Some(i) => {
                let (key_owned, prev) = self.entries.remove(i);
                self.entries.insert(i, (key_owned, v));
                proof {
                    let oi = i as int;
                    pre.lemma_index_unique(oi);
                    assert(self@ =~= pre@.update(oi, (pre@[oi].0, v)));
                    assert forall|p: int, q: int|
                        0 <= p < q < self@.len() implies (#[trigger] self@[p]).0 != (
                    #[trigger] self@[q]).0 by {
                        assert(self@[p].0 == pre@[p].0);
                        assert(self@[q].0 == pre@[q].0);
                    }
                    assert forall|k2: K| #[trigger]
                        self.lookup(k2) == (if k2 == *k {
                            Some(v)
                        } else {
                            pre.lookup(k2)
                        }) by {
                        if k2 == *k {
                            assert(self@[oi].0 == k2);
                            self.lemma_index_unique(oi);
                        } else {
                            if pre.contains_key(k2) {
                                let j = pre.index_of(k2);
                                assert(0 <= j < pre@.len() && pre@[j].0 == k2);
                                assert(j != oi);
                                assert(self@[j] == pre@[j]);
                                self.lemma_index_unique(j);
                                pre.lemma_index_unique(j);
                            } else {
                                if self.contains_key(k2) {
                                    let j = self.index_of(k2);
                                    assert(0 <= j < self@.len() && self@[j].0 == k2);
                                    assert(self@[j].0 == pre@[j].0);
                                    assert(pre.contains_key(k2));
                                }
                            }
                        }
                    }
                }
                proof {
                    assert forall|k2: K| #[trigger]
                        self.contains_key(k2) == pre.contains_key(k2) by {
                        assert(self.lookup(k2) == if k2 == *k {
                            Some(v)
                        } else {
                            pre.lookup(k2)
                        });
                        if k2 == *k {
                            assert(pre.contains_key(k2));
                        }
                    }
                }
                Some(prev)
            },
            None => None,
        }
    }

    /// Detach the entry holding `k`, if any, and return it.
    pub fn remove_key(&mut self, k: &K) -> (r: Option<(K, V)>)
        requires
            old(self).wf(),
        ensures
            final(self).wf(),
            !old(self).contains_key(*k) ==> r is None && final(self)@ == old(self)@,
            old(self).contains_key(*k) ==> {
                &&& r == Some(old(self)@[old(self).index_of(*k)])
                &&& final(self)@ == old(self)@.remove(old(self).index_of(*k))
                &&& !final(self).contains_key(*k)
            },
    {
        match self.position(k) {
            Some(i) => {
                let e = self.remove_at(i);
                proof {
                    let oi = i as int;
                    assert forall|j: int| 0 <= j < self@.len() implies (#[trigger] self@[j]).0 != *k by {
                        let oj = if j < oi { j } else { j + 1 };
                        assert(self@[j] == old(self)@[oj]);
                        if oj != oi {
                            if oj < oi {
                                assert(old(self)@[oj].0 != old(self)@[oi].0);
                            } else {
                                assert(old(self)@[oi].0 != old(self)@[oj].0);
                            }
                        }
                    }
                }
                Some(e)
            },
            None => None,
        }
    }
}

} // verus!
