//! The circular-buffer-with-reference-bit primitive: a fixed array of slots,
//! each empty or holding a key, a value and a reference bit, and a hand that
//! sweeps the slots in circular order giving referenced entries a second
//! chance. The Clock policy is a thin layer over one ring; CAR manages its T1
//! and T2 lists as two rings with independent hands.

use vstd::prelude::*;
use crate::CacheKey;

verus! {

/// One occupied slot of a ring.
pub struct RingEntry<K, V> {
    pub key: K,
    pub value: V,
    /// Whether the entry was touched since the hand last swept past it.
    pub referenced: bool,
}

/// The number of occupied slots.
pub open spec fn occ<K, V>(s: Seq<Option<RingEntry<K, V>>>) -> nat
    decreases s.len(),
{
    if s.len() == 0 {
        0
    } else {
        occ(s.drop_last()) + if s.last() is Some {
            1nat
        } else {
            0nat
        }
    }
}

/// Occupied slots are at most all slots.
pub proof fn lemma_occ_le_len<K, V>(s: Seq<Option<RingEntry<K, V>>>)
    ensures
        occ(s) <= s.len(),
    decreases s.len(),
{
    if s.len() > 0 {
        lemma_occ_le_len(s.drop_last());
    }
}

/// How the count changes when one slot changes.
pub proof fn lemma_occ_update<K, V>(s: Seq<Option<RingEntry<K, V>>>, i: int, x: Option<RingEntry<K, V>>)
    requires
        0 <= i < s.len(),
    ensures
        occ(s.update(i, x)) == occ(s) + (if x is Some {
            1int
        } else {
            0int
        }) - (if s[i] is Some {
            1int
        } else {
            0int
        }),
    decreases s.len(),
{
    let t = s.update(i, x);
    if i == s.len() - 1 {
        assert(t.drop_last() =~= s.drop_last());
        assert(t.last() == x);
    } else {
        assert(t.drop_last() =~= s.drop_last().update(i, x));
        assert(t.last() == s.last());
        lemma_occ_update(s.drop_last(), i, x);
    }
}

/// A ring with no occupied slot counts zero.
pub proof fn lemma_occ_all_none<K, V>(s: Seq<Option<RingEntry<K, V>>>)
    requires
        forall|i: int| 0 <= i < s.len() ==> (#[trigger] s[i]) is None,
    ensures
        occ(s) == 0,
    decreases s.len(),
{
    if s.len() > 0 {
        assert(forall|i: int|
            0 <= i < s.drop_last().len() ==> (#[trigger] s.drop_last()[i]) == s[i]);
        lemma_occ_all_none(s.drop_last());
        assert(s.last() == s[s.len() - 1]);
    }
}

/// A ring whose slots are all occupied counts them all.
pub proof fn lemma_occ_all_some<K, V>(s: Seq<Option<RingEntry<K, V>>>)
    requires
        forall|i: int| 0 <= i < s.len() ==> (#[trigger] s[i]) is Some,
    ensures
        occ(s) == s.len(),
    decreases s.len(),
{
    if s.len() > 0 {
        assert(forall|i: int|
            0 <= i < s.drop_last().len() ==> (#[trigger] s.drop_last()[i]) == s[i]);
        lemma_occ_all_some(s.drop_last());
        assert(s.last() == s[s.len() - 1]);
    }
}

/// Both rings hold the same keys and values in the same slots; only the
/// reference bits and the hand may differ.
pub open spec fn same_entries<K, V>(
    s1: Seq<Option<RingEntry<K, V>>>,
    s2: Seq<Option<RingEntry<K, V>>>,
) -> bool {
    &&& s1.len() == s2.len()
    &&& forall|i: int|
        0 <= i < s1.len() ==> match (#[trigger] s1[i], #[trigger] s2[i]) {
            (Some(a), Some(b)) => a.key == b.key && a.value == b.value,
            (None, None) => true,
            _ => false,
        }
}

/// A ring counting every slot has every slot occupied.
pub proof fn lemma_occ_full<K, V>(s: Seq<Option<RingEntry<K, V>>>)
    requires
        occ(s) == s.len(),
    ensures
        forall|i: int| 0 <= i < s.len() ==> (#[trigger] s[i]) is Some,
    decreases s.len(),
{
    if s.len() > 0 {
        lemma_occ_le_len(s.drop_last());
        assert(s.last() is Some);
        lemma_occ_full(s.drop_last());
        assert forall|i: int| 0 <= i < s.len() implies (#[trigger] s[i]) is Some by {
            if i < s.len() - 1 {
                assert(s.drop_last()[i] == s[i]);
            } else {
                assert(s[i] == s.last());
            }
        }
    }
}

/// Rings with the same keys in the same slots count the same occupancy.
pub proof fn lemma_occ_same<K, V>(s1: Seq<Option<RingEntry<K, V>>>, s2: Seq<Option<RingEntry<K, V>>>)
    requires
        s1.len() == s2.len(),
        forall|i: int| 0 <= i < s1.len() ==> ((#[trigger] s1[i]) is Some <==> (#[trigger] s2[i]) is Some),
    ensures
        occ(s1) == occ(s2),
    decreases s1.len(),
{
    if s1.len() > 0 {
        assert(forall|i: int|
            0 <= i < s1.drop_last().len() ==> (#[trigger] s1.drop_last()[i]) == s1[i] && (
            #[trigger] s2.drop_last()[i]) == s2[i]);
        lemma_occ_same(s1.drop_last(), s2.drop_last());
        assert(s1.last() == s1[s1.len() - 1] && s2.last() == s2[s2.len() - 1]);
    }
}

/// Whether the slot sequence holds key `k`.
pub open spec fn slots_hold_key<K, V>(s: Seq<Option<RingEntry<K, V>>>, k: K) -> bool {
    exists|i: int| 0 <= i < s.len() && (#[trigger] s[i]) is Some && s[i]->0.key == k
}

/// The slot at which the sequence holds `k` (meaningful only when present;
/// unique when the keys are distinct).
pub open spec fn slot_index_of<K, V>(s: Seq<Option<RingEntry<K, V>>>, k: K) -> int {
    choose|i: int| 0 <= i < s.len() && (#[trigger] s[i]) is Some && s[i]->0.key == k
}

/// The association a slot sequence represents, as an optional value per key.
pub open spec fn slots_lookup<K, V>(s: Seq<Option<RingEntry<K, V>>>, k: K) -> Option<V> {
    if slots_hold_key(s, k) {
        Some(s[slot_index_of(s, k)]->0.value)
    } else {
        None
    }
}

/// The forward distance from `start` to `p` on a ring of `n` slots.
pub open spec fn ring_dist(start: int, p: int, n: int) -> int {
    if p >= start {
        p - start
    } else {
        p - start + n
    }
}

/// A fixed-size circular buffer of keyed slots with reference bits.
pub struct ClockRing<K, V> {
    slots: Vec<Option<RingEntry<K, V>>>,
    hand: usize,
    occupied: usize,
}

impl<K, V> View for ClockRing<K, V> {
    type V = Seq<Option<RingEntry<K, V>>>;

    closed spec fn view(&self) -> Seq<Option<RingEntry<K, V>>> {
        self.slots@
    }
}

impl<K, V> ClockRing<K, V> {
    /// The position the hand will examine first on the next sweep.
    pub closed spec fn hand_pos(&self) -> int {
        self.hand as int
    }

    /// The fixed number of slots.
    pub open spec fn slot_count(&self) -> nat {
        self@.len()
    }

    /// Whether some slot holds `k`.
    pub open spec fn holds_key(&self, k: K) -> bool {
        exists|i: int| 0 <= i < self@.len() && (#[trigger] self@[i]) is Some && self@[i]->0.key == k
    }

    /// The slot holding `k` (meaningful only when present).
    pub open spec fn slot_of(&self, k: K) -> int {
        choose|i: int| 0 <= i < self@.len() && (#[trigger] self@[i]) is Some && self@[i]->0.key == k
    }

    pub closed spec fn wf_counts(&self) -> bool {
        &&& self.occupied == occ(self@)
        &&& self.hand < self.slots@.len()
    }

    /// Well-formed: at least one slot, an accurate count, the hand in range,
    /// and no key in two slots.
    pub open spec fn wf(&self) -> bool {
        &&& self@.len() >= 1
        &&& self.wf_counts()
        &&& forall|i: int, j: int|
            (0 <= i < j < self@.len() && (#[trigger] self@[i]) is Some && (#[trigger] self@[j])
                is Some) ==> self@[i]->0.key != self@[j]->0.key
    }

    /// Under `wf`, an occupied slot's index determines `slot_of`.
    pub proof fn lemma_slot_unique(&self, i: int)
        requires
            self.wf(),
            0 <= i < self@.len(),
            self@[i] is Some,
        ensures
            self.holds_key(self@[i]->0.key),
            self.slot_of(self@[i]->0.key) == i,
    {
        let k = self@[i]->0.key;
        assert(self.holds_key(k));
        let j = self.slot_of(k);
        if i < j {
            assert(self@[i]->0.key != self@[j]->0.key);
        } else if j < i {
            assert(self@[j]->0.key != self@[i]->0.key);
        }
    }

    /// How key lookups change when slot `i` alone is overwritten with `x`.
    pub proof fn lemma_update_lookup(pre: Self, post: Self, i: int, x: Option<RingEntry<K, V>>)
        requires
            pre.wf(),
            post.wf(),
            0 <= i < pre@.len(),
            post@ == pre@.update(i, x),
        ensures
            x is Some ==> post.holds_key(x->0.key) && post.slot_of(x->0.key) == i,
            forall|k2: K|
                ((pre@[i] is Some ==> k2 != pre@[i]->0.key) && (x is Some ==> k2 != x->0.key))
                    ==> #[trigger] post.holds_key(k2) == pre.holds_key(k2) && (pre.holds_key(k2)
                    ==> post.slot_of(k2) == pre.slot_of(k2) && post@[pre.slot_of(k2)]
                    == pre@[pre.slot_of(k2)]),
            (pre@[i] is Some && (x is Some ==> x->0.key != pre@[i]->0.key)) ==> !post.holds_key(
                pre@[i]->0.key,
            ),
    {
        if x is Some {
            assert(post@[i] is Some && post@[i]->0.key == x->0.key);
            post.lemma_slot_unique(i);
        }
        assert forall|k2: K|
            ((pre@[i] is Some ==> k2 != pre@[i]->0.key) && (x is Some ==> k2
                != x->0.key)) implies #[trigger] post.holds_key(k2) == pre.holds_key(k2) && (
        pre.holds_key(k2) ==> post.slot_of(k2) == pre.slot_of(k2) && post@[pre.slot_of(k2)]
            == pre@[pre.slot_of(k2)]) by {
            if pre.holds_key(k2) {
                let j = pre.slot_of(k2);
                assert(0 <= j < pre@.len() && pre@[j] is Some && pre@[j]->0.key == k2);
                assert(j != i);
                assert(post@[j] == pre@[j]);
                post.lemma_slot_unique(j);
            } else {
                if post.holds_key(k2) {
                    let j = post.slot_of(k2);
                    assert(0 <= j < post@.len() && post@[j] is Some && post@[j]->0.key == k2);
                    assert(j != i);
                    assert(pre@[j] == post@[j]);
                    assert(pre.holds_key(k2));
                }
            }
        }
        if pre@[i] is Some && (x is Some ==> x->0.key != pre@[i]->0.key) {
            let ok = pre@[i]->0.key;
            if post.holds_key(ok) {
                let j = post.slot_of(ok);
                assert(0 <= j < post@.len() && post@[j] is Some && post@[j]->0.key == ok);
                assert(j != i);
                assert(pre@[j] == post@[j]);
                pre.lemma_slot_unique(j);
                pre.lemma_slot_unique(i);
            }
        }
    }

    /// Rings with the same entries agree on every key lookup.
    pub proof fn lemma_same_entries_lookup(pre: Self, post: Self)
        requires
            pre.wf(),
            post.wf(),
            same_entries(pre@, post@),
        ensures
            forall|k2: K| #[trigger] post.holds_key(k2) == pre.holds_key(k2),
            forall|k2: K| #[trigger]
                pre.holds_key(k2) ==> post.slot_of(k2) == pre.slot_of(k2) && post@[post.slot_of(
                    k2,
                )]->0.value == pre@[pre.slot_of(k2)]->0.value,
    {
        assert forall|k2: K| #[trigger] post.holds_key(k2) == pre.holds_key(k2) by {
            if pre.holds_key(k2) {
                let j = pre.slot_of(k2);
                assert(0 <= j < pre@.len() && pre@[j] is Some && pre@[j]->0.key == k2);
                assert(post@[j] is Some && post@[j]->0.key == k2);
            }
            if post.holds_key(k2) {
                let j = post.slot_of(k2);
                assert(0 <= j < post@.len() && post@[j] is Some && post@[j]->0.key == k2);
                assert(pre@[j] is Some && pre@[j]->0.key == k2);
            }
        }
        assert forall|k2: K| #[trigger]
            pre.holds_key(k2) implies post.slot_of(k2) == pre.slot_of(k2) && post@[post.slot_of(
            k2,
        )]->0.value == pre@[pre.slot_of(k2)]->0.value by {
            let j = pre.slot_of(k2);
            assert(0 <= j < pre@.len() && pre@[j] is Some && pre@[j]->0.key == k2);
            assert(post@[j] is Some && post@[j]->0.key == k2);
            post.lemma_slot_unique(j);
        }
    }

    /// The ring's key association agrees with the sequence-level association
    /// of its published slots: the bridge between a policy's slot view and
    /// what it caches.
    pub proof fn lemma_lookup_matches_slots(&self)
        requires
            self.wf(),
        ensures
            forall|k: K| #[trigger]
                slots_lookup(self@, k) == if self.holds_key(k) {
                    Some(self@[self.slot_of(k)]->0.value)
                } else {
                    None
                },
    {
        assert forall|k: K| #[trigger]
            slots_lookup(self@, k) == (if self.holds_key(k) {
                Some(self@[self.slot_of(k)]->0.value)
            } else {
                None::<V>
            }) by {
            if self.holds_key(k) {
                let i0 = self.slot_of(k);
                assert(0 <= i0 < self@.len() && self@[i0] is Some && self@[i0]->0.key == k);
                assert(slots_hold_key(self@, k));
                let i1 = slot_index_of(self@, k);
                assert(0 <= i1 < self@.len() && self@[i1] is Some && self@[i1]->0.key == k);
                self.lemma_slot_unique(i1);
            } else {
                if slots_hold_key(self@, k) {
                    let i1 = slot_index_of(self@, k);
                    assert(0 <= i1 < self@.len() && self@[i1] is Some && self@[i1]->0.key == k);
                    assert(self.holds_key(k));
                }
            }
        }
    }

    /// Create a ring of `slot_count` empty slots.
    pub fn new(slot_count: usize) -> (r: Self)
        requires
            slot_count >= 1,
        ensures
            r.wf(),
            r.slot_count() == slot_count,
            occ(r@) == 0,
            r.hand_pos() == 0,
            forall|i: int| 0 <= i < r@.len() ==> (#[trigger] r@[i]) is None,
            forall|k: K| !r.holds_key(k),
    {
        let mut slots: Vec<Option<RingEntry<K, V>>> = Vec::new();
        let mut i: usize = 0;
        while i < slot_count
            invariant
                i <= slot_count,
                slots@.len() == i,
                forall|j: int| 0 <= j < i ==> (#[trigger] slots@[j]) is None,
            decreases slot_count - i,
        {
            slots.push(None);
            i += 1;
        }
        proof {
            lemma_occ_all_none(slots@);
        }
        let r = ClockRing { slots, hand: 0, occupied: 0 };
        r
    }

    /// The number of occupied slots.
    pub fn len(&self) -> (r: usize)
        requires
            self.wf(),
        ensures
            r == occ(self@),
    {
        self.occupied
    }

    /// The fixed number of slots.
    pub fn capacity(&self) -> (r: usize)
        requires
            self.wf(),
        ensures
            r == self.slot_count(),
    {
        self.slots.len()
    }

    /// Empty every slot and move the hand back to the start.
    pub fn clear(&mut self)
        requires
            old(self).wf(),
            old(self)@.len() >= 1,
        ensures
            final(self).wf(),
            final(self).slot_count() == old(self).slot_count(),
            occ(final(self)@) == 0,
            final(self).hand_pos() == 0,
            forall|i: int| 0 <= i < final(self)@.len() ==> (#[trigger] final(self)@[i]) is None,
            forall|k: K| !final(self).holds_key(k),
    {
        let n = self.slots.len();
        let mut i: usize = 0;
        while i < n
            invariant
                i <= n,
                n == self.slots@.len(),
                forall|j: int| 0 <= j < i ==> (#[trigger] self.slots@[j]) is None,
            decreases n - i,
        {
            self.slots[i] = None;
            i += 1;
        }
        proof {
            lemma_occ_all_none(self.slots@);
        }
        self.hand = 0;
        self.occupied = 0;
    }
}

impl<K: CacheKey, V> ClockRing<K, V> {
    /// The slot holding `k`, if any.
    pub fn position(&self, k: &K) -> (r: Option<usize>)
        requires
            self.wf(),
        ensures
            match r {
                Some(i) => {
                    &&& i < self@.len()
                    &&& self@[i as int] is Some
                    &&& self@[i as int]->0.key == *k
                    &&& self.holds_key(*k)
                    &&& self.slot_of(*k) == i as int
                },
                None => !self.holds_key(*k),
            },
    {
        let n = self.slots.len();
        let mut i: usize = 0;
        while i < n
            invariant
                self.wf(),
                n == self@.len(),
                i <= n,
                forall|j: int|
                    0 <= j < i ==> !((#[trigger] self@[j]) is Some && self@[j]->0.key == *k),
            decreases n - i,
        {
            match &self.slots[i] {
                Some(e) => {
                    if e.key.key_eq(k) {
                        proof {
                            self.lemma_slot_unique(i as int);
                        }
                        return Some(i);
                    }
                },
                None => {},
            }
            i += 1;
        }
        None
    }

    /// A borrow of the value stored under `k`, if any.
    pub fn value_ref(&self, k: &K) -> (r: Option<&V>)
        requires
            self.wf(),
        ensures
            match r {
                Some(v) => self.holds_key(*k) && self@[self.slot_of(*k)] is Some
                    && self@[self.slot_of(*k)]->0.value == *v,
                None => !self.holds_key(*k),
            },
    {
        match self.position(k) {
            Some(i) => {
                match &self.slots[i] {
                    Some(e) => Some(&e.value),
                    None => {
                        proof {
                            assert(false);
                        }
                        None
                    },
                }
            },
            None => None,
        }
    }

    /// Set the reference bit of the slot holding `k`, if any; reports whether
    /// the key was found. Nothing else changes.
    pub fn touch(&mut self, k: &K) -> (r: bool)
        requires
            old(self).wf(),
        ensures
            final(self).wf(),
            r <==> old(self).holds_key(*k),
            final(self).hand_pos() == old(self).hand_pos(),
            !r ==> final(self)@ == old(self)@,
            r ==> final(self)@ == old(self)@.update(
                old(self).slot_of(*k),
                Some(
                    RingEntry {
                        key: old(self)@[old(self).slot_of(*k)]->0.key,
                        value: old(self)@[old(self).slot_of(*k)]->0.value,
                        referenced: true,
                    },
                ),
            ),
    {
        let ghost pre = *self;
        match self.position(k) {
            Some(i) => {
                let slot = self.slots[i].take();
                match slot {
                    Some(e) => {
                        self.slots[i] = Some(
                            RingEntry { key: e.key, value: e.value, referenced: true },
                        );
                        proof {
                            let oi = i as int;
                            let newe = Some(
                                RingEntry {
                                    key: pre@[oi]->0.key,
                                    value: pre@[oi]->0.value,
                                    referenced: true,
                                },
                            );
                            assert(self@ =~= pre@.update(oi, newe));
                            lemma_occ_update(pre@, oi, newe);
                            assert forall|p: int, q: int|
                                (0 <= p < q < self@.len() && (#[trigger] self@[p]) is Some && (
                                #[trigger] self@[q]) is Some) implies self@[p]->0.key
                                != self@[q]->0.key by {
                                assert(pre@[p] is Some && pre@[q] is Some);
                                assert(pre@[p]->0.key == self@[p]->0.key);
                                assert(pre@[q]->0.key == self@[q]->0.key);
                            }
                        }
                        true
                    },
                    None => {
                        proof {
                            assert(false);
                        }
                        false
                    },
                }
            },
            None => false,
        }
    }

    /// Overwrite the value stored under `k` and set its reference bit, if the
    /// key is present; reports whether it was. Nothing else changes.
    pub fn update_value(&mut self, k: &K, v: V) -> (r: bool)
        requires
            old(self).wf(),
        ensures
            final(self).wf(),
            r <==> old(self).holds_key(*k),
            final(self).hand_pos() == old(self).hand_pos(),
            !r ==> final(self)@ == old(self)@,
            r ==> final(self)@ == old(self)@.update(
                old(self).slot_of(*k),
                Some(
                    RingEntry {
                        key: old(self)@[old(self).slot_of(*k)]->0.key,
                        value: v,
                        referenced: true,
                    },
                ),
            ),
    {
        let ghost pre = *self;
        match self.position(k) {
            Some(i) => {
                let slot = self.slots[i].take();
                match slot {
                    Some(e) => {
                        self.slots[i] = Some(
                            RingEntry { key: e.key, value: v, referenced: true },
                        );
                        proof {
                            let oi = i as int;
                            let newe = Some(
                                RingEntry { key: pre@[oi]->0.key, value: v, referenced: true },
                            );
                            assert(self@ =~= pre@.update(oi, newe));
                            lemma_occ_update(pre@, oi, newe);
                            assert forall|p: int, q: int|
                                (0 <= p < q < self@.len() && (#[trigger] self@[p]) is Some && (
                                #[trigger] self@[q]) is Some) implies self@[p]->0.key
                                != self@[q]->0.key by {
                                assert(pre@[p] is Some && pre@[q] is Some);
                                assert(pre@[p]->0.key == self@[p]->0.key);
                                assert(pre@[q]->0.key == self@[q]->0.key);
                            }
                        }
                        true
                    },
                    None => {
                        proof {
                            assert(false);
                        }
                        false
                    },
                }
            },
            None => false,
        }
    }

    /// The first empty slot, if any; `None` means every slot is occupied.
    pub fn find_empty(&self) -> (r: Option<usize>)
        requires
            self.wf(),
        ensures
            match r {
                Some(i) => i < self@.len() && self@[i as int] is None,
                None => occ(self@) == self@.len(),
            },
    {
        let n = self.slots.len();
        let mut i: usize = 0;
        while i < n
            invariant
                n == self@.len(),
                i <= n,
                forall|j: int| 0 <= j < i ==> (#[trigger] self@[j]) is Some,
            decreases n - i,
        {
            if self.slots[i].is_none() {
                return Some(i);
            }
            i += 1;
        }
        proof {
            lemma_occ_all_some(self@);
        }
        None
    }

    /// Put a fresh entry, reference bit set, into the empty slot `i`.
    pub fn install(&mut self, i: usize, k: K, v: V)
        requires
            old(self).wf(),
            i < old(self)@.len(),
            old(self)@[i as int] is None,
            !old(self).holds_key(k),
        ensures
            final(self).wf(),
            final(self)@ == old(self)@.update(
                i as int,
                Some(RingEntry { key: k, value: v, referenced: true }),
            ),
            occ(final(self)@) == occ(old(self)@) + 1,
            final(self).hand_pos() == old(self).hand_pos(),
            final(self).holds_key(k),
            final(self).slot_of(k) == i as int,
    {
        let ghost pre = *self;
        proof {
            lemma_occ_update(
                pre@,
                i as int,
                Some(RingEntry { key: k, value: v, referenced: true }),
            );
            lemma_occ_le_len(pre@.update(
                i as int,
                Some(RingEntry { key: k, value: v, referenced: true }),
            ));
        }
        self.slots[i] = Some(RingEntry { key: k, value: v, referenced: true });
        proof {
            assert(self.slots@.len() == pre@.len());
            assert(pre.occupied < pre@.len());
            assert(self.slots.len() == self.slots@.len());
        }
        let n = self.slots.len();
        proof {
            assert(self.occupied < n);
        }
        self.occupied = self.occupied + 1;
        proof {
            let oi = i as int;
            assert forall|p: int, q: int|
                (0 <= p < q < self@.len() && (#[trigger] self@[p]) is Some && (#[trigger] self@[q])
                    is Some) implies self@[p]->0.key != self@[q]->0.key by {
                if p != oi && q != oi {
                    assert(pre@[p] is Some && pre@[q] is Some);
                    assert(pre@[p]->0.key == self@[p]->0.key);
                    assert(pre@[q]->0.key == self@[q]->0.key);
                } else if p == oi {
                    assert(pre@[q] is Some);
                    assert(!(pre@[q] is Some && pre@[q]->0.key == k));
                } else {
                    assert(pre@[p] is Some);
                    assert(!(pre@[p] is Some && pre@[p]->0.key == k));
                }
            }
            assert(self@[oi] is Some && self@[oi]->0.key == k);
            self.lemma_slot_unique(oi);
        }
    }

    /// Empty slot `i`, returning the key and value it held.
    pub fn evict_at(&mut self, i: usize) -> (r: (K, V))
        requires
            old(self).wf(),
            i < old(self)@.len(),
            old(self)@[i as int] is Some,
        ensures
            final(self).wf(),
            r.0 == old(self)@[i as int]->0.key,
            r.1 == old(self)@[i as int]->0.value,
            final(self)@ == old(self)@.update(i as int, None),
            occ(final(self)@) == occ(old(self)@) - 1,
            final(self).hand_pos() == old(self).hand_pos(),
            !final(self).holds_key(r.0),
    {
        let ghost pre = *self;
        proof {
            lemma_occ_update(pre@, i as int, None);
        }
        let e = self.slots[i].take().unwrap();
        self.occupied = self.occupied - 1;
        proof {
            let oi = i as int;
            assert(self@ =~= pre@.update(oi, None));
            assert forall|p: int, q: int|
                (0 <= p < q < self@.len() && (#[trigger] self@[p]) is Some && (#[trigger] self@[q])
                    is Some) implies self@[p]->0.key != self@[q]->0.key by {
                assert(pre@[p] is Some && pre@[q] is Some);
                assert(pre@[p]->0.key == self@[p]->0.key);
                assert(pre@[q]->0.key == self@[q]->0.key);
            }
            assert forall|j: int|
                0 <= j < self@.len() implies !((#[trigger] self@[j]) is Some && self@[j]->0.key
                == e.key) by {
                if j != oi && self@[j] is Some {
                    assert(pre@[j] is Some && pre@[j]->0.key == self@[j]->0.key);
                    if j < oi {
                        assert(pre@[j]->0.key != pre@[oi]->0.key);
                    } else {
                        assert(pre@[oi]->0.key != pre@[j]->0.key);
                    }
                }
            }
        }
        (e.key, e.value)
    }

    /// One second-chance sweep over a fully occupied ring. Starting at the
    /// hand, each slot whose reference bit is set loses the bit and is
    /// spared; the first slot found with the bit clear is the victim. When
    /// every bit was set, the whole ring is cleared and the slot the hand
    /// started at becomes the victim. The hand stops just past the victim.
    ///
    /// An entry whose bit was set is never the victim unless every entry's
    /// bit was set, i.e. unless it survived a full clearing sweep first.
    pub fn sweep_full(&mut self) -> (r: usize)
        requires
            old(self).wf(),
            occ(old(self)@) == old(self)@.len(),
        ensures
            final(self).wf(),
            r < final(self)@.len(),
            same_entries(old(self)@, final(self)@),
            occ(final(self)@) == occ(old(self)@),
            final(self)@[r as int] is Some,
            forall|j: int|
                0 <= j < final(self)@.len() && (#[trigger] final(self)@[j]) is Some
                    ==> (final(self)@[j]->0.referenced ==> old(self)@[j]->0.referenced),
            old(self)@[r as int]->0.referenced ==> (forall|j: int|
                0 <= j < old(self)@.len() ==> (#[trigger] old(self)@[j])->0.referenced),
            final(self).hand_pos() == if r + 1 == final(self)@.len() {
                0int
            } else {
                r + 1
            },
    {
        let n = self.slots.len();
        proof {
            lemma_occ_full(old(self)@);
        }
        let start = self.hand;
        let mut pos = self.hand;
        let mut j: usize = 0;
        while j < n
            invariant
                self.wf(),
                n == self@.len(),
                n >= 1,
                start < n,
                pos < n,
                j <= n,
                j < n ==> ring_dist(start as int, pos as int, n as int) == j,
                self.hand == start,
                self.occupied == old(self).occupied,
                occ(old(self)@) == old(self).occupied,
                same_entries(old(self)@, self@),
                forall|p: int| 0 <= p < n ==> (#[trigger] old(self)@[p]) is Some,
                forall|p: int|
                    0 <= p < n && ring_dist(start as int, p, n as int) >= j ==> (#[trigger] self@[p])
                        == old(self)@[p],
                forall|p: int|
                    0 <= p < n && ring_dist(start as int, p, n as int) < j ==> !(
                    #[trigger] self@[p])->0.referenced && old(self)@[p]->0.referenced,
            decreases n - j,
        {
            let ghost loop_pre = *self;
            let referenced_here = match &self.slots[pos] {
                Some(e) => e.referenced,
                None => {
                    proof {
                        assert(false);
                    }
                    false
                },
            };
            if !referenced_here {
                self.hand = if pos + 1 == n {
                    0
                } else {
                    pos + 1
                };
                proof {
                    assert(self@[pos as int] == old(self)@[pos as int]);
                }
                return pos;
            }
            let e = self.slots[pos].take().unwrap();
            self.slots[pos] = Some(RingEntry { key: e.key, value: e.value, referenced: false });
            proof {
                let oi = pos as int;
                let newe = Some(
                    RingEntry {
                        key: loop_pre@[oi]->0.key,
                        value: loop_pre@[oi]->0.value,
                        referenced: false,
                    },
                );
                assert(self@ =~= loop_pre@.update(oi, newe));
                lemma_occ_update(loop_pre@, oi, newe);
                assert forall|p: int, q: int|
                    (0 <= p < q < self@.len() && (#[trigger] self@[p]) is Some && (
                    #[trigger] self@[q]) is Some) implies self@[p]->0.key != self@[q]->0.key by {
                    assert(loop_pre@[p] is Some && loop_pre@[q] is Some);
                    assert(loop_pre@[p]->0.key == self@[p]->0.key);
                    assert(loop_pre@[q]->0.key == self@[q]->0.key);
                }
            }
            pos = if pos + 1 == n {
                0
            } else {
                pos + 1
            };
            j += 1;
        }
        proof {
            assert forall|p: int| 0 <= p < old(self)@.len() implies (#[trigger] old(
                self,
            )@[p])->0.referenced by {
                let sp = self@[p];
                assert(ring_dist(start as int, p, n as int) < n);
            }
        }
        self.hand = if start + 1 == n {
            0
        } else {
            start + 1
        };
        start
    }

    /// One second-chance sweep over a partly occupied ring holding at least
    /// one entry. Empty slots are skipped; occupied slots with the bit set
    /// lose it and are spared; the victim is the first occupied slot whose
    /// bit is clear, after a full clearing pass if every bit was set. The
    /// hand stops just past the victim.
    pub fn sweep_occupied(&mut self) -> (r: usize)
        requires
            old(self).wf(),
            occ(old(self)@) >= 1,
        ensures
            final(self).wf(),
            r < final(self)@.len(),
            same_entries(old(self)@, final(self)@),
            occ(final(self)@) == occ(old(self)@),
            final(self)@[r as int] is Some,
            forall|j: int|
                0 <= j < final(self)@.len() && (#[trigger] final(self)@[j]) is Some
                    ==> (final(self)@[j]->0.referenced ==> old(self)@[j]->0.referenced),
            old(self)@[r as int]->0.referenced ==> (forall|j: int|
                0 <= j < old(self)@.len() && (#[trigger] old(self)@[j]) is Some
                    ==> old(self)@[j]->0.referenced),
            final(self).hand_pos() == if r + 1 == final(self)@.len() {
                0int
            } else {
                r + 1
            },
    {
        let n = self.slots.len();
        let start = self.hand;
        let mut pos = self.hand;
        let mut j: usize = 0;
        while j < n
            invariant
                self.wf(),
                n == self@.len(),
                n >= 1,
                start < n,
                pos < n,
                j <= n,
                j < n ==> ring_dist(start as int, pos as int, n as int) == j,
                self.hand == start,
                self.occupied == old(self).occupied,
                occ(old(self)@) == old(self).occupied,
                same_entries(old(self)@, self@),
                forall|p: int|
                    0 <= p < n && ring_dist(start as int, p, n as int) >= j ==> (#[trigger] self@[p])
                        == old(self)@[p],
                forall|p: int|
                    0 <= p < n && ring_dist(start as int, p, n as int) < j && (#[trigger] self@[p])
                        is Some ==> !self@[p]->0.referenced && old(self)@[p]->0.referenced,
            decreases n - j,
        {
            let ghost loop_pre = *self;
            let state: u8 = match &self.slots[pos] {
                Some(e) => if e.referenced {
                    1
                } else {
                    0
                },
                None => 2,
            };
            if state == 0 {
                self.hand = if pos + 1 == n {
                    0
                } else {
                    pos + 1
                };
                proof {
                    assert(self@[pos as int] == old(self)@[pos as int]);
                }
                return pos;
            }
            if state == 1 {
                let e = self.slots[pos].take().unwrap();
                self.slots[pos] = Some(
                    RingEntry { key: e.key, value: e.value, referenced: false },
                );
                proof {
                    let oi = pos as int;
                    let newe = Some(
                        RingEntry {
                            key: loop_pre@[oi]->0.key,
                            value: loop_pre@[oi]->0.value,
                            referenced: false,
                        },
                    );
                    assert(self@ =~= loop_pre@.update(oi, newe));
                    lemma_occ_update(loop_pre@, oi, newe);
                    assert forall|p: int, q: int|
                        (0 <= p < q < self@.len() && (#[trigger] self@[p]) is Some && (
                        #[trigger] self@[q]) is Some) implies self@[p]->0.key != self@[q]->0.key by {
                        assert(loop_pre@[p] is Some && loop_pre@[q] is Some);
                        assert(loop_pre@[p]->0.key == self@[p]->0.key);
                        assert(loop_pre@[q]->0.key == self@[q]->0.key);
                    }
                }
            }
            pos = if pos + 1 == n {
                0
            } else {
                pos + 1
            };
            j += 1;
        }
        proof {
            assert forall|p: int|
                0 <= p < n && (#[trigger] self@[p]) is Some implies !self@[p]->0.referenced
                && old(self)@[p]->0.referenced by {
                assert(ring_dist(start as int, p, n as int) < n);
            }
        }
        // Every reference bit is now clear; a second pass returns the first
        // occupied slot, which exists because the ring is not empty.
        let mut j2: usize = 0;
        pos = start;
        while j2 < n
            invariant
                self.wf(),
                n == self@.len(),
                n >= 1,
                start < n,
                pos < n,
                j2 <= n,
                j2 < n ==> ring_dist(start as int, pos as int, n as int) == j2,
                self.hand == start,
                self.occupied == old(self).occupied,
                occ(old(self)@) == old(self).occupied,
                occ(old(self)@) >= 1,
                same_entries(old(self)@, self@),
                forall|p: int|
                    0 <= p < n && (#[trigger] self@[p]) is Some ==> !self@[p]->0.referenced && old(
                        self,
                    )@[p]->0.referenced,
                forall|p: int|
                    0 <= p < n && ring_dist(start as int, p, n as int) < j2 ==> (#[trigger] self@[p])
                        is None,
            decreases n - j2,
        {
            if self.slots[pos].is_some() {
                self.hand = if pos + 1 == n {
                    0
                } else {
                    pos + 1
                };
                proof {
                    assert forall|q: int|
                        0 <= q < old(self)@.len() && (#[trigger] old(self)@[q]) is Some implies old(
                        self,
                    )@[q]->0.referenced by {
                        let sq = self@[q];
                    }
                }
                return pos;
            }
            pos = if pos + 1 == n {
                0
            } else {
                pos + 1
            };
            j2 += 1;
        }
        proof {
            assert forall|p: int| 0 <= p < n implies (#[trigger] self@[p]) is None by {
                assert(ring_dist(start as int, p, n as int) < n);
            }
            lemma_occ_all_none(self@);
            lemma_occ_same(old(self)@, self@);
            assert(false);
        }
        0
    }
}

} // verus!
