use vstd::prelude::*;

use crate::bytes::{bytes_eq, copy_bytes};

verus! {

/// Eviction policy of a cache, fixed for its whole lifetime.
#[derive(Clone, Copy, Debug, PartialEq, Eq, Structural)]
pub enum Policy {
    /// Evict the least recently used key.
    Recency,
    /// Evict the least frequently used key; ties go to the oldest insertion.
    Frequency,
}

/// Errors of the dictionary-coding layer.
#[derive(Clone, Copy, Debug, PartialEq, Eq, Structural)]
pub enum CacheError {
    /// An index that no resident key owns (never assigned, or evicted).
    IndexInvalid,
    /// A wire entry whose tag or fields cannot be parsed.
    MalformedWireEntry,
    /// A snapshot that lacks or contradicts the policy metadata.
    ResyncIncomplete,
}

/// A cache key. Its comparison and its copies agree with its view.
pub trait Key: View + Sized {
    fn same(&self, other: &Self) -> (r: bool)
        ensures
            r == (self@ == other@);

    fn copy_key(&self) -> (r: Self)
        ensures
            r@ == self@;
}

/// A cached value. Its copies agree with its view.
pub trait Value: View + Sized {
    fn copy_value(&self) -> (r: Self)
        ensures
            r@ == self@;
}

impl Key for Vec<u8> {
    fn same(&self, other: &Self) -> (r: bool) {
        bytes_eq(self, other)
    }

    fn copy_key(&self) -> (r: Self) {
        copy_bytes(self)
    }
}

impl Value for Vec<u8> {
    fn copy_value(&self) -> (r: Self) {
        copy_bytes(self)
    }
}

/// What a resident slot means: its key, value, stable index and access count.
pub struct SlotModel<KV, VV> {
    pub key: KV,
    pub value: VV,
    pub index: u64,
    pub count: u64,
}

/// The mathematical state of a cache. `slots` is kept in recency order:
/// the front is the least recently used key, the back the most recent.
pub struct CacheView<KV, VV> {
    pub capacity: nat,
    pub policy: Policy,
    pub slots: Seq<SlotModel<KV, VV>>,
    pub next_index: u64,
}

/// A resident key with its value, its index and its access counter.
pub struct Slot<K, V> {
    pub key: K,
    pub value: V,
    pub index: u64,
    pub count: u64,
    /// The logical time of the last access to this key.
    pub stamp: Ghost<nat>,
}

impl<K: Key, V: Value> Slot<K, V> {
    /// The slot's meaning, without its last-access time.
    pub open spec fn model(&self) -> SlotModel<K::V, V::V> {
        SlotModel { key: self.key@, value: self.value@, index: self.index, count: self.count }
    }
}

/// Counter increment that stops at the largest value.
pub open spec fn bump(n: u64) -> u64 {
    if n == u64::MAX {
        n
    } else {
        (n + 1) as u64
    }
}

/// Some slot holds key `k`.
pub open spec fn has_key<KV, VV>(s: Seq<SlotModel<KV, VV>>, k: KV) -> bool {
    exists|p: int| 0 <= p < s.len() && (#[trigger] s[p]).key == k
}

/// A position of key `k` (the only one in a consistent cache).
pub open spec fn key_pos<KV, VV>(s: Seq<SlotModel<KV, VV>>, k: KV) -> int {
    choose|p: int| 0 <= p < s.len() && (#[trigger] s[p]).key == k
}

/// Some slot owns index `i`.
pub open spec fn has_index<KV, VV>(s: Seq<SlotModel<KV, VV>>, i: u64) -> bool {
    exists|p: int| 0 <= p < s.len() && (#[trigger] s[p]).index == i
}

/// A position of index `i` (the only one in a consistent cache).
pub open spec fn index_pos<KV, VV>(s: Seq<SlotModel<KV, VV>>, i: u64) -> int {
    choose|p: int| 0 <= p < s.len() && (#[trigger] s[p]).index == i
}

/// Access to the slot at `p`: it moves to the most recent end and its counter grows.
pub open spec fn touch<KV, VV>(s: Seq<SlotModel<KV, VV>>, p: int) -> Seq<SlotModel<KV, VV>> {
    s.remove(p).push(SlotModel { count: bump(s[p].count), ..s[p] })
}

/// `a` is a better eviction candidate than `b` under the frequency policy.
pub open spec fn fewer_uses<KV, VV>(a: SlotModel<KV, VV>, b: SlotModel<KV, VV>) -> bool {
    a.count < b.count || (a.count == b.count && a.index < b.index)
}

/// Position of the least used slot; among equal counts the oldest insertion.
pub open spec fn least_used<KV, VV>(s: Seq<SlotModel<KV, VV>>) -> int
    decreases s.len(),
{
    if s.len() <= 1 {
        0
    } else {
        let p = least_used(s.drop_last());
        if fewer_uses(s.last(), s[p]) {
            s.len() - 1
        } else {
            p
        }
    }
}

/// Position of the slot that an overflow evicts.
pub open spec fn victim<KV, VV>(s: Seq<SlotModel<KV, VV>>, policy: Policy) -> int {
    match policy {
        Policy::Recency => 0,
        Policy::Frequency => least_used(s),
    }
}

/// Slots that remain when a new key arrives: one is evicted if the cache is full.
pub open spec fn room_for_one<KV, VV>(c: CacheView<KV, VV>) -> Seq<SlotModel<KV, VV>> {
    if c.slots.len() >= c.capacity {
        c.slots.remove(victim(c.slots, c.policy))
    } else {
        c.slots
    }
}

/// The state after `put(k, v)`.
pub open spec fn put_spec<KV, VV>(c: CacheView<KV, VV>, k: KV, v: VV) -> CacheView<KV, VV> {
    if has_key(c.slots, k) {
        let p = key_pos(c.slots, k);
        CacheView {
            slots: c.slots.remove(p).push(SlotModel { value: v, count: bump(c.slots[p].count), ..c.slots[p] }),
            ..c
        }
    } else {
        CacheView {
            slots: room_for_one(c).push(SlotModel { key: k, value: v, index: c.next_index, count: 1 }),
            next_index: (c.next_index + 1) as u64,
            ..c
        }
    }
}

/// The state after a lookup of `k`: a hit refreshes the key's standing.
pub open spec fn lookup_spec<KV, VV>(c: CacheView<KV, VV>, k: KV) -> CacheView<KV, VV> {
    if has_key(c.slots, k) {
        CacheView { slots: touch(c.slots, key_pos(c.slots, k)), ..c }
    } else {
        c
    }
}

/// The state after resolving index `i`: a hit refreshes the owner's standing.
pub open spec fn resolve_spec<KV, VV>(c: CacheView<KV, VV>, i: u64) -> CacheView<KV, VV> {
    if has_index(c.slots, i) {
        CacheView { slots: touch(c.slots, index_pos(c.slots, i)), ..c }
    } else {
        c
    }
}

/// What a lookup of `k` answers: the index it owns, if resident.
pub open spec fn index_of_spec<KV, VV>(c: CacheView<KV, VV>, k: KV) -> Option<u64> {
    if has_key(c.slots, k) {
        Some(c.slots[key_pos(c.slots, k)].index)
    } else {
        None
    }
}

/// Consistency of a slot sequence: distinct keys, distinct indices below
/// `next`, counters at least one.
pub open spec fn slots_wf<KV, VV>(s: Seq<SlotModel<KV, VV>>, next: u64) -> bool {
    &&& forall|i: int, j: int| 0 <= i < s.len() && 0 <= j < s.len() && i != j ==> (#[trigger] s[i]).key != (#[trigger] s[j]).key
    &&& forall|i: int, j: int| 0 <= i < s.len() && 0 <= j < s.len() && i != j ==> (#[trigger] s[i]).index != (#[trigger] s[j]).index
    &&& forall|i: int| 0 <= i < s.len() ==> (#[trigger] s[i]).index < next && s[i].count >= 1
}

/// A consistent cache state: positive capacity, not exceeded, consistent slots.
pub open spec fn view_wf<KV, VV>(c: CacheView<KV, VV>) -> bool {
    &&& c.capacity > 0
    &&& c.slots.len() <= c.capacity
    &&& slots_wf(c.slots, c.next_index)
}

/// One resident key of a snapshot.
#[derive(Clone, Debug, PartialEq, Eq)]
pub struct SnapshotEntry<K, V> {
    pub key: K,
    pub value: V,
    pub index: u64,
}

/// The complete state of a cache in transferable form: capacity, policy,
/// the resident keys in recency order (least recent first), the access
/// counter of each of them, and the next index to hand out.
#[derive(Clone, Debug, PartialEq, Eq)]
pub struct CacheSnapshot<K, V> {
    pub capacity: usize,
    pub policy: Policy,
    pub entries: Vec<SnapshotEntry<K, V>>,
    pub counters: Vec<u64>,
    pub next_index: u64,
}

/// The slots that a snapshot describes (its counters taken as given).
pub open spec fn snapshot_slots<K: Key, V: Value>(s: CacheSnapshot<K, V>) -> Seq<SlotModel<K::V, V::V>> {
    Seq::new(s.entries@.len(), |i: int| SlotModel {
        key: s.entries@[i].key@,
        value: s.entries@[i].value@,
        index: s.entries@[i].index,
        count: s.counters@[i],
    })
}

/// The cache state that a snapshot describes.
pub open spec fn snapshot_view<K: Key, V: Value>(s: CacheSnapshot<K, V>) -> CacheView<K::V, V::V> {
    CacheView { capacity: s.capacity as nat, policy: s.policy, slots: snapshot_slots(s), next_index: s.next_index }
}

/// A snapshot is complete when it has one counter per entry and describes a
/// consistent cache.
pub open spec fn snapshot_complete<K: Key, V: Value>(s: CacheSnapshot<K, V>) -> bool {
    s.counters@.len() == s.entries@.len() && view_wf(snapshot_view(s))
}

/// A capacity-bounded dictionary from keys to stable indices.
pub struct CacheModel<K, V> {
    capacity: usize,
    policy: Policy,
    slots: Vec<Slot<K, V>>,
    next_index: u64,
    clock: Ghost<nat>,
}

impl<K: Key, V: Value> View for CacheModel<K, V> {
    type V = CacheView<K::V, V::V>;

    closed spec fn view(&self) -> CacheView<K::V, V::V> {
        CacheView {
            capacity: self.capacity as nat,
            policy: self.policy,
            slots: self.slots@.map_values(|s: Slot<K, V>| s.model()),
            next_index: self.next_index,
        }
    }
}

impl<K: Key, V: Value> CacheModel<K, V> {
    /// Last-access times of the slots, in slot order.
    pub closed spec fn stamps(&self) -> Seq<nat> {
        self.slots@.map_values(|s: Slot<K, V>| s.stamp@)
    }

    /// The logical time of the next access.
    pub closed spec fn clock(&self) -> nat {
        self.clock@
    }

    /// Well-formedness: a consistent state, last-access times increasing in
    /// slot order and all before the clock.
    pub closed spec fn wf(&self) -> bool {
        &&& view_wf(self@)
        &&& forall|i: int, j: int| 0 <= i < j < self.slots@.len() ==> (#[trigger] self.slots@[i]).stamp@ < (#[trigger] self.slots@[j]).stamp@
        &&& forall|i: int| 0 <= i < self.slots@.len() ==> (#[trigger] self.slots@[i]).stamp@ < self.clock@
    }

    /// What a well-formed cache guarantees: a consistent state, and last-access
    /// times that grow from the front of the slots to the back.
    pub proof fn lemma_wf(&self)
        requires
            self.wf(),
        ensures
            view_wf(self@),
            self.stamps().len() == self@.slots.len(),
            forall|i: int, j: int| 0 <= i < j < self.stamps().len() ==> self.stamps()[i] < self.stamps()[j],
            forall|i: int| 0 <= i < self.stamps().len() ==> self.stamps()[i] < self.clock(),
    {
    }

    /// A new empty cache.
    pub fn new(capacity: usize, policy: Policy) -> (r: Self)
        requires
            capacity > 0,
        ensures
            r.wf(),
            r@ == (CacheView::<K::V, V::V> { capacity: capacity as nat, policy, slots: Seq::empty(), next_index: 0 }),
    {
        let r = CacheModel { capacity, policy, slots: Vec::new(), next_index: 0, clock: Ghost(0) };
        assert(r@.slots =~= Seq::<SlotModel<K::V, V::V>>::empty());
        r
    }

    /// A new empty cache; `use_lfu` selects the frequency policy.
    pub fn with(capacity: usize, use_lfu: bool) -> (r: Self)
        requires
            capacity > 0,
        ensures
            r.wf(),
            r@ == (CacheView::<K::V, V::V> {
                capacity: capacity as nat,
                policy: if use_lfu { Policy::Frequency } else { Policy::Recency },
                slots: Seq::empty(),
                next_index: 0,
            }),
    {
        let policy = if use_lfu { Policy::Frequency } else { Policy::Recency };
        Self::new(capacity, policy)
    }

    pub fn capacity(&self) -> (r: usize)
        ensures
            r == self@.capacity,
    {
        self.capacity
    }

    pub fn policy(&self) -> (r: Policy)
        ensures
            r == self@.policy,
    {
        self.policy
    }

    /// The index that the next new key will own.
    pub fn next_index(&self) -> (r: u64)
        ensures
            r == self@.next_index,
    {
        self.next_index
    }

    /// Number of resident keys.
    pub fn len(&self) -> (r: usize)
        ensures
            r == self@.slots.len(),
    {
        self.slots.len()
    }

    proof fn lemma_key_pos(&self, p: int)
        requires
            self.wf(),
            0 <= p < self@.slots.len(),
        ensures
            has_key(self@.slots, self@.slots[p].key),
            key_pos(self@.slots, self@.slots[p].key) == p,
    {
        let s = self@.slots;
        let k = s[p].key;
        assert(has_key(s, k));
        let q = key_pos(s, k);
        assert(s[q].key == k);
    }

    proof fn lemma_index_pos(&self, p: int)
        requires
            self.wf(),
            0 <= p < self@.slots.len(),
        ensures
            has_index(self@.slots, self@.slots[p].index),
            index_pos(self@.slots, self@.slots[p].index) == p,
    {
        let s = self@.slots;
        let i = s[p].index;
        assert(has_index(s, i));
        let q = index_pos(s, i);
        assert(s[q].index == i);
    }

    /// Moves the slot at `p` to the most recent end and counts the access.
    fn touch_at(&mut self, p: usize)
        requires
            old(self).wf(),
            p < old(self)@.slots.len(),
        ensures
            final(self).wf(),
            final(self)@ == (CacheView { slots: touch(old(self)@.slots, p as int), ..old(self)@ }),
            final(self).clock() == old(self).clock() + 1,
            final(self).stamps() == old(self).stamps().remove(p as int).push(old(self).clock()),
    {
        let ghost old_slots = self.slots@;
        let ghost now = self.clock@;
        proof {
            lemma_touch_wf(self@.slots, p as int, self.next_index);
        }
        let mut s = self.slots.remove(p);
        if s.count < u64::MAX {
            s.count = s.count + 1;
        }
        s.stamp = Ghost(now);
        self.slots.push(s);
        self.clock = Ghost(now + 1);
        proof {
            let n = old_slots.len();
            assert forall|i: int| 0 <= i < n - 1 implies #[trigger] self.slots@[i] == old_slots[if i < p { i } else { i + 1 }] by {}
            assert(self@.slots =~= touch(old(self)@.slots, p as int));
            assert(self.stamps() =~= old(self).stamps().remove(p as int).push(now));
            assert forall|i: int, j: int| 0 <= i < j < self.slots@.len() implies
                (#[trigger] self.slots@[i]).stamp@ < (#[trigger] self.slots@[j]).stamp@ by {
                let a = if i < p { i } else { i + 1 };
                if j < n - 1 {
                    let b = if j < p { j } else { j + 1 };
                    assert(old_slots[a].stamp@ < old_slots[b].stamp@);
                } else {
                    assert(old_slots[a].stamp@ < now);
                }
            }
            assert forall|i: int| 0 <= i < self.slots@.len() implies (#[trigger] self.slots@[i]).stamp@ < self.clock@ by {
                if i < n - 1 {
                    let a = if i < p { i } else { i + 1 };
                    assert(old_slots[a].stamp@ < now);
                }
            }
        }
    }

    /// The index owned by `key`, if resident; a hit refreshes the key's
    /// recency and counts as one access.
    pub fn index_of(&mut self, key: &K) -> (r: Option<u64>)
        requires
            old(self).wf(),
        ensures
            final(self).wf(),
            r == index_of_spec(old(self)@, key@),
            final(self)@ == lookup_spec(old(self)@, key@),
            final(self).stamps() == if has_key(old(self)@.slots, key@) {
                old(self).stamps().remove(key_pos(old(self)@.slots, key@)).push(old(self).clock())
            } else {
                old(self).stamps()
            },
            final(self).clock() == old(self).clock() + if has_key(old(self)@.slots, key@) { 1int } else { 0int },
    {
        match self.find_key(key) {
            Some(p) => {
                let i = self.slots[p].index;
                self.touch_at(p);
                Some(i)
            },
            None => None,
        }
    }

    /// The value stored under `key`, if resident; a hit counts as an access.
    pub fn get(&mut self, key: &K) -> (r: Option<V>)
        requires
            old(self).wf(),
        ensures
            final(self).wf(),
            final(self)@ == lookup_spec(old(self)@, key@),
            final(self).stamps() == if has_key(old(self)@.slots, key@) {
                old(self).stamps().remove(key_pos(old(self)@.slots, key@)).push(old(self).clock())
            } else {
                old(self).stamps()
            },
            final(self).clock() == old(self).clock() + if has_key(old(self)@.slots, key@) { 1int } else { 0int },
            match r {
                Some(v) => has_key(old(self)@.slots, key@) && v@ == old(self)@.slots[key_pos(old(self)@.slots, key@)].value,
                None => !has_key(old(self)@.slots, key@),
            },
    {
        match self.find_key(key) {
            Some(p) => {
                let v = self.slots[p].value.copy_value();
                self.touch_at(p);
                Some(v)
            },
            None => None,
        }
    }

    /// The key and value that own `index`; an index that no resident key
    /// owns fails with `IndexInvalid`. A hit counts as an access.
    pub fn entry_at(&mut self, index: u64) -> (r: Result<(K, V), CacheError>)
        requires
            old(self).wf(),
        ensures
            final(self).wf(),
            final(self)@ == resolve_spec(old(self)@, index),
            final(self).stamps() == if has_index(old(self)@.slots, index) {
                old(self).stamps().remove(index_pos(old(self)@.slots, index)).push(old(self).clock())
            } else {
                old(self).stamps()
            },
            final(self).clock() == old(self).clock() + if has_index(old(self)@.slots, index) { 1int } else { 0int },
            match r {
                Ok((k, v)) => has_index(old(self)@.slots, index)
                    && k@ == old(self)@.slots[index_pos(old(self)@.slots, index)].key
                    && v@ == old(self)@.slots[index_pos(old(self)@.slots, index)].value,
                Err(e) => !has_index(old(self)@.slots, index) && e == CacheError::IndexInvalid,
            },
    {
        match self.find_index(index) {
            Some(p) => {
                let k = self.slots[p].key.copy_key();
                let v = self.slots[p].value.copy_value();
                self.touch_at(p);
                Ok((k, v))
            },
            None => Err(CacheError::IndexInvalid),
        }
    }

    /// Position of the slot that an overflow evicts under the cache's policy.
    fn victim_pos(&self) -> (r: usize)
        requires
            self.wf(),
            self@.slots.len() >= 1,
        ensures
            r == victim(self@.slots, self@.policy),
            r < self@.slots.len(),
    {
        match self.policy {
            Policy::Recency => 0,
            Policy::Frequency => {
                let ghost s = self@.slots;
                let mut best: usize = 0;
                let mut i: usize = 1;
                assert(s.subrange(0, 1).len() == 1);
                while i < self.slots.len()
                    invariant
                        self.wf(),
                        s == self@.slots,
                        1 <= i <= s.len(),
                        best < i,
                        best == least_used(s.subrange(0, i as int)),
                    decreases s.len() - i,
                {
                    proof {
                        assert(s.subrange(0, i + 1).drop_last() =~= s.subrange(0, i as int));
                        assert(s.subrange(0, i + 1).last() == s[i as int]);
                        assert(s.subrange(0, i + 1)[best as int] == s[best as int]);
                    }
                    let a = &self.slots[i];
                    let b = &self.slots[best];
                    if a.count < b.count || (a.count == b.count && a.index < b.index) {
                        best = i;
                    }
                    i = i + 1;
                }
                assert(s.subrange(0, s.len() as int) =~= s);
                best
            },
        }
    }

    /// Associates `key` with `value`. A resident key keeps its index and has
    /// its standing refreshed; a new key gets the next index, after one key
    /// is evicted by the policy if the cache is full.
    pub fn put(&mut self, key: K, value: V)
        requires
            old(self).wf(),
            old(self)@.next_index < u64::MAX,
        ensures
            final(self).wf(),
            final(self)@ == put_spec(old(self)@, key@, value@),
            final(self).clock() == old(self).clock() + 1,
            final(self).stamps() == if has_key(old(self)@.slots, key@) {
                old(self).stamps().remove(key_pos(old(self)@.slots, key@)).push(old(self).clock())
            } else if old(self)@.slots.len() >= old(self)@.capacity {
                old(self).stamps().remove(victim(old(self)@.slots, old(self)@.policy)).push(old(self).clock())
            } else {
                old(self).stamps().push(old(self).clock())
            },
    {
        match self.find_key(&key) {
            Some(p) => {
                self.touch_at(p);
                let last = self.slots.len() - 1;
                let ghost mid = self.slots@;
                let mut s = self.slots.pop().unwrap();
                s.value = value;
                self.slots.push(s);
                proof {
                    assert(self.slots@ =~= mid.drop_last().push(self.slots@[last as int]));
                    let t = touch(old(self)@.slots, p as int);
                    let u = put_spec(old(self)@, key@, value@).slots;
                    assert(t.len() == u.len());
                    assert forall|i: int| 0 <= i < last implies #[trigger] self@.slots[i] == u[i] by {
                        assert(self@.slots[i] == self.slots@[i].model());
                        assert(self.slots@[i] == mid[i]);
                        assert(mid[i].model() == t[i]);
                    }
                    assert(mid[last as int].model() == t[last as int]);
                    assert(self@.slots[last as int] == u[last as int]);
                    assert(self@.slots =~= u);
                    assert(self.stamps() =~= old(self).stamps().remove(p as int).push(old(self).clock()));
                    assert forall|i: int| 0 <= i < self.slots@.len() implies
                        #[trigger] self.slots@[i].stamp@ == mid[i].stamp@ by {}
                }
            },
            None => {
                let ghost s0 = self.slots@;
                let ghost now = self.clock@;
                proof {
                    lemma_insert_wf(self@, key@, value@);
                }
                let ghost mut q: int = -1;
                if self.slots.len() >= self.capacity {
                    let v = self.victim_pos();
                    proof { q = v as int; }
                    self.slots.remove(v);
                }
                let idx = self.next_index;
                self.slots.push(Slot { key, value, index: idx, count: 1, stamp: Ghost(now) });
                self.next_index = idx + 1;
                self.clock = Ghost(now + 1);
                proof {
                    let n = self.slots@.len();
                    if q >= 0 {
                        assert forall|i: int| 0 <= i < n - 1 implies #[trigger] self.slots@[i] == s0[if i < q { i } else { i + 1 }] by {}
                    } else {
                        assert forall|i: int| 0 <= i < n - 1 implies #[trigger] self.slots@[i] == s0[i] by {}
                    }
                    let r = room_for_one(old(self)@);
                    if q >= 0 {
                        assert(q == victim(old(self)@.slots, old(self)@.policy));
                        assert(r == old(self)@.slots.remove(q));
                    } else {
                        assert(r == old(self)@.slots);
                    }
                    assert(r.len() == n - 1);
                    assert forall|i: int| 0 <= i < n - 1 implies #[trigger] self@.slots[i] == r[i] by {
                        assert(self@.slots[i] == self.slots@[i].model());
                    }
                    assert(self@.slots =~= put_spec(old(self)@, key@, value@).slots);
                    if q >= 0 {
                        assert(self.stamps() =~= old(self).stamps().remove(q).push(now));
                    } else {
                        assert(self.stamps() =~= old(self).stamps().push(now));
                    }
                    assert forall|i: int, j: int| 0 <= i < j < n implies
                        (#[trigger] self.slots@[i]).stamp@ < (#[trigger] self.slots@[j]).stamp@ by {
                        let a = if q >= 0 && i >= q { i + 1 } else { i };
                        if j < n - 1 {
                            let b = if q >= 0 && j >= q { j + 1 } else { j };
                            assert(s0[a].stamp@ < s0[b].stamp@);
                        } else {
                            assert(s0[a].stamp@ < now);
                        }
                    }
                    assert forall|i: int| 0 <= i < n implies (#[trigger] self.slots@[i]).stamp@ < self.clock@ by {
                        if i < n - 1 {
                            let a = if q >= 0 && i >= q { i + 1 } else { i };
                            assert(s0[a].stamp@ < now);
                        }
                    }
                }
            },
        }
    }

    /// A copy of the cache, in the same state.
    pub fn duplicate(&self) -> (r: Self)
        requires
            self.wf(),
        ensures
            r.wf(),
            r@ == self@,
    {
        let mut slots: Vec<Slot<K, V>> = Vec::new();
        let mut i: usize = 0;
        while i < self.slots.len()
            invariant
                self.wf(),
                0 <= i <= self.slots@.len(),
                slots@.len() == i,
                forall|j: int| 0 <= j < i ==> (#[trigger] slots@[j]).model() == self.slots@[j].model() && slots@[j].stamp@ == self.slots@[j].stamp@,
            decreases self.slots@.len() - i,
        {
            let s = &self.slots[i];
            slots.push(Slot { key: s.key.copy_key(), value: s.value.copy_value(), index: s.index, count: s.count, stamp: Ghost(s.stamp@) });
            i = i + 1;
        }
        let r = CacheModel { capacity: self.capacity, policy: self.policy, slots, next_index: self.next_index, clock: Ghost(self.clock@) };
        assert(r@.slots =~= self@.slots);
        r
    }

    /// The cache's complete state in transferable form.
    pub fn snapshot(&self) -> (s: CacheSnapshot<K, V>)
        requires
            self.wf(),
        ensures
            snapshot_complete(s),
            snapshot_view(s) == self@,
    {
        let mut entries: Vec<SnapshotEntry<K, V>> = Vec::new();
        let mut counters: Vec<u64> = Vec::new();
        let mut i: usize = 0;
        while i < self.slots.len()
            invariant
                self.wf(),
                0 <= i <= self.slots@.len(),
                entries@.len() == i,
                counters@.len() == i,
                forall|j: int| 0 <= j < i ==> (#[trigger] entries@[j]).key@ == self@.slots[j].key
                    && entries@[j].value@ == self@.slots[j].value && entries@[j].index == self@.slots[j].index
                    && counters@[j] == self@.slots[j].count,
            decreases self.slots@.len() - i,
        {
            let s = &self.slots[i];
            entries.push(SnapshotEntry { key: s.key.copy_key(), value: s.value.copy_value(), index: s.index });
            counters.push(s.count);
            i = i + 1;
        }
        let snap = CacheSnapshot { capacity: self.capacity, policy: self.policy, entries, counters, next_index: self.next_index };
        assert(snapshot_slots(snap) =~= self@.slots);
        snap
    }

    /// A cache in the state that `s` describes; a snapshot that lacks a
    /// counter or describes no consistent cache fails with `ResyncIncomplete`.
    pub fn from_snapshot(s: CacheSnapshot<K, V>) -> (r: Result<Self, CacheError>)
        ensures
            match r {
                Ok(c) => snapshot_complete(s) && c.wf() && c@ == snapshot_view(s),
                Err(e) => !snapshot_complete(s) && e == CacheError::ResyncIncomplete,
            },
    {
        let ghost sv = snapshot_view(s);
        if s.counters.len() != s.entries.len() || s.capacity == 0 || s.entries.len() > s.capacity {
            return Err(CacheError::ResyncIncomplete);
        }
        let n = s.entries.len();
        let mut i: usize = 0;
        while i < n
            invariant
                n == s.entries@.len(),
                s.counters@.len() == n,
                0 <= i <= n,
                sv == snapshot_view(s),
                forall|a: int, b: int| 0 <= a < i && 0 <= b < n && a != b ==> (#[trigger] sv.slots[a]).key != (#[trigger] sv.slots[b]).key
                    && sv.slots[a].index != sv.slots[b].index,
                forall|a: int| 0 <= a < i ==> (#[trigger] sv.slots[a]).index < sv.next_index && sv.slots[a].count >= 1,
            decreases n - i,
        {
            if s.entries[i].index >= s.next_index || s.counters[i] == 0 {
                assert(sv.slots[i as int].index >= sv.next_index || sv.slots[i as int].count == 0);
                return Err(CacheError::ResyncIncomplete);
            }
            let mut j: usize = 0;
            while j < n
                invariant
                    n == s.entries@.len(),
                    s.counters@.len() == n,
                    0 <= i < n,
                    0 <= j <= n,
                    sv == snapshot_view(s),
                    forall|b: int| 0 <= b < j && b != i ==> sv.slots[i as int].key != (#[trigger] sv.slots[b]).key
                        && sv.slots[i as int].index != sv.slots[b].index,
                decreases n - j,
            {
                if j != i && (s.entries[i].index == s.entries[j].index || s.entries[i].key.same(&s.entries[j].key)) {
                    assert(sv.slots[i as int].index == sv.slots[j as int].index || sv.slots[i as int].key == sv.slots[j as int].key);
                    return Err(CacheError::ResyncIncomplete);
                }
                assert(j != i ==> sv.slots[i as int].key != sv.slots[j as int].key && sv.slots[i as int].index != sv.slots[j as int].index);
                j = j + 1;
            }
            i = i + 1;
        }
        let CacheSnapshot { capacity, policy, entries, counters, next_index } = s;
        let mut slots: Vec<Slot<K, V>> = Vec::new();
        let mut entries = entries;
        let mut k: usize = 0;
        while k < n
            invariant
                n == s.entries@.len(),
                counters@ == s.counters@,
                counters@.len() == n,
                0 <= k <= n,
                entries@ == s.entries@.subrange(k as int, n as int),
                slots@.len() == k,
                sv == snapshot_view(s),
                forall|j: int| 0 <= j < k ==> (#[trigger] slots@[j]).model() == sv.slots[j] && slots@[j].stamp@ == j,
            decreases n - k,
        {
            assert(entries@[0] == s.entries@[k as int]);
            let e = entries.remove(0);
            assert(entries@ =~= s.entries@.subrange(k + 1, n as int));
            let count = counters[k];
            slots.push(Slot { key: e.key, value: e.value, index: e.index, count, stamp: Ghost(k as nat) });
            k = k + 1;
        }
        let c = CacheModel { capacity, policy, slots, next_index, clock: Ghost(n as nat) };
        assert(c@.slots =~= sv.slots);
        Ok(c)
    }

    /// Position of `key` among the slots.
    fn find_key(&self, key: &K) -> (r: Option<usize>)
        requires
            self.wf(),
        ensures
            match r {
                Some(p) => p < self@.slots.len() && has_key(self@.slots, key@) && key_pos(self@.slots, key@) == p,
                None => !has_key(self@.slots, key@),
            },
    {
        let mut i: usize = 0;
        while i < self.slots.len()
            invariant
                self.wf(),
                0 <= i <= self@.slots.len(),
                forall|j: int| 0 <= j < i ==> (#[trigger] self@.slots[j]).key != key@,
            decreases self@.slots.len() - i,
        {
            if self.slots[i].key.same(key) {
                proof {
                    assert(self@.slots[i as int].key == key@);
                    self.lemma_key_pos(i as int);
                }
                return Some(i);
            }
            assert(self@.slots[i as int].key != key@);
            i = i + 1;
        }
        None
    }

    /// Position of the slot that owns `index`.
    fn find_index(&self, index: u64) -> (r: Option<usize>)
        requires
            self.wf(),
        ensures
            match r {
                Some(p) => p < self@.slots.len() && has_index(self@.slots, index) && index_pos(self@.slots, index) == p,
                None => !has_index(self@.slots, index),
            },
    {
        let mut i: usize = 0;
        while i < self.slots.len()
            invariant
                self.wf(),
                0 <= i <= self@.slots.len(),
                forall|j: int| 0 <= j < i ==> (#[trigger] self@.slots[j]).index != index,
            decreases self@.slots.len() - i,
        {
            if self.slots[i].index == index {
                proof {
                    assert(self@.slots[i as int].index == index);
                    self.lemma_index_pos(i as int);
                }
                return Some(i);
            }
            assert(self@.slots[i as int].index != index);
            i = i + 1;
        }
        None
    }
}


/// After an access at `p`, the slot sequence stays consistent.
proof fn lemma_touch_wf<KV, VV>(s: Seq<SlotModel<KV, VV>>, p: int, next: u64)
    requires
        slots_wf(s, next),
        0 <= p < s.len(),
    ensures
        slots_wf(touch(s, p), next),
        touch(s, p).len() == s.len(),
{
    let t = touch(s, p);
    let r = s.remove(p);
    assert forall|i: int| 0 <= i < r.len() implies r[i] == s[if i < p { i } else { i + 1 }] by {}
    assert forall|i: int, j: int| 0 <= i < t.len() && 0 <= j < t.len() && i != j implies
        (#[trigger] t[i]).key != (#[trigger] t[j]).key && t[i].index != t[j].index by {
        let a = if i == t.len() - 1 { p } else if i < p { i } else { i + 1 };
        let b = if j == t.len() - 1 { p } else if j < p { j } else { j + 1 };
        assert(t[i].key == s[a].key && t[i].index == s[a].index);
        assert(t[j].key == s[b].key && t[j].index == s[b].index);
    }
    assert forall|i: int| 0 <= i < t.len() implies (#[trigger] t[i]).index < next && t[i].count >= 1 by {
        let a = if i == t.len() - 1 { p } else if i < p { i } else { i + 1 };
        assert(t[i].index == s[a].index);
    }
}

/// The least used position is a position of the sequence.
pub proof fn lemma_least_used_bounds<KV, VV>(s: Seq<SlotModel<KV, VV>>)
    requires
        s.len() >= 1,
    ensures
        0 <= least_used(s) < s.len(),
    decreases s.len(),
{
    if s.len() > 1 {
        lemma_least_used_bounds(s.drop_last());
    }
}

/// No slot has fewer uses than the least used one, nor as many with an older insertion.
pub proof fn lemma_least_used_minimal<KV, VV>(s: Seq<SlotModel<KV, VV>>)
    requires
        s.len() >= 1,
    ensures
        forall|j: int| 0 <= j < s.len() ==> !fewer_uses(#[trigger] s[j], s[least_used(s)]),
    decreases s.len(),
{
    lemma_least_used_bounds(s);
    if s.len() > 1 {
        let t = s.drop_last();
        lemma_least_used_minimal(t);
        lemma_least_used_bounds(t);
        assert forall|j: int| 0 <= j < s.len() implies !fewer_uses(#[trigger] s[j], s[least_used(s)]) by {
            if j < s.len() - 1 {
                assert(t[j] == s[j]);
            }
        }
    }
}

/// Removing one slot and adding a new key keeps the slots consistent.
proof fn lemma_insert_wf<KV, VV>(c: CacheView<KV, VV>, k: KV, v: VV)
    requires
        view_wf(c),
        !has_key(c.slots, k),
        c.next_index < u64::MAX,
    ensures
        view_wf(put_spec(c, k, v)),
{
    let s = c.slots;
    let r = room_for_one(c);
    let t = put_spec(c, k, v).slots;
    if s.len() >= c.capacity {
        let q = victim(s, c.policy);
        if c.policy == Policy::Frequency {
            lemma_least_used_bounds(s);
        }
        assert forall|i: int| 0 <= i < r.len() implies r[i] == s[if i < q { i } else { i + 1 }] by {}
        assert forall|i: int, j: int| 0 <= i < t.len() && 0 <= j < t.len() && i != j implies
            (#[trigger] t[i]).key != (#[trigger] t[j]).key && t[i].index != t[j].index by {
            if i < t.len() - 1 && j < t.len() - 1 {
                let a = if i < q { i } else { i + 1 };
                let b = if j < q { j } else { j + 1 };
                assert(t[i] == s[a] && t[j] == s[b]);
            } else if i < t.len() - 1 {
                let a = if i < q { i } else { i + 1 };
                assert(t[i] == s[a]);
            } else {
                let b = if j < q { j } else { j + 1 };
                assert(t[j] == s[b]);
            }
        }
        assert forall|i: int| 0 <= i < t.len() implies (#[trigger] t[i]).index < c.next_index + 1 && t[i].count >= 1 by {
            if i < t.len() - 1 {
                let a = if i < q { i } else { i + 1 };
                assert(t[i] == s[a]);
            }
        }
    } else {
        assert forall|i: int, j: int| 0 <= i < t.len() && 0 <= j < t.len() && i != j implies
            (#[trigger] t[i]).key != (#[trigger] t[j]).key && t[i].index != t[j].index by {
            if i < t.len() - 1 {
                assert(t[i] == s[i]);
            }
            if j < t.len() - 1 {
                assert(t[j] == s[j]);
            }
        }
        assert forall|i: int| 0 <= i < t.len() implies (#[trigger] t[i]).index < c.next_index + 1 && t[i].count >= 1 by {
            if i < t.len() - 1 {
                assert(t[i] == s[i]);
            }
        }
    }
}

/// The key that owns index `i`, if any resident key does.
pub open spec fn owner<KV, VV>(c: CacheView<KV, VV>, i: u64) -> Option<KV> {
    if has_index(c.slots, i) {
        Some(c.slots[index_pos(c.slots, i)].key)
    } else {
        None
    }
}

proof fn lemma_owner_at<KV, VV>(c: CacheView<KV, VV>, p: int)
    requires
        view_wf(c),
        0 <= p < c.slots.len(),
    ensures
        owner(c, c.slots[p].index) == Some(c.slots[p].key),
{
    let i = c.slots[p].index;
    assert(has_index(c.slots, i));
    let q = index_pos(c.slots, i);
    assert(c.slots[q].index == i);
}

/// An index that a lookup hands out resolves to the key that was looked up.
pub proof fn lemma_index_resolves_to_key<KV, VV>(c: CacheView<KV, VV>, k: KV)
    requires
        view_wf(c),
    ensures
        index_of_spec(c, k) matches Some(i) ==> owner(c, i) == Some(k),
{
    if has_key(c.slots, k) {
        let p = key_pos(c.slots, k);
        lemma_owner_at(c, p);
    }
}

/// Every slot of `t` but the one at `fresh` is a slot of `s`, with the same key and index.
pub open spec fn slots_from<KV, VV>(t: Seq<SlotModel<KV, VV>>, s: Seq<SlotModel<KV, VV>>, fresh: int) -> bool {
    forall|j: int| 0 <= j < t.len() && j != fresh ==>
        exists|a: int| 0 <= a < s.len() && (#[trigger] t[j]).key == s[a].key && t[j].index == s[a].index
}

proof fn lemma_owner_from<KV, VV>(c: CacheView<KV, VV>, d: CacheView<KV, VV>, fresh: int, i: u64)
    requires
        view_wf(c),
        view_wf(d),
        slots_from(d.slots, c.slots, fresh),
        has_index(d.slots, i),
        index_pos(d.slots, i) != fresh,
    ensures
        owner(d, i) == owner(c, i),
{
    let j = index_pos(d.slots, i);
    assert(d.slots[j].index == i);
    let a = choose|a: int| 0 <= a < c.slots.len() && d.slots[j].key == c.slots[a].key && d.slots[j].index == c.slots[a].index;
    lemma_owner_at(c, a);
}

/// Stability of indices under `put`: an index that resolves after the call
/// resolved to the same key before, or is the index just handed to the new
/// key; an index that no key owns, below the next index, stays unowned.
pub proof fn lemma_put_keeps_owners<KV, VV>(c: CacheView<KV, VV>, k: KV, v: VV, i: u64)
    requires
        view_wf(c),
        c.next_index < u64::MAX,
    ensures
        put_spec(c, k, v).next_index >= c.next_index,
        owner(put_spec(c, k, v), i) matches Some(x) ==> owner(c, i) == Some(x) || (i == c.next_index && x == k && !has_key(c.slots, k)),
        owner(c, i) is None && i < c.next_index ==> owner(put_spec(c, k, v), i) is None,
{
    let d = put_spec(c, k, v);
    let s = c.slots;
    let t = d.slots;
    let n = t.len();
    if has_key(s, k) {
        let p = key_pos(s, k);
        lemma_touch_wf(s, p, c.next_index);
        assert(view_wf(d));
        assert forall|j: int| 0 <= j < t.len() && j != -1 implies
            exists|a: int| 0 <= a < s.len() && (#[trigger] t[j]).key == s[a].key && t[j].index == s[a].index by {
            let a = if j == n - 1 { p } else if j < p { j } else { j + 1 };
            assert(t[j].key == s[a].key && t[j].index == s[a].index);
        }
        if has_index(t, i) {
            lemma_owner_from(c, d, -1, i);
        }
    } else {
        lemma_insert_wf(c, k, v);
        let q = if s.len() >= c.capacity { victim(s, c.policy) } else { s.len() as int };
        if s.len() >= c.capacity && c.policy == Policy::Frequency {
            lemma_least_used_bounds(s);
        }
        assert forall|j: int| 0 <= j < t.len() && j != n - 1 implies
            exists|a: int| 0 <= a < s.len() && (#[trigger] t[j]).key == s[a].key && t[j].index == s[a].index by {
            let a = if j < q { j } else { j + 1 };
            assert(t[j].key == s[a].key && t[j].index == s[a].index);
        }
        if has_index(t, i) {
            if index_pos(t, i) != n - 1 {
                lemma_owner_from(c, d, n - 1, i);
            } else {
                assert(t[n - 1].index == c.next_index);
            }
        }
    }
}

/// Lookups by key or by index move no index to another key.
pub proof fn lemma_lookup_keeps_owners<KV, VV>(c: CacheView<KV, VV>, k: KV, idx: u64, i: u64)
    requires
        view_wf(c),
    ensures
        owner(lookup_spec(c, k), i) == owner(c, i),
        owner(resolve_spec(c, idx), i) == owner(c, i),
{
    lemma_touch_keeps_owners(c, key_pos(c.slots, k), i);
    lemma_touch_keeps_owners(c, index_pos(c.slots, idx), i);
}

proof fn lemma_touch_keeps_owners<KV, VV>(c: CacheView<KV, VV>, p: int, i: u64)
    requires
        view_wf(c),
    ensures
        0 <= p < c.slots.len() ==> owner(CacheView { slots: touch(c.slots, p), ..c }, i) == owner(c, i),
{
    if 0 <= p < c.slots.len() {
        let s = c.slots;
        let d = CacheView { slots: touch(s, p), ..c };
        let t = d.slots;
        let n = t.len();
        lemma_touch_wf(s, p, c.next_index);
        assert forall|j: int| 0 <= j < t.len() && j != -1 implies
            exists|a: int| 0 <= a < s.len() && (#[trigger] t[j]).key == s[a].key && t[j].index == s[a].index by {
            let a = if j == n - 1 { p } else if j < p { j } else { j + 1 };
            assert(t[j].key == s[a].key && t[j].index == s[a].index);
        }
        if has_index(t, i) {
            lemma_owner_from(c, d, -1, i);
        } else if has_index(s, i) {
            let a = index_pos(s, i);
            let j = if a == p { n - 1 } else if a < p { a } else { a - 1 };
            assert(t[j].index == i);
        }
    }
}

/// A full cache under the recency policy evicts, on the arrival of a new
/// key, the resident key whose last access is the oldest; every other
/// resident key stays.
pub proof fn lemma_recency_evicts_least_recent<K: Key, V: Value>(c: CacheModel<K, V>, k: K::V, v: V::V)
    requires
        c.wf(),
        c@.policy == Policy::Recency,
        !has_key(c@.slots, k),
        c@.slots.len() >= c@.capacity,
    ensures
        ({
            let s = c@.slots;
            let after = put_spec(c@, k, v).slots;
            &&& !has_key(after, s[0].key)
            &&& forall|j: int| 0 < j < s.len() ==> c.stamps()[0] < c.stamps()[j] && has_key(after, (#[trigger] s[j]).key)
        }),
{
    c.lemma_wf();
    lemma_evicts_victim(c@, k, v);
}

/// A full cache under the frequency policy evicts, on the arrival of a new
/// key, the resident key with the lowest access count, and among equal
/// counts the one inserted first (indices are handed out in insertion order);
/// every other resident key stays.
pub proof fn lemma_frequency_evicts_least_used<KV, VV>(c: CacheView<KV, VV>, k: KV, v: VV)
    requires
        view_wf(c),
        c.policy == Policy::Frequency,
        !has_key(c.slots, k),
        c.slots.len() >= c.capacity,
    ensures
        ({
            let s = c.slots;
            let e = least_used(s);
            let after = put_spec(c, k, v).slots;
            &&& 0 <= e < s.len()
            &&& !has_key(after, s[e].key)
            &&& forall|j: int| 0 <= j < s.len() && j != e ==> (s[e].count < (#[trigger] s[j]).count
                || (s[e].count == s[j].count && s[e].index < s[j].index)) && has_key(after, s[j].key)
        }),
{
    let s = c.slots;
    lemma_least_used_bounds(s);
    lemma_least_used_minimal(s);
    lemma_evicts_victim(c, k, v);
    let e = least_used(s);
    assert forall|j: int| 0 <= j < s.len() && j != e implies (s[e].count < (#[trigger] s[j]).count
        || (s[e].count == s[j].count && s[e].index < s[j].index)) by {
        assert(!fewer_uses(s[j], s[e]));
        assert(s[j].index != s[e].index);
    }
}

/// On overflow exactly the victim leaves.
proof fn lemma_evicts_victim<KV, VV>(c: CacheView<KV, VV>, k: KV, v: VV)
    requires
        view_wf(c),
        !has_key(c.slots, k),
        c.slots.len() >= c.capacity,
    ensures
        ({
            let s = c.slots;
            let e = victim(s, c.policy);
            let after = put_spec(c, k, v).slots;
            &&& !has_key(after, s[e].key)
            &&& forall|j: int| 0 <= j < s.len() && j != e ==> has_key(after, (#[trigger] s[j]).key)
        }),
{
    let s = c.slots;
    let e = victim(s, c.policy);
    if c.policy == Policy::Frequency {
        lemma_least_used_bounds(s);
    }
    let t = put_spec(c, k, v).slots;
    let n = t.len();
    assert(n == s.len());
    assert forall|j: int| 0 <= j < n implies (#[trigger] t[j]).key != s[e].key by {
        if j < n - 1 {
            let a = if j < e { j } else { j + 1 };
            assert(t[j] == s[a]);
        } else {
            assert(s[e].key != k);
        }
    }
    assert forall|j: int| 0 <= j < s.len() && j != e implies has_key(t, (#[trigger] s[j]).key) by {
        let b = if j < e { j } else { j - 1 };
        assert(t[b] == s[j]);
    }
}

/// `put` keeps the slots consistent.
pub proof fn lemma_put_wf<KV, VV>(c: CacheView<KV, VV>, k: KV, v: VV)
    requires
        view_wf(c),
        c.next_index < u64::MAX,
    ensures
        view_wf(put_spec(c, k, v)),
        put_spec(c, k, v).next_index <= c.next_index + 1,
        put_spec(c, k, v).capacity == c.capacity,
        put_spec(c, k, v).policy == c.policy,
{
    if has_key(c.slots, k) {
        let p = key_pos(c.slots, k);
        lemma_touch_wf(c.slots, p, c.next_index);
        let t = touch(c.slots, p);
        let u = put_spec(c, k, v).slots;
        assert forall|i: int| 0 <= i < u.len() implies (#[trigger] u[i]).key == t[i].key && u[i].index == t[i].index && u[i].count == t[i].count by {}
        assert forall|i: int, j: int| 0 <= i < u.len() && 0 <= j < u.len() && i != j implies
            (#[trigger] u[i]).key != (#[trigger] u[j]).key && u[i].index != u[j].index by {
            assert(t[i].key != t[j].key && t[i].index != t[j].index);
        }
    } else {
        lemma_insert_wf(c, k, v);
    }
}

/// Lookups keep the slots consistent and change nothing but the order and counters.
pub proof fn lemma_lookup_wf<KV, VV>(c: CacheView<KV, VV>, k: KV, i: u64)
    requires
        view_wf(c),
    ensures
        view_wf(lookup_spec(c, k)),
        view_wf(resolve_spec(c, i)),
        lookup_spec(c, k).next_index == c.next_index,
        resolve_spec(c, i).next_index == c.next_index,
{
    if has_key(c.slots, k) {
        lemma_touch_wf(c.slots, key_pos(c.slots, k), c.next_index);
    }
    if has_index(c.slots, i) {
        lemma_touch_wf(c.slots, index_pos(c.slots, i), c.next_index);
    }
}

/// Resolving the index that a key owns touches the same slot as looking the key up.
pub proof fn lemma_resolve_is_lookup<KV, VV>(c: CacheView<KV, VV>, k: KV)
    requires
        view_wf(c),
        has_key(c.slots, k),
    ensures
        ({
            let p = key_pos(c.slots, k);
            &&& has_index(c.slots, c.slots[p].index)
            &&& index_pos(c.slots, c.slots[p].index) == p
            &&& resolve_spec(c, c.slots[p].index) == lookup_spec(c, k)
        }),
{
    let p = key_pos(c.slots, k);
    let i = c.slots[p].index;
    assert(has_index(c.slots, i));
    let q = index_pos(c.slots, i);
    assert(c.slots[q].index == i);
}

} // verus!
