//! A fixed-capacity cache over a flat slot table.
//!
//! The table is cut into `num_folds` contiguous folds. A router maps a key to
//! a fold, and every operation on that key touches only the slots of that
//! fold. A slot holds a key, a value and a hit counter; the key `0` marks an
//! empty slot and is never stored. When a fold is full, `put` replaces the
//! slot with the fewest hits, the lowest index winning ties. This approximates
//! recency: a key that was read often long ago can outlive one that was
//! written once a moment ago.

use crate::cells::{AtomicStorage, LRUKey, LRUValue};
use crate::protocol::{accepted, publish_states, update_states};
use crate::slots::{
    bump, first_at, first_index, fold_end, fold_start, lemma_first_index_is,
    lemma_first_index_none, lemma_fold_bounds, lemma_victim_index_is, occupied, target_index,
    victim_at, Slot,
};
use vstd::prelude::*;

verus! {

/// What `router` answers for `key`.
pub open spec fn route_hash<F: Fn(usize) -> usize>(router: F, key: usize) -> usize {
    choose|h: usize| call_ensures(router, (key,), h)
}

/// The cache: `capacity` slots in `num_folds` folds, and the router that
/// sends a key to its fold.
pub struct LRUCache<K, V, F> {
    capacity: usize,
    num_folds: usize,
    keys: Vec<LRUKey<K>>,
    values: Vec<LRUValue<V>>,
    hit_counts: Vec<usize>,
    hasher: F,
}

impl<K: AtomicStorage, V: AtomicStorage, F: Fn(usize) -> usize> LRUCache<K, V, F> {
    /// The slot table, slot by slot.
    pub closed spec fn view(&self) -> Seq<Slot> {
        Seq::new(
            self.keys@.len(),
            |i: int|
                Slot {
                    key: self.keys@[i].key.value(),
                    value: self.values@[i].value.value(),
                    hits: self.hit_counts@[i],
                },
        )
    }

    /// The number of slots.
    pub closed spec fn spec_capacity(&self) -> usize {
        self.capacity
    }

    /// The number of folds.
    pub closed spec fn spec_num_folds(&self) -> usize {
        self.num_folds
    }

    /// The router the cache was made with.
    pub closed spec fn router(&self) -> F {
        self.hasher
    }

    /// The router may be called on `key`.
    pub open spec fn router_accepts(&self, key: usize) -> bool {
        call_requires(self.router(), (key,))
    }

    /// The router may answer `hash` for `key`.
    pub open spec fn routes(&self, key: usize, hash: usize) -> bool {
        call_ensures(self.router(), (key,), hash)
    }

    /// The three columns of the table have one length.
    pub closed spec fn columns_agree(&self) -> bool {
        &&& self.keys@.len() == self.capacity
        &&& self.values@.len() == self.capacity
        &&& self.hit_counts@.len() == self.capacity
    }

    /// The fold that `key` belongs to.
    pub open spec fn fold_of(&self, key: usize) -> int {
        route_hash(self.router(), key) as int % self.spec_num_folds() as int
    }

    /// First slot of the fold of `key`.
    pub open spec fn lo(&self, key: usize) -> int {
        fold_start(self.spec_capacity() as int, self.spec_num_folds() as int, self.fold_of(key))
    }

    /// One past the last slot of the fold of `key`.
    pub open spec fn hi(&self, key: usize) -> int {
        fold_end(self.spec_capacity() as int, self.spec_num_folds() as int, self.fold_of(key))
    }

    /// The slot that holds `key`, if any. The key `0` is held nowhere.
    pub open spec fn position(&self, key: usize) -> Option<int> {
        if key == 0 {
            None
        } else {
            first_index(self@, self.lo(key), self.hi(key), key)
        }
    }

    /// The value cached under `key`, if any.
    pub open spec fn lookup(&self, key: usize) -> Option<usize> {
        match self.position(key) {
            Some(i) => Some(self@[i].value),
            None => None,
        }
    }

    /// Validity: the folds fit the table, the router is a total function of
    /// the key, every stored key sits in its own fold, and no key is stored
    /// twice.
    pub open spec fn wf(&self) -> bool {
        &&& self.columns_agree()
        &&& 0 < self.spec_num_folds() <= self.spec_capacity()
        &&& self@.len() == self.spec_capacity()
        &&& forall|k: usize| #[trigger] self.router_accepts(k)
        &&& forall|k: usize, h1: usize, h2: usize|
            #[trigger] self.routes(k, h1) && #[trigger] self.routes(k, h2) ==> h1 == h2
        &&& forall|i: int|
            0 <= i < self.spec_capacity() && (#[trigger] self@[i]).key != 0 ==> self.lo(
                self@[i].key,
            ) <= i < self.hi(self@[i].key)
        &&& forall|i: int, j: int|
            0 <= i < j < self.spec_capacity() && (#[trigger] self@[i]).key != 0
                ==> self@[i].key != (#[trigger] self@[j]).key
    }

    /// Two caches have the same shape and the same router.
    pub open spec fn same_config(&self, other: &Self) -> bool {
        &&& self.spec_capacity() == other.spec_capacity()
        &&& self.spec_num_folds() == other.spec_num_folds()
        &&& self.router() == other.router()
    }

    /// An empty cache of `capacity` slots in `num_folds` folds.
    pub fn new(capacity: usize, num_folds: usize, hasher: F) -> (cache: Self) where
        K: Default,
        V: Default,

        requires
            capacity > 0,
            num_folds > 0,
            capacity >= num_folds,
            forall|k: usize| call_requires(hasher, (k,)),
            forall|k: usize, h1: usize, h2: usize|
                call_ensures(hasher, (k,), h1) && call_ensures(hasher, (k,), h2) ==> h1 == h2,
        ensures
            cache.wf(),
            cache.spec_capacity() == capacity,
            cache.spec_num_folds() == num_folds,
            cache.router() == hasher,
            cache@ == Seq::new(capacity as nat, |i: int| Slot { key: 0, value: 0, hits: 0 }),
    {
        let mut keys: Vec<LRUKey<K>> = Vec::with_capacity(capacity);
        let mut values: Vec<LRUValue<V>> = Vec::with_capacity(capacity);
        let mut hit_counts: Vec<usize> = Vec::with_capacity(capacity);
        let mut i: usize = 0;
        while i < capacity
            invariant
                i <= capacity,
                keys@.len() == i,
                values@.len() == i,
                hit_counts@.len() == i,
                forall|j: int| 0 <= j < i ==> (#[trigger] keys@[j]).key.value() == 0,
                forall|j: int| 0 <= j < i ==> (#[trigger] values@[j]).value.value() == 0,
                forall|j: int| 0 <= j < i ==> #[trigger] hit_counts@[j] == 0,
            decreases capacity - i,
        {
            let mut key = K::default();
            key.store(0);
            let mut value = V::default();
            value.store(0);
            keys.push(LRUKey { key });
            values.push(LRUValue { value });
            hit_counts.push(0);
            i += 1;
        }
        let cache = LRUCache { capacity, num_folds, keys, values, hit_counts, hasher };
        cache
    }

    /// The fold that `key` belongs to.
    fn get_fold_index(&self, key: usize) -> (fold: usize)
        requires
            self.wf(),
        ensures
            fold == self.fold_of(key),
            fold < self.spec_num_folds(),
    {
        assert(self.router_accepts(key));
        let h = (self.hasher)(key);
        assert(self.routes(key, h));
        assert(self.routes(key, route_hash(self.router(), key)));
        h % self.num_folds
    }

    /// The slots of fold `fold_idx`, as a half-open range.
    fn get_fold_range(&self, fold_idx: usize) -> (range: (usize, usize))
        requires
            0 < self.spec_num_folds() <= self.spec_capacity(),
            fold_idx < self.spec_num_folds(),
        ensures
            range.0 == fold_start(
                self.spec_capacity() as int,
                self.spec_num_folds() as int,
                fold_idx as int,
            ),
            range.1 == fold_end(
                self.spec_capacity() as int,
                self.spec_num_folds() as int,
                fold_idx as int,
            ),
            range.0 < range.1 <= self.spec_capacity(),
    {
        proof {
            lemma_fold_bounds(self.capacity as int, self.num_folds as int, fold_idx as int);
        }
        let fold_size = self.capacity / self.num_folds;
        let start = fold_idx * fold_size;
        let end = if fold_idx == self.num_folds - 1 {
            self.capacity
        } else {
            start + fold_size
        };
        (start, end)
    }

    /// The number of slots.
    pub fn capacity(&self) -> (n: usize)
        ensures
            n == self.spec_capacity(),
    {
        self.capacity
    }

    /// The table after a hit on `key`: the slot that holds it has one more
    /// hit; a miss changes nothing.
    pub open spec fn after_get(&self, key: usize) -> Seq<Slot> {
        match self.position(key) {
            Some(i) => self@.update(
                i,
                Slot { key: self@[i].key, value: self@[i].value, hits: bump(self@[i].hits) },
            ),
            None => self@,
        }
    }

    /// The table after `key` is taken out: its slot is empty with no hits.
    pub open spec fn after_remove(&self, key: usize) -> Seq<Slot> {
        match self.position(key) {
            Some(i) => self@.update(i, Slot { key: 0, value: self@[i].value, hits: 0 }),
            None => self@,
        }
    }

    /// Writing `slot` into slot `t` of a valid table leaves it valid, where
    /// `slot` keeps the key, or is empty, or brings a key that its fold does
    /// not hold yet.
    proof fn lemma_wf_after_update(before: &Self, after: &Self, t: int, slot: Slot)
        requires
            before.wf(),
            after.same_config(before),
            after.columns_agree(),
            0 <= t < before.spec_capacity(),
            after@ == before@.update(t, slot),
            slot.key == before@[t].key || slot.key == 0 || (before.lo(slot.key) <= t < before.hi(
                slot.key,
            ) && forall|j: int|
                before.lo(slot.key) <= j < before.hi(slot.key) ==> (#[trigger] before@[j]).key
                    != slot.key),
        ensures
            after.wf(),
    {
        assert forall|k: usize| #[trigger] after.router_accepts(k) by {
            assert(before.router_accepts(k));
        }
        assert forall|k: usize, h1: usize, h2: usize|
            #[trigger] after.routes(k, h1) && #[trigger] after.routes(k, h2) implies h1
            == h2 by {
            assert(before.routes(k, h1) && before.routes(k, h2));
        }
    }

    /// Looks `key` up. A hit returns the value and counts as one more hit of
    /// the slot; a miss, and the key `0`, return `None` and change nothing.
    pub fn get(&mut self, key: usize) -> (result: Option<usize>)
        requires
            old(self).wf(),
        ensures
            final(self).wf(),
            final(self).same_config(old(self)),
            result == old(self).lookup(key),
            final(self)@ == old(self).after_get(key),
    {
        if key == 0 {
            return None;
        }
        let ghost before = *self;
        let fold_idx = self.get_fold_index(key);
        let (start, end) = self.get_fold_range(fold_idx);
        let mut i = start;
        while i < end
            invariant
                *self == before,
                before == *old(self),
                before.wf(),
                key != 0,
                start == before.lo(key),
                end == before.hi(key),
                start <= i <= end <= before.spec_capacity(),
                forall|j: int| start <= j < i ==> (#[trigger] before@[j]).key != key,
            decreases end - i,
        {
            let k1 = self.keys[i].key.load();
            if k1 == key {
                let v = self.values[i].value.load();
                // The key is read once more: a value counts only if the slot
                // held the key before and after the value was read.
                let k2 = self.keys[i].key.load();
                if k1 == k2 {
                    assert(accepted(key, k1, v, k2) == Some(v));
                    let hits = self.hit_counts[i];
                    self.hit_counts.set(i, hits.saturating_add(1));
                    proof {
                        lemma_first_index_is(before@, start as int, end as int, key, i as int);
                        let slot = Slot { key, value: v, hits: bump(hits) };
                        assert(self@ =~= before@.update(i as int, slot));
                        Self::lemma_wf_after_update(&before, self, i as int, slot);
                    }
                    return Some(v);
                }
            }
            i += 1;
        }
        None
    }

    /// Whether `key` is cached. Counts as no hit.
    pub fn contains_key(&self, key: usize) -> (found: bool)
        requires
            self.wf(),
        ensures
            found == (self.position(key) is Some),
    {
        if key == 0 {
            return false;
        }
        let fold_idx = self.get_fold_index(key);
        let (start, end) = self.get_fold_range(fold_idx);
        let mut i = start;
        while i < end
            invariant
                self.wf(),
                key != 0,
                start == self.lo(key),
                end == self.hi(key),
                start <= i <= end <= self.spec_capacity(),
                forall|j: int| start <= j < i ==> (#[trigger] self@[j]).key != key,
            decreases end - i,
        {
            if self.keys[i].key.load() == key {
                proof {
                    lemma_first_index_is(self@, start as int, end as int, key, i as int);
                }
                return true;
            }
            i += 1;
        }
        false
    }

    /// Takes `key` out and returns the value it had. A key that is not
    /// cached, and the key `0`, return `None` and change nothing.
    pub fn remove(&mut self, key: usize) -> (result: Option<usize>)
        requires
            old(self).wf(),
        ensures
            final(self).wf(),
            final(self).same_config(old(self)),
            result == old(self).lookup(key),
            final(self)@ == old(self).after_remove(key),
    {
        if key == 0 {
            return None;
        }
        let ghost before = *self;
        let fold_idx = self.get_fold_index(key);
        let (start, end) = self.get_fold_range(fold_idx);
        let mut i = start;
        while i < end
            invariant
                *self == before,
                before == *old(self),
                before.wf(),
                key != 0,
                start == before.lo(key),
                end == before.hi(key),
                start <= i <= end <= before.spec_capacity(),
                forall|j: int| start <= j < i ==> (#[trigger] before@[j]).key != key,
            decreases end - i,
        {
            if self.keys[i].key.load() == key {
                let val = self.values[i].value.load();
                self.keys[i].key.store(0);
                self.hit_counts.set(i, 0);
                proof {
                    lemma_first_index_is(before@, start as int, end as int, key, i as int);
                    let slot = Slot { key: 0, value: val, hits: 0 };
                    assert(self@ =~= before@.update(i as int, slot));
                    Self::lemma_wf_after_update(&before, self, i as int, slot);
                }
                return Some(val);
            }
            i += 1;
        }
        None
    }

    /// The table after `put(key, value)`. A cached key keeps its slot, takes
    /// the new value and gains a hit. A new key goes to the first empty slot
    /// of its fold, or else replaces the victim; the slot starts over with one
    /// hit. The key `0` changes nothing.
    pub open spec fn after_put(&self, key: usize, value: usize) -> Seq<Slot> {
        if key == 0 {
            self@
        } else {
            match self.position(key) {
                Some(i) => self@.update(i, Slot { key, value, hits: bump(self@[i].hits) }),
                None => self@.update(
                    target_index(self@, self.lo(key), self.hi(key)),
                    Slot { key, value, hits: 1 },
                ),
            }
        }
    }

    /// The table with every slot emptied and every hit counter at zero.
    pub open spec fn after_clear(&self) -> Seq<Slot> {
        Seq::new(self@.len(), |i: int| Slot { key: 0, value: self@[i].value, hits: 0 })
    }

    /// Caches `value` under `key`.
    pub fn put(&mut self, key: usize, value: usize)
        requires
            old(self).wf(),
        ensures
            final(self).wf(),
            final(self).same_config(old(self)),
            final(self)@ == old(self).after_put(key, value),
    {
        if key == 0 {
            return ;
        }
        let ghost before = *self;
        let fold_idx = self.get_fold_index(key);
        let (start, end) = self.get_fold_range(fold_idx);

        let mut lru_idx = start;
        let mut min_hits = usize::MAX;
        let mut empty_idx: Option<usize> = None;

        let mut i = start;
        while i < end
            invariant
                *self == before,
                before == *old(self),
                before.wf(),
                key != 0,
                start == before.lo(key),
                end == before.hi(key),
                start <= i <= end <= before.spec_capacity(),
                start < end,
                forall|j: int| start <= j < i ==> (#[trigger] before@[j]).key != key,
                match empty_idx {
                    Some(e) => start <= e < i && first_at(
                        before@,
                        start as int,
                        end as int,
                        0,
                        e as int,
                    ),
                    None => forall|j: int| start <= j < i ==> (#[trigger] before@[j]).key != 0,
                },
                start <= lru_idx < end,
                i == start ==> lru_idx == start && min_hits == usize::MAX,
                i > start ==> lru_idx < i && before@[lru_idx as int].hits == min_hits,
                forall|j: int| start <= j < i ==> min_hits <= (#[trigger] before@[j]).hits,
                forall|j: int| start <= j < lru_idx ==> min_hits < (#[trigger] before@[j]).hits,
            decreases end - i,
        {
            let current_key = self.keys[i].key.load();
            if current_key == key {
                let ghost steps = update_states(before@[i as int], value);
                self.values[i].value.store(value);
                assert(self@[i as int] == steps[1]);
                let hits = self.hit_counts[i];
                self.hit_counts.set(i, hits.saturating_add(1));
                assert(self@[i as int] == steps[2]);
                proof {
                    lemma_first_index_is(before@, start as int, end as int, key, i as int);
                    let slot = Slot { key, value, hits: bump(hits) };
                    assert(self@ =~= before@.update(i as int, slot));
                    Self::lemma_wf_after_update(&before, self, i as int, slot);
                }
                return ;
            }
            if current_key == 0 && empty_idx.is_none() {
                empty_idx = Some(i);
            }
            let hits = self.hit_counts[i];
            if hits < min_hits {
                min_hits = hits;
                lru_idx = i;
            }
            i += 1;
        }

        let target_idx = match empty_idx {
            Some(e) => e,
            None => lru_idx,
        };
        proof {
            match empty_idx {
                Some(e) => {
                    lemma_first_index_is(before@, start as int, end as int, 0, e as int);
                },
                None => {
                    lemma_first_index_none(before@, start as int, end as int, 0);
                    assert(victim_at(before@, start as int, end as int, lru_idx as int));
                    lemma_victim_index_is(before@, start as int, end as int, lru_idx as int);
                },
            }
        }

        // The slot is emptied before its value changes and gets its key only
        // once the value is in place, so it never pairs a key with another
        // key's value.
        let ghost steps = publish_states(before@[target_idx as int], key, value);
        self.keys[target_idx].key.store(0);
        assert(self@[target_idx as int] == steps[1]);
        self.values[target_idx].value.store(value);
        assert(self@[target_idx as int] == steps[2]);
        self.keys[target_idx].key.store(key);
        assert(self@[target_idx as int] == steps[3]);
        self.hit_counts.set(target_idx, 1);
        assert(self@[target_idx as int] == steps[4]);
        proof {
            let slot = Slot { key, value, hits: 1 };
            assert(self@ =~= before@.update(target_idx as int, slot));
            Self::lemma_wf_after_update(&before, self, target_idx as int, slot);
        }
    }

    /// The number of cached keys.
    pub fn len(&self) -> (count: usize)
        requires
            self.wf(),
        ensures
            count == occupied(self@, self.spec_capacity() as int),
            count <= self.spec_capacity(),
    {
        let mut count: usize = 0;
        let mut i: usize = 0;
        while i < self.capacity
            invariant
                self.wf(),
                i <= self.spec_capacity(),
                count == occupied(self@, i as int),
                count <= i,
            decreases self.spec_capacity() - i,
        {
            if self.keys[i].key.load() != 0 {
                count += 1;
            }
            i += 1;
        }
        count
    }

    /// Whether no key is cached.
    pub fn is_empty(&self) -> (empty: bool)
        requires
            self.wf(),
        ensures
            empty == (occupied(self@, self.spec_capacity() as int) == 0),
    {
        self.len() == 0
    }

    /// Empties every slot, fold by fold.
    pub fn clear(&mut self)
        requires
            old(self).wf(),
        ensures
            final(self).wf(),
            final(self).same_config(old(self)),
            final(self)@ == old(self).after_clear(),
    {
        let ghost before = *self;
        let ghost cap = self.capacity as int;
        let ghost n = self.num_folds as int;
        let mut f: usize = 0;
        let ghost mut cleared: int = 0;
        while f < self.num_folds
            invariant
                before == *old(self),
                before.wf(),
                self.same_config(&before),
                self.columns_agree(),
                self@.len() == before@.len(),
                cap == before.spec_capacity(),
                n == before.spec_num_folds(),
                f <= n,
                cleared <= cap,
                f < n ==> cleared == fold_start(cap, n, f as int),
                f == n ==> cleared == cap,
                forall|j: int| 0 <= j < cleared ==> #[trigger] self@[j] == before.after_clear()[j],
                forall|j: int| cleared <= j < cap ==> #[trigger] self@[j] == before@[j],
            decreases n - f,
        {
            let (start, end) = self.get_fold_range(f);
            let mut i = start;
            while i < end
                invariant
                    before.wf(),
                    self.same_config(&before),
                    self.columns_agree(),
                    self@.len() == before@.len(),
                    cap == before.spec_capacity(),
                    start <= i <= end <= cap,
                    forall|j: int| 0 <= j < i ==> #[trigger] self@[j] == before.after_clear()[j],
                    forall|j: int| i <= j < cap ==> #[trigger] self@[j] == before@[j],
                decreases end - i,
            {
                let ghost prev = self@;
                self.keys[i].key.store(0);
                self.hit_counts.set(i, 0);
                proof {
                    assert(self@ =~= prev.update(
                        i as int,
                        Slot { key: 0, value: prev[i as int].value, hits: 0 },
                    ));
                }
                i += 1;
            }
            proof {
                cleared = end as int;
            }
            f += 1;
        }
        proof {
            assert forall|k: usize| #[trigger] self.router_accepts(k) by {
                assert(before.router_accepts(k));
            }
            assert forall|k: usize, h1: usize, h2: usize|
                #[trigger] self.routes(k, h1) && #[trigger] self.routes(k, h2) implies h1
                == h2 by {
                assert(before.routes(k, h1) && before.routes(k, h2));
            }
        }
    }
}

} // verus!
