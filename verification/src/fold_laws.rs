//! What holds of the fold cache across calls, proved from the contracts of
//! its operations.

use crate::cells::AtomicStorage;
use crate::fold_cache::LRUCache;
use crate::slots::{
    first_at, lemma_first_index_is, lemma_first_index_none, lemma_first_index_sound,
    lemma_fold_bounds, lemma_occupied_none, lemma_target_in_range, lemma_victim_exists, occupied,
    target_index, victim_at, victim_index, Slot,
};
use vstd::prelude::*;

verus! {

impl<K: AtomicStorage, V: AtomicStorage, F: Fn(usize) -> usize> LRUCache<K, V, F> {
    /// The fold of every key lies inside the table and is not empty.
    pub proof fn lemma_fold_of_in_table(&self, key: usize)
        requires
            self.wf(),
        ensures
            0 <= self.fold_of(key) < self.spec_num_folds(),
            0 <= self.lo(key) < self.hi(key) <= self.spec_capacity(),
    {
        lemma_fold_bounds(
            self.spec_capacity() as int,
            self.spec_num_folds() as int,
            self.fold_of(key),
        );
    }

    /// A `put` is read back: right after `put(key, value)`, `key` is cached
    /// with `value`.
    pub proof fn lemma_read_your_write(before: &Self, after: &Self, key: usize, value: usize)
        requires
            before.wf(),
            after.same_config(before),
            after@ == before.after_put(key, value),
            key != 0,
        ensures
            after.lookup(key) == Some(value),
    {
        let lo = before.lo(key);
        let hi = before.hi(key);
        before.lemma_fold_of_in_table(key);
        lemma_first_index_sound(before@, lo, hi, key);
        let t = match before.position(key) {
            Some(i) => i,
            None => target_index(before@, lo, hi),
        };
        lemma_target_in_range(before@, lo, hi);
        lemma_first_index_is(after@, lo, hi, key, t);
    }

    /// The key `0` is never cached: looking it up finds nothing, and `get`,
    /// `put` and `remove` of it leave the table as it is.
    pub proof fn lemma_sentinel_rejected(&self, value: usize)
        ensures
            self.position(0) is None,
            self.lookup(0) is None,
            self.after_get(0) == self@,
            self.after_put(0, value) == self@,
            self.after_remove(0) == self@,
    {
    }

    /// Eviction: where the fold of a key that is not cached has no empty
    /// slot, `put` rewrites exactly one slot, the one of that fold with the
    /// fewest hits, the lowest index among equals.
    pub proof fn lemma_put_evicts_least_hit(&self, key: usize, value: usize)
        requires
            self.wf(),
            key != 0,
            self.position(key) is None,
            forall|j: int| self.lo(key) <= j < self.hi(key) ==> (#[trigger] self@[j]).key != 0,
        ensures
            victim_at(
                self@,
                self.lo(key),
                self.hi(key),
                victim_index(self@, self.lo(key), self.hi(key)),
            ),
            self.after_put(key, value) == self@.update(
                victim_index(self@, self.lo(key), self.hi(key)),
                Slot { key, value, hits: 1 },
            ),
            forall|j: int|
                0 <= j < self@.len() && j != victim_index(self@, self.lo(key), self.hi(key))
                    ==> self.after_put(key, value)[j] == self@[j],
    {
        self.lemma_fold_of_in_table(key);
        lemma_victim_exists(self@, self.lo(key), self.hi(key));
    }

    /// A new key takes the first empty slot of its fold while there is one,
    /// and nothing is evicted.
    pub proof fn lemma_put_fills_first_empty(&self, key: usize, value: usize, e: int)
        requires
            self.wf(),
            key != 0,
            self.position(key) is None,
            first_at(self@, self.lo(key), self.hi(key), 0, e),
        ensures
            self.after_put(key, value) == self@.update(e, Slot { key, value, hits: 1 }),
    {
    }

    /// After `clear` nothing is cached: no slot is occupied and every key is
    /// absent.
    pub proof fn lemma_clear_empties(before: &Self, after: &Self)
        requires
            before.wf(),
            after.same_config(before),
            after@ == before.after_clear(),
        ensures
            occupied(after@, after.spec_capacity() as int) == 0,
            forall|key: usize| after.lookup(key) is None,
            after.after_clear() == after@,
    {
        lemma_occupied_none(after@, after.spec_capacity() as int);
        assert forall|key: usize| after.lookup(key) is None by {
            if key != 0 {
                before.lemma_fold_of_in_table(key);
                lemma_first_index_none(after@, after.lo(key), after.hi(key), key);
            }
        }
    }

    /// A hit never lowers a hit counter, and changes no key and no value.
    pub proof fn lemma_get_keeps_entries(&self, key: usize, j: int)
        requires
            self.wf(),
            0 <= j < self@.len(),
        ensures
            self.after_get(key)[j].key == self@[j].key,
            self.after_get(key)[j].value == self@[j].value,
            self.after_get(key)[j].hits >= self@[j].hits,
    {
        self.lemma_position_in_table(key);
    }

    /// The slot that `position` names lies in the fold of the key and holds
    /// it; where it names none, no slot of that fold holds the key.
    pub proof fn lemma_position_in_table(&self, key: usize)
        requires
            self.wf(),
        ensures
            match self.position(key) {
                Some(i) => key != 0 && self.lo(key) <= i < self.hi(key) && 0 <= i
                    < self@.len() && self@[i].key == key,
                None => key == 0 || forall|j: int|
                    self.lo(key) <= j < self.hi(key) ==> (#[trigger] self@[j]).key != key,
            },
    {
        self.lemma_fold_of_in_table(key);
        lemma_first_index_sound(self@, self.lo(key), self.hi(key), key);
    }

    /// A `put` changes what is cached under another key only by evicting it:
    /// a key whose slot is not the one written keeps its value.
    pub proof fn lemma_put_keeps_others(
        before: &Self,
        after: &Self,
        key: usize,
        value: usize,
        other: usize,
    )
        requires
            before.wf(),
            after.same_config(before),
            after@ == before.after_put(key, value),
            other != key,
            before.position(other) is Some,
            before.position(key) is None ==> before.position(other) != Some(
                target_index(before@, before.lo(key), before.hi(key)),
            ),
        ensures
            after.position(other) == before.position(other),
            after.lookup(other) == before.lookup(other),
    {
        before.lemma_position_in_table(other);
        let i = before.position(other).unwrap();
        let lo = before.lo(other);
        let hi = before.hi(other);
        if key != 0 {
            before.lemma_position_in_table(key);
            before.lemma_fold_of_in_table(key);
            lemma_target_in_range(before@, before.lo(key), before.hi(key));
            assert(after@[i] == before@[i]);
            assert forall|j: int| lo <= j < i implies (#[trigger] after@[j]).key != other by {
                assert(before@[j].key != other);
            }
            lemma_first_index_is(after@, lo, hi, other, i);
        }
    }

    /// A value never shows up under another key: after `put(key, value)`
    /// any other key is cached with the value it had, or not at all.
    pub proof fn lemma_put_never_leaks(
        before: &Self,
        after: &Self,
        key: usize,
        value: usize,
        other: usize,
    )
        requires
            before.wf(),
            after.same_config(before),
            after@ == before.after_put(key, value),
            other != key,
        ensures
            after.lookup(other) == before.lookup(other) || after.lookup(other) is None,
    {
        if other != 0 && key != 0 {
            let lo = before.lo(other);
            let hi = before.hi(other);
            let t = match before.position(key) {
                Some(i) => i,
                None => target_index(before@, before.lo(key), before.hi(key)),
            };
            before.lemma_position_in_table(other);
            before.lemma_position_in_table(key);
            before.lemma_fold_of_in_table(key);
            before.lemma_fold_of_in_table(other);
            lemma_target_in_range(before@, before.lo(key), before.hi(key));
            if before.position(other) is Some && before.position(other) != Some(t) {
                Self::lemma_put_keeps_others(before, after, key, value, other);
            } else {
                assert forall|j: int| lo <= j < hi implies (#[trigger] after@[j]).key != other by {
                    if j != t {
                        assert(after@[j] == before@[j]);
                        if before@[j].key == other {
                            let i = before.position(other).unwrap();
                            assert(i == t);
                            if j < i {
                                assert(before@[j].key != before@[i].key);
                            } else {
                                assert(before@[i].key != before@[j].key);
                            }
                        }
                    }
                }
                lemma_first_index_none(after@, lo, hi, other);
            }
        }
    }
}

} // verus!
