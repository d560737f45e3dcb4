//! A cache with exact least-recently-used eviction over one recency list.

use crate::shard::{after_put, distinct_keys, find, keys_of, moved_to_front, Shard};
use std::hash::Hash;
use vstd::prelude::*;
use vstd::std_specs::hash::obeys_key_model;

verus! {

/// A cache of at most `capacity` pairs. Every hit and every `put` makes its
/// key the most recently used one; a new key that finds the cache full
/// pushes out the least recently used pair.
pub struct LruCache<K, V> {
    inner: Shard<K, V>,
}

impl<K: Eq + Hash + Copy, V> View for LruCache<K, V> {
    type V = Seq<(K, V)>;

    /// The pairs, most recently used first.
    closed spec fn view(&self) -> Seq<(K, V)> {
        self.inner@
    }
}

impl<K: Eq + Hash + Copy, V> LruCache<K, V> {
    /// The number of pairs the cache has room for.
    pub closed spec fn spec_capacity(&self) -> usize {
        self.inner.spec_capacity()
    }

    /// The recency list under the cache is valid.
    pub closed spec fn inv(&self) -> bool {
        self.inner.wf()
    }

    /// Validity: room for at least one pair, no more pairs than that, and no
    /// key twice.
    pub open spec fn wf(&self) -> bool {
        &&& self.inv()
        &&& self.spec_capacity() > 0
        &&& self@.len() <= self.spec_capacity()
        &&& distinct_keys(self@)
    }

    /// An empty cache with room for `capacity` pairs.
    pub fn new(capacity: usize) -> (cache: Self)
        requires
            capacity > 0,
            obeys_key_model::<K>(),
        ensures
            cache.wf(),
            cache.spec_capacity() == capacity,
            cache@ == Seq::<(K, V)>::empty(),
    {
        LruCache { inner: Shard::new(capacity) }
    }

    /// Looks `key` up. A hit hands back a clone of the value and makes `key`
    /// the most recently used key; a miss changes nothing.
    pub fn get(&mut self, key: &K) -> (result: Option<V>) where V: Clone
        requires
            old(self).wf(),
        ensures
            final(self).wf(),
            final(self).spec_capacity() == old(self).spec_capacity(),
            match find(old(self)@, *key) {
                Some(i) => result is Some && cloned(old(self)@[i].1, result.unwrap())
                    && final(self)@ == moved_to_front(old(self)@, i),
                None => result is None && final(self)@ == old(self)@,
            },
    {
        self.inner.get(key)
    }

    /// Stores `value` under `key` and makes `key` the most recently used
    /// key. A new key that finds the cache full pushes out the least
    /// recently used pair.
    pub fn put(&mut self, key: K, value: V)
        requires
            old(self).wf(),
        ensures
            final(self).wf(),
            final(self).spec_capacity() == old(self).spec_capacity(),
            final(self)@ == after_put(old(self)@, key, value, old(self).spec_capacity() as int),
    {
        self.inner.put(key, value);
    }

    /// The number of pairs.
    pub fn len(&self) -> (n: usize)
        requires
            self.wf(),
        ensures
            n == self@.len(),
            n <= self.spec_capacity(),
    {
        self.inner.len()
    }

    /// Whether the cache holds no pair.
    pub fn is_empty(&self) -> (empty: bool)
        requires
            self.wf(),
        ensures
            empty == (self@.len() == 0),
    {
        self.len() == 0
    }

    /// The keys, most recently used first.
    pub fn debug_order(&self) -> (out: Vec<K>)
        requires
            self.wf(),
        ensures
            out@ == keys_of(self@),
    {
        self.inner.order()
    }
}

} // verus!
