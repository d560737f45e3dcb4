//! An exact least-recently-used list: keys linked from the most recently used
//! to the least recently used, with the oldest key leaving when the list grows
//! past its capacity.
//!
//! The entries live in a hash map. Each entry names its neighbours in the
//! recency order by their keys, so that moving a key to the front and dropping
//! the oldest key take a constant number of map operations.

use std::collections::HashMap;
use std::hash::Hash;
use vstd::prelude::*;
use vstd::std_specs::hash::obeys_key_model;

verus! {

broadcast use vstd::std_specs::hash::group_hash_axioms;

/// One key's state: its value and its neighbours in the recency order.
struct Entry<K, V> {
    value: V,
    /// The next more recently used key.
    prev: Option<K>,
    /// The next less recently used key.
    next: Option<K>,
}

/// The key before position `i` of `order`, if any.
spec fn prev_of<K>(order: Seq<K>, i: int) -> Option<K> {
    if i == 0 {
        None
    } else {
        Some(order[i - 1])
    }
}

/// The key after position `i` of `order`, if any.
spec fn next_of<K>(order: Seq<K>, i: int) -> Option<K> {
    if i + 1 == order.len() {
        None
    } else {
        Some(order[i + 1])
    }
}

/// The first key of `order`, if any.
spec fn first_of<K>(order: Seq<K>) -> Option<K> {
    if order.len() == 0 {
        None
    } else {
        Some(order[0])
    }
}

/// The last key of `order`, if any.
spec fn last_of<K>(order: Seq<K>) -> Option<K> {
    if order.len() == 0 {
        None
    } else {
        Some(order[order.len() - 1])
    }
}

/// The entries of `map` are linked in the order `order`, from `head` to
/// `tail`.
spec fn linked<K, V>(
    map: Map<K, Entry<K, V>>,
    head: Option<K>,
    tail: Option<K>,
    order: Seq<K>,
) -> bool {
    &&& order.no_duplicates()
    &&& forall|k: K| #[trigger] map.contains_key(k) <==> order.contains(k)
    &&& head == first_of(order)
    &&& tail == last_of(order)
    &&& forall|i: int|
        0 <= i < order.len() ==> (#[trigger] map[order[i]]).prev == prev_of(order, i)
    &&& forall|i: int|
        0 <= i < order.len() ==> (#[trigger] map[order[i]]).next == next_of(order, i)
}

/// Position of `key` among the keys of `s`, if it is there.
pub open spec fn find<K, V>(s: Seq<(K, V)>, key: K) -> Option<int> {
    if exists|i: int| 0 <= i < s.len() && s[i].0 == key {
        Some(choose|i: int| 0 <= i < s.len() && s[i].0 == key)
    } else {
        None
    }
}

/// No key occurs twice in `s`.
pub open spec fn distinct_keys<K, V>(s: Seq<(K, V)>) -> bool {
    forall|i: int, j: int| 0 <= i < j < s.len() ==> (#[trigger] s[i]).0 != (#[trigger] s[j]).0
}

/// The keys of `s`, in order.
pub open spec fn keys_of<K, V>(s: Seq<(K, V)>) -> Seq<K> {
    Seq::new(s.len(), |i: int| s[i].0)
}

/// The list with the pair at position `i` moved to the front.
pub open spec fn moved_to_front<K, V>(s: Seq<(K, V)>, i: int) -> Seq<(K, V)> {
    seq![s[i]] + s.remove(i)
}

/// The list after `put(key, value)` with room for `capacity` pairs: the pair
/// stands at the front, an older pair under `key` is gone, and where that
/// makes the list too long its last pair is gone too.
pub open spec fn after_put<K, V>(s: Seq<(K, V)>, key: K, value: V, capacity: int) -> Seq<(K, V)> {
    match find(s, key) {
        Some(i) => seq![(key, value)] + s.remove(i),
        None => trimmed(seq![(key, value)] + s, capacity),
    }
}

/// The list without its last pair where it holds more than `capacity` pairs.
pub open spec fn trimmed<K, V>(s: Seq<(K, V)>, capacity: int) -> Seq<(K, V)> {
    if s.len() > capacity {
        s.drop_last()
    } else {
        s
    }
}

/// Among distinct keys, the position of a key is the one `find` names.
pub proof fn lemma_find_is<K, V>(s: Seq<(K, V)>, key: K, i: int)
    requires
        distinct_keys(s),
        0 <= i < s.len(),
        s[i].0 == key,
    ensures
        find(s, key) == Some(i),
{
}

/// Moving a pair to the front drops none and adds none: every pair of the
/// list is in the new list, shifted by at most one place.
pub proof fn lemma_moved_to_front_keeps_pairs<K, V>(s: Seq<(K, V)>, i: int, j: int)
    requires
        0 <= i < s.len(),
        0 <= j < s.len(),
    ensures
        moved_to_front(s, i).len() == s.len(),
        moved_to_front(s, i)[if j == i {
            0
        } else if j < i {
            j + 1
        } else {
            j
        }] == s[j],
{
}

/// A `put` is read back: with room for at least one pair, the pair just put
/// stands at the front, and the list stays valid.
pub proof fn lemma_put_read_back<K, V>(s: Seq<(K, V)>, key: K, value: V, capacity: int)
    requires
        capacity >= 1,
        distinct_keys(s),
        s.len() <= capacity,
    ensures
        find(after_put(s, key, value, capacity), key) == Some(0int),
        after_put(s, key, value, capacity)[0] == (key, value),
        distinct_keys(after_put(s, key, value, capacity)),
        after_put(s, key, value, capacity).len() <= capacity,
{
    let t = after_put(s, key, value, capacity);
    assert(t[0] == (key, value));
}

/// A new key that finds the list full pushes out exactly the last pair.
pub proof fn lemma_put_evicts_oldest<K, V>(s: Seq<(K, V)>, key: K, value: V, capacity: int)
    requires
        find(s, key) is None,
        s.len() == capacity,
        capacity >= 1,
    ensures
        after_put(s, key, value, capacity) == seq![(key, value)] + s.drop_last(),
{
}

/// A bounded list of key/value pairs in recency order.
pub struct Shard<K, V> {
    map: HashMap<K, Entry<K, V>>,
    head: Option<K>,
    tail: Option<K>,
    capacity: usize,
    order: Ghost<Seq<K>>,
}

impl<K: Eq + Hash + Copy, V> View for Shard<K, V> {
    type V = Seq<(K, V)>;

    /// The pairs, most recently used first.
    closed spec fn view(&self) -> Seq<(K, V)> {
        Seq::new(self.order@.len(), |i: int| (self.order@[i], self.map@[self.order@[i]].value))
    }
}

impl<K: Eq + Hash + Copy, V> Shard<K, V> {
    /// The number of pairs the list has room for.
    pub closed spec fn spec_capacity(&self) -> usize {
        self.capacity
    }

    /// The links are sound. This holds between any two steps of an
    /// operation, also while the list is one pair over its capacity.
    pub closed spec fn inv(&self) -> bool {
        &&& obeys_key_model::<K>()
        &&& linked(self.map@, self.head, self.tail, self.order@)
    }

    /// Validity: sound links and no more pairs than the capacity.
    pub open spec fn wf(&self) -> bool {
        &&& self.inv()
        &&& distinct_keys(self@)
        &&& self@.len() <= self.spec_capacity()
    }

    /// An empty list that holds up to `capacity` pairs.
    pub fn new(capacity: usize) -> (shard: Self)
        requires
            obeys_key_model::<K>(),
        ensures
            shard.wf(),
            shard@ == Seq::<(K, V)>::empty(),
            shard.spec_capacity() == capacity,
    {
        let cap = if capacity > 1 {
            capacity
        } else {
            1
        };
        let shard = Shard {
            map: HashMap::with_capacity(cap),
            head: None,
            tail: None,
            capacity,
            order: Ghost(Seq::empty()),
        };
        shard
    }

    /// The number of pairs.
    pub fn len(&self) -> (n: usize)
        requires
            self.inv(),
        ensures
            n == self@.len(),
    {
        proof {
            self.lemma_dom_is_order();
        }
        self.map.len()
    }

    proof fn lemma_dom_is_order(&self)
        requires
            self.inv(),
        ensures
            self.map@.dom() =~= self.order@.to_set(),
            self.map@.len() == self.order@.len(),
            self.map@.dom().finite(),
    {
        assert(self.map@.dom() =~= self.order@.to_set());
        self.order@.unique_seq_to_set();
    }

    /// What `find` says of the view, in terms of the map and the order.
    proof fn lemma_find(&self, key: K)
        requires
            self.inv(),
        ensures
            distinct_keys(self@),
            self@.len() == self.order@.len(),
            match find(self@, key) {
                Some(i) => 0 <= i < self@.len() && self.order@[i] == key
                    && self.map@.contains_key(key) && self@[i] == (key, self.map@[key].value),
                None => !self.map@.contains_key(key) && !self.order@.contains(key),
            },
    {
        if self.order@.contains(key) {
            let i = choose|i: int| 0 <= i < self.order@.len() && self.order@[i] == key;
            assert(self@[i].0 == key);
        }
    }

    /// Takes `key` out of the list and hands back its value. The neighbours
    /// of `key` are linked to each other.
    fn detach(&mut self, key: &K) -> (value: V)
        requires
            old(self).inv(),
            find(old(self)@, *key) is Some,
        ensures
            final(self).inv(),
            final(self).spec_capacity() == old(self).spec_capacity(),
            final(self)@ == old(self)@.remove(find(old(self)@, *key).unwrap()),
            value == old(self)@[find(old(self)@, *key).unwrap()].1,
    {
        let ghost order = self.order@;
        let ghost map = self.map@;
        let ghost i = find(self@, *key).unwrap();

        let entry = self.map.remove(key).unwrap();
        let Entry { value, prev, next } = entry;
        match prev {
            Some(p) => {
                let before = self.map.remove(&p).unwrap();
                self.map.insert(p, Entry { value: before.value, prev: before.prev, next });
            },
            None => {
                self.head = next;
            },
        }
        match next {
            Some(n) => {
                let after = self.map.remove(&n).unwrap();
                self.map.insert(n, Entry { value: after.value, prev, next: after.next });
            },
            None => {
                self.tail = prev;
            },
        }
        self.order = Ghost(order.remove(i));
        proof {
            let rest = order.remove(i);
            let now = self.map@;
            assert forall|k: K| #[trigger] now.contains_key(k) <==> rest.contains(k) by {
                if rest.contains(k) {
                    let j = choose|j: int| 0 <= j < rest.len() && rest[j] == k;
                    let j0 = if j < i {
                        j
                    } else {
                        j + 1
                    };
                    assert(order[j0] == k);
                    assert(map.contains_key(k));
                    assert(order[j0] != order[i]);
                }
                if now.contains_key(k) {
                    assert(map.contains_key(k));
                    assert(k != *key);
                    let j0 = choose|j: int| 0 <= j < order.len() && order[j] == k;
                    let j = if j0 < i {
                        j0
                    } else {
                        j0 - 1
                    };
                    assert(rest[j] == k);
                }
            }
            assert forall|j: int| 0 <= j < rest.len() implies (#[trigger] now[rest[j]]).prev
                == prev_of(rest, j) && now[rest[j]].next == next_of(rest, j) && now[rest[j]].value
                == map[rest[j]].value by {
            }
        }
        value
    }

    /// Puts a key that is not in the list at its front.
    fn attach_front(&mut self, key: K, value: V)
        requires
            old(self).inv(),
            find(old(self)@, key) is None,
        ensures
            final(self).inv(),
            final(self).spec_capacity() == old(self).spec_capacity(),
            final(self)@ == seq![(key, value)] + old(self)@,
    {
        proof {
            old(self).lemma_find(key);
        }
        let ghost order = self.order@;
        let ghost map = self.map@;
        let old_head = self.head;
        if let Some(h) = old_head {
            let first = self.map.remove(&h).unwrap();
            self.map.insert(h, Entry { value: first.value, prev: Some(key), next: first.next });
        }
        self.map.insert(key, Entry { value, prev: None, next: old_head });
        self.head = Some(key);
        if self.tail.is_none() {
            self.tail = Some(key);
        }
        self.order = Ghost(seq![key] + order);
        proof {
            let grown = seq![key] + order;
            let now = self.map@;
            assert forall|k: K| #[trigger] now.contains_key(k) <==> grown.contains(k) by {
                if grown.contains(k) {
                    let j = choose|j: int| 0 <= j < grown.len() && grown[j] == k;
                    if j > 0 {
                        assert(order[j - 1] == k);
                        assert(map.contains_key(k));
                    }
                }
                if now.contains_key(k) {
                    if k == key {
                        assert(grown[0] == k);
                    } else {
                        assert(map.contains_key(k));
                        let j = choose|j: int| 0 <= j < order.len() && order[j] == k;
                        assert(grown[j + 1] == k);
                    }
                }
            }
        }
    }

    /// Makes `key`, which is in the list, its most recently used key.
    fn move_to_front(&mut self, key: &K)
        requires
            old(self).inv(),
            find(old(self)@, *key) is Some,
        ensures
            final(self).inv(),
            final(self).spec_capacity() == old(self).spec_capacity(),
            final(self)@ == moved_to_front(old(self)@, find(old(self)@, *key).unwrap()),
    {
        if self.map.get(key).unwrap().prev.is_none() {
            // Already at the front.
            return ;
        }
        let value = self.detach(key);
        self.attach_front(*key, value);
    }

    /// Drops the least recently used pair where the list is over its
    /// capacity.
    fn evict_if_needed(&mut self)
        requires
            old(self).inv(),
        ensures
            final(self).inv(),
            final(self).spec_capacity() == old(self).spec_capacity(),
            final(self)@ == trimmed(old(self)@, old(self).spec_capacity() as int),
    {
        if self.len() <= self.capacity {
            return ;
        }
        if let Some(lru_key) = self.tail {
            proof {
                self.lemma_find(lru_key);
            }
            let _ = self.detach(&lru_key);
        }
    }

    /// Looks `key` up. A hit hands back a clone of the value and makes `key`
    /// the most recently used key; a miss changes nothing.
    pub fn get(&mut self, key: &K) -> (result: Option<V>) where V: Clone
        requires
            old(self).wf(),
        ensures
            final(self).wf(),
            final(self).spec_capacity() == old(self).spec_capacity(),
            match find(old(self)@, *key) {
                Some(i) => result is Some && cloned(old(self)@[i].1, result.unwrap())
                    && final(self)@ == moved_to_front(old(self)@, i),
                None => result is None && final(self)@ == old(self)@,
            },
    {
        proof {
            self.lemma_find(*key);
        }
        let value = match self.map.get(key) {
            Some(entry) => entry.value.clone(),
            None => {
                return None;
            },
        };
        self.move_to_front(key);
        Some(value)
    }

    /// Stores `value` under `key` and makes `key` the most recently used
    /// key. A new key that makes the list too long pushes out the least
    /// recently used pair.
    pub fn put(&mut self, key: K, value: V)
        requires
            old(self).wf(),
        ensures
            final(self).wf(),
            final(self).spec_capacity() == old(self).spec_capacity(),
            final(self)@ == after_put(old(self)@, key, value, old(self).spec_capacity() as int),
    {
        proof {
            self.lemma_find(key);
        }
        if self.map.contains_key(&key) {
            let _ = self.detach(&key);
            self.attach_front(key, value);
            return ;
        }
        self.attach_front(key, value);
        self.evict_if_needed();
    }

    /// The room the list has.
    pub fn capacity(&self) -> (n: usize)
        ensures
            n == self.spec_capacity(),
    {
        self.capacity
    }

    /// The keys, most recently used first.
    pub fn order(&self) -> (out: Vec<K>)
        requires
            self.inv(),
        ensures
            out@ == keys_of(self@),
    {
        let n = self.len();
        let mut out: Vec<K> = Vec::with_capacity(n);
        let mut cur = self.head;
        let ghost mut i: int = 0;
        while cur.is_some()
            invariant
                self.inv(),
                0 <= i <= self.order@.len(),
                cur == if i < self.order@.len() {
                    Some(self.order@[i])
                } else {
                    None
                },
                out@ == self.order@.subrange(0, i),
            decreases self.order@.len() - i,
        {
            let k = cur.unwrap();
            out.push(k);
            cur = self.map.get(&k).unwrap().next;
            proof {
                i = i + 1;
            }
        }
        out
    }
}

} // verus!
