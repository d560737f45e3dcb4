//! A cache split into shards, each an exact least-recently-used list of its
//! own. A key lives in the shard that its hash selects, so recency and
//! eviction are decided shard by shard.

use crate::shard::{after_put, distinct_keys, find, keys_of, moved_to_front, Shard};
use std::collections::hash_map::DefaultHasher;
use std::hash::{Hash, Hasher};
use vstd::prelude::*;
use vstd::std_specs::hash::{obeys_key_model, DefaultHasherAdditionalSpecFns};

verus! {

/// A key that the sharded cache can place: it has a 64-bit hash that is a
/// function of the key alone, and it behaves as a key of a hash map should.
pub trait ShardKey: Eq + Hash + Copy {
    /// The hash of the key.
    spec fn spec_hash(&self) -> u64;

    /// Computes the hash of the key.
    fn hash64(&self) -> (h: u64)
        ensures
            h == self.spec_hash(),
    ;

    /// Equal keys are the same key, and hash alike.
    proof fn lemma_key_model()
        ensures
            obeys_key_model::<Self>(),
    ;
}

/// The writes that a `DefaultHasher` has taken once an `i32` was hashed into
/// it, given the writes `state` it had taken before.
pub uninterp spec fn fed_i32(state: Seq<Seq<u8>>, key: i32) -> Seq<Seq<u8>>;

/// The writes that a `DefaultHasher` has taken once a `usize` was hashed into
/// it, given the writes `state` it had taken before.
pub uninterp spec fn fed_usize(state: Seq<Seq<u8>>, key: usize) -> Seq<Seq<u8>>;

/// `<i32 as Hash>::hash` into a `DefaultHasher`. Believed, not proved: what
/// the hasher has taken afterwards depends on the key and on what it had
/// taken before, and on nothing else.
#[verifier::external_body]
fn feed_i32(key: &i32, state: &mut DefaultHasher)
    ensures
        final(state)@ == fed_i32(old(state)@, *key),
{
    key.hash(state)
}

/// `<usize as Hash>::hash` into a `DefaultHasher`. Believed, not proved: what
/// the hasher has taken afterwards depends on the key and on what it had
/// taken before, and on nothing else.
#[verifier::external_body]
fn feed_usize(key: &usize, state: &mut DefaultHasher)
    ensures
        final(state)@ == fed_usize(old(state)@, *key),
{
    key.hash(state)
}

impl ShardKey for i32 {
    open spec fn spec_hash(&self) -> u64 {
        DefaultHasher::spec_finish(fed_i32(Seq::empty(), *self))
    }

    fn hash64(&self) -> (h: u64) {
        let mut hasher = DefaultHasher::new();
        feed_i32(self, &mut hasher);
        hasher.finish()
    }

    proof fn lemma_key_model() {
    }
}

impl ShardKey for usize {
    open spec fn spec_hash(&self) -> u64 {
        DefaultHasher::spec_finish(fed_usize(Seq::empty(), *self))
    }

    fn hash64(&self) -> (h: u64) {
        let mut hasher = DefaultHasher::new();
        feed_usize(self, &mut hasher);
        hasher.finish()
    }

    proof fn lemma_key_model() {
    }
}

/// The shard, out of `shards`, that a key with the hash `hash` lives in:
/// the hash, cut to the width of `usize`, modulo the number of shards.
pub open spec fn shard_of_hash(hash: u64, shards: int) -> int {
    (hash as usize) as int % shards
}

/// The shard, out of `shards`, that `key` lives in.
pub open spec fn shard_of<K: ShardKey>(key: K, shards: int) -> int {
    shard_of_hash(key.spec_hash(), shards)
}

/// Computes the shard, out of `shards`, that a key with the hash `hash`
/// lives in.
pub fn shard_for_hash(hash: u64, shards: usize) -> (idx: usize)
    requires
        shards > 0,
    ensures
        idx == shard_of_hash(hash, shards as int),
        idx < shards,
{
    (#[verifier::truncate] (hash as usize)) % shards
}

/// Computes the shard, out of `shards`, that `key` lives in.
pub fn shard_for<K: ShardKey>(key: &K, shards: usize) -> (idx: usize)
    requires
        shards > 0,
    ensures
        idx == shard_of(*key, shards as int),
        idx < shards,
{
    shard_for_hash(key.hash64(), shards)
}

/// The room of shard `i` when `total` is dealt out to `shards` shards: an
/// equal part each, and one more for the first `total % shards` of them.
pub open spec fn share(total: int, shards: int, i: int) -> int {
    total / shards + if i < total % shards {
        1int
    } else {
        0int
    }
}

/// The sum of the first `n` numbers of `s`.
pub open spec fn sum_upto(s: Seq<usize>, n: int) -> int
    decreases n,
{
    if n <= 0 {
        0
    } else {
        sum_upto(s, n - 1) + s[n - 1]
    }
}

/// The number of pairs in the first `n` lists of `s`.
pub open spec fn len_upto<K, V>(s: Seq<Seq<(K, V)>>, n: int) -> int
    decreases n,
{
    if n <= 0 {
        0
    } else {
        len_upto(s, n - 1) + s[n - 1].len()
    }
}

/// The keys of the first `n` lists of `s`, list after list.
pub open spec fn keys_upto<K, V>(s: Seq<Seq<(K, V)>>, n: int) -> Seq<K>
    decreases n,
{
    if n <= 0 {
        Seq::empty()
    } else {
        keys_upto(s, n - 1) + keys_of(s[n - 1])
    }
}

/// The first `m` shares of `total` add up to `m` equal parts and one more
/// for each of them that gets the extra.
proof fn lemma_shares_sum(s: Seq<usize>, total: int, shards: int, m: int)
    requires
        0 < shards,
        0 <= total,
        0 <= m <= shards,
        s.len() >= m,
        forall|i: int| 0 <= i < m ==> #[trigger] s[i] == share(total, shards, i),
    ensures
        sum_upto(s, m) == m * (total / shards) + if m < total % shards {
            m
        } else {
            total % shards
        },
    decreases m,
{
    assert(0 <= total % shards < shards) by (nonlinear_arith)
        requires
            0 < shards,
    ;
    if m > 0 {
        lemma_shares_sum(s, total, shards, m - 1);
        let base = total / shards;
        assert(s[m - 1] == share(total, shards, m - 1));
        assert(m * base == (m - 1) * base + base) by (nonlinear_arith);
    } else {
        assert(m * (total / shards) == 0) by (nonlinear_arith)
            requires
                m == 0,
        ;
    }
}

/// Dealt out to its shards, `total` is used up exactly.
pub proof fn lemma_shares_use_total(s: Seq<usize>, total: int, shards: int)
    requires
        0 < shards,
        0 <= total,
        s.len() == shards,
        forall|i: int| 0 <= i < shards ==> #[trigger] s[i] == share(total, shards, i),
    ensures
        sum_upto(s, shards) == total,
{
    lemma_shares_sum(s, total, shards, shards);
    assert(total == shards * (total / shards) + total % shards && 0 <= total % shards < shards)
        by (nonlinear_arith)
        requires
            0 < shards,
            0 <= total,
    ;
}

/// Deals `total` out to `shards` shards, or to `total` shards where that is
/// fewer, so that no shard is without room unless `total` is zero.
pub fn distribute_capacity(total: usize, shards: usize) -> (caps: Vec<usize>)
    requires
        shards > 0,
    ensures
        caps@.len() == if total == 0 {
            1
        } else if shards < total {
            shards as int
        } else {
            total as int
        },
        forall|i: int|
            0 <= i < caps@.len() ==> #[trigger] caps@[i] == share(
                total as int,
                caps@.len() as int,
                i,
            ),
        sum_upto(caps@, caps@.len() as int) == total,
{
    let floor = if total > 1 {
        total
    } else {
        1
    };
    let n = if shards < floor {
        shards
    } else {
        floor
    };
    let base = total / n;
    let rem = total % n;
    assert(base + rem <= total) by (nonlinear_arith)
        requires
            base == total / n,
            rem == total % n,
            n > 0,
    ;
    let mut caps: Vec<usize> = Vec::with_capacity(n);
    let mut i: usize = 0;
    while i < n
        invariant
            i <= n,
            n > 0,
            base == total / n,
            rem == total % n,
            base + rem <= total,
            caps@.len() == i,
            forall|j: int| 0 <= j < i ==> #[trigger] caps@[j] == share(total as int, n as int, j),
        decreases n - i,
    {
        let extra: usize = if i < rem {
            1
        } else {
            0
        };
        caps.push(base + extra);
        i += 1;
    }
    proof {
        lemma_shares_use_total(caps@, total as int, n as int);
    }
    caps
}

/// The first `m` numbers of `s` sum to no more than the first `n`.
proof fn lemma_sum_monotone(s: Seq<usize>, m: int, n: int)
    requires
        0 <= m <= n,
    ensures
        0 <= sum_upto(s, m) <= sum_upto(s, n),
    decreases n,
{
    if m < n {
        lemma_sum_monotone(s, m, n - 1);
    } else if n > 0 {
        lemma_sum_monotone(s, m - 1, n - 1);
    }
}

/// Lists that each fit their number hold together no more pairs than the
/// numbers sum to.
proof fn lemma_len_within_sum<K, V>(lists: Seq<Seq<(K, V)>>, caps: Seq<usize>, n: int)
    requires
        0 <= n <= lists.len(),
        lists.len() == caps.len(),
        forall|i: int| 0 <= i < lists.len() ==> (#[trigger] lists[i]).len() <= caps[i],
    ensures
        0 <= len_upto(lists, n) <= sum_upto(caps, n),
    decreases n,
{
    if n > 0 {
        lemma_len_within_sum(lists, caps, n - 1);
    }
}

/// The sharded cache: one recency list per shard.
pub struct ShardedLruCache<K, V> {
    shards: Vec<Shard<K, V>>,
}

impl<K: ShardKey, V> View for ShardedLruCache<K, V> {
    type V = Seq<Seq<(K, V)>>;

    /// The pairs of each shard, most recently used first.
    closed spec fn view(&self) -> Seq<Seq<(K, V)>> {
        Seq::new(self.shards@.len(), |i: int| self.shards@[i]@)
    }
}

impl<K: ShardKey, V> ShardedLruCache<K, V> {
    /// The room of each shard.
    pub closed spec fn capacities(&self) -> Seq<usize> {
        Seq::new(self.shards@.len(), |i: int| self.shards@[i].spec_capacity())
    }

    /// Every shard is a valid list.
    pub closed spec fn inv(&self) -> bool {
        forall|i: int| 0 <= i < self.shards@.len() ==> (#[trigger] self.shards@[i]).wf()
    }

    /// Validity: there is a shard, each shard fits its room and holds no key
    /// twice, every key sits in the shard that its hash selects, and the
    /// rooms add up to a number that fits in `usize`.
    pub open spec fn wf(&self) -> bool {
        &&& self.inv()
        &&& self@.len() > 0
        &&& self.capacities().len() == self@.len()
        &&& sum_upto(self.capacities(), self@.len() as int) <= usize::MAX
        &&& forall|s: int|
            0 <= s < self@.len() ==> (#[trigger] self@[s]).len() <= self.capacities()[s]
                && distinct_keys(self@[s])
        &&& forall|s: int, j: int|
            0 <= s < self@.len() && 0 <= j < self@[s].len() ==> shard_of(
                (#[trigger] self@[s][j]).0,
                self@.len() as int,
            ) == s
    }

    /// A cache of `total_capacity` pairs dealt out to `shard_hint` shards,
    /// or to as many as leave no shard without room.
    pub fn new(total_capacity: usize, shard_hint: usize) -> (cache: Self)
        requires
            total_capacity > 0,
        ensures
            cache.wf(),
            cache@.len() == if shard_hint == 0 {
                1
            } else if shard_hint < total_capacity {
                shard_hint as int
            } else {
                total_capacity as int
            },
            forall|s: int| 0 <= s < cache@.len() ==> (#[trigger] cache@[s]).len() == 0,
            forall|s: int|
                0 <= s < cache@.len() ==> #[trigger] cache.capacities()[s] == share(
                    total_capacity as int,
                    cache@.len() as int,
                    s,
                ),
            sum_upto(cache.capacities(), cache@.len() as int) == total_capacity,
    {
        let hint = if shard_hint > 1 {
            shard_hint
        } else {
            1
        };
        let shard_count = if hint < total_capacity {
            hint
        } else {
            total_capacity
        };
        let caps = distribute_capacity(total_capacity, shard_count);
        let mut shards: Vec<Shard<K, V>> = Vec::with_capacity(shard_count);
        proof {
            K::lemma_key_model();
        }
        let mut i: usize = 0;
        while i < caps.len()
            invariant
                obeys_key_model::<K>(),
                i <= caps@.len(),
                shards@.len() == i,
                forall|j: int| 0 <= j < i ==> (#[trigger] shards@[j]).wf(),
                forall|j: int| 0 <= j < i ==> (#[trigger] shards@[j])@.len() == 0,
                forall|j: int| 0 <= j < i ==> (#[trigger] shards@[j]).spec_capacity() == caps@[j],
            decreases caps@.len() - i,
        {
            shards.push(Shard::new(caps[i]));
            i += 1;
        }
        let cache = ShardedLruCache { shards };
        proof {
            assert(cache.capacities() =~= caps@);
        }
        cache
    }

    /// The shard that `key` lives in.
    fn shard_index(&self, key: &K) -> (idx: usize)
        requires
            self.wf(),
        ensures
            idx == shard_of(*key, self@.len() as int),
            idx < self@.len(),
    {
        shard_for(key, self.shards.len())
    }

    /// Looks `key` up in its shard. A hit hands back a clone of the value
    /// and makes `key` the most recently used key of that shard; a miss
    /// changes nothing.
    pub fn get(&mut self, key: &K) -> (result: Option<V>) where V: Clone
        requires
            old(self).wf(),
        ensures
            final(self).wf(),
            final(self).capacities() == old(self).capacities(),
            ({
                let s = shard_of(*key, old(self)@.len() as int);
                match find(old(self)@[s], *key) {
                    Some(i) => result is Some && cloned(old(self)@[s][i].1, result.unwrap())
                        && final(self)@ == old(self)@.update(
                        s,
                        moved_to_front(old(self)@[s], i),
                    ),
                    None => result is None && final(self)@ == old(self)@,
                }
            }),
    {
        let idx = self.shard_index(key);
        let ghost before = self@;
        let ghost caps = self.capacities();
        let result = self.shards[idx].get(key);
        proof {
            let s = idx as int;
            assert(self.capacities() =~= caps);
            match find(before[s], *key) {
                Some(i) => {
                    assert(self@ =~= before.update(s, moved_to_front(before[s], i)));
                    assert forall|j: int| 0 <= j < self@[s].len() implies shard_of(
                        (#[trigger] self@[s][j]).0,
                        self@.len() as int,
                    ) == s by {
                        if j == 0 {
                            assert(self@[s][j] == before[s][i]);
                        } else if j <= i {
                            assert(self@[s][j] == before[s][j - 1]);
                        } else {
                            assert(self@[s][j] == before[s][j]);
                        }
                    }
                },
                None => {
                    assert(self@ =~= before);
                },
            }
        }
        result
    }

    /// Stores `value` under `key` in its shard and makes `key` the most
    /// recently used key there. A new key that finds its shard full pushes
    /// out the least recently used pair of that shard.
    pub fn put(&mut self, key: K, value: V)
        requires
            old(self).wf(),
        ensures
            final(self).wf(),
            final(self).capacities() == old(self).capacities(),
            ({
                let s = shard_of(key, old(self)@.len() as int);
                final(self)@ == old(self)@.update(
                    s,
                    after_put(old(self)@[s], key, value, old(self).capacities()[s] as int),
                )
            }),
    {
        let idx = self.shard_index(&key);
        let ghost before = self@;
        let ghost caps = self.capacities();
        self.shards[idx].put(key, value);
        proof {
            let s = idx as int;
            let list = before[s];
            let now = after_put(list, key, value, caps[s] as int);
            assert(self.capacities() =~= caps);
            assert(self@ =~= before.update(s, now));
        }
    }

    /// The number of pairs in all shards.
    pub fn len(&self) -> (n: usize)
        requires
            self.wf(),
        ensures
            n == len_upto(self@, self@.len() as int),
            n <= sum_upto(self.capacities(), self@.len() as int),
    {
        let mut n: usize = 0;
        let mut i: usize = 0;
        proof {
            lemma_len_within_sum(self@, self.capacities(), self@.len() as int);
        }
        while i < self.shards.len()
            invariant
                self.wf(),
                i <= self@.len(),
                self@.len() == self.shards@.len(),
                n == len_upto(self@, i as int),
                len_upto(self@, self@.len() as int) <= usize::MAX,
            decreases self@.len() - i,
        {
            proof {
                lemma_len_within_sum(self@, self.capacities(), i + 1);
                lemma_sum_monotone(self.capacities(), i + 1, self@.len() as int);
            }
            n += self.shards[i].len();
            i += 1;
        }
        n
    }

    /// Whether no shard holds a pair.
    pub fn is_empty(&self) -> (empty: bool)
        requires
            self.wf(),
        ensures
            empty == (len_upto(self@, self@.len() as int) == 0),
    {
        self.len() == 0
    }

    /// The room of all shards together.
    pub fn total_capacity(&self) -> (n: usize)
        requires
            self.wf(),
        ensures
            n == sum_upto(self.capacities(), self@.len() as int),
    {
        let mut n: usize = 0;
        let mut i: usize = 0;
        while i < self.shards.len()
            invariant
                self.wf(),
                i <= self@.len(),
                self@.len() == self.shards@.len(),
                n == sum_upto(self.capacities(), i as int),
            decreases self@.len() - i,
        {
            proof {
                lemma_sum_monotone(self.capacities(), i + 1, self@.len() as int);
            }
            n += self.shards[i].capacity();
            i += 1;
        }
        n
    }

    /// The keys of each shard, most recently used first, shard after shard.
    pub fn debug_order(&self) -> (out: Vec<K>)
        requires
            self.wf(),
        ensures
            out@ == keys_upto(self@, self@.len() as int),
    {
        let mut out: Vec<K> = Vec::new();
        let mut i: usize = 0;
        while i < self.shards.len()
            invariant
                self.wf(),
                i <= self@.len(),
                self@.len() == self.shards@.len(),
                out@ == keys_upto(self@, i as int),
            decreases self@.len() - i,
        {
            let mut keys = self.shards[i].order();
            out.append(&mut keys);
            i += 1;
        }
        out
    }
}

} // verus!
