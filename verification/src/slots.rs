//! The slot table of the fold cache as a sequence of slots: how it is cut
//! into folds, which slot holds a key, and which slot a new key takes.

use vstd::prelude::*;

verus! {

/// What one slot of the table holds. `key == 0` means the slot is empty.
pub struct Slot {
    pub key: usize,
    pub value: usize,
    pub hits: usize,
}

/// The hit counter after one more hit. It stops at `usize::MAX`, so a counter
/// never goes down between two writes of its slot.
pub open spec fn bump(hits: usize) -> usize {
    if hits == usize::MAX {
        hits
    } else {
        (hits + 1) as usize
    }
}

/// First slot of fold `fold`.
pub open spec fn fold_start(capacity: int, num_folds: int, fold: int) -> int {
    fold * (capacity / num_folds)
}

/// One past the last slot of fold `fold`. The last fold takes the remainder.
pub open spec fn fold_end(capacity: int, num_folds: int, fold: int) -> int {
    if fold == num_folds - 1 {
        capacity
    } else {
        (fold + 1) * (capacity / num_folds)
    }
}

/// `i` is the slot of `s` within `[lo, hi)` that holds `key`, and no slot
/// before it in that range does.
pub open spec fn first_at(s: Seq<Slot>, lo: int, hi: int, key: usize, i: int) -> bool {
    &&& lo <= i < hi
    &&& s[i].key == key
    &&& forall|j: int| lo <= j < i ==> (#[trigger] s[j]).key != key
}

/// The first slot within `[lo, hi)` that holds `key`, if there is one.
pub open spec fn first_index(s: Seq<Slot>, lo: int, hi: int, key: usize) -> Option<int> {
    if exists|i: int| first_at(s, lo, hi, key, i) {
        Some(choose|i: int| first_at(s, lo, hi, key, i))
    } else {
        None
    }
}

/// `i` is the slot within `[lo, hi)` with the fewest hits, the lowest index
/// among equals.
pub open spec fn victim_at(s: Seq<Slot>, lo: int, hi: int, i: int) -> bool {
    &&& lo <= i < hi
    &&& forall|j: int| lo <= j < hi ==> s[i].hits <= (#[trigger] s[j]).hits
    &&& forall|j: int| lo <= j < i ==> s[i].hits < (#[trigger] s[j]).hits
}

/// The slot that eviction picks within `[lo, hi)`.
pub open spec fn victim_index(s: Seq<Slot>, lo: int, hi: int) -> int {
    choose|i: int| victim_at(s, lo, hi, i)
}

/// The slot that a new key goes to within `[lo, hi)`: the first empty one,
/// else the victim.
pub open spec fn target_index(s: Seq<Slot>, lo: int, hi: int) -> int {
    match first_index(s, lo, hi, 0) {
        Some(i) => i,
        None => victim_index(s, lo, hi),
    }
}

/// Number of occupied slots among the first `n` of `s`.
pub open spec fn occupied(s: Seq<Slot>, n: int) -> nat
    decreases n,
{
    if n <= 0 {
        0
    } else {
        occupied(s, n - 1) + if s[n - 1].key != 0 {
            1nat
        } else {
            0nat
        }
    }
}

/// A slot known to be the first holding `key` is what `first_index` names.
pub proof fn lemma_first_index_is(s: Seq<Slot>, lo: int, hi: int, key: usize, i: int)
    requires
        first_at(s, lo, hi, key, i),
    ensures
        first_index(s, lo, hi, key) == Some(i),
{
}

/// Where no slot of the range holds `key`, `first_index` names none.
pub proof fn lemma_first_index_none(s: Seq<Slot>, lo: int, hi: int, key: usize)
    requires
        forall|j: int| lo <= j < hi ==> (#[trigger] s[j]).key != key,
    ensures
        first_index(s, lo, hi, key) is None,
{
}

/// There is at most one victim.
pub proof fn lemma_victim_unique(s: Seq<Slot>, lo: int, hi: int, i: int, j: int)
    requires
        victim_at(s, lo, hi, i),
        victim_at(s, lo, hi, j),
    ensures
        i == j,
{
    if i < j {
        assert(s[j].hits < s[i].hits);
        assert(s[i].hits <= s[j].hits);
    } else if j < i {
        assert(s[i].hits < s[j].hits);
        assert(s[j].hits <= s[i].hits);
    }
}

/// A slot known to be the victim is what `victim_index` names.
pub proof fn lemma_victim_index_is(s: Seq<Slot>, lo: int, hi: int, i: int)
    requires
        victim_at(s, lo, hi, i),
    ensures
        victim_index(s, lo, hi) == i,
{
    let c = choose|c: int| victim_at(s, lo, hi, c);
    lemma_victim_unique(s, lo, hi, i, c);
}

/// The folds tile the table: each lies inside it, is non-empty, and ends
/// where the next one starts.
pub proof fn lemma_fold_bounds(capacity: int, num_folds: int, fold: int)
    requires
        0 < num_folds <= capacity,
        0 <= fold < num_folds,
    ensures
        0 <= fold_start(capacity, num_folds, fold) < fold_end(capacity, num_folds, fold)
            <= capacity,
        fold + 1 < num_folds ==> fold_end(capacity, num_folds, fold) == fold_start(
            capacity,
            num_folds,
            fold + 1,
        ),
        fold_start(capacity, num_folds, 0) == 0,
        fold_end(capacity, num_folds, num_folds - 1) == capacity,
        fold + 1 < num_folds ==> fold_end(capacity, num_folds, fold) - fold_start(
            capacity,
            num_folds,
            fold,
        ) == capacity / num_folds,
        fold + 1 == num_folds ==> fold_end(capacity, num_folds, fold) - fold_start(
            capacity,
            num_folds,
            fold,
        ) == capacity / num_folds + capacity % num_folds,
{
    let size = capacity / num_folds;
    assert(size >= 1 && size * num_folds <= capacity && capacity == size * num_folds + capacity
        % num_folds) by (nonlinear_arith)
        requires
            0 < num_folds <= capacity,
            size == capacity / num_folds,
    ;
    assert(0 <= fold * size && fold * size + size <= size * num_folds && (fold + 1) * size
        == fold * size + size && (fold + 1 == num_folds ==> fold * size + size == size
        * num_folds)) by (nonlinear_arith)
        requires
            0 <= fold < num_folds,
            size >= 1,
    ;
}

/// A range that holds `key` somewhere has a first slot holding it.
pub proof fn lemma_first_exists(s: Seq<Slot>, lo: int, hi: int, key: usize, j: int)
    requires
        lo <= j < hi,
        s[j].key == key,
    ensures
        first_index(s, lo, hi, key) is Some,
        first_at(s, lo, hi, key, first_index(s, lo, hi, key).unwrap()),
        first_index(s, lo, hi, key).unwrap() <= j,
    decreases j - lo,
{
    if exists|k: int| lo <= k < j && s[k].key == key {
        let k = choose|k: int| lo <= k < j && s[k].key == key;
        lemma_first_exists(s, lo, hi, key, k);
    } else {
        assert(first_at(s, lo, hi, key, j));
        lemma_first_index_is(s, lo, hi, key, j);
    }
}

/// What `first_index` names is the first slot holding `key`; where it names
/// none, no slot of the range holds `key`.
pub proof fn lemma_first_index_sound(s: Seq<Slot>, lo: int, hi: int, key: usize)
    ensures
        match first_index(s, lo, hi, key) {
            Some(i) => first_at(s, lo, hi, key, i),
            None => forall|j: int| lo <= j < hi ==> (#[trigger] s[j]).key != key,
        },
{
    if first_index(s, lo, hi, key) is None {
        assert forall|j: int| lo <= j < hi implies (#[trigger] s[j]).key != key by {
            if s[j].key == key {
                lemma_first_exists(s, lo, hi, key, j);
            }
        }
    }
}

/// Every non-empty range has a victim, and `victim_index` names it.
pub proof fn lemma_victim_exists(s: Seq<Slot>, lo: int, hi: int)
    requires
        lo < hi,
    ensures
        victim_at(s, lo, hi, victim_index(s, lo, hi)),
    decreases hi - lo,
{
    if lo + 1 == hi {
        assert(victim_at(s, lo, hi, lo));
    } else {
        lemma_victim_exists(s, lo, hi - 1);
        let v = victim_index(s, lo, hi - 1);
        if s[hi - 1].hits < s[v].hits {
            assert(victim_at(s, lo, hi, hi - 1));
        } else {
            assert(victim_at(s, lo, hi, v));
        }
    }
}

/// The slot that a new key goes to lies in the range. It is the first empty
/// slot, or, where the range is full, the victim.
pub proof fn lemma_target_in_range(s: Seq<Slot>, lo: int, hi: int)
    requires
        lo < hi,
    ensures
        lo <= target_index(s, lo, hi) < hi,
        first_at(s, lo, hi, 0, target_index(s, lo, hi)) || ((forall|j: int|
            lo <= j < hi ==> (#[trigger] s[j]).key != 0) && victim_at(
            s,
            lo,
            hi,
            target_index(s, lo, hi),
        )),
{
    lemma_first_index_sound(s, lo, hi, 0);
    lemma_victim_exists(s, lo, hi);
}

/// No more slots are occupied than there are.
pub proof fn lemma_occupied_bounded(s: Seq<Slot>, n: int)
    ensures
        occupied(s, n) <= if n <= 0 {
            0
        } else {
            n
        },
    decreases n,
{
    if n > 0 {
        lemma_occupied_bounded(s, n - 1);
    }
}

/// Where the first `n` slots are empty, none is occupied.
pub proof fn lemma_occupied_none(s: Seq<Slot>, n: int)
    requires
        forall|j: int| 0 <= j < n ==> (#[trigger] s[j]).key == 0,
    ensures
        occupied(s, n) == 0,
    decreases n,
{
    if n > 0 {
        lemma_occupied_none(s, n - 1);
    }
}

} // verus!
