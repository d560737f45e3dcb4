//! How one slot changes hands, step by step, and what a reader that looks at
//! the slot between two steps makes of it.
//!
//! A writer changes one cell of a slot at a time. A new pair is published in
//! three steps: the key is cleared, the value is written, the key is set. A
//! reader reads the key, the value, and the key once more, and takes the
//! value only if both keys are the one it looks for. Read against a single
//! `put`, this never pairs a key with the value of another key.

use crate::slots::{bump, Slot};
use vstd::prelude::*;

verus! {

/// The states that a slot holding `old` passes through while `put` updates
/// the value under its key: first the value, then the hit counter.
pub open spec fn update_states(old: Slot, value: usize) -> Seq<Slot> {
    seq![
        old,
        Slot { key: old.key, value, hits: old.hits },
        Slot { key: old.key, value, hits: bump(old.hits) },
    ]
}

/// The states that a slot holding `old` passes through while `put` publishes
/// a new pair into it: the key is cleared, the value is written, the key is
/// set, and the hit counter starts over.
pub open spec fn publish_states(old: Slot, key: usize, value: usize) -> Seq<Slot> {
    seq![
        old,
        Slot { key: 0, value: old.value, hits: old.hits },
        Slot { key: 0, value, hits: old.hits },
        Slot { key, value, hits: old.hits },
        Slot { key, value, hits: 1 },
    ]
}

/// What a reader of `key` takes from a slot of which it read the key as
/// `first`, then the value as `value`, then the key again as `second`.
pub open spec fn accepted(key: usize, first: usize, value: usize, second: usize) -> Option<usize> {
    if key != 0 && first == key && second == first {
        Some(value)
    } else {
        None
    }
}

/// A read against one update of a slot takes the value from before or the
/// value from after, and only under the key of the slot.
pub proof fn lemma_update_never_tears(
    old: Slot,
    value: usize,
    reader: usize,
    a: int,
    b: int,
    c: int,
)
    requires
        0 <= a <= b <= c < 3,
    ensures
        ({
            let states = update_states(old, value);
            match accepted(reader, states[a].key, states[b].value, states[c].key) {
                Some(v) => reader == old.key && (v == old.value || v == value),
                None => true,
            }
        }),
{
}

/// A read against one publish into a slot never pairs a key with another
/// key's value: it takes the old value under the old key, or the new value
/// under the new key, or nothing.
pub proof fn lemma_publish_never_tears(
    old: Slot,
    key: usize,
    value: usize,
    reader: usize,
    a: int,
    b: int,
    c: int,
)
    requires
        0 <= a <= b <= c < 5,
        key != 0,
    ensures
        ({
            let states = publish_states(old, key, value);
            match accepted(reader, states[a].key, states[b].value, states[c].key) {
                Some(v) => (reader == old.key && v == old.value) || (reader == key && v
                    == value),
                None => true,
            }
        }),
{
}

} // verus!
