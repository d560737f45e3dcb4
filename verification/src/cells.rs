//! Word-sized storage cells: what a slot of the fold cache keeps its key and
//! its value in.

use vstd::prelude::*;

verus! {

/// A word-sized storage cell. The cache owns its cells, so a write goes
/// through `&mut self`.
pub trait AtomicStorage {
    /// The word the cell holds.
    spec fn value(&self) -> usize;

    /// Reads the word.
    fn load(&self) -> (v: usize)
        ensures
            v == self.value(),
    ;

    /// Writes `val` over the word.
    fn store(&mut self, val: usize)
        ensures
            final(self).value() == val,
    ;

    /// Adds `val`, wrapping around on overflow, and returns the word held
    /// before.
    fn fetch_add(&mut self, val: usize) -> (prev: usize)
        ensures
            prev == old(self).value(),
            final(self).value() == wrapped_sum(old(self).value(), val),
    ;
}

/// `a + b` reduced modulo the range of `usize`.
pub open spec fn wrapped_sum(a: usize, b: usize) -> usize {
    if a + b > usize::MAX {
        (a + b - usize::MAX - 1) as usize
    } else {
        (a + b) as usize
    }
}

/// The plain cell: one `usize`.
pub struct UsizeCell {
    pub word: usize,
}

impl UsizeCell {
    /// A cell that holds `word`.
    pub fn new(word: usize) -> (cell: Self)
        ensures
            cell.word == word,
    {
        UsizeCell { word }
    }
}

impl Default for UsizeCell {
    /// A cell that holds zero.
    fn default() -> (cell: Self)
        ensures
            cell.word == 0,
    {
        UsizeCell { word: 0 }
    }
}

impl AtomicStorage for UsizeCell {
    open spec fn value(&self) -> usize {
        self.word
    }

    fn load(&self) -> (v: usize) {
        self.word
    }

    fn store(&mut self, val: usize) {
        self.word = val;
    }

    fn fetch_add(&mut self, val: usize) -> (prev: usize) {
        let prev = self.word;
        self.word = prev.wrapping_add(val);
        prev
    }
}

/// The cell that holds a slot's key.
pub struct LRUKey<T> {
    pub key: T,
}

/// The cell that holds a slot's value.
pub struct LRUValue<T> {
    pub value: T,
}

} // verus!
