//! Bounded key/value caches with least-recently-used style eviction.
//!
//! Three engines live here, each proved against a mathematical model of its
//! contents:
//!
//! * [`fold_cache::LRUCache`]: a flat slot table cut into folds, evicting the
//!   slot with the fewest hits. Its model is in [`slots`], its cells in
//!   [`cells`], what holds across its calls in [`fold_laws`], and the steps
//!   by which a slot changes hands in [`protocol`].
//! * [`lru::LruCache`]: exact recency order over one list.
//! * [`sharded::ShardedLruCache`]: exact recency order inside each shard.
//!
//! The two exact caches are built on [`shard::Shard`], a recency list of
//! bounded length.
//!
//! Every engine is a single-owner value: mutation goes through `&mut self`.
//! Sharing one between threads is the caller's business.

pub mod cells;
pub mod fold_cache;
pub mod fold_laws;
pub mod lru;
pub mod protocol;
pub mod shard;
pub mod sharded;
pub mod slots;
