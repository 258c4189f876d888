//! A fixed-capacity, in-process key-value cache with least-recently-used
//! eviction.
//!
//! The cache couples two structures and keeps them consistent under every
//! operation: a recency chain (a doubly linked ordering of entries held in an
//! arena of stable slots) and a hash index from key to slot. Lookup,
//! insertion, update and eviction all run in constant time apart from
//! hashing.

mod cache;
mod list;
mod model;

pub use cache::LRU;
pub use list::List;
pub use model::cap;
pub use model::contains_key_at;
pub use model::entries_contain_key;
pub use model::key_index;
pub use model::keys_distinct;
pub use model::lemma_put_bounds_len;
pub use model::lemma_put_evicts_back;
pub use model::lemma_put_moves_key_to_front;
pub use model::lemma_put_respects_max;
pub use model::lemma_touch_keeps_keys;
pub use model::lemma_touch_moves_key_to_front;
pub use model::lemma_update_keeps_len;
pub use model::put_result;
pub use model::touch_result;
