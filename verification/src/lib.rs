//! An in-memory key-value cache with a combined eviction policy: items that
//! are due (expired against a caller-supplied barrier) are reclaimed first;
//! absent any due item, the least-important item (lowest priority class,
//! least-recently-used within that class) is reclaimed.

mod engine;
mod laws;
mod model;
mod recency;

pub use engine::PECache;
pub use laws::lemma_empty_cache;
pub use laws::lemma_evict_fallback_priority;
pub use laws::lemma_evict_prefers_due;
pub use laws::lemma_evict_target_unique;
pub use laws::lemma_len_counts_reachable;
pub use laws::lemma_overwrite;
pub use laws::lemma_remove_coherent;
pub use laws::lemma_set_coherent;
pub use laws::lemma_set_then_get;
pub use laws::lemma_touch_coherent;
pub use laws::lemma_touch_shields_from_lru;

pub use model::Model;
pub use model::Rec;
pub use model::coherent;
pub use model::due_exists;
pub use model::is_evict_target;
pub use model::is_min_expiry;
pub use model::is_min_priority;
pub use model::lex_lt;
pub use model::lookup;
pub use model::model_empty;
pub use model::model_remove;
pub use model::model_set;
pub use model::model_touch;
pub use model::remove_key;
