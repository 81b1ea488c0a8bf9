//! An open-addressing hash container in the SwissTable style: a one-byte
//! control array drives probing, deletion leaves tombstones, and the table
//! grows or shrinks when the load factor crosses fixed thresholds. A
//! window-based matcher offers an alternative lookup path that is proved to
//! return the same answer as the scalar probe loop.

pub mod engine;
pub mod flat_hash_map;
pub mod flat_hash_map_simd;
pub mod flat_hash_set;
pub mod hashable;
pub mod interpretable;
pub mod laws;

pub use flat_hash_map::AFHM;
pub use flat_hash_map_simd::AFHM_SIMD;
pub use flat_hash_set::AFHS;
pub use hashable::Hashable;
pub use interpretable::{Instr, Interpretable, Op};
