//! Sparse containers addressed by generational keys.
pub mod algo;
pub mod arena;
pub mod asserts;
pub mod entry;
pub mod error;
pub mod item;
pub mod key;
pub mod set;
pub mod set_entry;
