//! What the cache is built from.

pub mod clock;
pub mod deque;
pub mod deques;
pub mod entry;
pub mod frequency_sketch;
pub mod housekeeper;
pub mod key_hasher;
pub mod op_log;
pub mod records;
pub mod store;
