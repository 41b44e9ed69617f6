//! A bounded in-memory cache. Admission goes by the frequency of use, eviction
//! by the recency of use, and entries can expire.

pub mod common;
pub mod sync;
