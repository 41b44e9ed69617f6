//! The cache, what it holds, and what holds of it.

pub mod cache;
pub mod expiry;
pub mod inner;
pub mod invariants;
pub mod laws;
pub mod order;
pub mod places;
pub mod reclaim;
pub mod runs;
pub mod state;
pub mod steps;

pub use crate::sync::cache::Cache;
