//! A read-through account cache that coalesces concurrent misses on one key
//! into a single origin fetch, together with the small client-side balancing
//! helpers that sit next to it.
pub mod text;
pub mod record;
pub mod metrics;
pub mod cache_aside;
pub mod flight;
pub mod singleflight;
pub mod balance;
