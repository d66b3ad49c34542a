//! Record processing primitives: a time-to-live cache of record
//! collections and bulk filter, search, statistics and sort operations
//! over string-keyed records.
pub mod cache;
pub mod engine;
pub mod record;
