//! Multi-version concurrency: every write makes a new version of its key.

pub mod version;
pub mod store;
pub mod isolation;
pub mod select;
pub mod transaction;
pub mod gc;
pub mod ttl;
