//! Verified storage engine for a multi-tenant synchronized-object store.
//!
//! Basic Storage Objects (BSOs) are versioned items grouped into named,
//! per-user collections. The engine provides collection-id resolution with a
//! read-through cache, per-collection read/write locking with
//! timestamp-based conflict detection, and the BSO CRUD/query operations
//! (filtering, sorting, pagination, batch upsert, usage accounting).

mod error;
pub mod cache;
pub mod laws;
pub mod params;
pub mod results;
pub mod rows;
pub mod settings;
pub mod sorting;
pub mod store;
mod timestamp;

pub use error::DbError;
pub use store::{CollectionLock, MysqlDb};
pub use timestamp::SyncTimestamp;
