//! How composite indexes are kept: a log of their changes, and snapshots.
pub mod index_log;
pub mod index_recovery;
pub mod index_snapshot;
pub mod index_storage;
