//! The store: its collections, what may be done with them, and what follows from a write.
pub mod access;
pub mod batches;
pub mod catalog;
pub mod collections;
pub mod durability;
pub mod engine;
pub mod files;
pub mod freshness;
pub mod ids;
pub mod marks;
pub mod recovery;
pub mod remote;
pub mod returning;
pub mod rules;
pub mod scope;
pub mod stats;
pub mod store;
pub mod transaction;
pub mod types;
pub mod upkeep;
pub mod versions;
pub mod worker;
pub mod write;

pub use types::{
    AccessOp, AuditEntry, BatchMutation, ChangeEvent, ChangeKind, CompositeIndexFieldInfo, CompositeIndexInfo, IndexList,
    IndexOp, QuiescenceStatus, SecurityRule,
};
