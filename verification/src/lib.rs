//! An embedded document store: documents and their binary form, secondary,
//! full-text and composite indexes, and the rules by which replicas exchange
//! their changes.
pub mod document;
pub mod cloud_sync;
pub mod composite;
pub mod config;
pub mod directory;
pub mod engine;
pub mod error;
pub mod executor;
pub mod ffi;
pub mod index;
pub mod log;
pub mod memory;
pub mod net_sync;
pub mod order;
pub mod query;
pub mod sorted_map;
pub mod storage;
pub mod sync_guard;
pub mod text;
pub mod util;

pub use order::Order;
