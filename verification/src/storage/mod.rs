//! What a collection keeps: its keys and where their documents lie, the operations of
//! its log, and the values that are kept aside.
pub mod blob;
pub mod pointer;
pub mod shard;
pub mod wal;
