//! Indexes over the documents of a collection.
pub mod completeness;
pub mod composite;
pub mod index_key;
pub mod inverted_index;
pub mod manager;
pub mod postings;
pub mod saved_state;
pub mod scans;
pub mod secondary_index;
pub mod service;
pub mod storage;
