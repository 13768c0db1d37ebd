//! Indexes over several fields of a collection, in one sort direction each.
pub mod composite_index;
pub mod definition;
pub mod key_encoder;
pub mod lookups;
pub mod manager;
pub mod prefix_scan;
pub mod range_builder;
