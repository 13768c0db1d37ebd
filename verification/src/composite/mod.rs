//! Composite indexes of collections that go by a number.
pub mod composite_index;
pub mod composite_matcher;
pub mod composite_planner;
pub mod definition;
pub mod key_encoder;
pub mod keys;
pub mod manager;
pub mod prefix_scan;
pub mod range_builder;
