//! Byte-level encodings that the formats share.
pub mod decimal;
pub mod fixed;
pub mod frame;
pub mod layout;
pub mod sort;
pub mod varint;
