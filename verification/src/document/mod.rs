//! Documents: the values of their fields and the bytes that hold them.
pub mod compare;
pub mod decoded;
pub mod firelite_doc;
pub mod format;
pub mod json;
pub mod json_back;
pub mod json_read;
pub mod json_text;
pub mod number;
pub mod ordering;
pub mod parts;
pub mod search;
pub mod value;
