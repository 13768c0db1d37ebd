//! What callers of the C interface get: handles, numbers and the last error.
pub mod answers;
pub mod documents;
pub mod last_error;
pub mod nodes;
pub mod queries;
pub mod settings;
pub mod stores;
