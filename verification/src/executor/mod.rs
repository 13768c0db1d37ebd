//! Queries that wait for workers.
pub mod executor;
pub mod result_stream;
pub mod scheduler;
pub mod task;
