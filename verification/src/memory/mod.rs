//! Blocks of bytes in memory: pages, arenas, a mapped file, and a cache of blocks.
pub mod allocator;
pub mod arena;
pub mod doc_view;
pub mod memory_engine;
pub mod mmap_store;
pub mod page;
pub mod page_cache;
