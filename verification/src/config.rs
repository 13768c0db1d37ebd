//! How a store is set up.
use vstd::prelude::*;

verus! {

/// When written data is forced to disk.
#[derive(Debug, Clone, Copy, PartialEq, Eq, Structural)]
pub enum DurabilityMode {
    Always,
    Interval,
    Manual,
    OnCommit,
}

/// The settings of a store.
#[derive(Debug)]
pub struct HakoConfig {
    pub mmap_size: usize,
    pub page_size: usize,
    pub page_cache_capacity: usize,
    pub query_workers: usize,
    pub auto_compaction_threshold_bytes: usize,
    pub durability_mode: DurabilityMode,
    pub group_commit_max_ops: usize,
    pub encryption_key: Option<String>,
    /// The collections that are encrypted; none listed means all.
    pub encrypted_cols: Option<Vec<String>>,
    pub enable_audit_log: bool,
    pub audit_log_path: Option<String>,
    pub max_inlined_memory_bytes: usize,
    pub use_compression: bool,
    pub compression_level: i32,
    pub value_blob_threshold_bytes: usize,
    pub replication_collections: Option<Vec<String>>,
    /// Room that is reserved ahead of the write position of the log; 0 for none.
    pub wal_reserve_bytes: u64,
    /// Whether checkpoints, compaction and snapshots run by themselves.
    pub background_maintenance: bool,
    /// Collections that never replicate, besides the built-in ones.
    pub sync_excluded: Vec<String>,
}

/// The settings of a store that was given none.
pub open spec fn default_settings(c: HakoConfig) -> bool {
    &&& c.mmap_size == 268435456
    &&& c.page_size == 4096
    &&& c.page_cache_capacity == 8192
    &&& c.query_workers == 4
    &&& c.auto_compaction_threshold_bytes == 8388608
    &&& c.durability_mode == DurabilityMode::Interval
    &&& c.group_commit_max_ops == 128
    &&& c.encryption_key is None
    &&& c.encrypted_cols is None
    &&& !c.enable_audit_log
    &&& c.audit_log_path is None
    &&& c.max_inlined_memory_bytes == 67108864
    &&& !c.use_compression
    &&& c.compression_level == 3
    &&& c.value_blob_threshold_bytes == 16384
    &&& c.replication_collections is None
    &&& c.wal_reserve_bytes == 4194304
    &&& c.background_maintenance
    &&& c.sync_excluded@.len() == 0
}

impl Default for HakoConfig {
    fn default() -> (c: HakoConfig)
        ensures
            default_settings(c),
    {
        HakoConfig {
            mmap_size: 256 * 1024 * 1024,
            page_size: 4096,
            page_cache_capacity: 8192,
            query_workers: 4,
            auto_compaction_threshold_bytes: 8 * 1024 * 1024,
            durability_mode: DurabilityMode::Interval,
            group_commit_max_ops: 128,
            encryption_key: None,
            encrypted_cols: None,
            enable_audit_log: false,
            audit_log_path: None,
            max_inlined_memory_bytes: 64 * 1024 * 1024,
            use_compression: false,
            compression_level: 3,
            value_blob_threshold_bytes: 16 * 1024,
            replication_collections: None,
            wal_reserve_bytes: 4 * 1024 * 1024,
            background_maintenance: true,
            sync_excluded: Vec::new(),
        }
    }
}

impl DurabilityMode {
    /// The mode with a number: 1 for `Interval`, 2 for `Manual`, 3 for `OnCommit`, and
    /// `Always` for any other.
    pub fn from_number(mode: i32) -> (m: DurabilityMode)
        ensures
            m == (if mode == 1 {
                DurabilityMode::Interval
            } else if mode == 2 {
                DurabilityMode::Manual
            } else if mode == 3 {
                DurabilityMode::OnCommit
            } else {
                DurabilityMode::Always
            }),
    {
        match mode {
            1 => DurabilityMode::Interval,
            2 => DurabilityMode::Manual,
            3 => DurabilityMode::OnCommit,
            _ => DurabilityMode::Always,
        }
    }
}

} // verus!
