//! Settings in the hands of callers.
use vstd::prelude::*;
use vstd::string::*;

use crate::config::{default_settings, DurabilityMode, HakoConfig};
use crate::document::firelite_doc::names_view;
use crate::document::json_read::{json_names, parse_names};
use crate::ffi::last_error::{arg_text, cstr_to_string};

verus! {

/// The settings of a store that is to be opened.
#[allow(non_camel_case_types)]
pub struct FL_Config {
    pub inner: HakoConfig,
}

/// A text, where one was handed over.
pub open spec fn given(bytes: Option<&[u8]>) -> Option<Seq<char>> {
    match arg_text(bytes) {
        Ok(s) => Some(s),
        Err(_) => None,
    }
}

/// What a text that may be missing stands for.
pub open spec fn text_model(s: Option<String>) -> Option<Seq<char>> {
    match s {
        Some(t) => Some(t@),
        None => None,
    }
}

/// A text, where one was handed over.
fn given_text(bytes: Option<&[u8]>) -> (r: Option<String>)
    ensures
        text_model(r) == given(bytes),
{
    match cstr_to_string(bytes) {
        Ok(s) => Some(s),
        Err(_) => None,
    }
}

/// The default settings.
pub fn fl_config_new() -> (c: FL_Config)
    ensures
        default_settings(c.inner),
{
    FL_Config { inner: HakoConfig::default() }
}

/// Sets when writes reach the disk: 1 for `Interval`, 2 for `Manual`, 3 for `OnCommit`, and
/// `Always` for any other number.
pub fn fl_config_set_durability(config: Option<&mut FL_Config>, mode: i32)
    ensures
        config matches Some(c) ==> final(c).inner == (HakoConfig {
            durability_mode: if mode == 1 {
                DurabilityMode::Interval
            } else if mode == 2 {
                DurabilityMode::Manual
            } else if mode == 3 {
                DurabilityMode::OnCommit
            } else {
                DurabilityMode::Always
            },
            ..c.inner
        }),
{
    if let Some(c) = config {
        c.inner.durability_mode = DurabilityMode::from_number(mode);
    }
}

/// Sets the key for encryption; none where no text is handed over.
pub fn fl_config_set_encryption_key(config: Option<&mut FL_Config>, key: Option<&[u8]>)
    ensures
        config matches Some(c) ==> {
            &&& final(c).inner == (HakoConfig { encryption_key: final(c).inner.encryption_key, ..c.inner })
            &&& text_model(final(c).inner.encryption_key) == given(key)
        },
{
    if let Some(c) = config {
        c.inner.encryption_key = given_text(key);
    }
}

/// Sets which collections are encrypted, where their names could be had.
pub fn encrypt_collections(config: Option<&mut FL_Config>, collections: Option<Vec<String>>) -> (n: i32)
    ensures
        n == (if config is Some && collections is Some {
            0int
        } else {
            -1int
        }),
        config matches Some(c) ==> final(c).inner == (if collections is Some {
            HakoConfig { encrypted_cols: collections, ..c.inner }
        } else {
            c.inner
        }),
{
    match (config, collections) {
        (Some(c), Some(list)) => {
            c.inner.encrypted_cols = Some(list);
            0
        },
        _ => -1,
    }
}

/// The names that a text in JSON holds, where one was handed over.
pub open spec fn given_names(text: Option<&[u8]>) -> Option<Seq<Seq<char>>> {
    match arg_text(text) {
        Ok(s) => json_names(s),
        Err(_) => None,
    }
}

/// Sets which collections are encrypted: those whose names a text in JSON lists. A text that
/// holds no list of names changes nothing.
pub fn fl_config_set_encrypted_collections(config: Option<&mut FL_Config>, text: Option<&[u8]>) -> (n: i32)
    ensures
        config is None ==> n == -1,
        config matches Some(c) ==> match given_names(text) {
            Some(names) => {
                &&& n == 0
                &&& final(c).inner.encrypted_cols matches Some(list) && names_view(list@) == names
                &&& final(c).inner == (HakoConfig { encrypted_cols: final(c).inner.encrypted_cols, ..c.inner })
            },
            None => n == -1 && final(c).inner == c.inner,
        },
{
    let names = match cstr_to_string(text) {
        Ok(s) => parse_names(s.as_str()),
        Err(_) => None,
    };
    encrypt_collections(config, names)
}

/// Sets whether and where an audit is kept.
pub fn fl_config_set_audit_log(config: Option<&mut FL_Config>, enabled: bool, path: Option<&[u8]>)
    ensures
        config matches Some(c) ==> {
            &&& final(c).inner == (HakoConfig {
                enable_audit_log: enabled,
                audit_log_path: final(c).inner.audit_log_path,
                ..c.inner
            })
            &&& text_model(final(c).inner.audit_log_path) == given(path)
        },
{
    if let Some(c) = config {
        c.inner.enable_audit_log = enabled;
        c.inner.audit_log_path = given_text(path);
    }
}

/// Sets how many workers answer queries.
pub fn fl_config_set_query_workers(config: Option<&mut FL_Config>, count: usize)
    ensures
        config matches Some(c) ==> final(c).inner == (HakoConfig { query_workers: count, ..c.inner }),
{
    if let Some(c) = config {
        c.inner.query_workers = count;
    }
}

/// Sets how much memory is used.
pub fn fl_config_set_memory_limits(config: Option<&mut FL_Config>, mmap_size: usize, max_inlined_bytes: usize)
    ensures
        config matches Some(c) ==> final(c).inner == (HakoConfig { mmap_size, max_inlined_memory_bytes: max_inlined_bytes, ..c.inner }),
{
    if let Some(c) = config {
        c.inner.mmap_size = mmap_size;
        c.inner.max_inlined_memory_bytes = max_inlined_bytes;
    }
}

/// Sets how the storage is laid out.
pub fn fl_config_set_storage_tuning(config: Option<&mut FL_Config>, page_size: usize, compaction_threshold: usize, group_commit_max_ops: usize)
    ensures
        config matches Some(c) ==> final(c).inner == (HakoConfig { page_size, auto_compaction_threshold_bytes: compaction_threshold, group_commit_max_ops, ..c.inner }),
{
    if let Some(c) = config {
        c.inner.page_size = page_size;
        c.inner.auto_compaction_threshold_bytes = compaction_threshold;
        c.inner.group_commit_max_ops = group_commit_max_ops;
    }
}

/// Sets from which size on values go into the blob file.
pub fn fl_config_set_blob_threshold(config: Option<&mut FL_Config>, threshold_bytes: usize)
    ensures
        config matches Some(c) ==> final(c).inner == (HakoConfig { value_blob_threshold_bytes: threshold_bytes, ..c.inner }),
{
    if let Some(c) = config {
        c.inner.value_blob_threshold_bytes = threshold_bytes;
    }
}

/// Sets how much room is kept ahead in the log.
pub fn fl_config_set_wal_reserve_bytes(config: Option<&mut FL_Config>, bytes: u64)
    ensures
        config matches Some(c) ==> final(c).inner == (HakoConfig { wal_reserve_bytes: bytes, ..c.inner }),
{
    if let Some(c) = config {
        c.inner.wal_reserve_bytes = bytes;
    }
}

/// Sets whether and how hard values are compressed.
pub fn fl_config_set_compression(config: Option<&mut FL_Config>, enabled: bool, level: i32)
    ensures
        config matches Some(c) ==> final(c).inner == (HakoConfig { use_compression: enabled, compression_level: level, ..c.inner }),
{
    if let Some(c) = config {
        c.inner.use_compression = enabled;
        c.inner.compression_level = level;
    }
}

} // verus!
