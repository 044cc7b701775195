//! The configuration of an engine and the unit of every mutation.

use vstd::prelude::*;
use crate::storage::compression::CompressionType;

verus! {

/// Storage engine configuration.
#[derive(Debug, Clone)]
pub struct StorageConfig {
    pub data_dir: String,
    pub wal_dir: String,
    pub memtable_size_mb: usize,
    pub l0_compaction_trigger: usize,
    pub max_levels: usize,
    pub target_file_size_mb: usize,
    pub compression: CompressionType,
    pub cache_size_mb: usize,
}

impl Default for StorageConfig {
    fn default() -> (config: Self)
        ensures
            config.data_dir@ == "./data"@,
            config.wal_dir@ == "./wal"@,
            config.memtable_size_mb == 64,
            config.l0_compaction_trigger == 4,
            config.max_levels == 7,
            config.target_file_size_mb == 64,
            config.compression == CompressionType::LZ4,
            config.cache_size_mb == 256,
    {
        StorageConfig {
            data_dir: "./data".to_string(),
            wal_dir: "./wal".to_string(),
            memtable_size_mb: 64,
            l0_compaction_trigger: 4,
            max_levels: 7,
            target_file_size_mb: 64,
            compression: CompressionType::LZ4,
            cache_size_mb: 256,
        }
    }
}

/// One mutation: a key with its new value, or with `None` for a deletion
/// (a tombstone), stamped with a time and a sequence number.
#[derive(Debug, Clone)]
pub struct KVPair {
    pub key: Vec<u8>,
    pub value: Option<Vec<u8>>,
    pub timestamp: u64,
    pub sequence: u64,
}

/// A mutation as a mathematical value.
pub struct KVPairView {
    pub key: Seq<u8>,
    pub value: Option<Seq<u8>>,
    pub timestamp: u64,
    pub sequence: u64,
}

/// The view of an optional byte string.
pub open spec fn value_view(value: Option<Vec<u8>>) -> Option<Seq<u8>> {
    match value {
        Some(v) => Some(v@),
        None => None,
    }
}

impl View for KVPair {
    type V = KVPairView;

    open spec fn view(&self) -> KVPairView {
        KVPairView {
            key: self.key@,
            value: value_view(self.value),
            timestamp: self.timestamp,
            sequence: self.sequence,
        }
    }
}

impl KVPair {
    /// A write of `value` under `key`.
    pub fn new(key: Vec<u8>, value: Vec<u8>, timestamp: u64, sequence: u64) -> (kv: Self)
        ensures
            kv@ == (KVPairView { key: key@, value: Some(value@), timestamp, sequence }),
            kv.key == key,
            kv.value == Some(value),
    {
        KVPair { key, value: Some(value), timestamp, sequence }
    }

    /// A deletion of `key`.
    pub fn delete(key: Vec<u8>, timestamp: u64, sequence: u64) -> (kv: Self)
        ensures
            kv@ == (KVPairView { key: key@, value: None, timestamp, sequence }),
            kv.key == key,
    {
        KVPair { key, value: None, timestamp, sequence }
    }

    /// Whether this mutation is a deletion.
    pub fn is_deleted(&self) -> (deleted: bool)
        ensures
            deleted == self@.value.is_none(),
    {
        self.value.is_none()
    }
}

} // verus!
