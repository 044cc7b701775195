//! The storage engine.
//!
//! Leaves first: `bytes` orders keys and lays out numbers; `codec` lays out
//! entries; `checksum` and `compression` call the libraries that guard and
//! shrink bytes; `cache` keeps decompressed blocks; `wal` is the
//! write-ahead log; `memtable` the sorted buffer of recent writes;
//! `table_format`, `table_image` and `sstable` are the sorted tables, from
//! the layout of their parts over the file as a whole to the builder and
//! the reader; `lsm_model` is the tree as a mathematical value; `lsm` is
//! the tree.

pub mod block_key;
pub mod bytes;
pub mod cache;
pub mod checksum;
pub mod codec;
pub mod compression;
pub mod error;
pub mod kv;
pub mod lsm;
pub mod lsm_model;
pub mod memtable;
pub mod search;
pub mod sstable;
pub mod table_format;
pub mod table_image;
pub mod wal;

pub use cache::BlockCache;
pub use compression::CompressionType;
pub use error::StorageError;
pub use kv::{KVPair, StorageConfig};
pub use lsm::LSMTree;
pub use memtable::MemTable;
pub use sstable::SSTable;
pub use wal::WriteAheadLog;
