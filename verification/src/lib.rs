//! nldb: an LSM-tree key-value store. This crate holds its verified core:
//! the wire and on-disk formats, the memtable red-black tree and its
//! rotation, the write-ahead log and its replay, the SSTable index, bloom
//! filter and newest-first table list, the compaction merge, and the order
//! in which a read asks each layer.

pub mod compaction;
pub mod config;
pub mod constants;
pub mod database;
pub mod disk;
pub mod error;
pub mod keys;
pub mod memtable;
pub mod parser;
pub mod restart;
pub mod ser;
pub mod ssindex;
pub mod sstable;
pub mod trie;
pub mod util;
pub mod wal;
