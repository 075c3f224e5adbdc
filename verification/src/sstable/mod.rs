//! The sorted tables on disk: their bloom filter, index, footer and the
//! encoding of a whole table.

pub mod bloom_filter;
pub mod compaction_writer;
pub mod encode;
pub mod footer;
pub mod iterator;
pub mod table;
pub mod cache;
pub mod readable;
