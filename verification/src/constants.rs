//! Fixed numbers of the file formats and the defaults of the configuration.

use vstd::prelude::*;

verus! {

/// The four magic bytes that open an SSTable file: "NLDB".
pub const NLDB_SSTABLE_HEADER: [u8; 4] = [78u8, 76u8, 68u8, 66u8];
/// The SSTable format version written after the magic bytes.
pub const V0_HEADER: u16 = 0u16;
/// Magic bytes plus version.
pub const HEADER_SIZE: u64 = 6u64;

/// Header byte of a record that holds data.
pub const INSERT_LOG_HEADER: u8 = 0u8;
/// Header byte of a record that marks a key as deleted.
pub const TOMBSTONE_LOG_HEADER: u8 = 1u8;

/// Data blocks of an SSTable are indexed every this many bytes.
pub const DISK_BLOCK_SIZE: u64 = 4000u64;
/// Three big-endian `u64` values.
pub const FOOTER_SIZE: u64 = 24u64;
pub const DEFAULT_COMPACTION_RATE: u64 = 10u64;
pub const DEFAULT_COMPACTION_QUEUE_SIZE: u64 = 100u64;

/// The WAL buffer is written out once it holds this many bytes.
pub const DEFAULT_WAL_BUFFER_SIZE: usize = 64000usize;
pub const DEFAULT_WAL_BUFFER_CAPACITY: usize = 100000usize;
/// The WAL buffer is written out once this many milliseconds passed since
/// the last write.
pub const DEFAULT_WAL_BUFFER_FLUSH_TIME: u128 = 400u128;

pub const DEFAULT_MAX_MEMTABLE_NODES: u64 = 4096u64;
pub const DEFAULT_MAX_MEMTABLE_SIZE: u64 = 4000000u64;
pub const DEFAULT_MEMTABLE_FLUSH_QUEUE: u64 = 100u64;

/// The largest request body the server reads.
pub const MAX_MESSAGE_SIZE: usize = 10485760usize;

pub const DEFAULT_CACHE_SIZE: u64 = 2048u64;

/// How many bytes are read at first when a record is fetched by offset.
pub const RECORD_READ_BUFFER_SIZE: u64 = 4096u64;

/// First byte of every response: success.
pub const TCP_SERVER_SUCCESS: u8 = 1u8;
/// First byte of every response: failure, an error code follows.
pub const TCP_SERVER_ERROR: u8 = 0u8;

/// Error codes of the response protocol.
pub const INTERNAL_ERROR: u8 = 1u8;
pub const INVALID_QUERY: u8 = 2u8;
pub const KEY_NOT_FOUND: u8 = 3u8;
pub const KEY_SIZE_CONSTRAINT: u8 = 4u8;
pub const RECORD_SIZE_CONSTRAINT: u8 = 5u8;

/// Calls `num_cpus::get`: the number of logical CPUs available to this
/// process, which its documentation promises to be at least one. The count
/// depends on the machine and is left otherwise unsaid.
#[verifier::external_body]
fn cpu_count() -> (r: usize)
    ensures
        r >= 1,
{
    num_cpus::get()
}

/// The default number of cache shards: one per available CPU.
pub fn get_default_cache_shards() -> (r: u64)
    ensures
        r >= 1,
{
    let n = cpu_count();
    n as u64
}

} // verus!
