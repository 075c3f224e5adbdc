//! The footer of an SSTable: three big-endian `u64` values, the start of the
//! index block, the number of index entries and the start of the bloom
//! filter.

use vstd::prelude::*;
use crate::util::{
    append_slice, get_be_array8, lemma_u64_be_roundtrip, u64_be_bytes, u64_from_be, u64_from_be_bytes,
    u64_to_be_bytes,
};

verus! {

/// Where the index block and the bloom filter of an SSTable start, and how
/// many index entries there are.
#[derive(Debug, PartialEq, Eq, Structural, Clone, Copy)]
pub struct SSTableFooter {
    pub index_block_start: u64,
    pub index_block_len: u64,
    pub bloom_filter_start: u64,
}

/// The bytes of a footer.
pub open spec fn footer_bytes(index_block_start: u64, index_block_count: u64, bloom_filter_start: u64) -> Seq<u8> {
    u64_be_bytes(index_block_start) + u64_be_bytes(index_block_count) + u64_be_bytes(bloom_filter_start)
}

/// Encodes a footer.
pub fn encode_footer(index_block_start: u64, index_block_count: u64, bloom_filter_start: u64) -> (r: Vec<u8>)
    ensures
        r@ == footer_bytes(index_block_start, index_block_count, bloom_filter_start),
{
    let mut buffer: Vec<u8> = Vec::new();
    append_slice(&mut buffer, &u64_to_be_bytes(index_block_start));
    append_slice(&mut buffer, &u64_to_be_bytes(index_block_count));
    append_slice(&mut buffer, &u64_to_be_bytes(bloom_filter_start));
    buffer
}

impl SSTableFooter {
    /// Reads the footer from its bytes, the last bytes of the file.
    pub fn from_bytes(footer: &[u8]) -> (r: SSTableFooter)
        requires
            footer@.len() >= 24,
        ensures
            r.index_block_start == u64_from_be(footer@.subrange(0, 8)),
            r.index_block_len == u64_from_be(footer@.subrange(8, 16)),
            r.bloom_filter_start == u64_from_be(footer@.subrange(16, 24)),
    {
        let index_block_start = u64_from_be_bytes(get_be_array8(footer, 0));
        let index_block_len = u64_from_be_bytes(get_be_array8(footer, 8));
        let bloom_filter_start = u64_from_be_bytes(get_be_array8(footer, 16));
        SSTableFooter { index_block_start, index_block_len, bloom_filter_start }
    }
}

/// Reading an encoded footer gives back its three values.
pub proof fn law_footer_roundtrip(index_block_start: u64, index_block_count: u64, bloom_filter_start: u64)
    ensures
        ({
            let s = footer_bytes(index_block_start, index_block_count, bloom_filter_start);
            &&& s.len() == 24
            &&& u64_from_be(s.subrange(0, 8)) == index_block_start
            &&& u64_from_be(s.subrange(8, 16)) == index_block_count
            &&& u64_from_be(s.subrange(16, 24)) == bloom_filter_start
        }),
{
    lemma_u64_be_roundtrip(index_block_start);
    lemma_u64_be_roundtrip(index_block_count);
    lemma_u64_be_roundtrip(bloom_filter_start);
    let s = footer_bytes(index_block_start, index_block_count, bloom_filter_start);
    assert(s.subrange(0, 8) =~= u64_be_bytes(index_block_start));
    assert(s.subrange(8, 16) =~= u64_be_bytes(index_block_count));
    assert(s.subrange(16, 24) =~= u64_be_bytes(bloom_filter_start));
}

} // verus!
