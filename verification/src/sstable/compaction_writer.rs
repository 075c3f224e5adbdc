//! Builds the bytes of an SSTable from records handed in key order: the
//! header, the records, the index entries at block boundaries and the bloom
//! filter over the keys, and at the end the index block, the filter and the
//! footer.

use vstd::prelude::*;
use crate::constants;
use crate::disk::{all_fit, log_bytes, record_bytes, record_fits, DiskRecord, lemma_log_bytes_push};
use crate::disk::encode::{encode_insert_record, encode_tombstone_record};
use crate::keys::key_lt;
use crate::memtable::inner::NodeData;
use crate::sstable::bloom_filter::{all_bits_set, has_bit, hash_count, key_sets_bit, law_bloom_no_false_negative, BloomFilter};
use crate::sstable::encode::{block_index, encode_index_block, filter_words, header_bytes, lemma_block_index_push, starts_block};
use crate::sstable::footer::{encode_footer, footer_bytes};
use crate::ssindex::index_bytes;
use crate::util::{append_slice, copy_range, encode_varint, varint_bytes};

verus! {

/// The number of keys that the bloom filter of a compacted table is sized
/// for.
pub const MERGE_FILTER_KEYS: usize = 1024usize;

/// Keys strictly increasing along the records.
pub open spec fn records_sorted(rs: Seq<(Seq<u8>, Option<Seq<u8>>)>) -> bool {
    forall|i: int, j: int| 0 <= i < j < rs.len() ==> key_lt(#[trigger] rs[i].0, #[trigger] rs[j].0)
}

/// The filter's set bits are exactly those that the records' keys set.
pub open spec fn filter_exact(bits: Seq<u64>, rs: Seq<(Seq<u8>, Option<Seq<u8>>)>, num_hashes: u64) -> bool {
    forall|b: int|
        0 <= b < 64 * bits.len() ==> (#[trigger] has_bit(bits, b) <==> exists|i: int|
            0 <= i < rs.len() && #[trigger] key_sets_bit(rs[i].0, num_hashes, (64 * bits.len()) as u64, b))
}

/// The entries as values.
pub open spec fn index_view(index: Seq<(Vec<u8>, u64)>) -> Seq<(Seq<u8>, u64)> {
    index.map_values(|e: (Vec<u8>, u64)| (e.0@, e.1))
}

/// The bytes of a finished table over the records `rs`, with the filter's
/// words and hash count.
pub open spec fn sstable_bytes(rs: Seq<(Seq<u8>, Option<Seq<u8>>)>, bits: Seq<u64>, num_hashes: u64) -> Seq<u8> {
    let data_end = header_bytes().len() + log_bytes(rs).len();
    let index = block_index(rs, constants::HEADER_SIZE as nat);
    let ib = index_bytes(index);
    header_bytes() + log_bytes(rs) + ib + BloomFilter::spec_bytes(bits, num_hashes) + footer_bytes(
        data_end as u64,
        index.len() as u64,
        (data_end + ib.len()) as u64,
    )
}

/// The bytes that a table over `rs` takes up to the end of its index block.
pub open spec fn sstable_size(rs: Seq<(Seq<u8>, Option<Seq<u8>>)>) -> nat {
    header_bytes().len() + log_bytes(rs).len() + index_bytes(
        block_index(rs, constants::HEADER_SIZE as nat),
    ).len()
}

/// An SSTable under construction.
pub struct CompactionWriter {
    pub index: Vec<(Vec<u8>, u64)>,
    pub disk_offset: u64,
    pub write_buffer: Vec<u8>,
    pub bloom_filter: BloomFilter,
    /// The records written so far.
    pub records: Ghost<Seq<(Seq<u8>, Option<Seq<u8>>)>>,
}

impl CompactionWriter {
    /// The buffer holds the header and the records, the index has an entry
    /// at each block boundary, and the filter answers yes for every key.
    pub open spec fn wf(&self) -> bool {
        &&& self.write_buffer@ == header_bytes() + log_bytes(self.records@)
        &&& self.disk_offset == self.write_buffer@.len()
        &&& index_view(self.index@) == block_index(self.records@, constants::HEADER_SIZE as nat)
        &&& records_sorted(self.records@)
        &&& all_fit(self.records@)
        &&& self.bloom_filter.usable()
        &&& forall|i: int| 0 <= i < self.records@.len() ==> self.bloom_filter.spec_contains(
            #[trigger] self.records@[i].0,
        )
        &&& filter_exact(self.bloom_filter.bits@, self.records@, self.bloom_filter.num_hashes)
    }

    /// A writer whose bloom filter is sized for `expected_keys` keys.
    pub fn with_capacity(expected_keys: usize) -> (r: CompactionWriter)
        requires
            1 <= expected_keys,
            expected_keys * 10 + 63 <= usize::MAX,
            (expected_keys * 10 + 63) / 64 * 64 <= u64::MAX,
        ensures
            r.wf(),
            r.records@ == Seq::<(Seq<u8>, Option<Seq<u8>>)>::empty(),
            r.write_buffer@ == header_bytes(),
            r.disk_offset == constants::HEADER_SIZE,
            r.index@.len() == 0,
            r.bloom_filter.bits@.len() == (expected_keys * 10 + 63) / 64,
            forall|j: int| 0 <= j < r.bloom_filter.bits@.len() ==> r.bloom_filter.bits@[j] == 0,
            r.bloom_filter.num_hashes == crate::sstable::bloom_filter::hash_count(
                r.bloom_filter.num_bits as nat,
                expected_keys as nat,
            ),
    {
        let mut write_buffer: Vec<u8> = Vec::new();
        append_slice(&mut write_buffer, &constants::NLDB_SSTABLE_HEADER);
        write_buffer.push(0u8);
        write_buffer.push(0u8);
        let bloom_filter = BloomFilter::new(expected_keys);
        proof {
            assert(constants::NLDB_SSTABLE_HEADER@ =~= seq![78u8, 76u8, 68u8, 66u8]);
            assert(write_buffer@ =~= header_bytes() + log_bytes(Seq::<(Seq<u8>, Option<Seq<u8>>)>::empty()));
        }
        let r = CompactionWriter {
            index: Vec::new(),
            disk_offset: constants::HEADER_SIZE,
            write_buffer,
            bloom_filter,
            records: Ghost(Seq::empty()),
        };
        proof {
            assert(index_view(r.index@) =~= Seq::<(Seq<u8>, u64)>::empty());
            assert(r.write_buffer@ =~= header_bytes());
            assert forall|b: int| 0 <= b < 64 * r.bloom_filter.bits@.len() implies !#[trigger] has_bit(
                r.bloom_filter.bits@,
                b,
            ) by {
                let w = r.bloom_filter.bits@[b / 64];
                let o = (b % 64) as u64;
                assert(w == 0);
                assert(0u64 & (1u64 << o) == 0) by (bit_vector);
            }
        }
        r
    }

    /// A writer for a compaction, its bloom filter sized for
    /// `MERGE_FILTER_KEYS` keys.
    pub fn new() -> (r: CompactionWriter)
        ensures
            r.wf(),
            r.records@ == Seq::<(Seq<u8>, Option<Seq<u8>>)>::empty(),
            r.bloom_filter.bits@.len() == filter_words(MERGE_FILTER_KEYS as nat),
            r.bloom_filter.num_hashes == hash_count(
                64 * filter_words(MERGE_FILTER_KEYS as nat),
                MERGE_FILTER_KEYS as nat,
            ),
    {
        Self::with_capacity(MERGE_FILTER_KEYS)
    }

    /// Appends a record with a key above every key written so far.
    pub fn push_record(&mut self, key: Vec<u8>, data: NodeData)
        requires
            old(self).wf(),
            record_fits(key@, data@),
            old(self).records@.len() > 0 ==> key_lt(old(self).records@.last().0, key@),
            old(self).disk_offset + record_bytes(key@, data@).len() <= u64::MAX,
            old(self).disk_offset + record_bytes(key@, data@).len() <= usize::MAX,
        ensures
            final(self).wf(),
            final(self).records@ == old(self).records@.push((key@, data@)),
            final(self).bloom_filter.bits@.len() == old(self).bloom_filter.bits@.len(),
            final(self).bloom_filter.num_hashes == old(self).bloom_filter.num_hashes,
    {
        let ghost r = (key@, data@);
        let ghost rs = self.records@;
        let (key_varint, varint_len) = encode_varint(key.len());
        let kv = copy_range(&key_varint, 0, varint_len);
        let encoded = match &data {
            NodeData::Data(d) => encode_insert_record(key.as_slice(), kv.as_slice(), d.as_slice()),
            NodeData::Tombstone => encode_tombstone_record(key.as_slice(), kv.as_slice()),
        };
        let record_size = encoded.len();
        let offset = self.disk_offset;
        let before = offset % constants::DISK_BLOCK_SIZE;
        let after = (offset + record_size as u64) % constants::DISK_BLOCK_SIZE;
        let ghost old_index = index_view(self.index@);
        if before > after || offset == constants::HEADER_SIZE {
            let index_key = copy_range(key.as_slice(), 0, key.len());
            self.index.push((index_key, offset));
        }
        let ghost old_bits = self.bloom_filter.bits@;
        self.bloom_filter.insert(key.as_slice());
        append_slice(&mut self.write_buffer, encoded.as_slice());
        self.disk_offset = offset + record_size as u64;
        proof {
            lemma_log_bytes_push(rs, r);
            lemma_block_index_push(rs, r, constants::HEADER_SIZE as nat);
            assert(key@.subrange(0, key@.len() as int) =~= key@);
            if before > after || offset == constants::HEADER_SIZE {
                assert(index_view(self.index@) =~= old_index.push((key@, offset)));
            } else {
                assert(index_view(self.index@) =~= old_index);
            }
            let rs2 = rs.push(r);
            assert(self.write_buffer@ =~= header_bytes() + log_bytes(rs2));
            assert forall|i: int, j: int| 0 <= i < j < rs2.len() implies key_lt(
                #[trigger] rs2[i].0,
                #[trigger] rs2[j].0,
            ) by {
                if j == rs.len() && i < rs.len() - 1 {
                    crate::keys::lemma_key_lt_transitive(rs[i].0, rs.last().0, key@);
                }
            }
            assert forall|i: int| 0 <= i < rs2.len() implies self.bloom_filter.spec_contains(
                #[trigger] rs2[i].0,
            ) by {
                law_bloom_no_false_negative(
                    old_bits,
                    self.bloom_filter.bits@,
                    self.bloom_filter.num_hashes,
                    self.bloom_filter.num_bits,
                    key@,
                    rs2[i].0,
                );
                if i < rs.len() {
                    assert(rs2[i] == rs[i]);
                }
            }
            let nh = self.bloom_filter.num_hashes;
            let nb = self.bloom_filter.num_bits;
            assert forall|b: int| 0 <= b < 64 * self.bloom_filter.bits@.len() implies (#[trigger] has_bit(
                self.bloom_filter.bits@,
                b,
            ) <==> exists|i: int| 0 <= i < rs2.len() && #[trigger] key_sets_bit(rs2[i].0, nh, nb, b)) by {
                if has_bit(self.bloom_filter.bits@, b) {
                    if has_bit(old_bits, b) {
                        let i = choose|i: int| 0 <= i < rs.len() && #[trigger] key_sets_bit(rs[i].0, nh, nb, b);
                        assert(rs2[i] == rs[i]);
                    } else {
                        assert(rs2[rs.len() as int] == r);
                        assert(key_sets_bit(rs2[rs.len() as int].0, nh, nb, b));
                    }
                }
                if exists|i: int| 0 <= i < rs2.len() && #[trigger] key_sets_bit(rs2[i].0, nh, nb, b) {
                    let i = choose|i: int| 0 <= i < rs2.len() && #[trigger] key_sets_bit(rs2[i].0, nh, nb, b);
                    if i < rs.len() {
                        assert(rs2[i] == rs[i]);
                        assert(key_sets_bit(rs[i].0, nh, nb, b));
                    } else {
                        assert(rs2[i] == r);
                    }
                }
            }
            self.records = Ghost(rs2);
            assert(self.write_buffer@ == header_bytes() + log_bytes(self.records@));
            assert(self.disk_offset == self.write_buffer@.len());
            assert(index_view(self.index@) == block_index(self.records@, constants::HEADER_SIZE as nat));
            assert(records_sorted(self.records@));
            assert(all_fit(self.records@));
            assert(self.bloom_filter.usable());
        }
    }

    /// Appends a data record from a merge, above every key written so far.
    pub fn push(&mut self, record: DiskRecord)
        requires
            old(self).wf(),
            record.data@ is Some,
            record_fits(record.key@, record.data@),
            old(self).records@.len() > 0 ==> key_lt(old(self).records@.last().0, record.key@),
            old(self).disk_offset + record_bytes(record.key@, record.data@).len() <= u64::MAX,
            old(self).disk_offset + record_bytes(record.key@, record.data@).len() <= usize::MAX,
        ensures
            final(self).wf(),
            final(self).records@ == old(self).records@.push(record@),
            final(self).bloom_filter.bits@.len() == old(self).bloom_filter.bits@.len(),
            final(self).bloom_filter.num_hashes == old(self).bloom_filter.num_hashes,
    {
        let DiskRecord { key, data } = record;
        self.push_record(key, data);
    }

    /// The bytes of the finished table.
    pub fn finish(self) -> (r: Vec<u8>)
        requires
            self.wf(),
            self.disk_offset + index_bytes(index_view(self.index@)).len() <= u64::MAX,
        ensures
            r@ == sstable_bytes(self.records@, self.bloom_filter.bits@, self.bloom_filter.num_hashes),
    {
        let index_block_start = self.disk_offset;
        let index_block_len = self.index.len();
        let ghost es = index_view(self.index@);
        let index_block_buffer = encode_index_block(self.index);
        let bloom_filter_start = index_block_start + index_block_buffer.len() as u64;
        let ghost bits = self.bloom_filter.bits@;
        let ghost nh = self.bloom_filter.num_hashes;
        let bloom_filter_buffer = self.bloom_filter.serialize();
        let footer = encode_footer(index_block_start, index_block_len as u64, bloom_filter_start);
        let mut buffer = self.write_buffer;
        append_slice(&mut buffer, index_block_buffer.as_slice());
        append_slice(&mut buffer, bloom_filter_buffer.as_slice());
        append_slice(&mut buffer, footer.as_slice());
        proof {
            assert(es.len() == index_block_len);
        }
        buffer
    }
}

} // verus!
