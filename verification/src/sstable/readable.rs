//! Whether bytes read from a file are a whole SSTable: its header, records
//! in key order, the index over them, a bloom filter that lets every key
//! through, and the footer that locates them.

use vstd::prelude::*;
use crate::constants;
use crate::disk::{all_fit, log_bytes, record_bytes, DiskRecord};
use crate::keys::{compare_keys, key_lt, lemma_key_order_facts, KeyOrder};
use crate::memtable::inner::NodeData;
use crate::ssindex::index_bytes;
use crate::sstable::bloom_filter::{all_bits_set, serialized_filter, BloomFilter};
use crate::sstable::compaction_writer::{index_view, records_sorted, sstable_bytes, sstable_size, CompactionWriter};
use crate::sstable::encode::{block_index, encode_index_block, header_bytes, is_sstable_of};
use crate::sstable::footer::{encode_footer, footer_bytes, SSTableFooter};
use crate::sstable::table::valid_table;
use crate::util::{copy_range, decode_untrusted_varint};
use crate::wal::{bytes_at, log_records, parse_log, record_size, record_views};

verus! {

/// Whether the keys of the records strictly increase.
fn keys_increasing(records: &Vec<DiskRecord>) -> (r: bool)
    ensures
        r == records_sorted(record_views(records@)),
{
    proof {
        lemma_key_order_facts();
    }
    let ghost rs = record_views(records@);
    let n = records.len();
    if n == 0 {
        return true;
    }
    let mut i: usize = 1;
    while i < n
        invariant
            n == records@.len(),
            rs == record_views(records@),
            1 <= i <= n,
            forall|a: int, b: int| 0 <= a < b < i ==> key_lt(#[trigger] rs[a].0, #[trigger] rs[b].0),
            forall|a: Seq<u8>, b: Seq<u8>, c: Seq<u8>| key_lt(a, b) && key_lt(b, c) ==> key_lt(a, c),
            forall|a: Seq<u8>, b: Seq<u8>| key_lt(a, b) ==> !key_lt(b, a),
        decreases n - i,
    {
        assert(rs[i - 1].0 == records@[i - 1].key@);
        assert(rs[i as int].0 == records@[i as int].key@);
        match compare_keys(records[i - 1].key.as_slice(), records[i].key.as_slice()) {
            KeyOrder::Less => {},
            _ => {
                assert(!key_lt(rs[i - 1].0, rs[i as int].0));
                return false;
            },
        }
        assert forall|a: int, b: int| 0 <= a < b < i + 1 implies key_lt(#[trigger] rs[a].0, #[trigger] rs[b].0) by {
            if b == i && a < i - 1 {
                assert(key_lt(rs[a].0, rs[i - 1].0));
            }
        }
        i = i + 1;
    }
    true
}

/// A copy of a record.
fn copy_record(r: &DiskRecord) -> (c: DiskRecord)
    ensures
        c@ == r@,
{
    let key = copy_range(r.key.as_slice(), 0, r.key.len());
    let data = match &r.data {
        NodeData::Data(d) => NodeData::Data(copy_range(d.as_slice(), 0, d.len())),
        NodeData::Tombstone => NodeData::Tombstone,
    };
    proof {
        assert(key@ =~= r.key@);
        if let NodeData::Data(d) = &r.data {
            assert(d@.subrange(0, d@.len() as int) =~= d@);
        }
    }
    DiskRecord { key, data }
}

/// The bytes of the index block over the records, as a table written from
/// them holds it.
fn index_block_of(records: &Vec<DiskRecord>) -> (r: Option<(Vec<u8>, usize)>)
    requires
        records_sorted(record_views(records@)),
        all_fit(record_views(records@)),
    ensures
        match r {
            Some((b, count)) => {
                &&& b@ == index_bytes(block_index(record_views(records@), constants::HEADER_SIZE as nat))
                &&& count == block_index(record_views(records@), constants::HEADER_SIZE as nat).len()
            },
            None => constants::HEADER_SIZE + log_bytes(record_views(records@)).len() > usize::MAX,
        },
{
    let ghost rs = record_views(records@);
    let mut writer = CompactionWriter::with_capacity(1);
    let n = records.len();
    let mut i: usize = 0;
    proof {
        assert(rs.subrange(0, 0) =~= writer.records@);
    }
    while i < n
        invariant
            n == records@.len(),
            rs == record_views(records@),
            records_sorted(rs),
            all_fit(rs),
            i <= n,
            writer.wf(),
            writer.records@ == rs.subrange(0, i as int),
        decreases n - i,
    {
        let rec = copy_record(&records[i]);
        assert(rec@ == rs[i as int]);
        let size = match record_size(&rec.key, &rec.data) {
            Some(s) => s,
            None => {
                proof {
                    assert(crate::disk::record_fits(rs[i as int].0, rs[i as int].1));
                    assert(false);
                }
                return None;
            },
        };
        if writer.disk_offset > (usize::MAX - size) as u64 {
            proof {
                lemma_prefix_log_bound(rs, i as int);
            }
            return None;
        }
        proof {
            if i > 0 {
                assert(writer.records@.last() == rs[i - 1]);
            }
        }
        let DiskRecord { key, data } = rec;
        writer.push_record(key, data);
        proof {
            assert(writer.records@ =~= rs.subrange(0, i + 1));
        }
        i = i + 1;
    }
    proof {
        assert(rs.subrange(0, n as int) =~= rs);
    }
    let count = writer.index.len();
    Some((encode_index_block(writer.index), count))
}

/// The bytes of the first records and the next one fit in those of all.
proof fn lemma_prefix_log_bound(rs: Seq<(Seq<u8>, Option<Seq<u8>>)>, i: int)
    requires
        0 <= i < rs.len(),
    ensures
        log_bytes(rs.subrange(0, i)).len() + record_bytes(rs[i].0, rs[i].1).len() <= log_bytes(rs).len(),
{
    let pre = rs.subrange(0, i);
    let post = rs.subrange(i + 1, rs.len() as int);
    assert(rs =~= pre.push(rs[i]) + post);
    crate::disk::lemma_log_bytes_append(pre.push(rs[i]), post);
    crate::disk::lemma_log_bytes_push(pre, rs[i]);
}

/// Where the parts of a table lie in its bytes, with the words and hash
/// count of its filter.
#[verifier::spinoff_prover]
#[verifier::rlimit(60)]
proof fn lemma_table_parts(image: Seq<u8>, rs: Seq<(Seq<u8>, Option<Seq<u8>>)>) -> (wh: (Seq<u64>, u64))
    requires
        valid_table(image, rs),
    ensures
        ({
            let es = block_index(rs, constants::HEADER_SIZE as nat);
            let ds = 6 + log_bytes(rs).len() as int;
            let ib = index_bytes(es).len() as int;
            let n = image.len() as int;
            &&& n >= ds + ib + 24
            &&& image.subrange(0, 6) == header_bytes()
            &&& log_records(image.subrange(6, ds), rs)
            &&& records_sorted(rs)
            &&& image.subrange(ds, ds + ib) == index_bytes(es)
            &&& filter_words(image.subrange(ds + ib, n - 24), wh.0, wh.1)
            &&& forall|i: int| 0 <= i < rs.len() ==> all_bits_set(wh.0, #[trigger] rs[i].0, wh.1, (64 * wh.0.len()) as u64)
            &&& image.subrange(n - 24, n) == footer_bytes(ds as u64, es.len() as u64, (ds + ib) as u64)
            &&& crate::util::u64_from_be(image.subrange(n - 24, n).subrange(0, 8)) == ds
            &&& crate::util::u64_from_be(image.subrange(n - 24, n).subrange(8, 16)) == es.len()
            &&& crate::util::u64_from_be(image.subrange(n - 24, n).subrange(16, 24)) == ds + ib
        }),
{
    crate::sstable::table::lemma_layout(image, rs);
    assert(header_bytes().len() == 6);
    let (bits, nh) = choose|bits: Seq<u64>, nh: u64|
        {
            &&& image == sstable_bytes(rs, bits, nh)
            &&& 0 < bits.len() <= usize::MAX
            &&& 64 * bits.len() <= u64::MAX
            &&& forall|i: int| 0 <= i < rs.len() ==> all_bits_set(bits, #[trigger] rs[i].0, nh, (64 * bits.len()) as u64)
        };
    let es = block_index(rs, constants::HEADER_SIZE as nat);
    let h = header_bytes();
    let l = log_bytes(rs);
    let ibs = index_bytes(es);
    let bb = BloomFilter::spec_bytes(bits, nh);
    let ds = (h.len() + l.len()) as int;
    let ib = ibs.len() as int;
    let f = footer_bytes(ds as u64, es.len() as u64, (ds + ib) as u64);
    assert(image =~= h + l + ibs + bb + f);
    let n = image.len() as int;
    assert(image.subrange(n - 24, n) =~= f);
    assert(image.subrange(0, 6) =~= h);
    assert(image.subrange(ds + ib, n - 24) =~= bb);
    assert(image.subrange(6, ds) =~= l);
    (bits, nh)
}

/// Reads the footer and checks the header: where the index block and the
/// filter start, and the number of index entries.
fn read_layout(image: &[u8]) -> (r: Option<(usize, u64, usize)>)
    ensures
        match r {
            Some((ds, cnt, bs)) => {
                &&& 30 <= image@.len()
                &&& 6 <= ds <= bs <= image@.len() - 24
                &&& image@.subrange(0, 6) == header_bytes()
                &&& ds == crate::util::u64_from_be(image@.subrange(image@.len() - 24, image@.len() as int).subrange(0, 8))
                &&& cnt == crate::util::u64_from_be(image@.subrange(image@.len() - 24, image@.len() as int).subrange(8, 16))
                &&& bs == crate::util::u64_from_be(image@.subrange(image@.len() - 24, image@.len() as int).subrange(16, 24))
            },
            None => forall|rs: Seq<(Seq<u8>, Option<Seq<u8>>)>| !#[trigger] valid_table(image@, rs),
        },
{
    let n = image.len();
    if n < 30 {
        proof {
            assert forall|rs: Seq<(Seq<u8>, Option<Seq<u8>>)>| !#[trigger] valid_table(image@, rs) by {
                if valid_table(image@, rs) {
                    lemma_table_parts(image@, rs);
                }
            }
        }
        return None;
    }
    let footer_region = copy_range(image, n - 24, n);
    let footer = SSTableFooter::from_bytes(footer_region.as_slice());
    let ds = footer.index_block_start;
    let cnt = footer.index_block_len;
    let bs = footer.bloom_filter_start;
    let header: [u8; 6] = [78u8, 76u8, 68u8, 66u8, 0u8, 0u8];
    assert(header@ =~= header_bytes());
    if ds < 6 || ds > bs || bs > (n - 24) as u64 || !bytes_at(image, 0, &header) {
        proof {
            assert forall|rs: Seq<(Seq<u8>, Option<Seq<u8>>)>| !#[trigger] valid_table(image@, rs) by {
                if valid_table(image@, rs) {
                    lemma_table_parts(image@, rs);
                }
            }
        }
        return None;
    }
    Some((ds as usize, cnt, bs as usize))
}

/// Whether `bytes` are an SSTable: the bytes of some records in key order,
/// each addressable, laid out with their index, a bloom filter that lets
/// every key through, and the footer, within the machine's sizes.
#[verifier::rlimit(40)]
pub fn table_is_readable(image: &[u8]) -> (r: bool)
    ensures
        r == exists|rs: Seq<(Seq<u8>, Option<Seq<u8>>)>| valid_table(image@, rs),
{
    let n = image.len();
    let (ds, cnt, bs) = match read_layout(image) {
        Some(t) => t,
        None => {
            return false;
        },
    };
    let ghost valid = exists|rs: Seq<(Seq<u8>, Option<Seq<u8>>)>| valid_table(image@, rs);
    let ghost rs0 = choose|rs: Seq<(Seq<u8>, Option<Seq<u8>>)>| valid_table(image@, rs);
    let ghost mut bits0: Seq<u64> = Seq::empty();
    let ghost mut nh0: u64 = 0;
    proof {
        if valid {
            let wh = lemma_table_parts(image@, rs0);
            bits0 = wh.0;
            nh0 = wh.1;
        }
    }
    let log = copy_range(image, 6, ds);
    let records = match parse_log(log.as_slice()) {
        Some(v) => v,
        None => {
            proof {
                if valid {
                    assert(log_records(log@, rs0));
                }
            }
            return false;
        },
    };
    let ghost rs = record_views(records@);
    proof {
        if valid {
            crate::sstable::table::lemma_log_bytes_injective(rs, rs0);
        }
    }
    if !keys_increasing(&records) {
        return false;
    }
    let (index, count) = match index_block_of(&records) {
        Some(p) => p,
        None => {
            return false;
        },
    };
    if cnt != count as u64 {
        return false;
    }
    if index.len() > bs - ds || index.len() < bs - ds || !bytes_at(image, ds, index.as_slice()) {
        return false;
    }
    let bloom_region = copy_range(image, bs, n - 24);
    let filter = match filter_of(bloom_region.as_slice()) {
        Some(f) => f,
        None => {
            proof {
                if valid {
                    assert(filter_words(bloom_region@, bits0, nh0));
                }
            }
            return false;
        },
    };
    proof {
        if valid {
            crate::sstable::bloom_filter::law_bloom_roundtrip(bits0, nh0);
        }
    }
    let mut i: usize = 0;
    while i < records.len()
        invariant
            i <= records@.len(),
            rs == record_views(records@),
            filter.usable(),
            forall|j: int| 0 <= j < i ==> #[trigger] filter.spec_contains(rs[j].0),
            valid == exists|rs: Seq<(Seq<u8>, Option<Seq<u8>>)>| valid_table(image@, rs),
            valid ==> rs == rs0 && filter.bits@ == bits0 && filter.num_hashes == nh0,
            valid ==> forall|j: int| 0 <= j < rs0.len() ==> all_bits_set(bits0, #[trigger] rs0[j].0, nh0, (64 * bits0.len()) as u64),
        decreases records.len() - i,
    {
        assert(rs[i as int].0 == records@[i as int].key@);
        if !filter.contains(records[i].key.as_slice()) {
            proof {
                if valid {
                    assert(all_bits_set(bits0, rs0[i as int].0, nh0, (64 * bits0.len()) as u64));
                }
            }
            return false;
        }
        i = i + 1;
    }
    let foot = encode_footer(ds as u64, cnt, bs as u64);
    proof {
        if valid {
            let es0 = block_index(rs0, constants::HEADER_SIZE as nat);
            assert(ds == 6 + log_bytes(rs0).len());
            assert(bs == ds + index_bytes(es0).len());
            assert(foot@ == image@.subrange(n - 24, n as int));
        }
    }
    if !bytes_at(image, n - 24, foot.as_slice()) {
        return false;
    }
    proof {
        assert forall|j: int| 0 <= j < rs.len() implies all_bits_set(
            filter.bits@,
            #[trigger] rs[j].0,
            filter.num_hashes,
            (64 * filter.bits@.len()) as u64,
        ) by {
            assert(filter.spec_contains(rs[j].0));
        }
        lemma_assemble(image@, rs, ds as int, bs as int, cnt, filter.bits@, filter.num_hashes);
    }
    true
}

/// The bytes are exactly those of a filter with words `bits`, at least one
/// and with a bit count that fits 64 bits, and hash count `nh`.
pub open spec fn filter_words(s: Seq<u8>, bits: Seq<u64>, nh: u64) -> bool {
    &&& s == BloomFilter::spec_bytes(bits, nh)
    &&& 0 < bits.len() <= usize::MAX
    &&& 64 * bits.len() <= u64::MAX
}

/// The bloom filter whose bytes are exactly `s`, when it has at least one
/// word.
fn filter_of(s: &[u8]) -> (r: Option<BloomFilter>)
    ensures
        r matches Some(f) ==> {
            &&& f.usable()
            &&& s@ == BloomFilter::spec_bytes(f.bits@, f.num_hashes)
            &&& serialized_filter(s@) == Some((f.bits@, f.num_hashes))
        },
        r is None ==> forall|bits: Seq<u64>, nh: u64|
            !(#[trigger] filter_words(s@, bits, nh)),
{
    if !filter_readable(s) {
        proof {
            assert forall|bits: Seq<u64>, nh: u64| !(#[trigger] filter_words(s@, bits, nh)) by {
                if filter_words(s@, bits, nh) {
                    crate::sstable::bloom_filter::law_bloom_roundtrip(bits, nh);
                }
            }
        }
        return None;
    }
    let filter = BloomFilter::from_bytes(s);
    let again = BloomFilter::from_bytes(s);
    let reencoded = again.serialize();
    if reencoded.len() != s.len() || !bytes_at(s, 0, reencoded.as_slice()) {
        proof {
            assert forall|bits: Seq<u64>, nh: u64| !(#[trigger] filter_words(s@, bits, nh)) by {
                if filter_words(s@, bits, nh) {
                    crate::sstable::bloom_filter::law_bloom_roundtrip(bits, nh);
                    assert(s@.subrange(0, s@.len() as int) =~= s@);
                }
            }
        }
        return None;
    }
    proof {
        assert(s@.subrange(0, reencoded@.len() as int) =~= s@);
        assert(again.bits@ == filter.bits@ && again.num_hashes == filter.num_hashes);
    }
    if filter.bits.len() == 0 {
        proof {
            assert forall|bits: Seq<u64>, nh: u64| !(#[trigger] filter_words(s@, bits, nh)) by {
                if filter_words(s@, bits, nh) {
                    crate::sstable::bloom_filter::law_bloom_roundtrip(bits, nh);
                }
            }
        }
        return None;
    }
    Some(filter)
}

/// Whether the bytes start with a word count whose words and hash count
/// fit in them.
fn filter_readable(s: &[u8]) -> (r: bool)
    ensures
        r == (serialized_filter(s@) is Some),
{
    let len = s.len();
    let (words, vlen) = match decode_untrusted_varint(s, 0) {
        Ok(p) => p,
        Err(_) => {
            return false;
        },
    };
    proof {
        crate::util::lemma_varint_len_bound(s@, 0, 0);
    }
    if words > (u64::MAX / 64) {
        return false;
    }
    let rest = (len - vlen) as u64;
    if rest < 8 || words > (rest - 8) / 8 {
        return false;
    }
    true
}

/// The parts of the bytes, each checked, make up a table.
proof fn lemma_assemble(
    image: Seq<u8>,
    rs: Seq<(Seq<u8>, Option<Seq<u8>>)>,
    ds: int,
    bs: int,
    cnt: u64,
    bits: Seq<u64>,
    nh: u64,
)
    requires
        6 <= ds <= bs <= image.len() - 24,
        image.subrange(0, 6) == header_bytes(),
        log_records(image.subrange(6, ds), rs),
        records_sorted(rs),
        image.subrange(ds, bs) == index_bytes(block_index(rs, constants::HEADER_SIZE as nat)),
        image.subrange(bs, image.len() - 24) == BloomFilter::spec_bytes(bits, nh),
        serialized_filter(image.subrange(bs, image.len() - 24)) == Some((bits, nh)),
        bits.len() > 0,
        64 * bits.len() <= u64::MAX,
        forall|j: int| 0 <= j < rs.len() ==> all_bits_set(bits, #[trigger] rs[j].0, nh, (64 * bits.len()) as u64),
        cnt == block_index(rs, constants::HEADER_SIZE as nat).len(),
        image.subrange(image.len() - 24, image.len() as int) == footer_bytes(ds as u64, cnt, bs as u64),
        image.len() <= usize::MAX,
    ensures
        valid_table(image, rs),
{
    let n = image.len() as int;
    let es = block_index(rs, constants::HEADER_SIZE as nat);
    assert(image =~= image.subrange(0, 6) + image.subrange(6, ds) + image.subrange(ds, bs) + image.subrange(bs, n - 24)
        + image.subrange(n - 24, n));
    assert(image == sstable_bytes(rs, bits, nh));
    assert(is_sstable_of(image, rs));
}

} // verus!
