//! Reading a whole table: the header, the footer, the index and the bloom
//! filter, and a lookup that reads one data block.

use vstd::prelude::*;
use crate::constants;
use crate::disk::{
    all_fit, block_records, is_block, lemma_log_bytes_append, lemma_record_at_bytes, log_bytes, lookup,
    record_at, record_bytes, record_fits, search_data_block,
};
use crate::error::SSTableError;
use crate::keys::{key_lt, lemma_key_order_facts};
use crate::memtable::order::{has_key, lemma_lookup_absent, lemma_lookup_append};
use crate::sstable::bloom_filter::{all_bits_set, law_bloom_roundtrip, BloomFilter};
use crate::sstable::compaction_writer::{records_sorted, sstable_bytes, sstable_size};
use crate::sstable::encode::{block_index, header_bytes, starts_block, size_limit, is_sstable_of};
use crate::sstable::footer::{footer_bytes, law_footer_roundtrip, SSTableFooter};
use crate::ssindex::{
    count_le, entry_keys, entry_offsets, index_bytes, index_entries_at, keys_sorted, law_index_roundtrip,
    SstIndex,
};
use crate::util::{copy_range, u16_from_be, u16_from_be_bytes, get_be_array2};

verus! {

/// Checks the magic bytes and reads the version: `InvalidSSTableFile` when
/// the first four bytes are not "NLDB".
pub fn validate_buffer_and_get_version(header: &[u8]) -> (r: Result<u16, SSTableError>)
    requires
        header@.len() >= 6,
    ensures
        header@.subrange(0, 4) == seq![78u8, 76u8, 68u8, 66u8] ==> r == Ok::<u16, SSTableError>(
            u16_from_be(header@.subrange(4, 6)),
        ),
        header@.subrange(0, 4) != seq![78u8, 76u8, 68u8, 66u8] ==> r == Err::<u16, SSTableError>(
            SSTableError::InvalidSSTableFile,
        ),
{
    if header[0] != 78u8 || header[1] != 76u8 || header[2] != 68u8 || header[3] != 66u8 {
        proof {
            let m = seq![78u8, 76u8, 68u8, 66u8];
            if header@.subrange(0, 4) == m {
                assert(header@[0] == header@.subrange(0, 4)[0]);
                assert(header@[1] == header@.subrange(0, 4)[1]);
                assert(header@[2] == header@.subrange(0, 4)[2]);
                assert(header@[3] == header@.subrange(0, 4)[3]);
            }
        }
        return Err(SSTableError::InvalidSSTableFile);
    }
    assert(header@.subrange(0, 4) =~= seq![78u8, 76u8, 68u8, 66u8]);
    let version = copy_range(header, 4, 6);
    Ok(u16_from_be_bytes(get_be_array2(version)))
}

// ---------------------------------------------------------------------------
// Where the index entries point
// ---------------------------------------------------------------------------

/// The positions, among the records, of those that open an index entry.
pub open spec fn block_starts(rs: Seq<(Seq<u8>, Option<Seq<u8>>)>, off: nat) -> Seq<int>
    decreases rs.len(),
{
    if rs.len() == 0 {
        Seq::<int>::empty()
    } else {
        let n = record_bytes(rs[0].0, rs[0].1).len();
        let rest = block_starts(rs.drop_first(), off + n).map_values(|q: int| q + 1);
        if starts_block(off, n) {
            seq![0int] + rest
        } else {
            rest
        }
    }
}

/// The file offset of record `j` when the records start at `off`.
pub open spec fn record_pos(rs: Seq<(Seq<u8>, Option<Seq<u8>>)>, off: nat, j: int) -> nat {
    off + log_bytes(rs.subrange(0, j)).len()
}

proof fn lemma_log_prefix_step(rs: Seq<(Seq<u8>, Option<Seq<u8>>)>, j: int)
    requires
        0 <= j < rs.len(),
    ensures
        log_bytes(rs.subrange(0, j + 1)) == log_bytes(rs.subrange(0, j)) + record_bytes(rs[j].0, rs[j].1),
{
    crate::disk::lemma_log_bytes_push(rs.subrange(0, j), rs[j]);
    assert(rs.subrange(0, j).push(rs[j]) =~= rs.subrange(0, j + 1));
}

/// The index entries are the keys and offsets of the records at the block
/// starts, which increase, and the first record opens a block when it
/// starts at the first data offset.
proof fn lemma_block_starts(rs: Seq<(Seq<u8>, Option<Seq<u8>>)>, off: nat)
    requires
        off + log_bytes(rs).len() <= u64::MAX,
    ensures
        ({
            let q = block_starts(rs, off);
            let es = block_index(rs, off);
            &&& q.len() == es.len()
            &&& forall|t: int| 0 <= t < q.len() ==> 0 <= #[trigger] q[t] < rs.len()
            &&& forall|t: int| 0 <= t < q.len() ==> #[trigger] es[t] == (rs[q[t]].0, record_pos(rs, off, q[t]) as u64)
            &&& forall|t: int, u: int| 0 <= t < u < q.len() ==> #[trigger] q[t] < #[trigger] q[u]
            &&& (rs.len() > 0 && starts_block(off, record_bytes(rs[0].0, rs[0].1).len()) ==> q.len() > 0 && q[0] == 0)
        }),
    decreases rs.len(),
{
    if rs.len() > 0 {
        let n = record_bytes(rs[0].0, rs[0].1).len();
        let tail = rs.drop_first();
        assert(log_bytes(rs) == record_bytes(rs[0].0, rs[0].1) + log_bytes(tail));
        lemma_block_starts(tail, off + n);
        let qt = block_starts(tail, off + n);
        let et = block_index(tail, off + n);
        let shifted = qt.map_values(|x: int| x + 1);
        let q = block_starts(rs, off);
        let es = block_index(rs, off);
        assert forall|j: int| 0 <= j < tail.len() implies record_pos(rs, off, j + 1) == #[trigger] record_pos(tail, off + n, j) by {
            assert(rs.subrange(0, j + 1) =~= seq![rs[0]] + tail.subrange(0, j));
            assert(seq![rs[0]].drop_first() =~= Seq::<(Seq<u8>, Option<Seq<u8>>)>::empty());
            lemma_log_bytes_append(seq![rs[0]], tail.subrange(0, j));
            assert(log_bytes(seq![rs[0]]) == record_bytes(rs[0].0, rs[0].1) + log_bytes(Seq::<(Seq<u8>, Option<Seq<u8>>)>::empty()));
        }
        assert(record_pos(rs, off, 0) == off) by {
            assert(rs.subrange(0, 0) =~= Seq::<(Seq<u8>, Option<Seq<u8>>)>::empty());
        }
        if starts_block(off, n) {
            assert(q =~= seq![0int] + shifted);
            assert(es =~= seq![(rs[0].0, off as u64)] + et);
            assert forall|t: int| 0 <= t < q.len() implies #[trigger] es[t] == (rs[q[t]].0, record_pos(rs, off, q[t]) as u64) by {
                if t > 0 {
                    assert(q[t] == qt[t - 1] + 1);
                    assert(es[t] == et[t - 1]);
                    assert(rs[q[t]] == tail[qt[t - 1]]);
                }
            }
            assert forall|t: int, u: int| 0 <= t < u < q.len() implies #[trigger] q[t] < #[trigger] q[u] by {
                if t > 0 {
                    assert(q[t] == qt[t - 1] + 1 && q[u] == qt[u - 1] + 1);
                } else {
                    assert(q[u] == qt[u - 1] + 1);
                }
            }
        } else {
            assert(q =~= shifted);
            assert(es =~= et);
            assert forall|t: int| 0 <= t < q.len() implies #[trigger] es[t] == (rs[q[t]].0, record_pos(rs, off, q[t]) as u64) by {
                assert(q[t] == qt[t] + 1);
                assert(rs[q[t]] == tail[qt[t]]);
            }
            assert forall|t: int, u: int| 0 <= t < u < q.len() implies #[trigger] q[t] < #[trigger] q[u] by {
                assert(q[t] == qt[t] + 1 && q[u] == qt[u] + 1);
            }
        }
    }
}

// ---------------------------------------------------------------------------
// Blocks and lookups
// ---------------------------------------------------------------------------

/// Laid-out records are read back one by one, so the bytes decide the
/// records.
#[verifier::spinoff_prover]
#[verifier::rlimit(50)]
pub proof fn lemma_log_bytes_injective(xs: Seq<(Seq<u8>, Option<Seq<u8>>)>, ys: Seq<(Seq<u8>, Option<Seq<u8>>)>)
    requires
        log_bytes(xs) == log_bytes(ys),
        all_fit(xs),
        all_fit(ys),
    ensures
        xs == ys,
    decreases xs.len(),
{
    if xs.len() == 0 {
        if ys.len() > 0 {
            assert(log_bytes(ys).len() >= record_bytes(ys[0].0, ys[0].1).len());
            assert(false);
        }
        assert(xs =~= ys);
    } else {
        if ys.len() == 0 {
            assert(log_bytes(xs).len() >= record_bytes(xs[0].0, xs[0].1).len());
            assert(false);
        }
        let s = log_bytes(xs);
        let rx = record_bytes(xs[0].0, xs[0].1);
        let ry = record_bytes(ys[0].0, ys[0].1);
        assert(s == rx + log_bytes(xs.drop_first()));
        assert(s == ry + log_bytes(ys.drop_first()));
        assert(record_fits(xs[0].0, xs[0].1));
        assert(record_fits(ys[0].0, ys[0].1));
        assert(s.subrange(0, rx.len() as int) =~= rx);
        assert(s.subrange(0, ry.len() as int) =~= ry);
        lemma_record_at_bytes(s, 0, xs[0].0, xs[0].1);
        lemma_record_at_bytes(s, 0, ys[0].0, ys[0].1);
        assert(xs[0] == ys[0]);
        assert(log_bytes(xs.drop_first()) =~= s.subrange(rx.len() as int, s.len() as int));
        assert(log_bytes(ys.drop_first()) =~= s.subrange(ry.len() as int, s.len() as int));
        assert forall|i: int| 0 <= i < xs.drop_first().len() implies record_fits(#[trigger] xs.drop_first()[i].0, xs.drop_first()[i].1) by {
            assert(xs.drop_first()[i] == xs[i + 1]);
        }
        assert forall|i: int| 0 <= i < ys.drop_first().len() implies record_fits(#[trigger] ys.drop_first()[i].0, ys.drop_first()[i].1) by {
            assert(ys.drop_first()[i] == ys[i + 1]);
        }
        lemma_log_bytes_injective(xs.drop_first(), ys.drop_first());
        assert(xs =~= seq![xs[0]] + xs.drop_first());
        assert(ys =~= seq![ys[0]] + ys.drop_first());
    }
}

/// A lookup may skip every record that lies outside `a..b` and has another
/// key.
proof fn lemma_lookup_window(rs: Seq<(Seq<u8>, Option<Seq<u8>>)>, a: int, b: int, k: Seq<u8>)
    requires
        0 <= a <= b <= rs.len(),
        forall|j: int| 0 <= j < a ==> (#[trigger] rs[j]).0 != k,
        forall|j: int| b <= j < rs.len() ==> (#[trigger] rs[j]).0 != k,
    ensures
        lookup(rs, k) == lookup(rs.subrange(a, b), k),
{
    let pre = rs.subrange(0, a);
    let mid = rs.subrange(a, b);
    let post = rs.subrange(b, rs.len() as int);
    assert(rs =~= pre + mid + post);
    lemma_lookup_append(pre + mid, post, k);
    lemma_lookup_append(pre, mid, k);
    lemma_lookup_absent(pre, k);
    lemma_lookup_absent(post, k);
    lemma_lookup_absent(mid, k);
    if has_key(pre, k) {
        let j = choose|j: int| 0 <= j < pre.len() && (#[trigger] pre[j]).0 == k;
        assert(pre[j] == rs[j]);
    }
    if has_key(post, k) {
        let j = choose|j: int| 0 <= j < post.len() && (#[trigger] post[j]).0 == k;
        assert(post[j] == rs[b + j]);
    }
}

/// What a table's bytes hold, when they are the table of `rs`: every
/// record addressable, keys increasing, at least one record.
pub open spec fn valid_table(image: Seq<u8>, rs: Seq<(Seq<u8>, Option<Seq<u8>>)>) -> bool {
    &&& is_sstable_of(image, rs)
    &&& records_sorted(rs)
    &&& all_fit(rs)
    &&& image.len() <= usize::MAX
    &&& sstable_size(rs) <= u64::MAX
}

/// The header, the footer, the index and the filter of a table, read from
/// its bytes.
pub struct SSTable {
    pub index: SstIndex,
    pub version: u16,
}

impl SSTable {
    /// Reads the header, footer, index block and bloom filter from the bytes
    /// of a whole table.
    pub fn from_image(image: &[u8]) -> (r: Result<SSTable, SSTableError>)
        requires
            exists|rs: Seq<(Seq<u8>, Option<Seq<u8>>)>| valid_table(image@, rs),
        ensures
            r matches Ok(t) && t.version == 0 && t.index.wf() && forall|rs: Seq<(Seq<u8>, Option<Seq<u8>>)>|
                #![trigger valid_table(image@, rs)]
                valid_table(image@, rs) ==> table_index_of(&t.index, image@, rs),
    {
        let ghost rs = choose|rs: Seq<(Seq<u8>, Option<Seq<u8>>)>| valid_table(image@, rs);
        let n = image.len();
        proof {
            lemma_layout(image@, rs);
        }
        let version = match validate_buffer_and_get_version(image) {
            Ok(v) => v,
            Err(e) => {
                return Err(e);
            },
        };
        let footer_bytes = copy_range(image, n - 24, n);
        let footer = SSTableFooter::from_bytes(footer_bytes.as_slice());
        let index_block = copy_range(image, footer.index_block_start as usize, footer.bloom_filter_start as usize);
        let bloom_block = copy_range(image, footer.bloom_filter_start as usize, n - 24);
        let index = SstIndex::from_blocks(&footer, index_block.as_slice(), bloom_block.as_slice());
        proof {
            lemma_layout(image@, rs);
            assert forall|rs2: Seq<(Seq<u8>, Option<Seq<u8>>)>| #![trigger valid_table(image@, rs2)]
                valid_table(image@, rs2) implies table_index_of(&index, image@, rs2) by {
                lemma_layout(image@, rs2);
            }
            lemma_index_wf(&index, image@, rs);
        }
        Ok(SSTable { index, version })
    }
}

/// What the index read from the table of `rs` holds: the entries of
/// `rs`, the end of its data blocks, and its bloom filter.
pub open spec fn table_index_of(index: &SstIndex, image: Seq<u8>, rs: Seq<(Seq<u8>, Option<Seq<u8>>)>) -> bool {
    let es = block_index(rs, constants::HEADER_SIZE as nat);
    &&& index.key_seq() == entry_keys(es)
    &&& index.offsets@ == entry_offsets(es)
    &&& index.data_block_end == header_bytes().len() + log_bytes(rs).len()
    &&& index.bloom_filter.wf()
    &&& index.bloom_filter.bits@.len() > 0
    &&& forall|i: int| 0 <= i < rs.len() ==> index.bloom_filter.spec_contains(#[trigger] rs[i].0)
}

/// The filter bytes of a table: words that answer yes for every key.
pub open spec fn filter_ok(s: Seq<u8>, rs: Seq<(Seq<u8>, Option<Seq<u8>>)>) -> bool {
    match crate::sstable::bloom_filter::serialized_filter(s) {
        Some((bits, nh)) => {
            &&& bits.len() > 0
            &&& forall|i: int| 0 <= i < rs.len() ==> all_bits_set(bits, #[trigger] rs[i].0, nh, (64 * bits.len()) as u64)
        },
        None => false,
    }
}

/// Where the parts of the table of `rs` lie in its bytes.
pub proof fn lemma_layout(image: Seq<u8>, rs: Seq<(Seq<u8>, Option<Seq<u8>>)>)
    requires
        valid_table(image, rs),
    ensures
        ({
            let es = block_index(rs, constants::HEADER_SIZE as nat);
            let ds = (header_bytes().len() + log_bytes(rs).len()) as int;
            let ib = index_bytes(es).len() as int;
            let n = image.len() as int;
            &&& n >= ds + ib + 24
            &&& image.subrange(0, 4) == seq![78u8, 76u8, 68u8, 66u8]
            &&& u16_from_be(image.subrange(4, 6)) == 0
            &&& crate::util::u64_from_be(image.subrange(n - 24, n).subrange(0, 8)) == ds
            &&& crate::util::u64_from_be(image.subrange(n - 24, n).subrange(8, 16)) == es.len()
            &&& crate::util::u64_from_be(image.subrange(n - 24, n).subrange(16, 24)) == ds + ib
            &&& image.subrange(ds, ds + ib) == index_bytes(es)
            &&& index_entries_at(index_bytes(es), 0, es.len()) == Some(es)
            &&& es.len() <= usize::MAX
            &&& filter_ok(image.subrange(ds + ib, n - 24), rs)
            &&& image.subrange(header_bytes().len() as int, ds) == log_bytes(rs)
        }),
{
    let (bits, nh) = choose|bits: Seq<u64>, nh: u64|
        {
            &&& image == sstable_bytes(rs, bits, nh)
            &&& 0 < bits.len() <= usize::MAX
            &&& 64 * bits.len() <= u64::MAX
            &&& forall|i: int| 0 <= i < rs.len() ==> all_bits_set(bits, #[trigger] rs[i].0, nh, (64 * bits.len()) as u64)
        };
    let es = block_index(rs, constants::HEADER_SIZE as nat);
    let h = header_bytes();
    let l = log_bytes(rs);
    let ibs = index_bytes(es);
    let bb = BloomFilter::spec_bytes(bits, nh);
    let ds = (h.len() + l.len()) as int;
    let ib = ibs.len() as int;
    let f = footer_bytes(ds as u64, es.len() as u64, (ds + ib) as u64);
    assert(image =~= h + l + ibs + bb + f);
    law_footer_roundtrip(ds as u64, es.len() as u64, (ds + ib) as u64);
    let n = image.len() as int;
    assert(image.subrange(n - 24, n) =~= f);
    assert(image.subrange(0, 4) =~= seq![78u8, 76u8, 68u8, 66u8]);
    assert(image.subrange(4, 6) =~= seq![0u8, 0u8]);
    assert(((0u8 as u16) << 8u16) | (0u8 as u16) == 0u16) by (bit_vector);
    assert(u16_from_be(seq![0u8, 0u8]) == 0);
    assert(image.subrange(ds, ds + ib) =~= ibs);
    assert(image.subrange(ds + ib, n - 24) =~= bb);
    assert(image.subrange(h.len() as int, ds) =~= l);
    lemma_block_starts(rs, constants::HEADER_SIZE as nat);
    assert forall|i: int| 0 <= i < es.len() implies (#[trigger] es[i]).0.len() <= usize::MAX by {
        let q = block_starts(rs, constants::HEADER_SIZE as nat);
        assert(es[i].0 == rs[q[i]].0);
        assert(record_fits(rs[q[i]].0, rs[q[i]].1));
    }
    law_index_roundtrip(es, Seq::<u8>::empty());
    assert(ibs + Seq::<u8>::empty() =~= ibs);
    law_bloom_roundtrip(bits, nh);
    lemma_index_bytes_len(es);
}

proof fn lemma_index_bytes_len(es: Seq<(Seq<u8>, u64)>)
    ensures
        index_bytes(es).len() >= 9 * es.len(),
    decreases es.len(),
{
    if es.len() > 0 {
        lemma_index_bytes_len(es.drop_first());
        crate::util::lemma_u64_be_roundtrip(es[0].1);
        crate::util::lemma_varint_bytes_shape(es[0].0.len());
    }
}

/// The leading run of keys at most `key`, and the key right after it.
proof fn lemma_count_le_split(keys: Seq<Seq<u8>>, key: Seq<u8>)
    ensures
        count_le(keys, key) <= keys.len(),
        forall|t: int| 0 <= t < count_le(keys, key) ==> !key_lt(key, #[trigger] keys[t]),
        count_le(keys, key) < keys.len() ==> key_lt(key, keys[count_le(keys, key) as int]),
    decreases keys.len(),
{
    if keys.len() > 0 && !key_lt(key, keys[0]) {
        let rest = keys.drop_first();
        lemma_count_le_split(rest, key);
        assert forall|t: int| 0 <= t < count_le(keys, key) implies !key_lt(key, #[trigger] keys[t]) by {
            if t > 0 {
                assert(keys[t] == rest[t - 1]);
            }
        }
        if count_le(keys, key) < keys.len() {
            assert(keys[count_le(keys, key) as int] == rest[count_le(rest, key) as int]);
        }
    }
}

/// The index read from a table is well formed: one offset per key, keys
/// increasing, a usable filter.
proof fn lemma_index_wf(index: &SstIndex, image: Seq<u8>, rs: Seq<(Seq<u8>, Option<Seq<u8>>)>)
    requires
        valid_table(image, rs),
        table_index_of(index, image, rs),
    ensures
        index.wf(),
{
    let off = constants::HEADER_SIZE as nat;
    let es = block_index(rs, off);
    let q = block_starts(rs, off);
    lemma_block_starts(rs, off);
    assert(index.key_seq().len() == es.len());
    assert(index.keys@.len() == index.key_seq().len());
    assert forall|i: int, j: int| 0 <= i < j < index.key_seq().len() implies key_lt(
        #[trigger] index.key_seq()[i],
        #[trigger] index.key_seq()[j],
    ) by {
        assert(index.key_seq()[i] == entry_keys(es)[i]);
        assert(index.key_seq()[j] == entry_keys(es)[j]);
        assert(es[i] == (rs[q[i]].0, record_pos(rs, off, q[i]) as u64));
        assert(es[j] == (rs[q[j]].0, record_pos(rs, off, q[j]) as u64));
        assert(q[i] < q[j]);
    }
}

/// The bytes of the records `a..b` lie between their offsets.
proof fn lemma_window_bytes(rs: Seq<(Seq<u8>, Option<Seq<u8>>)>, a: int, b: int)
    requires
        0 <= a <= b <= rs.len(),
    ensures
        log_bytes(rs).subrange(
            log_bytes(rs.subrange(0, a)).len() as int,
            log_bytes(rs.subrange(0, b)).len() as int,
        ) == log_bytes(rs.subrange(a, b)),
        log_bytes(rs.subrange(0, b)).len() <= log_bytes(rs).len(),
{
    let pre = rs.subrange(0, a);
    let mid = rs.subrange(a, b);
    let post = rs.subrange(b, rs.len() as int);
    assert(rs =~= pre + mid + post);
    assert(rs.subrange(0, b) =~= pre + mid);
    lemma_log_bytes_append(pre + mid, post);
    lemma_log_bytes_append(pre, mid);
    assert(log_bytes(rs).subrange(pre_len(pre), pre_len(pre) + log_bytes(mid).len()) =~= log_bytes(mid));
}

spec fn pre_len(pre: Seq<(Seq<u8>, Option<Seq<u8>>)>) -> int {
    log_bytes(pre).len() as int
}

#[verifier::spinoff_prover]
#[verifier::rlimit(40)]
/// The bytes between the offsets of records `a` and `b` in a table are
/// those records.
proof fn lemma_image_window(image: Seq<u8>, rs: Seq<(Seq<u8>, Option<Seq<u8>>)>, a: int, b: int)
    requires
        valid_table(image, rs),
        rs.len() > 0,
        0 <= a <= b <= rs.len(),
    ensures
        record_pos(rs, constants::HEADER_SIZE as nat, a) <= record_pos(rs, constants::HEADER_SIZE as nat, b) <= image.len(),
        image.subrange(
            record_pos(rs, constants::HEADER_SIZE as nat, a) as int,
            record_pos(rs, constants::HEADER_SIZE as nat, b) as int,
        ) == log_bytes(rs.subrange(a, b)),
{
    lemma_layout(image, rs);
    lemma_window_bytes(rs, a, b);
    lemma_window_bytes(rs, 0, a);
    let l = log_bytes(rs);
    let x = log_bytes(rs.subrange(0, a)).len() as int;
    let y = log_bytes(rs.subrange(0, b)).len() as int;
    let pre = rs.subrange(0, a);
    let mid = rs.subrange(a, b);
    assert(rs.subrange(0, b) =~= pre + mid);
    lemma_log_bytes_append(pre, mid);
    let h = header_bytes().len() as int;
    assert(image.subrange(h, h + l.len()) == l);
    assert(image.subrange(h + x, h + y) =~= l.subrange(x, y)) by {
        assert forall|z: int| 0 <= z < y - x implies image.subrange(h + x, h + y)[z] == l.subrange(x, y)[z] by {
            assert(image[h + x + z] == image.subrange(h, h + l.len())[x + z]);
        }
    }
}

/// Records before the block's first entry, and from the next entry on,
/// have keys other than `key`.
proof fn lemma_window_keys(
    rs: Seq<(Seq<u8>, Option<Seq<u8>>)>,
    q: Seq<int>,
    ks: Seq<Seq<u8>>,
    key: Seq<u8>,
    i: int,
    a: int,
    b: int,
)
    requires
        records_sorted(rs),
        ks.len() == q.len(),
        q.len() > 0,
        q[0] == 0,
        forall|t: int| 0 <= t < q.len() ==> 0 <= #[trigger] q[t] < rs.len(),
        forall|t: int| 0 <= t < q.len() ==> #[trigger] ks[t] == rs[q[t]].0,
        forall|t: int, u: int| 0 <= t < u < q.len() ==> #[trigger] q[t] < #[trigger] q[u],
        i == (if count_le(ks, key) == 0 { 0 } else { count_le(ks, key) - 1 }),
        a == q[i],
        b == (if i == q.len() - 1 { rs.len() as int } else { q[i + 1] }),
    ensures
        forall|j: int| 0 <= j < a ==> (#[trigger] rs[j]).0 != key,
        forall|j: int| b <= j < rs.len() ==> (#[trigger] rs[j]).0 != key,
{
    lemma_key_order_facts();
    lemma_count_le_split(ks, key);
    let c = count_le(ks, key);
    assert forall|j: int| 0 <= j < a implies (#[trigger] rs[j]).0 != key by {
        if c > 0 {
            assert(!key_lt(key, ks[i]));
            assert(key_lt(rs[j].0, rs[a].0));
        }
    }
    assert forall|j: int| b <= j < rs.len() implies (#[trigger] rs[j]).0 != key by {
        if c == 0 {
            assert(key_lt(key, ks[0]));
            if i < q.len() - 1 {
                assert(q[0] < q[1]);
                assert(key_lt(rs[q[0]].0, rs[j].0));
            }
        } else {
            assert(i + 1 == c);
            assert(key_lt(key, ks[i + 1]));
            if j > q[i + 1] {
                assert(key_lt(rs[q[i + 1]].0, rs[j].0));
            }
        }
    }
}

#[verifier::rlimit(60)]
/// The block that the index names for `key` holds every record of `rs`
/// with that key, so a lookup in it answers as one in `rs`; when the
/// filter rules the key out, no record has it.
proof fn lemma_range_block(index: &SstIndex, image: Seq<u8>, rs: Seq<(Seq<u8>, Option<Seq<u8>>)>, key: Seq<u8>)
    requires
        valid_table(image, rs),
        rs.len() > 0,
        table_index_of(index, image, rs),
    ensures
        match index.spec_range(key) {
            None => lookup(rs, key) == Err::<Seq<u8>, SSTableError>(SSTableError::DiskRecordNotFound),
            Some((s, e)) => {
                &&& s <= e <= image.len()
                &&& is_block(image.subrange(s as int, e as int))
                &&& lookup(block_records(image.subrange(s as int, e as int)), key) == lookup(rs, key)
            },
        },
{
    let off = constants::HEADER_SIZE as nat;
    let es = block_index(rs, off);
    let q = block_starts(rs, off);
    lemma_layout(image, rs);
    lemma_index_wf(index, image, rs);
    lemma_block_starts(rs, off);
    lemma_key_order_facts();
    lemma_lookup_absent(rs, key);
    match index.spec_range(key) {
        None => {
            if has_key(rs, key) {
                let j = choose|j: int| 0 <= j < rs.len() && (#[trigger] rs[j]).0 == key;
                assert(index.bloom_filter.spec_contains(rs[j].0));
            }
        },
        Some((s, e)) => {
            let m = es.len() as int;
            let ks = index.key_seq();
            let c = count_le(ks, key);
            lemma_count_le_split(ks, key);
            let i = index.spec_search_key(key) as int;
            let a = q[i];
            let b = if i == m - 1 { rs.len() as int } else { q[i + 1] };
            assert(ks[i] == rs[q[i]].0) by {
                assert(ks[i] == entry_keys(es)[i]);
            }
            lemma_window_bytes(rs, 0, a);
            lemma_window_bytes(rs, 0, b);
            assert(s == record_pos(rs, off, a)) by {
                assert(index.offsets@[i] == entry_offsets(es)[i]);
                assert(entry_offsets(es)[i] == es[i].1);
                assert(es[i] == (rs[q[i]].0, record_pos(rs, off, q[i]) as u64));
            }
            if i < m - 1 {
                assert(ks[i + 1] == rs[q[i + 1]].0) by {
                    assert(ks[i + 1] == entry_keys(es)[i + 1]);
                }
                assert(e == record_pos(rs, off, b)) by {
                    assert(index.offsets@[i + 1] == entry_offsets(es)[i + 1]);
                    assert(entry_offsets(es)[i + 1] == es[i + 1].1);
                    assert(es[i + 1] == (rs[q[i + 1]].0, record_pos(rs, off, q[i + 1]) as u64));
                }
            } else {
                assert(rs.subrange(0, rs.len() as int) =~= rs);
                assert(e == record_pos(rs, off, b));
            }
            assert(0 <= a <= b <= rs.len());
            let sub = rs.subrange(a, b);
            lemma_image_window(image, rs, a, b);
            assert forall|t: int| 0 <= t < sub.len() implies record_fits(#[trigger] sub[t].0, sub[t].1) by {
                assert(sub[t] == rs[a + t]);
            }
            assert(is_block(image.subrange(s as int, e as int)));
            let chosen = block_records(image.subrange(s as int, e as int));
            lemma_log_bytes_injective(chosen, sub);
            assert forall|t: int| 0 <= t < m implies #[trigger] ks[t] == rs[q[t]].0 by {
                assert(ks[t] == entry_keys(es)[t]);
            }
            lemma_window_keys(rs, q, ks, key, i, a, b);
            lemma_lookup_window(rs, a, b, key);
        },
    }
}

/// The block that the index names for `key`, for a table with or without
/// records: a table without records names none, and holds no key.
proof fn lemma_range_any(index: &SstIndex, image: Seq<u8>, rs: Seq<(Seq<u8>, Option<Seq<u8>>)>, key: Seq<u8>)
    requires
        valid_table(image, rs),
        table_index_of(index, image, rs),
    ensures
        match index.spec_range(key) {
            None => lookup(rs, key) == Err::<Seq<u8>, SSTableError>(SSTableError::DiskRecordNotFound),
            Some((s, e)) => {
                &&& s <= e <= image.len()
                &&& is_block(image.subrange(s as int, e as int))
                &&& lookup(block_records(image.subrange(s as int, e as int)), key) == lookup(rs, key)
            },
        },
{
    if rs.len() > 0 {
        lemma_range_block(index, image, rs, key);
    } else {
        assert(block_index(rs, constants::HEADER_SIZE as nat).len() == 0);
        assert(index.offsets@.len() == 0);
    }
}

impl SSTable {
    /// Looks `key` up in the table whose bytes are `image`: reads only the
    /// block that the index names, after the bloom filter lets the key
    /// through.
    pub fn search(&self, image: &[u8], key: &[u8]) -> (r: Result<Vec<u8>, SSTableError>)
        requires
            self.index.wf(),
            exists|rs: Seq<(Seq<u8>, Option<Seq<u8>>)>| valid_table(image@, rs) && table_index_of(&self.index, image@, rs),
        ensures
            forall|rs: Seq<(Seq<u8>, Option<Seq<u8>>)>|
                #![trigger valid_table(image@, rs)]
                valid_table(image@, rs) && table_index_of(&self.index, image@, rs) ==> match r {
                    Ok(d) => lookup(rs, key@) == Ok::<Seq<u8>, SSTableError>(d@),
                    Err(e) => lookup(rs, key@) == Err::<Seq<u8>, SSTableError>(e),
                },
    {
        let ghost rs0 = choose|rs: Seq<(Seq<u8>, Option<Seq<u8>>)>| valid_table(image@, rs) && table_index_of(&self.index, image@, rs);
        proof {
            lemma_range_any(&self.index, image@, rs0, key@);
        }
        let r = match self.index.range_search_start(key) {
            None => Err(SSTableError::DiskRecordNotFound),
            Some((start, end)) => {
                let block = copy_range(image, start as usize, end as usize);
                search_data_block(block.as_slice(), key)
            },
        };
        proof {
            assert forall|rs: Seq<(Seq<u8>, Option<Seq<u8>>)>| #![trigger valid_table(image@, rs)]
                valid_table(image@, rs) && table_index_of(&self.index, image@, rs) implies match r {
                    Ok(d) => lookup(rs, key@) == Ok::<Seq<u8>, SSTableError>(d@),
                    Err(e) => lookup(rs, key@) == Err::<Seq<u8>, SSTableError>(e),
                } by {
                lemma_range_any(&self.index, image@, rs, key@);
            }
        }
        r
    }
}

/// A table written from a memtable gives back, for every key, what the
/// memtable holds for it: its data, a tombstone, or nothing.
pub proof fn law_sstable_read_back(image: Seq<u8>, table: crate::memtable::inner::MemtableInner, key: Seq<u8>)
    requires
        table.wf(),
        table.arena@.len() >= 1,
        is_sstable_of(image, crate::memtable::order::inorder(table.arena@, table.tree@)),
        sstable_size(crate::memtable::order::inorder(table.arena@, table.tree@)) <= crate::sstable::encode::size_limit(),
        image.len() <= usize::MAX,
    ensures
        valid_table(image, crate::memtable::order::inorder(table.arena@, table.tree@)),
        lookup(crate::memtable::order::inorder(table.arena@, table.tree@), key)
            == crate::memtable::order::map_answer(table@, key),
{
    let rs = crate::memtable::order::inorder(table.arena@, table.tree@);
    crate::memtable::order::lemma_inorder(table.arena@, table.tree@, None, None);
    crate::memtable::tree::lemma_links_indices(table.arena@, table.tree@, None);
    assert(table.tree@.indices().contains(0usize));
    assert(rs.len() > 0) by {
        if let crate::memtable::tree::Tree::Node(i, l, r) = table.tree@ {
        }
    }
    assert forall|i: int| 0 <= i < rs.len() implies record_fits(#[trigger] rs[i].0, rs[i].1) by {
        lemma_record_within(rs, i);
    }
}

proof fn lemma_record_within(rs: Seq<(Seq<u8>, Option<Seq<u8>>)>, i: int)
    requires
        0 <= i < rs.len(),
        header_bytes().len() + log_bytes(rs).len() <= usize::MAX,
    ensures
        record_bytes(rs[i].0, rs[i].1).len() <= log_bytes(rs).len(),
{
    lemma_window_bytes(rs, i, i + 1);
    lemma_log_prefix_step(rs, i);
    assert(rs.subrange(i, i + 1) =~= seq![rs[i]]);
    assert(seq![rs[i]].drop_first() =~= Seq::<(Seq<u8>, Option<Seq<u8>>)>::empty());
    assert(log_bytes(seq![rs[i]]) == record_bytes(rs[i].0, rs[i].1) + log_bytes(Seq::<(Seq<u8>, Option<Seq<u8>>)>::empty()));
}

} // verus!
