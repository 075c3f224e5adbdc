//! The in-memory index of an SSTable: the first key and the offset of each
//! data block, and the table's bloom filter.
//!
//! Index entry on disk: `[key length varint][key][offset u64 big-endian]`.

use vstd::prelude::*;
use crate::keys::{compare_keys, key_lt, lemma_key_order_facts, KeyOrder};
use crate::sstable::bloom_filter::BloomFilter;
use crate::sstable::footer::SSTableFooter;
use crate::util::{
    copy_range, decode_varint, get_be_array8, law_varint_roundtrip, lemma_u64_be_roundtrip,
    lemma_varint_len_bound, u64_be_bytes, u64_from_be, u64_from_be_bytes, varint_bytes,
    varint_decoded_at, varint_len_at,
};

verus! {

/// The bytes of one index entry.
pub open spec fn index_entry_bytes(key: Seq<u8>, offset: u64) -> Seq<u8> {
    varint_bytes(key.len()) + key + u64_be_bytes(offset)
}

/// Index entries laid one after the other.
pub open spec fn index_bytes(es: Seq<(Seq<u8>, u64)>) -> Seq<u8>
    decreases es.len(),
{
    if es.len() == 0 {
        Seq::<u8>::empty()
    } else {
        index_entry_bytes(es[0].0, es[0].1) + index_bytes(es.drop_first())
    }
}

/// The entry at `off`: its key, its offset and where it ends.
pub open spec fn index_entry_at(s: Seq<u8>, off: int) -> Option<(Seq<u8>, u64, int)> {
    match varint_len_at(s, off) {
        None => None,
        Some(n) => {
            let ks = off + n;
            let ke = ks + varint_decoded_at(s, off);
            if ke + 8 > s.len() {
                None
            } else {
                Some((s.subrange(ks, ke), u64_from_be(s.subrange(ke, ke + 8)), ke + 8))
            }
        },
    }
}

/// The `n` entries from `off` on.
pub open spec fn index_entries_at(s: Seq<u8>, off: int, n: nat) -> Option<Seq<(Seq<u8>, u64)>>
    decreases n,
{
    if n == 0 {
        Some(Seq::<(Seq<u8>, u64)>::empty())
    } else {
        match index_entry_at(s, off) {
            None => None,
            Some((k, o, end)) => match index_entries_at(s, end, (n - 1) as nat) {
                None => None,
                Some(rest) => Some(seq![(k, o)] + rest),
            },
        }
    }
}

/// The first component of each entry.
pub open spec fn entry_keys(es: Seq<(Seq<u8>, u64)>) -> Seq<Seq<u8>> {
    es.map_values(|e: (Seq<u8>, u64)| e.0)
}

/// The second component of each entry.
pub open spec fn entry_offsets(es: Seq<(Seq<u8>, u64)>) -> Seq<u64> {
    es.map_values(|e: (Seq<u8>, u64)| e.1)
}

/// Reads `index_len` entries from the front of the index block.
pub fn decode_index(buffer: &[u8], index_len: usize) -> (r: (Vec<Vec<u8>>, Vec<u64>))
    requires
        index_entries_at(buffer@, 0, index_len as nat) is Some,
    ensures
        ({
            let es = index_entries_at(buffer@, 0, index_len as nat)->0;
            &&& r.0@.len() == es.len()
            &&& forall|i: int| 0 <= i < es.len() ==> (#[trigger] r.0@[i])@ == es[i].0
            &&& r.1@ == entry_offsets(es)
        }),
{
    let _len = buffer.len();
    let mut keys: Vec<Vec<u8>> = Vec::new();
    let mut offsets: Vec<u64> = Vec::new();
    let mut offset: usize = 0;
    let mut n: usize = 0;
    let ghost es = index_entries_at(buffer@, 0, index_len as nat)->0;
    let ghost mut done: Seq<(Seq<u8>, u64)> = Seq::empty();
    while n < index_len
        invariant
            _len == buffer@.len(),
            n <= index_len,
            offset <= buffer@.len(),
            index_entries_at(buffer@, 0, index_len as nat) == Some(es),
            index_entries_at(buffer@, offset as int, (index_len - n) as nat) is Some,
            es == done + index_entries_at(buffer@, offset as int, (index_len - n) as nat)->0,
            done.len() == n,
            keys@.len() == n,
            forall|i: int| 0 <= i < n ==> (#[trigger] keys@[i])@ == done[i].0,
            offsets@ == entry_offsets(done),
        decreases index_len - n,
    {
        let ghost rest = index_entries_at(buffer@, offset as int, (index_len - n) as nat)->0;
        proof {
            lemma_varint_len_bound(buffer@, offset as int, 0);
        }
        let (key_len, bytes_walked) = decode_varint(buffer, offset);
        offset = offset + bytes_walked;
        assert(key_len as usize == key_len);
        let key_end = offset + key_len as usize;
        let key = copy_range(buffer, offset, key_end);
        offset = key_end;
        let key_offset = u64_from_be_bytes(get_be_array8(buffer, offset));
        offset = offset + 8;
        proof {
            let e = (key@, key_offset);
            assert(rest[0] == e);
            assert(rest =~= seq![e] + index_entries_at(buffer@, offset as int, (index_len - n - 1) as nat)->0);
            assert(es =~= done.push(e) + index_entries_at(buffer@, offset as int, (index_len - n - 1) as nat)->0);
            assert(entry_offsets(done.push(e)) =~= entry_offsets(done).push(key_offset));
            done = done.push(e);
        }
        keys.push(key);
        offsets.push(key_offset);
        n = n + 1;
    }
    proof {
        assert(done =~= es);
    }
    (keys, offsets)
}

/// Reading laid-out entries gives them back.
pub proof fn law_index_roundtrip(es: Seq<(Seq<u8>, u64)>, post: Seq<u8>)
    requires
        forall|i: int| 0 <= i < es.len() ==> (#[trigger] es[i]).0.len() <= usize::MAX,
    ensures
        index_entries_at(index_bytes(es) + post, 0, es.len()) == Some(es),
    decreases es.len(),
{
    if es.len() > 0 {
        let (k, o) = es[0];
        let rest = es.drop_first();
        assert forall|i: int| 0 <= i < rest.len() implies (#[trigger] rest[i]).0.len() <= usize::MAX by {
            assert(rest[i] == es[i + 1]);
        }
        law_index_roundtrip(rest, post);
        let eb = index_entry_bytes(k, o);
        let s = index_bytes(es) + post;
        let tail = index_bytes(rest) + post;
        assert(s =~= eb + tail);
        let vb = varint_bytes(k.len());
        assert(s.subrange(0, vb.len() as int) =~= vb);
        assert(es[0].0.len() <= usize::MAX);
        law_varint_roundtrip(k.len() as usize, s, 0);
        let ks = vb.len() as int;
        let ke = ks + k.len();
        assert(s.subrange(ks, ke) =~= k);
        lemma_u64_be_roundtrip(o);
        assert(s.subrange(ke, ke + 8) =~= u64_be_bytes(o));
        lemma_index_entries_shift(eb, tail, rest.len());
        assert(es =~= seq![(k, o)] + rest);
    }
}

/// Entries read after a prefix are those read from the rest.
proof fn lemma_index_entries_shift(pre: Seq<u8>, s: Seq<u8>, n: nat)
    ensures
        index_entries_at(pre + s, pre.len() as int, n) == index_entries_at(s, 0, n),
    decreases n,
{
    lemma_index_entries_shift_at(pre, s, 0, n);
}

proof fn lemma_index_entries_shift_at(pre: Seq<u8>, s: Seq<u8>, off: int, n: nat)
    requires
        0 <= off,
    ensures
        index_entries_at(pre + s, pre.len() + off, n) == index_entries_at(s, off, n),
    decreases n,
{
    if n > 0 {
        let t = pre + s;
        let p = pre.len() as int;
        lemma_varint_shift(pre, s, off, 0);
        match varint_len_at(s, off) {
            None => {},
            Some(vl) => {
                lemma_varint_len_bound(s, off, 0);
                assert(t.subrange(p + off, p + off + vl) =~= s.subrange(off, off + vl));
                let ks = off + vl;
                let ke = ks + varint_decoded_at(s, off);
                if ke + 8 <= s.len() {
                    assert(t.subrange(p + ks, p + ke) =~= s.subrange(ks, ke));
                    assert(t.subrange(p + ke, p + ke + 8) =~= s.subrange(ke, ke + 8));
                    lemma_index_entries_shift_at(pre, s, ke + 8, (n - 1) as nat);
                }
            },
        }
    }
}

/// A varint reads the same after a prefix.
proof fn lemma_varint_shift(pre: Seq<u8>, s: Seq<u8>, off: int, k: nat)
    requires
        0 <= off,
    ensures
        crate::util::varint_term(pre + s, pre.len() + off, k) == crate::util::varint_term(s, off, k),
    decreases 10 - k,
{
    if !(k >= 10 || off + k >= s.len()) {
        assert((pre + s)[pre.len() + off + k] == s[off + k]);
        lemma_varint_shift(pre, s, off, k + 1);
    }
}

/// The number of leading keys that are at most `key`: for sorted keys, the
/// position of the first key above `key`.
pub open spec fn count_le(keys: Seq<Seq<u8>>, key: Seq<u8>) -> nat
    decreases keys.len(),
{
    if keys.len() == 0 || key_lt(key, keys[0]) {
        0
    } else {
        1 + count_le(keys.drop_first(), key)
    }
}

/// Strictly increasing keys.
pub open spec fn keys_sorted(keys: Seq<Seq<u8>>) -> bool {
    forall|i: int, j: int| 0 <= i < j < keys.len() ==> key_lt(#[trigger] keys[i], #[trigger] keys[j])
}

proof fn lemma_count_le(keys: Seq<Seq<u8>>, key: Seq<u8>, p: int)
    requires
        0 <= p <= keys.len(),
        forall|i: int| 0 <= i < p ==> !key_lt(key, #[trigger] keys[i]),
        p < keys.len() ==> key_lt(key, keys[p]),
    ensures
        count_le(keys, key) == p,
    decreases keys.len(),
{
    if p > 0 {
        let rest = keys.drop_first();
        assert forall|i: int| 0 <= i < p - 1 implies !key_lt(key, #[trigger] rest[i]) by {
            assert(rest[i] == keys[i + 1]);
        }
        if p < keys.len() {
            assert(rest[p - 1] == keys[p]);
        }
        lemma_count_le(rest, key, p - 1);
    }
}

/// The index of an SSTable.
pub struct SstIndex {
    pub keys: Vec<Vec<u8>>,
    pub offsets: Vec<u64>,
    pub bloom_filter: BloomFilter,
    pub data_block_end: u64,
}

impl SstIndex {
    /// The keys, as values.
    pub open spec fn key_seq(&self) -> Seq<Seq<u8>> {
        self.keys@.map_values(|k: Vec<u8>| k@)
    }

    /// One offset per key, keys strictly increasing, and a filter that can
    /// be probed.
    pub open spec fn wf(&self) -> bool {
        &&& self.keys@.len() == self.offsets@.len()
        &&& keys_sorted(self.key_seq())
        &&& self.bloom_filter.usable()
    }

    /// The entry whose block may hold `key`: the last entry with a key at
    /// most `key`, or the first entry when every key is above it.
    pub open spec fn spec_search_key(&self, key: Seq<u8>) -> nat {
        let c = count_le(self.key_seq(), key);
        if c == 0 {
            0
        } else {
            (c - 1) as nat
        }
    }

    /// The byte range of the block that may hold `key`, if the bloom filter
    /// does not rule the key out: from the block's offset to the next
    /// block's, or to the end of the data blocks after the last one. A
    /// table without records has no block.
    pub open spec fn spec_range(&self, key: Seq<u8>) -> Option<(u64, u64)> {
        if !self.bloom_filter.spec_contains(key) || self.offsets@.len() == 0 {
            None
        } else {
            let i = self.spec_search_key(key) as int;
            if i == self.offsets@.len() - 1 {
                Some((self.offsets@[i], self.data_block_end))
            } else {
                Some((self.offsets@[i], self.offsets@[i + 1]))
            }
        }
    }

    /// Builds the index from the footer, the index block and the bloom
    /// filter bytes of a table.
    pub fn from_blocks(footer: &SSTableFooter, index_block: &[u8], bloom_block: &[u8]) -> (r: SstIndex)
        requires
            footer.index_block_len <= usize::MAX,
            index_entries_at(index_block@, 0, footer.index_block_len as nat) is Some,
            crate::sstable::bloom_filter::serialized_filter(bloom_block@) is Some,
        ensures
            ({
                let es = index_entries_at(index_block@, 0, footer.index_block_len as nat)->0;
                &&& r.key_seq() == entry_keys(es)
                &&& r.offsets@ == entry_offsets(es)
                &&& r.data_block_end == footer.index_block_start
                &&& crate::sstable::bloom_filter::serialized_filter(bloom_block@) == Some(
                    (r.bloom_filter.bits@, r.bloom_filter.num_hashes),
                )
                &&& r.bloom_filter.wf()
            }),
    {
        let (keys, offsets) = decode_index(index_block, footer.index_block_len as usize);
        let bloom_filter = BloomFilter::from_bytes(bloom_block);
        let r = SstIndex { keys, offsets, bloom_filter, data_block_end: footer.index_block_start };
        proof {
            let es = index_entries_at(index_block@, 0, footer.index_block_len as nat)->0;
            assert(r.key_seq() =~= entry_keys(es));
        }
        r
    }

    /// The position of the entry whose block may hold `key`.
    pub fn search_key(&self, key: &[u8]) -> (r: usize)
        requires
            self.wf(),
            self.keys@.len() > 0,
        ensures
            r == self.spec_search_key(key@),
            r < self.keys@.len(),
    {
        proof {
            lemma_key_order_facts();
        }
        let ghost ks = self.key_seq();
        let mut lo: usize = 0;
        let mut hi: usize = self.keys.len();
        while lo < hi
            invariant
                self.wf(),
                ks == self.key_seq(),
                lo <= hi <= ks.len(),
                forall|i: int| 0 <= i < lo ==> !key_lt(key@, #[trigger] ks[i]),
                forall|i: int| hi <= i < ks.len() ==> key_lt(key@, #[trigger] ks[i]),
                forall|a: Seq<u8>, b: Seq<u8>, c: Seq<u8>|
                    key_lt(a, b) && key_lt(b, c) ==> key_lt(a, c),
                forall|a: Seq<u8>, b: Seq<u8>| key_lt(a, b) ==> !key_lt(b, a),
                forall|a: Seq<u8>, b: Seq<u8>| a != b ==> key_lt(a, b) || key_lt(b, a),
            decreases hi - lo,
        {
            let mid = lo + (hi - lo) / 2;
            assert(ks[mid as int] == self.keys@[mid as int]@);
            match compare_keys(key, self.keys[mid].as_slice()) {
                KeyOrder::Less => {
                    assert forall|i: int| mid <= i < ks.len() implies key_lt(key@, #[trigger] ks[i]) by {
                        if i > mid {
                            assert(key_lt(ks[mid as int], ks[i]));
                        }
                    }
                    hi = mid;
                },
                _ => {
                    assert forall|i: int| 0 <= i < mid + 1 implies !key_lt(key@, #[trigger] ks[i]) by {
                        if i < mid {
                            assert(key_lt(ks[i], ks[mid as int]));
                        }
                    }
                    lo = mid + 1;
                },
            }
        }
        proof {
            lemma_count_le(ks, key@, lo as int);
        }
        if lo == 0 {
            0
        } else {
            lo - 1
        }
    }

    /// The byte range of the block that may hold `key`; `None` when the
    /// bloom filter rules the key out.
    pub fn range_search_start(&self, key: &[u8]) -> (r: Option<(u64, u64)>)
        requires
            self.wf(),
        ensures
            r == self.spec_range(key@),
    {
        if !self.bloom_filter.contains(key) {
            return None;
        }
        if self.offsets.len() == 0 {
            return None;
        }
        let range_start_idx = self.search_key(key);
        if range_start_idx == self.offsets.len() - 1 {
            Some((self.offsets[range_start_idx], self.data_block_end))
        } else {
            Some((self.offsets[range_start_idx], self.offsets[range_start_idx + 1]))
        }
    }
}

} // verus!
