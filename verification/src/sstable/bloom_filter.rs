//! The bloom filter over the keys of an SSTable. A key sets `num_hashes`
//! bits, the `i`-th at `(h1 + i * h2) mod 2^64 mod num_bits` for two seeded
//! hashes `h1` and `h2` of the key.
//!
//! Serialized form: `[word count varint][words, u64 big-endian][num_hashes u64 big-endian]`.

use vstd::prelude::*;
use vstd::std_specs::hash::DefaultHasherAdditionalSpecFns;
use vstd::wrapping::u64_specs;
use std::hash::{DefaultHasher, Hash, Hasher};
use crate::util::{
    append_prefix, append_slice, append_varint, decode_varint, get_be_array8, lemma_u64_be_roundtrip,
    lemma_u64_from_be_roundtrip, lemma_varint_len_bound, law_varint_roundtrip, u64_be_bytes, u64_from_be,
    u64_from_be_bytes, u64_to_be_bytes, varint_bytes, varint_decoded_at, varint_len_at,
};

verus! {

// ---------------------------------------------------------------------------
// Hashing
// ---------------------------------------------------------------------------

/// The state of a `DefaultHasher` after `v` was hashed into one in state
/// `state`.
pub uninterp spec fn hashed_u64_state(state: Seq<Seq<u8>>, v: u64) -> Seq<Seq<u8>>;

/// Calls `Hash::hash` of `u64` on a `DefaultHasher`. The state that results
/// is named as a function of the state before and of `v`; how the value is
/// written into the hasher is left unsaid.
#[verifier::external_body]
fn hash_u64_into(v: u64, hasher: &mut DefaultHasher)
    ensures
        final(hasher)@ == hashed_u64_state(old(hasher)@, v),
{
    v.hash(hasher);
}

/// The hash of `key` in a fresh `DefaultHasher` that first hashed `seed`.
pub open spec fn seeded_hash(seed: u64, key: Seq<u8>) -> u64 {
    DefaultHasher::spec_finish(hashed_u64_state(Seq::<Seq<u8>>::empty(), seed).push(key))
}

fn hash1(key: &[u8]) -> (r: u64)
    ensures
        r == seeded_hash(0, key@),
{
    let mut hasher = DefaultHasher::new();
    hash_u64_into(0u64, &mut hasher);
    hasher.write(key);
    hasher.finish()
}

fn hash2(key: &[u8]) -> (r: u64)
    ensures
        r == seeded_hash(1, key@),
{
    let mut hasher = DefaultHasher::new();
    hash_u64_into(1u64, &mut hasher);
    hasher.write(key);
    hasher.finish()
}

// ---------------------------------------------------------------------------
// Bits
// ---------------------------------------------------------------------------

/// The `i`-th bit that `key` sets in a filter of `num_bits` bits.
pub open spec fn bit_index(key: Seq<u8>, i: u64, num_bits: u64) -> u64 {
    (u64_specs::wrapping_add(seeded_hash(0, key), u64_specs::wrapping_mul(i, seeded_hash(1, key)))
        % num_bits) as u64
}

/// Whether bit `b` is set in the words.
pub open spec fn has_bit(bits: Seq<u64>, b: int) -> bool {
    bits[b / 64] & (1u64 << ((b % 64) as u64)) != 0
}

/// Whether `key` sets bit `b` in a filter of `num_bits` bits with
/// `num_hashes` hashes.
pub open spec fn key_sets_bit(key: Seq<u8>, num_hashes: u64, num_bits: u64, b: int) -> bool {
    exists|i: u64| i < num_hashes && bit_index(key, i, num_bits) == b
}

/// Whether every bit that `key` sets is set.
pub open spec fn all_bits_set(bits: Seq<u64>, key: Seq<u8>, num_hashes: u64, num_bits: u64) -> bool {
    forall|i: u64| i < num_hashes ==> has_bit(bits, bit_index(key, i, num_bits) as int)
}

proof fn lemma_or_bit(w: u64, o: u64, o2: u64)
    requires
        o < 64,
        o2 < 64,
    ensures
        ((w | (1u64 << o)) & (1u64 << o2) != 0) == ((w & (1u64 << o2) != 0) || o == o2),
{
    assert(((w | (1u64 << o)) & (1u64 << o2) != 0) == ((w & (1u64 << o2) != 0) || o == o2))
        by (bit_vector)
        requires
            o < 64,
            o2 < 64,
    ;
}

proof fn lemma_key_sets_bit_step(key: Seq<u8>, i: u64, num_bits: u64, b: int)
    requires
        i < u64::MAX,
    ensures
        key_sets_bit(key, (i + 1) as u64, num_bits, b) <==> (key_sets_bit(key, i, num_bits, b)
            || bit_index(key, i, num_bits) == b),
{
    if key_sets_bit(key, (i + 1) as u64, num_bits, b) {
        let j = choose|j: u64| j < i + 1 && bit_index(key, j, num_bits) == b;
        if j < i {
            assert(key_sets_bit(key, i, num_bits, b));
        }
    }
    if key_sets_bit(key, i, num_bits, b) {
        let j = choose|j: u64| j < i && bit_index(key, j, num_bits) == b;
        assert(j < i + 1 && bit_index(key, j, num_bits) == b);
    }
    if bit_index(key, i, num_bits) == b {
        assert(i < i + 1 && bit_index(key, i, num_bits) == b);
    }
}

/// Setting bit `o` of word `wi` changes only that bit.
proof fn lemma_set_bit(before: Seq<u64>, after: Seq<u64>, wi: int, w: u64, o: u64, b: int)
    requires
        0 <= wi < before.len(),
        o < 64,
        w == before[wi],
        after == before.update(wi, w | (1u64 << o)),
        0 <= b < 64 * before.len(),
    ensures
        has_bit(after, b) <==> (has_bit(before, b) || b == 64 * wi + o),
{
    assert(b == 64 * (b / 64) + b % 64);
    if b / 64 == wi {
        lemma_or_bit(w, o, (b % 64) as u64);
    }
}

/// The number of hashes for a filter of `num_bits` bits over `size` keys:
/// `num_bits / size * ln 2` rounded to the nearest integer, at least one,
/// with ln 2 taken to eighteen decimals. An empty size gives one.
pub open spec fn hash_count(num_bits: nat, size: nat) -> nat {
    if size == 0 {
        1
    } else {
        let q = (2 * num_bits * 693147180559945309 + size * 1000000000000000000) / (2 * size
            * 1000000000000000000);
        if q == 0 {
            1
        } else {
            q
        }
    }
}

/// The bloom filter.
pub struct BloomFilter {
    pub bits: Vec<u64>,
    pub num_bits: u64,
    pub num_hashes: u64,
}

impl BloomFilter {
    /// The bit count matches the words.
    pub open spec fn wf(&self) -> bool {
        self.num_bits == 64 * self.bits@.len()
    }

    /// A filter that can be probed: it has at least one bit.
    pub open spec fn usable(&self) -> bool {
        self.wf() && self.num_bits > 0
    }

    /// Whether the filter answers yes for `key`.
    pub open spec fn spec_contains(&self, key: Seq<u8>) -> bool {
        all_bits_set(self.bits@, key, self.num_hashes, self.num_bits)
    }

    /// An empty filter sized for `size` keys: ten bits per key rounded up
    /// to whole words.
    pub fn new(size: usize) -> (r: BloomFilter)
        requires
            size * 10 + 63 <= usize::MAX,
            (size * 10 + 63) / 64 * 64 <= u64::MAX,
        ensures
            r.wf(),
            r.bits@.len() == (size * 10 + 63) / 64,
            forall|j: int| 0 <= j < r.bits@.len() ==> r.bits@[j] == 0,
            r.num_hashes == hash_count(r.num_bits as nat, size as nat),
    {
        let num_bits = size * 10;
        let num_words = (num_bits + 63) / 64;
        let mut bits: Vec<u64> = Vec::with_capacity(num_words);
        let mut k: usize = 0;
        while k < num_words
            invariant
                k <= num_words,
                bits@.len() == k,
                forall|j: int| 0 <= j < k ==> bits@[j] == 0,
            decreases num_words - k,
        {
            bits.push(0u64);
            k = k + 1;
        }
        let num_bits: u64 = 64 * num_words as u64;
        let num_hashes: u64 = if size == 0 {
            1
        } else {
            let num: u128 = 2 * (num_bits as u128) * 693147180559945309u128 + (size as u128)
                * 1000000000000000000u128;
            let den: u128 = 2 * (size as u128) * 1000000000000000000u128;
            let q = num / den;
            assert(q <= num_bits) by (nonlinear_arith)
                requires
                    q == num / den,
                    num == 2 * num_bits * 693147180559945309 + size * 1000000000000000000,
                    den == 2 * size * 1000000000000000000,
                    size >= 1,
            ;
            if q == 0 {
                1
            } else {
                q as u64
            }
        };
        BloomFilter { bits, num_bits, num_hashes }
    }

    /// Sets the bits of `key`; every bit set before stays set.
    pub fn insert(&mut self, key: &[u8])
        requires
            old(self).usable(),
        ensures
            final(self).wf(),
            final(self).num_bits == old(self).num_bits,
            final(self).num_hashes == old(self).num_hashes,
            inserted(old(self).bits@, final(self).bits@, key@, old(self).num_hashes, old(self).num_bits),
    {
        let h1 = hash1(key);
        let h2 = hash2(key);
        let ghost old_bits = self.bits@;
        let mut i: u64 = 0;
        while i < self.num_hashes
            invariant
                self.num_bits == old(self).num_bits,
                self.num_hashes == old(self).num_hashes,
                self.usable(),
                old_bits == old(self).bits@,
                self.bits@.len() == old_bits.len(),
                h1 == seeded_hash(0, key@),
                h2 == seeded_hash(1, key@),
                i <= self.num_hashes,
                forall|b: int|
                    0 <= b < self.num_bits ==> (has_bit(self.bits@, b) <==> (has_bit(old_bits, b)
                        || key_sets_bit(key@, i, self.num_bits, b))),
            decreases self.num_hashes - i,
        {
            let bit_idx = h1.wrapping_add(i.wrapping_mul(h2)) % self.num_bits;
            assert(bit_idx / 64 < self.bits.len());
            let word_idx = (bit_idx / 64) as usize;
            let bit_offset = bit_idx % 64;
            let ghost before = self.bits@;
            let w = self.bits[word_idx];
            self.bits.set(word_idx, w | (1u64 << bit_offset));
            proof {
                assert(bit_idx == bit_index(key@, i, self.num_bits));
                assert forall|b: int| 0 <= b < self.num_bits implies (has_bit(self.bits@, b) <==> (
                has_bit(old_bits, b) || key_sets_bit(key@, (i + 1) as u64, self.num_bits, b))) by {
                    lemma_key_sets_bit_step(key@, i, self.num_bits, b);
                    assert(has_bit(before, b) <==> (has_bit(old_bits, b) || key_sets_bit(
                        key@,
                        i,
                        self.num_bits,
                        b,
                    )));
                    lemma_set_bit(before, self.bits@, word_idx as int, w, bit_offset, b);
                }
            }
            i = i + 1;
        }
    }

    /// Whether every bit of `key` is set: no for a key never inserted, most
    /// of the time.
    pub fn contains(&self, key: &[u8]) -> (r: bool)
        requires
            self.usable(),
        ensures
            r == self.spec_contains(key@),
    {
        let h1 = hash1(key);
        let h2 = hash2(key);
        let mut i: u64 = 0;
        while i < self.num_hashes
            invariant
                self.usable(),
                h1 == seeded_hash(0, key@),
                h2 == seeded_hash(1, key@),
                i <= self.num_hashes,
                forall|j: u64| j < i ==> has_bit(self.bits@, bit_index(key@, j, self.num_bits) as int),
            decreases self.num_hashes - i,
        {
            let bit_idx = h1.wrapping_add(i.wrapping_mul(h2)) % self.num_bits;
            assert(bit_idx / 64 < self.bits.len());
            let word_idx = (bit_idx / 64) as usize;
            let bit_offset = bit_idx % 64;
            assert(bit_idx == bit_index(key@, i, self.num_bits));
            assert((bit_idx as int) / 64 == word_idx && (bit_idx as int) % 64 == bit_offset);
            if self.bits[word_idx] & (1u64 << bit_offset) == 0 {
                return false;
            }
            i = i + 1;
        }
        true
    }

    /// The serialized filter.
    pub open spec fn spec_bytes(bits: Seq<u64>, num_hashes: u64) -> Seq<u8> {
        varint_bytes(bits.len()) + words_bytes(bits) + u64_be_bytes(num_hashes)
    }

    /// Writes the word count, the words and the hash count.
    pub fn serialize(self) -> (r: Vec<u8>)
        ensures
            r@ == Self::spec_bytes(self.bits@, self.num_hashes),
    {
        let mut buffer: Vec<u8> = Vec::new();
        append_varint(&mut buffer, self.bits.len());
        let ghost start = buffer@;
        let mut i: usize = 0;
        while i < self.bits.len()
            invariant
                i <= self.bits@.len(),
                buffer@ == start + words_bytes(self.bits@.subrange(0, i as int)),
            decreases self.bits.len() - i,
        {
            let be = u64_to_be_bytes(self.bits[i]);
            append_slice(&mut buffer, &be);
            proof {
                lemma_words_bytes_push(self.bits@.subrange(0, i as int), self.bits@[i as int]);
                assert(self.bits@.subrange(0, i + 1) =~= self.bits@.subrange(0, i as int).push(
                    self.bits@[i as int],
                ));
            }
            i = i + 1;
        }
        let be = u64_to_be_bytes(self.num_hashes);
        append_slice(&mut buffer, &be);
        proof {
            assert(self.bits@.subrange(0, self.bits@.len() as int) =~= self.bits@);
        }
        buffer
    }

    /// Reads a serialized filter.
    pub fn from_bytes(buffer: &[u8]) -> (r: BloomFilter)
        requires
            serialized_filter(buffer@) is Some,
        ensures
            r.wf(),
            serialized_filter(buffer@) == Some((r.bits@, r.num_hashes)),
    {
        let _len = buffer.len();
        proof {
            lemma_varint_len_bound(buffer@, 0, 0);
        }
        let (num_words, bytes_walked) = decode_varint(buffer, 0);
        let mut offset = bytes_walked;
        let mut bits: Vec<u64> = Vec::new();
        let mut k: u64 = 0;
        while k < num_words
            invariant
                serialized_filter(buffer@) is Some,
                _len == buffer@.len(),
                varint_len_at(buffer@, 0) == Some(bytes_walked as nat),
                num_words == varint_decoded_at(buffer@, 0),
                bytes_walked + 8 * num_words + 8 <= buffer@.len(),
                k <= num_words,
                bits@.len() == k,
                offset == bytes_walked + 8 * k,
                forall|j: int|
                    0 <= j < k ==> bits@[j] == u64_from_be(
                        buffer@.subrange(bytes_walked + 8 * j, bytes_walked + 8 * j + 8),
                    ),
            decreases num_words - k,
        {
            let be = get_be_array8(buffer, offset);
            bits.push(u64_from_be_bytes(be));
            offset = offset + 8;
            k = k + 1;
        }
        let num_bits: u64 = 64 * bits.len() as u64;
        let be = get_be_array8(buffer, offset);
        let num_hashes = u64_from_be_bytes(be);
        proof {
            assert(bits@ =~= words_of(buffer@, bytes_walked as int, num_words as nat));
        }
        BloomFilter { bits, num_bits, num_hashes }
    }
}

/// The words, each as eight big-endian bytes.
pub open spec fn words_bytes(ws: Seq<u64>) -> Seq<u8>
    decreases ws.len(),
{
    if ws.len() == 0 {
        Seq::<u8>::empty()
    } else {
        words_bytes(ws.drop_last()) + u64_be_bytes(ws.last())
    }
}

proof fn lemma_words_bytes_push(ws: Seq<u64>, w: u64)
    ensures
        words_bytes(ws.push(w)) == words_bytes(ws) + u64_be_bytes(w),
{
    assert(ws.push(w).drop_last() =~= ws);
}

proof fn lemma_words_bytes_len(ws: Seq<u64>)
    ensures
        words_bytes(ws).len() == 8 * ws.len(),
    decreases ws.len(),
{
    if ws.len() > 0 {
        lemma_words_bytes_len(ws.drop_last());
        lemma_u64_be_roundtrip(ws.last());
    }
}

/// The `n` words at `off`, each read as eight big-endian bytes.
pub open spec fn words_of(s: Seq<u8>, off: int, n: nat) -> Seq<u64> {
    Seq::new(n, |j: int| u64_from_be(s.subrange(off + 8 * j, off + 8 * j + 8)))
}

/// What a serialized filter holds: its words and its hash count; `None`
/// when the bytes end too early, or when the word count is so large that
/// the bit count would not fit in 64 bits.
pub open spec fn serialized_filter(s: Seq<u8>) -> Option<(Seq<u64>, u64)> {
    match varint_len_at(s, 0) {
        None => None,
        Some(n) => {
            let words = varint_decoded_at(s, 0);
            if n + 8 * words + 8 > s.len() || 64 * words > u64::MAX {
                None
            } else {
                Some(
                    (
                        words_of(s, n as int, words as nat),
                        u64_from_be(s.subrange(n + 8 * words, n + 8 * words + 8)),
                    ),
                )
            }
        },
    }
}

/// Reading a serialized filter gives back its words and hash count.
pub proof fn law_bloom_roundtrip(bits: Seq<u64>, num_hashes: u64)
    requires
        64 * bits.len() <= u64::MAX,
        bits.len() <= usize::MAX,
    ensures
        serialized_filter(BloomFilter::spec_bytes(bits, num_hashes)) == Some((bits, num_hashes)),
{
    let s = BloomFilter::spec_bytes(bits, num_hashes);
    let vb = varint_bytes(bits.len());
    lemma_words_bytes_len(bits);
    lemma_u64_be_roundtrip(num_hashes);
    assert(s.subrange(0, vb.len() as int) =~= vb);
    law_varint_roundtrip(bits.len() as usize, s, 0);
    let n = vb.len() as int;
    assert(s.subrange(n + 8 * bits.len(), n + 8 * bits.len() + 8) =~= u64_be_bytes(num_hashes));
    lemma_words_read_back(bits, vb, u64_be_bytes(num_hashes));
    assert(words_of(s, n, bits.len()) =~= bits);
}

proof fn lemma_words_read_back(bits: Seq<u64>, pre: Seq<u8>, post: Seq<u8>)
    ensures
        forall|j: int|
            0 <= j < bits.len() ==> u64_from_be(
                (pre + words_bytes(bits) + post).subrange(pre.len() + 8 * j, pre.len() + 8 * j + 8),
            ) == #[trigger] bits[j],
    decreases bits.len(),
{
    if bits.len() > 0 {
        let init = bits.drop_last();
        let w = bits.last();
        lemma_words_read_back(init, pre, u64_be_bytes(w) + post);
        lemma_words_bytes_len(init);
        lemma_u64_be_roundtrip(w);
        assert(pre + words_bytes(bits) + post =~= pre + words_bytes(init) + (u64_be_bytes(w) + post));
        assert forall|j: int| 0 <= j < bits.len() implies u64_from_be(
            (pre + words_bytes(bits) + post).subrange(pre.len() + 8 * j, pre.len() + 8 * j + 8),
        ) == #[trigger] bits[j] by {
            if j < init.len() {
                assert(bits[j] == init[j]);
            } else {
                let s = pre + words_bytes(bits) + post;
                assert(s.subrange(pre.len() + 8 * j, pre.len() + 8 * j + 8) =~= u64_be_bytes(w));
            }
        }
    }
}

/// After a key is inserted, the filter answers yes for it, and for every
/// key it answered yes for before.
pub proof fn law_bloom_no_false_negative(
    before: Seq<u64>,
    after: Seq<u64>,
    num_hashes: u64,
    num_bits: u64,
    key: Seq<u8>,
    other: Seq<u8>,
)
    requires
        num_bits > 0,
        forall|b: int|
            0 <= b < num_bits ==> (has_bit(after, b) <==> (has_bit(before, b) || key_sets_bit(
                key,
                num_hashes,
                num_bits,
                b,
            ))),
    ensures
        all_bits_set(after, key, num_hashes, num_bits),
        all_bits_set(before, other, num_hashes, num_bits) ==> all_bits_set(after, other, num_hashes, num_bits),
{
    assert forall|i: u64| i < num_hashes implies has_bit(after, bit_index(key, i, num_bits) as int) by {
        let b = bit_index(key, i, num_bits) as int;
        assert(key_sets_bit(key, num_hashes, num_bits, b));
    }
    if all_bits_set(before, other, num_hashes, num_bits) {
        assert forall|i: u64| i < num_hashes implies has_bit(after, bit_index(other, i, num_bits) as int) by {
            assert(has_bit(before, bit_index(other, i, num_bits) as int));
        }
    }
}

/// Reading a serialized filter that more bytes follow gives back its words
/// and hash count: the bytes after it are not read.
pub proof fn law_bloom_read_ignores_rest(bits: Seq<u64>, num_hashes: u64, rest: Seq<u8>)
    requires
        64 * bits.len() <= u64::MAX,
        bits.len() <= usize::MAX,
    ensures
        serialized_filter(BloomFilter::spec_bytes(bits, num_hashes) + rest) == Some((bits, num_hashes)),
{
    let s = BloomFilter::spec_bytes(bits, num_hashes) + rest;
    let vb = varint_bytes(bits.len());
    lemma_words_bytes_len(bits);
    lemma_u64_be_roundtrip(num_hashes);
    assert(s.subrange(0, vb.len() as int) =~= vb);
    law_varint_roundtrip(bits.len() as usize, s, 0);
    let n = vb.len() as int;
    assert(s.subrange(n + 8 * bits.len(), n + 8 * bits.len() + 8) =~= u64_be_bytes(num_hashes));
    lemma_words_read_back(bits, vb, u64_be_bytes(num_hashes) + rest);
    assert(s =~= vb + words_bytes(bits) + (u64_be_bytes(num_hashes) + rest));
    assert(words_of(s, n, bits.len()) =~= bits);
}

/// What one insert of `key` does to the bits of a filter of `num_bits` bits:
/// a bit is set afterwards exactly when it was set before or `key` sets it.
pub open spec fn inserted(
    before: Seq<u64>,
    after: Seq<u64>,
    key: Seq<u8>,
    num_hashes: u64,
    num_bits: u64,
) -> bool {
    &&& after.len() == before.len()
    &&& forall|b: int|
        0 <= b < num_bits ==> (has_bit(after, b) <==> (has_bit(before, b) || key_sets_bit(
            key,
            num_hashes,
            num_bits,
            b,
        )))
}

/// No false negatives over any run of inserts: in the filters `fs`, each
/// reached from the one before by inserting `ks[i]`, every key inserted so
/// far is answered yes, and so is every key answered yes at the start.
pub proof fn law_bloom_inserts_kept(
    fs: Seq<Seq<u64>>,
    ks: Seq<Seq<u8>>,
    num_hashes: u64,
    num_bits: u64,
    other: Seq<u8>,
)
    requires
        num_bits > 0,
        fs.len() == ks.len() + 1,
        forall|i: int| 0 <= i < ks.len() ==> #[trigger] inserted(fs[i], fs[i + 1], ks[i], num_hashes, num_bits),
    ensures
        forall|i: int, j: int|
            0 <= i < j < fs.len() ==> all_bits_set(#[trigger] fs[j], #[trigger] ks[i], num_hashes, num_bits),
        all_bits_set(fs[0], other, num_hashes, num_bits) ==> all_bits_set(fs.last(), other, num_hashes, num_bits),
    decreases ks.len(),
{
    if ks.len() > 0 {
        let n = ks.len() - 1;
        let fs0 = fs.drop_last();
        let ks0 = ks.drop_last();
        assert forall|i: int| 0 <= i < ks0.len() implies #[trigger] inserted(fs0[i], fs0[i + 1], ks0[i], num_hashes, num_bits) by {
            assert(inserted(fs[i], fs[i + 1], ks[i], num_hashes, num_bits));
        }
        law_bloom_inserts_kept(fs0, ks0, num_hashes, num_bits, other);
        assert(inserted(fs[n], fs[n + 1], ks[n], num_hashes, num_bits));
        assert forall|i: int, j: int|
            0 <= i < j < fs.len() implies all_bits_set(#[trigger] fs[j], #[trigger] ks[i], num_hashes, num_bits) by {
            if j < fs.len() - 1 {
                assert(fs[j] == fs0[j] && ks[i] == ks0[i]);
            } else if i == n {
                law_bloom_no_false_negative(fs[n], fs[n + 1], num_hashes, num_bits, ks[n], ks[n]);
            } else {
                assert(fs[n] == fs0[n] && ks[i] == ks0[i]);
                assert(all_bits_set(fs0[n], ks0[i], num_hashes, num_bits));
                law_bloom_no_false_negative(fs[n], fs[n + 1], num_hashes, num_bits, ks[n], ks[i]);
            }
        }
        assert(fs0.last() == fs[n]);
        law_bloom_no_false_negative(fs[n], fs[n + 1], num_hashes, num_bits, ks[n], other);
    }
}

/// A word whose set bits are all set in another has no bit that the other lacks.
proof fn lemma_word_bits_kept(x: u64, y: u64)
    requires
        forall|o: u64| o < 64 ==> ((x & (1u64 << o)) != 0 ==> (y & (1u64 << o)) != 0),
    ensures
        x & !y == 0,
{
    let z = x & !y;
    if z != 0 {
        vstd::std_specs::bits::axiom_u64_trailing_zeros(z);
        let o = vstd::std_specs::bits::u64_trailing_zeros(z) as u64;
        assert(o < 64 && (z >> o) & 1u64 == 1u64 && z == x & !y ==> (x & (1u64 << o)) != 0 && (y
            & (1u64 << o)) == 0) by (bit_vector);
        assert((x & (1u64 << o)) != 0 ==> (y & (1u64 << o)) != 0);
    }
}

/// Two words with the same bits are equal.
proof fn lemma_word_bits_same(x: u64, y: u64)
    requires
        forall|o: u64| o < 64 ==> (((x & (1u64 << o)) != 0) == ((y & (1u64 << o)) != 0)),
    ensures
        x == y,
{
    lemma_word_bits_kept(x, y);
    lemma_word_bits_kept(y, x);
    assert(x & !y == 0 && y & !x == 0 ==> x == y) by (bit_vector);
}

/// An insert only sets bits: no word loses a bit that it had.
pub proof fn law_bloom_insert_only_sets(
    before: Seq<u64>,
    after: Seq<u64>,
    key: Seq<u8>,
    num_hashes: u64,
    num_bits: u64,
)
    requires
        num_bits == 64 * before.len(),
        inserted(before, after, key, num_hashes, num_bits),
    ensures
        forall|w: int| 0 <= w < before.len() ==> #[trigger] before[w] & !after[w] == 0,
{
    assert forall|w: int| 0 <= w < before.len() implies #[trigger] before[w] & !after[w] == 0 by {
        assert forall|o: u64| o < 64 implies ((before[w] & (1u64 << o)) != 0 ==> (after[w] & (1u64
            << o)) != 0) by {
            let b = 64 * w + o;
            assert(b / 64 == w && b % 64 == o);
            assert(has_bit(before, b) ==> has_bit(after, b));
        }
        lemma_word_bits_kept(before[w], after[w]);
    }
}

/// Inserting a key a second time changes nothing.
pub proof fn law_bloom_insert_twice(
    f0: Seq<u64>,
    f1: Seq<u64>,
    f2: Seq<u64>,
    key: Seq<u8>,
    num_hashes: u64,
    num_bits: u64,
)
    requires
        num_bits > 0,
        num_bits == 64 * f0.len(),
        inserted(f0, f1, key, num_hashes, num_bits),
        inserted(f1, f2, key, num_hashes, num_bits),
    ensures
        f2 == f1,
{
    law_bloom_no_false_negative(f0, f1, num_hashes, num_bits, key, key);
    assert forall|w: int| 0 <= w < f1.len() implies #[trigger] f2[w] == f1[w] by {
        assert forall|o: u64| o < 64 implies (((f2[w] & (1u64 << o)) != 0) == ((f1[w] & (1u64
            << o)) != 0)) by {
            let b = 64 * w + o;
            assert(b / 64 == w && b % 64 == o);
            if key_sets_bit(key, num_hashes, num_bits, b) {
                let i = choose|i: u64| i < num_hashes && bit_index(key, i, num_bits) == b;
                assert(has_bit(f1, bit_index(key, i, num_bits) as int));
            }
            assert(has_bit(f2, b) == has_bit(f1, b));
        }
        lemma_word_bits_same(f2[w], f1[w]);
    }
    assert(f2 =~= f1);
}

} // verus!
