use vstd::prelude::*;
use vstd::arithmetic::power2::*;
use vstd::bits::*;
use crate::error::NldbError;

verus! {

// ---------------------------------------------------------------------------
// Varints: unsigned LEB128, 7 payload bits per byte, the high bit set on every
// byte but the last.
// ---------------------------------------------------------------------------

/// The number that a little-endian base-128 byte sequence denotes: byte `k`
/// contributes its low seven bits times `2^(7k)`.
pub open spec fn varint_value(s: Seq<u8>) -> nat
    decreases s.len(),
{
    if s.len() == 0 {
        0
    } else {
        varint_value(s.drop_last()) + ((s.last() % 128) as nat) * pow2((7 * (s.len() - 1)) as nat)
    }
}

/// The canonical LEB128 encoding of `v`.
pub open spec fn varint_bytes(v: nat) -> Seq<u8>
    decreases v,
{
    if v < 128 {
        seq![v as u8]
    } else {
        seq![((v % 128) + 128) as u8] + varint_bytes(v / 128)
    }
}

/// Where a varint that starts at `off` ends: `Some(n)` when byte `off + n - 1`
/// is the first byte from `k` on without the continuation bit, lies inside
/// `s`, and `n` is at most ten; `None` otherwise.
pub open spec fn varint_term(s: Seq<u8>, off: int, k: nat) -> Option<nat>
    decreases 10 - k,
{
    if k >= 10 || off < 0 || off + k >= s.len() {
        None
    } else if s[off + k] < 128 {
        Some(k + 1)
    } else {
        varint_term(s, off, k + 1)
    }
}

/// The length of the well-formed varint at `off`, if there is one.
pub open spec fn varint_len_at(s: Seq<u8>, off: int) -> Option<nat> {
    varint_term(s, off, 0)
}

/// A varint found at `off` lies inside the bytes and takes one to ten of
/// them.
pub proof fn lemma_varint_len_bound(s: Seq<u8>, off: int, k: nat)
    requires
        varint_term(s, off, k) is Some,
    ensures
        k < varint_term(s, off, k)->0 <= 10,
        0 <= off,
        off + varint_term(s, off, k)->0 <= s.len(),
    decreases 10 - k,
{
    if !(k >= 10 || off < 0 || off + k >= s.len()) && s[off + k] >= 128 {
        lemma_varint_len_bound(s, off, k + 1);
    }
}

/// The value that decoding the well-formed varint at `off` yields: its
/// base-128 value reduced to 64 bits.
pub open spec fn varint_decoded_at(s: Seq<u8>, off: int) -> u64
    recommends
        varint_len_at(s, off) is Some,
{
    (varint_value(s.subrange(off, off + varint_len_at(s, off)->0)) % pow2(64)) as u64
}

pub proof fn lemma_varint_value_cons(b: u8, t: Seq<u8>)
    ensures
        varint_value(seq![b] + t) == (b % 128) as nat + 128 * varint_value(t),
    decreases t.len(),
{
    let s = seq![b] + t;
    if t.len() == 0 {
        assert(s.drop_last() =~= Seq::<u8>::empty());
        assert(s.last() == b);
        assert(varint_value(Seq::<u8>::empty()) == 0);
        assert(pow2(0) == 1) by {
            lemma2_to64();
        }
        assert(t =~= Seq::<u8>::empty());
        assert(s.len() == 1);
        assert(varint_value(s) == varint_value(s.drop_last()) + ((s.last() % 128) as nat) * pow2(0));
        assert(varint_value(s) == (b % 128) as nat);
    } else {
        assert(s.drop_last() =~= seq![b] + t.drop_last());
        lemma_varint_value_cons(b, t.drop_last());
        let n = t.len();
        assert(s.last() == t.last());
        assert(s.len() == n + 1);
        assert(pow2((7 * n) as nat) == pow2(7) * pow2((7 * (n - 1)) as nat)) by {
            lemma_pow2_adds(7, (7 * (n - 1)) as nat);
        }
        assert(pow2(7) == 128) by {
            lemma2_to64();
        }
        let x = (t.last() % 128) as nat;
        let p = pow2((7 * (n - 1)) as nat);
        assert(x * (128 * p) == 128 * (x * p)) by (nonlinear_arith);
        assert(varint_value(s) == varint_value(s.drop_last()) + x * pow2((7 * n) as nat));
        assert(varint_value(t) == varint_value(t.drop_last()) + x * p);
        assert(varint_value(s.drop_last()) == (b % 128) as nat + 128 * varint_value(t.drop_last()));
        assert(varint_value(s) == (b % 128) as nat + 128 * varint_value(t));
    }
}

pub proof fn lemma_varint_roundtrip_value(v: nat)
    ensures
        varint_value(varint_bytes(v)) == v,
    decreases v,
{
    if v < 128 {
        let s = varint_bytes(v);
        assert(s.drop_last() =~= Seq::<u8>::empty());
        assert(varint_value(Seq::<u8>::empty()) == 0);
        assert(s.last() == v as u8);
        assert(pow2(0) == 1) by {
            lemma2_to64();
        }
        assert(s.len() == 1);
        assert(varint_value(s) == varint_value(s.drop_last()) + ((s.last() % 128) as nat) * pow2(0));
    } else {
        lemma_varint_roundtrip_value(v / 128);
        let b = ((v % 128) + 128) as u8;
        lemma_varint_value_cons(b, varint_bytes(v / 128));
        assert(b % 128 == v % 128);
        assert(varint_bytes(v) == seq![b] + varint_bytes(v / 128));
    }
}

pub proof fn lemma_varint_bytes_len_bound(v: nat, k: nat)
    requires
        1 <= k,
        v < pow2(7 * k),
    ensures
        varint_bytes(v).len() <= k,
        varint_bytes(v).len() >= 1,
    decreases k,
{
    if v >= 128 {
        if k == 1 {
            assert(pow2(7) == 128) by {
                lemma2_to64();
            }
        } else {
            assert(pow2(7 * k) == pow2(7) * pow2((7 * (k - 1)) as nat)) by {
                lemma_pow2_adds(7, (7 * (k - 1)) as nat);
            }
            assert(pow2(7) == 128) by {
                lemma2_to64();
            }
            let p = pow2((7 * (k - 1)) as nat);
            assert(v / 128 < p) by (nonlinear_arith)
                requires
                    v < 128 * p,
            ;
            lemma_varint_bytes_len_bound(v / 128, (k - 1) as nat);
        }
    }
}

/// Every byte of a canonical encoding but the last has the continuation bit.
pub proof fn lemma_varint_bytes_shape(v: nat)
    ensures
        varint_bytes(v).len() >= 1,
        varint_bytes(v).last() < 128,
        forall|i: int| 0 <= i < varint_bytes(v).len() - 1 ==> varint_bytes(v)[i] >= 128,
    decreases v,
{
    if v >= 128 {
        lemma_varint_bytes_shape(v / 128);
    }
}

pub proof fn lemma_usize_varint_len(v: usize)
    ensures
        1 <= varint_bytes(v as nat).len() <= 10,
{
    assert(pow2(64) == 0x10000000000000000) by {
        lemma2_to64();
    }
    assert(pow2(64) <= pow2(70)) by {
        lemma_pow2_strictly_increases(64, 70);
    }
    lemma_varint_bytes_len_bound(v as nat, 10);
}

/// The canonical encoding, read back from its start, ends where it ends.
pub proof fn lemma_varint_term_of_encoding(s: Seq<u8>, off: int, v: nat, k: nat)
    requires
        0 <= off,
        k <= varint_bytes(v).len() <= 10,
        off + varint_bytes(v).len() <= s.len(),
        s.subrange(off, off + varint_bytes(v).len()) == varint_bytes(v),
        k < varint_bytes(v).len(),
    ensures
        varint_term(s, off, k) == Some(varint_bytes(v).len()),
    decreases varint_bytes(v).len() - k,
{
    lemma_varint_bytes_shape(v);
    let e = varint_bytes(v);
    assert(s[off + k] == e[k as int]);
    if k + 1 < e.len() {
        lemma_varint_term_of_encoding(s, off, v, k + 1);
    }
}

/// Decoding reads back what encoding wrote: wherever the canonical encoding
/// of a `usize` value stands in a byte sequence, the decoder finds a
/// well-formed varint there, of the encoding's length, that denotes the value.
pub proof fn law_varint_roundtrip(v: usize, s: Seq<u8>, off: int)
    requires
        0 <= off,
        off + varint_bytes(v as nat).len() <= s.len(),
        s.subrange(off, off + varint_bytes(v as nat).len()) == varint_bytes(v as nat),
    ensures
        varint_len_at(s, off) == Some(varint_bytes(v as nat).len()),
        varint_decoded_at(s, off) == v,
{
    lemma_usize_varint_len(v);
    lemma_varint_term_of_encoding(s, off, v as nat, 0);
    lemma_varint_roundtrip_value(v as nat);
    assert(pow2(64) == 0x10000000000000000) by {
        lemma2_to64();
    }
    vstd::arithmetic::div_mod::lemma_small_mod(v as nat, pow2(64));
}

/// Encodes `value` as a varint into the front of a ten-byte buffer and
/// returns the buffer with the number of bytes used; the rest stays zero.
pub fn encode_varint(value: usize) -> (r: ([u8; 10], usize))
    ensures
        r.1 == varint_bytes(value as nat).len(),
        1 <= r.1 <= 10,
        r.0@.subrange(0, r.1 as int) == varint_bytes(value as nat),
        forall|i: int| r.1 <= i < 10 ==> r.0@[i] == 0,
{
    let mut buffer = [0u8; 10];
    let mut idx: usize = 0;
    let mut v: usize = value;
    proof {
        lemma_usize_varint_len(value);
    }
    loop
        invariant
            buffer@.len() == 10,
            idx + varint_bytes(v as nat).len() == varint_bytes(value as nat).len(),
            varint_bytes(value as nat).len() <= 10,
            buffer@.subrange(0, idx as int) + varint_bytes(v as nat) == varint_bytes(value as nat),
            forall|i: int| idx <= i < 10 ==> buffer@[i] == 0,
        decreases v,
    {
        let low: usize = v & 0x7F;
        assert(low == v % 128) by (bit_vector)
            requires
                low == v & 0x7F,
        ;
        let mut byte: u8 = low as u8;
        let old_v = v;
        v = v >> 7;
        assert(v == old_v / 128) by (bit_vector)
            requires
                v == old_v >> 7,
        ;
        let ghost pre = buffer@;
        if v != 0 {
            let b0 = byte;
            byte = byte | 0x80;
            assert(byte == b0 + 128) by (bit_vector)
                requires
                    b0 < 128,
                    byte == b0 | 0x80,
            ;
            assert(varint_bytes(old_v as nat) == seq![byte] + varint_bytes(v as nat));
            buffer[idx] = byte;
            idx = idx + 1;
            assert(buffer@.subrange(0, idx as int) =~= pre.subrange(0, idx - 1).push(byte));
            assert(buffer@.subrange(0, idx as int) + varint_bytes(v as nat) =~= pre.subrange(
                0,
                idx - 1,
            ) + varint_bytes(old_v as nat));
        } else {
            assert(varint_bytes(old_v as nat) == seq![byte]);
            buffer[idx] = byte;
            idx = idx + 1;
            assert(buffer@.subrange(0, idx as int) =~= pre.subrange(0, idx - 1).push(byte));
            return (buffer, idx);
        }
    }
}

/// The number of bytes that the varint encoding of `len` takes.
pub fn varint_size_from_len(len: usize) -> (r: usize)
    ensures
        r == varint_bytes(len as nat).len(),
        1 <= r <= 10,
{
    let (_, size) = encode_varint(len);
    size
}

proof fn lemma_or_shifted_is_add(v: u64, x: u64, s: u64)
    requires
        s < 64,
        v < (1u64 << s),
    ensures
        v | (x << s) == v + (x << s),
{
    assert(v & (x << s) == 0) by (bit_vector)
        requires
            s < 64,
            v < (1u64 << s),
    ;
    assert(v | (x << s) == v + (x << s)) by (bit_vector)
        requires
            v & (x << s) == 0,
    ;
}

/// One step of varint decoding: folding in byte `k` (for `k < 10`) of a
/// sequence whose first `k` bytes denote `v` adds its payload at bit `7k`.
proof fn lemma_decode_step(v: u64, byte: u8, k: u64, t: Seq<u8>)
    requires
        k < 10,
        t.len() == k + 1,
        t.last() == byte,
        v == varint_value(t.drop_last()),
        varint_value(t.drop_last()) < pow2((7 * k) as nat),
    ensures
        ({
            let x = (byte & 0x7F) as u64;
            let w = v | (x << (7 * k) as u64);
            &&& w as nat == varint_value(t) % pow2(64)
            &&& (k < 9 ==> w as nat == varint_value(t) && varint_value(t) < pow2((7 * (k + 1)) as nat))
        }),
{
    let x = (byte & 0x7F) as u64;
    assert(x == byte % 128 && x < 128) by (bit_vector)
        requires
            x == (byte & 0x7F) as u64,
    ;
    let s: u64 = (7 * k) as u64;
    let p = pow2(s as nat);
    lemma2_to64();
    lemma2_to64_rest();
    lemma_pow2_pos(s as nat);
    assert(pow2((s + 7) as nat) == p * pow2(7)) by {
        lemma_pow2_adds(s as nat, 7);
    }
    assert(p <= pow2(63)) by {
        if s < 63 {
            lemma_pow2_strictly_increases(s as nat, 63);
        }
    }
    assert((1u64 << s) == p) by {
        lemma_u64_shl_is_mul(1, s);
    }
    lemma_or_shifted_is_add(v, x, s);
    assert(varint_value(t) == v + x * p);
    if k < 9 {
        assert(p <= pow2(56)) by {
            if s < 56 {
                lemma_pow2_strictly_increases(s as nat, 56);
            }
        }
        assert(x * p <= 127 * pow2(56)) by (nonlinear_arith)
            requires
                x < 128,
                p <= pow2(56),
        ;
        assert((x << s) == x * p) by {
            lemma_u64_shl_is_mul(x, s);
        }
        assert(v + x * p < p * 128) by (nonlinear_arith)
            requires
                v < p,
                x < 128,
        ;
        assert(varint_value(t) < pow2(64)) by {
            lemma_pow2_strictly_increases(((7 * (k + 1)) as nat), 64);
        }
        vstd::arithmetic::div_mod::lemma_small_mod(varint_value(t), pow2(64));
    } else {
        assert(s == 63);
        assert((x << 63u64) == (x % 2) * 0x8000000000000000u64) by (bit_vector)
            requires
                x < 128,
        ;
        assert(v + x * p == (x / 2) * pow2(64) + (v + (x % 2) * p)) by (nonlinear_arith)
            requires
                pow2(64) == 2 * p,
        ;
        assert(v + (x % 2) * p < pow2(64)) by (nonlinear_arith)
            requires
                v < p,
                pow2(64) == 2 * p,
        ;
        vstd::arithmetic::div_mod::lemma_mod_multiples_vanish(
            (x / 2) as int,
            (v + (x % 2) * p) as int,
            pow2(64) as int,
        );
        vstd::arithmetic::div_mod::lemma_small_mod((v + (x % 2) * p) as nat, pow2(64));
    }
}

/// Decodes the varint at `offset`; returns its value and its length.
/// The varint must be well formed: a byte without the continuation bit
/// within the next ten bytes, inside the buffer.
pub fn decode_varint(buffer: &[u8], offset: usize) -> (r: (u64, usize))
    requires
        varint_len_at(buffer@, offset as int) is Some,
    ensures
        r.1 == varint_len_at(buffer@, offset as int)->0,
        r.0 == varint_decoded_at(buffer@, offset as int),
{
    let mut varint: u64 = 0;
    let mut off: usize = offset;
    let start = offset;
    proof {
        assert(pow2(0) == 1) by {
            lemma2_to64();
        }
        assert(buffer@.subrange(start as int, start as int) =~= Seq::<u8>::empty());
    }
    loop
        invariant
            start == offset,
            start <= off,
            varint_term(buffer@, start as int, 0) is Some,
            varint_term(buffer@, start as int, 0) == varint_term(
                buffer@,
                start as int,
                (off - start) as nat,
            ),
            varint as nat == varint_value(buffer@.subrange(start as int, off as int)),
            varint_value(buffer@.subrange(start as int, off as int)) < pow2(
                (7 * (off - start)) as nat,
            ),
        decreases 10 - (off - start),
    {
        let k = off - start;
        assert(k < 10 && off < buffer.len());
        let byte = buffer[off];
        let ghost t = buffer@.subrange(start as int, off + 1);
        proof {
            assert(t.drop_last() =~= buffer@.subrange(start as int, off as int));
            lemma_decode_step(varint, byte, k as u64, t);
        }
        let x: u64 = (byte & 0x7F) as u64;
        let shift: u64 = 7 * (k as u64);
        varint = varint | (x << shift);
        off = off + 1;
        assert((byte & 0x80 == 0) == (byte < 128)) by (bit_vector);
        if byte & 0x80 == 0 {
            assert(varint_term(buffer@, start as int, k as nat) == Some((k + 1) as nat));
            assert(varint_len_at(buffer@, offset as int) == Some((k + 1) as nat));
            assert(t == buffer@.subrange(offset as int, offset + (k + 1)));
            return (varint, off - start);
        }
        assert(k < 9) by {
            if k == 9 {
                assert(varint_term(buffer@, start as int, 10) is None);
            }
        }
    }
}

/// Decodes a varint from bytes that came from a client. Fails with
/// `InvalidQuery` when the buffer ends before the varint does, or when ten
/// bytes all carry the continuation bit.
pub fn decode_untrusted_varint(buffer: &[u8], offset: usize) -> (r: Result<(u64, usize), NldbError>)
    ensures
        match r {
            Ok((value, len)) => {
                &&& varint_len_at(buffer@, offset as int) == Some(len as nat)
                &&& value == varint_decoded_at(buffer@, offset as int)
            },
            Err(e) => {
                &&& e == NldbError::InvalidQuery
                &&& varint_len_at(buffer@, offset as int) is None
            },
        },
{
    let mut off: usize = offset;
    let start = offset;
    loop
        invariant
            start == offset,
            start <= off,
            off - start <= 10,
            varint_term(buffer@, start as int, 0) == varint_term(
                buffer@,
                start as int,
                (off - start) as nat,
            ),
        decreases 10 - (off - start),
    {
        if off - start >= 10 || off >= buffer.len() {
            assert(varint_term(buffer@, start as int, (off - start) as nat) is None);
            return Err(NldbError::InvalidQuery);
        }
        let byte = buffer[off];
        off = off + 1;
        if byte < 128 {
            assert(varint_term(buffer@, start as int, (off - 1 - start) as nat) is Some);
            let r = decode_varint(buffer, start);
            return Ok(r);
        }
    }
}

// ---------------------------------------------------------------------------
// Fixed-width big-endian integers.
// ---------------------------------------------------------------------------

/// The big-endian bytes of a `u64`.
pub open spec fn u64_be_bytes(v: u64) -> Seq<u8> {
    seq![
        (v >> 56u64) as u8,
        (v >> 48u64) as u8,
        (v >> 40u64) as u8,
        (v >> 32u64) as u8,
        (v >> 24u64) as u8,
        (v >> 16u64) as u8,
        (v >> 8u64) as u8,
        v as u8,
    ]
}

/// The `u64` that eight big-endian bytes denote.
pub open spec fn u64_from_be(s: Seq<u8>) -> u64
    recommends
        s.len() == 8,
{
    (s[0] as u64) << 56u64 | (s[1] as u64) << 48u64 | (s[2] as u64) << 40u64 | (s[3] as u64)
        << 32u64 | (s[4] as u64) << 24u64 | (s[5] as u64) << 16u64 | (s[6] as u64) << 8u64 | (
    s[7] as u64)
}

/// The `u16` that two big-endian bytes denote.
pub open spec fn u16_from_be(s: Seq<u8>) -> u16
    recommends
        s.len() == 2,
{
    ((s[0] as u16) << 8u16) | (s[1] as u16)
}

/// Reading back the bytes of a `u64` gives the `u64`.
pub proof fn lemma_u64_be_roundtrip(v: u64)
    ensures
        u64_from_be(u64_be_bytes(v)) == v,
        u64_be_bytes(v).len() == 8,
{
    let s = u64_be_bytes(v);
    let b0 = (v >> 56u64) as u8;
    let b1 = (v >> 48u64) as u8;
    let b2 = (v >> 40u64) as u8;
    let b3 = (v >> 32u64) as u8;
    let b4 = (v >> 24u64) as u8;
    let b5 = (v >> 16u64) as u8;
    let b6 = (v >> 8u64) as u8;
    let b7 = v as u8;
    assert(s[0] == b0 && s[1] == b1 && s[2] == b2 && s[3] == b3);
    assert(s[4] == b4 && s[5] == b5 && s[6] == b6 && s[7] == b7);
    assert((b0 as u64) << 56u64 | (b1 as u64) << 48u64 | (b2 as u64) << 40u64 | (b3 as u64)
        << 32u64 | (b4 as u64) << 24u64 | (b5 as u64) << 16u64 | (b6 as u64) << 8u64 | (
    b7 as u64) == v) by (bit_vector)
        requires
            b0 == (v >> 56u64) as u8,
            b1 == (v >> 48u64) as u8,
            b2 == (v >> 40u64) as u8,
            b3 == (v >> 32u64) as u8,
            b4 == (v >> 24u64) as u8,
            b5 == (v >> 16u64) as u8,
            b6 == (v >> 8u64) as u8,
            b7 == v as u8,
    ;
}

/// Writing out the `u64` that eight bytes denote gives the bytes back.
pub proof fn lemma_u64_from_be_roundtrip(s: Seq<u8>)
    requires
        s.len() == 8,
    ensures
        u64_be_bytes(u64_from_be(s)) == s,
{
    let v = u64_from_be(s);
    let (b0, b1, b2, b3, b4, b5, b6, b7) = (s[0], s[1], s[2], s[3], s[4], s[5], s[6], s[7]);
    assert((v >> 56u64) as u8 == b0 && (v >> 48u64) as u8 == b1 && (v >> 40u64) as u8 == b2 && (v
        >> 32u64) as u8 == b3 && (v >> 24u64) as u8 == b4 && (v >> 16u64) as u8 == b5 && (v
        >> 8u64) as u8 == b6 && v as u8 == b7) by (bit_vector)
        requires
            v == (b0 as u64) << 56u64 | (b1 as u64) << 48u64 | (b2 as u64) << 40u64 | (b3 as u64)
                << 32u64 | (b4 as u64) << 24u64 | (b5 as u64) << 16u64 | (b6 as u64) << 8u64 | (
            b7 as u64),
    ;
    assert(u64_be_bytes(v) =~= s);
}

/// The big-endian bytes of `v`.
pub fn u64_to_be_bytes(v: u64) -> (r: [u8; 8])
    ensures
        r@ == u64_be_bytes(v),
{
    let r = [
        (v >> 56u64) as u8,
        (v >> 48u64) as u8,
        (v >> 40u64) as u8,
        (v >> 32u64) as u8,
        (v >> 24u64) as u8,
        (v >> 16u64) as u8,
        (v >> 8u64) as u8,
        v as u8,
    ];
    assert(r@ =~= u64_be_bytes(v));
    r
}

/// The `u64` that eight big-endian bytes denote.
pub fn u64_from_be_bytes(b: [u8; 8]) -> (r: u64)
    ensures
        r == u64_from_be(b@),
{
    (b[0] as u64) << 56u64 | (b[1] as u64) << 48u64 | (b[2] as u64) << 40u64 | (b[3] as u64)
        << 32u64 | (b[4] as u64) << 24u64 | (b[5] as u64) << 16u64 | (b[6] as u64) << 8u64 | (
    b[7] as u64)
}

/// The `u16` that two big-endian bytes denote.
pub fn u16_from_be_bytes(b: [u8; 2]) -> (r: u16)
    ensures
        r == u16_from_be(b@),
{
    ((b[0] as u16) << 8u16) | (b[1] as u16)
}

/// Copies the eight bytes at `offset`.
pub fn get_be_array8(buffer: &[u8], offset: usize) -> (r: [u8; 8])
    requires
        offset + 8 <= buffer@.len(),
    ensures
        r@ == buffer@.subrange(offset as int, offset + 8),
{
    let r = [
        buffer[offset],
        buffer[offset + 1],
        buffer[offset + 2],
        buffer[offset + 3],
        buffer[offset + 4],
        buffer[offset + 5],
        buffer[offset + 6],
        buffer[offset + 7],
    ];
    assert(r@ =~= buffer@.subrange(offset as int, offset + 8));
    r
}

/// Turns a two-byte vector into an array.
pub fn get_be_array2(buffer: Vec<u8>) -> (r: [u8; 2])
    requires
        buffer@.len() == 2,
    ensures
        r@ == buffer@,
{
    let r = [buffer[0], buffer[1]];
    assert(r@ =~= buffer@);
    r
}


// ---------------------------------------------------------------------------
// Byte buffers.
// ---------------------------------------------------------------------------

/// Appends the first `n` bytes of `src` to `buf`.
pub fn append_prefix(buf: &mut Vec<u8>, src: &[u8], n: usize)
    requires
        n <= src@.len(),
    ensures
        final(buf)@ == old(buf)@ + src@.subrange(0, n as int),
{
    let mut i: usize = 0;
    while i < n
        invariant
            n <= src@.len(),
            i <= n,
            buf@ == old(buf)@ + src@.subrange(0, i as int),
        decreases n - i,
    {
        buf.push(src[i]);
        i = i + 1;
        assert(buf@ =~= old(buf)@ + src@.subrange(0, i as int));
    }
}

/// Appends all of `src` to `buf`.
pub fn append_slice(buf: &mut Vec<u8>, src: &[u8])
    ensures
        final(buf)@ == old(buf)@ + src@,
{
    append_prefix(buf, src, src.len());
    assert(src@.subrange(0, src@.len() as int) =~= src@);
}

/// A copy of the bytes in `start..end`.
pub fn copy_range(src: &[u8], start: usize, end: usize) -> (r: Vec<u8>)
    requires
        start <= end <= src@.len(),
    ensures
        r@ == src@.subrange(start as int, end as int),
{
    let mut r: Vec<u8> = Vec::with_capacity(end - start);
    let mut i: usize = start;
    while i < end
        invariant
            start <= i <= end <= src@.len(),
            r@ == src@.subrange(start as int, i as int),
        decreases end - i,
    {
        r.push(src[i]);
        i = i + 1;
        assert(r@ =~= src@.subrange(start as int, i as int));
    }
    r
}

/// Appends the varint encoding of `value` to `buf`.
pub fn append_varint(buf: &mut Vec<u8>, value: usize)
    ensures
        final(buf)@ == old(buf)@ + varint_bytes(value as nat),
{
    let (bytes, len) = encode_varint(value);
    append_prefix(buf, &bytes, len);
}

// ---------------------------------------------------------------------------
// File names.
// ---------------------------------------------------------------------------

/// The decimal digits of `v`, most significant first, with no leading
/// zero.
pub open spec fn decimal_bytes(v: nat) -> Seq<u8>
    decreases v,
{
    if v < 10 {
        seq![(48 + v) as u8]
    } else {
        decimal_bytes(v / 10).push((48 + v % 10) as u8)
    }
}

/// Appends the decimal digits of `v`.
pub fn append_decimal(buf: &mut Vec<u8>, v: u128)
    ensures
        final(buf)@ == old(buf)@ + decimal_bytes(v as nat),
    decreases v,
{
    if v >= 10 {
        append_decimal(buf, v / 10);
    }
    buf.push(48u8 + (v % 10) as u8);
    proof {
        if v >= 10 {
            assert(final(buf)@ =~= old(buf)@ + decimal_bytes(v as nat));
        } else {
            assert(final(buf)@ =~= old(buf)@ + decimal_bytes(v as nat));
        }
    }
}

/// `wal.<ts>.log`.
pub open spec fn wal_file_name(ts: u128) -> Seq<u8> {
    seq![119u8, 97u8, 108u8, 46u8] + decimal_bytes(ts as nat) + seq![46u8, 108u8, 111u8, 103u8]
}

/// `<ts>.sstable`.
pub open spec fn sstable_file_name(ts: u128) -> Seq<u8> {
    decimal_bytes(ts as nat) + seq![46u8, 115u8, 115u8, 116u8, 97u8, 98u8, 108u8, 101u8]
}

/// The name of a new WAL file created at `ts` nanoseconds since the epoch.
pub fn generate_wal_file_name(ts: u128) -> (r: Vec<u8>)
    ensures
        r@ == wal_file_name(ts),
{
    let mut r: Vec<u8> = Vec::new();
    r.push(119u8);
    r.push(97u8);
    r.push(108u8);
    r.push(46u8);
    append_decimal(&mut r, ts);
    r.push(46u8);
    r.push(108u8);
    r.push(111u8);
    r.push(103u8);
    assert(r@ =~= wal_file_name(ts));
    r
}

/// The name of a new SSTable file created at `ts` nanoseconds since the
/// epoch.
pub fn generate_sstable_file_name(ts: u128) -> (r: Vec<u8>)
    ensures
        r@ == sstable_file_name(ts),
{
    let mut r: Vec<u8> = Vec::new();
    append_decimal(&mut r, ts);
    let ext: [u8; 8] = [46u8, 115u8, 115u8, 116u8, 97u8, 98u8, 108u8, 101u8];
    append_slice(&mut r, &ext);
    assert(ext@ =~= seq![46u8, 115u8, 115u8, 116u8, 97u8, 98u8, 108u8, 101u8]);
    assert(r@ =~= sstable_file_name(ts));
    r
}

} // verus!
