//! The record format shared by the write-ahead log and the SSTable data
//! blocks.
//!
//! Data record:      `[0][log size varint][key length varint][key][data length varint][data]`
//! Tombstone record: `[1][log size varint][key length varint][key]`
//!
//! The log size counts the bytes that follow it.

pub mod decode;
pub mod encode;

use vstd::prelude::*;
use crate::constants;
use crate::error::SSTableError;
use crate::memtable::inner::NodeData;
use crate::util::{
    copy_range, decode_varint, law_varint_roundtrip, lemma_usize_varint_len, varint_bytes,
    varint_decoded_at, varint_len_at,
};

verus! {

/// A key with its data, or with a tombstone, as read from disk.
pub struct DiskRecord {
    pub key: Vec<u8>,
    pub data: NodeData,
}

impl View for DiskRecord {
    type V = (Seq<u8>, Option<Seq<u8>>);

    open spec fn view(&self) -> (Seq<u8>, Option<Seq<u8>>) {
        (self.key@, self.data@)
    }
}

/// The header byte of a record: data or tombstone.
pub open spec fn record_header(data: Option<Seq<u8>>) -> u8 {
    if data is Some {
        constants::INSERT_LOG_HEADER
    } else {
        constants::TOMBSTONE_LOG_HEADER
    }
}

/// What follows the log size: the key with its length, then the data with
/// its length for a data record.
pub open spec fn record_body(key: Seq<u8>, data: Option<Seq<u8>>) -> Seq<u8> {
    varint_bytes(key.len()) + key + match data {
        Some(d) => varint_bytes(d.len()) + d,
        None => Seq::<u8>::empty(),
    }
}

/// The bytes of one record.
pub open spec fn record_bytes(key: Seq<u8>, data: Option<Seq<u8>>) -> Seq<u8> {
    seq![record_header(data)] + varint_bytes(record_body(key, data).len()) + record_body(key, data)
}

/// Records laid one after the other.
pub open spec fn log_bytes(rs: Seq<(Seq<u8>, Option<Seq<u8>>)>) -> Seq<u8>
    decreases rs.len(),
{
    if rs.len() == 0 {
        Seq::<u8>::empty()
    } else {
        record_bytes(rs[0].0, rs[0].1) + log_bytes(rs.drop_first())
    }
}

/// A record whose bytes can be addressed.
pub open spec fn record_fits(key: Seq<u8>, data: Option<Seq<u8>>) -> bool {
    record_bytes(key, data).len() <= usize::MAX
}

/// The record that starts at `off`, read field by field: its key, its data
/// (`None` for a tombstone) and where it ends; `None` when the header byte
/// is neither kind or a field runs past the end.
pub open spec fn record_at(s: Seq<u8>, off: int) -> Option<(Seq<u8>, Option<Seq<u8>>, int)> {
    if off < 0 || off >= s.len() || (s[off] != constants::INSERT_LOG_HEADER && s[off]
        != constants::TOMBSTONE_LOG_HEADER) {
        None
    } else if varint_len_at(s, off + 1) is None {
        None
    } else {
        let kp = off + 1 + varint_len_at(s, off + 1)->0;
        if varint_len_at(s, kp) is None {
            None
        } else {
            let ks = kp + varint_len_at(s, kp)->0;
            let ke = ks + varint_decoded_at(s, kp);
            if ke > s.len() {
                None
            } else if s[off] == constants::TOMBSTONE_LOG_HEADER {
                Some((s.subrange(ks, ke), None, ke))
            } else if varint_len_at(s, ke) is None {
                None
            } else {
                let ds = ke + varint_len_at(s, ke)->0;
                let de = ds + varint_decoded_at(s, ke);
                if de > s.len() {
                    None
                } else {
                    Some((s.subrange(ks, ke), Some(s.subrange(ds, de)), de))
                }
            }
        }
    }
}

/// What a lookup of `k` among records finds: the data of the first record
/// with that key, `Tombstone` when that record is a tombstone, and
/// `DiskRecordNotFound` when no record has the key.
pub open spec fn lookup(rs: Seq<(Seq<u8>, Option<Seq<u8>>)>, k: Seq<u8>) -> Result<Seq<u8>, SSTableError>
    decreases rs.len(),
{
    if rs.len() == 0 {
        Err(SSTableError::DiskRecordNotFound)
    } else if rs[0].0 == k {
        match rs[0].1 {
            Some(d) => Ok(d),
            None => Err(SSTableError::Tombstone),
        }
    } else {
        lookup(rs.drop_first(), k)
    }
}

/// Every record of the list can be addressed.
pub open spec fn all_fit(rs: Seq<(Seq<u8>, Option<Seq<u8>>)>) -> bool {
    forall|i: int| 0 <= i < rs.len() ==> record_fits(#[trigger] rs[i].0, rs[i].1)
}

/// The records that a block of bytes lays out, when it is such a block.
pub open spec fn block_records(s: Seq<u8>) -> Seq<(Seq<u8>, Option<Seq<u8>>)> {
    choose|rs: Seq<(Seq<u8>, Option<Seq<u8>>)>| log_bytes(rs) == s && all_fit(rs)
}

/// Whether the bytes are records laid one after the other.
pub open spec fn is_block(s: Seq<u8>) -> bool {
    exists|rs: Seq<(Seq<u8>, Option<Seq<u8>>)>| log_bytes(rs) == s && all_fit(rs)
}

/// The varint encoding of `v` read back at `off`.
proof fn lemma_varint_at(s: Seq<u8>, off: int, v: nat)
    requires
        v <= usize::MAX,
        0 <= off,
        off + varint_bytes(v).len() <= s.len(),
        s.subrange(off, off + varint_bytes(v).len()) == varint_bytes(v),
    ensures
        varint_len_at(s, off) == Some(varint_bytes(v).len()),
        varint_decoded_at(s, off) == v,
{
    law_varint_roundtrip(v as usize, s, off);
}

/// A record read back from its own bytes, wherever they stand.
pub proof fn lemma_record_at_bytes(s: Seq<u8>, off: int, key: Seq<u8>, data: Option<Seq<u8>>)
    requires
        record_fits(key, data),
        0 <= off,
        off + record_bytes(key, data).len() <= s.len(),
        s.subrange(off, off + record_bytes(key, data).len()) == record_bytes(key, data),
    ensures
        record_at(s, off) == Some((key, data, off + record_bytes(key, data).len())),
        s[off] == record_header(data),
        varint_len_at(s, off + 1) == Some(varint_bytes(record_body(key, data).len()).len()),
        varint_decoded_at(s, off + 1) == record_body(key, data).len(),
{
    let body = record_body(key, data);
    let vb = varint_bytes(body.len());
    let rb = record_bytes(key, data);
    let kv = varint_bytes(key.len());
    assert(s[off] == rb[0]);
    let lp = off + 1;
    assert(s.subrange(lp, lp + vb.len()) =~= vb) by {
        assert forall|i: int| 0 <= i < vb.len() implies s.subrange(lp, lp + vb.len())[i] == vb[i] by {
            assert(s[lp + i] == s.subrange(off, off + rb.len())[1 + i]);
            assert(rb[1 + i] == vb[i]);
        }
    }
    lemma_varint_at(s, lp, body.len());
    let kp = lp + vb.len();
    let ks = kp + kv.len();
    let ke = ks + key.len();
    assert forall|i: int| 0 <= i < body.len() implies s[kp + i] == body[i] by {
        assert(s[kp + i] == s.subrange(off, off + rb.len())[1 + vb.len() + i]);
        assert(rb[1 + vb.len() + i] == body[i]);
    }
    assert(s.subrange(kp, kp + kv.len()) =~= kv) by {
        assert forall|i: int| 0 <= i < kv.len() implies s.subrange(kp, kp + kv.len())[i] == kv[i] by {
            assert(s[kp + i] == body[i]);
        }
    }
    lemma_varint_at(s, kp, key.len());
    assert(s.subrange(ks, ke) =~= key) by {
        assert forall|i: int| 0 <= i < key.len() implies s.subrange(ks, ke)[i] == key[i] by {
            assert(s[kp + kv.len() + i] == body[kv.len() + i]);
        }
    }
    match data {
        Some(d) => {
            let dv = varint_bytes(d.len());
            let ds = ke + dv.len();
            assert(s.subrange(ke, ke + dv.len()) =~= dv) by {
                assert forall|i: int| 0 <= i < dv.len() implies s.subrange(ke, ke + dv.len())[i]
                    == dv[i] by {
                    assert(s[kp + kv.len() + key.len() + i] == body[kv.len() + key.len() + i]);
                }
            }
            lemma_varint_at(s, ke, d.len());
            assert(s.subrange(ds, ds + d.len()) =~= d) by {
                assert forall|i: int| 0 <= i < d.len() implies s.subrange(ds, ds + d.len())[i]
                    == d[i] by {
                    assert(s[kp + kv.len() + key.len() + dv.len() + i] == body[kv.len()
                        + key.len() + dv.len() + i]);
                }
            }
        },
        None => {},
    }
}

/// Laying one more record after a list.
pub proof fn lemma_log_bytes_push(rs: Seq<(Seq<u8>, Option<Seq<u8>>)>, r: (Seq<u8>, Option<Seq<u8>>))
    ensures
        log_bytes(rs.push(r)) == log_bytes(rs) + record_bytes(r.0, r.1),
    decreases rs.len(),
{
    if rs.len() == 0 {
        let e = Seq::<(Seq<u8>, Option<Seq<u8>>)>::empty();
        assert(rs.push(r).drop_first() =~= e);
        assert(log_bytes(e) == Seq::<u8>::empty());
        assert(rs.push(r)[0] == r);
        assert(log_bytes(rs.push(r)) == record_bytes(r.0, r.1) + log_bytes(e));
        assert(log_bytes(rs.push(r)) =~= record_bytes(r.0, r.1));
        assert(log_bytes(rs) == Seq::<u8>::empty());
        assert(log_bytes(rs) + record_bytes(r.0, r.1) =~= record_bytes(r.0, r.1));
    } else {
        assert(rs.push(r).drop_first() =~= rs.drop_first().push(r));
        lemma_log_bytes_push(rs.drop_first(), r);
        assert(log_bytes(rs.push(r)) =~= log_bytes(rs) + record_bytes(r.0, r.1));
    }
}

/// The bytes of two lists laid one after the other.
pub proof fn lemma_log_bytes_append(xs: Seq<(Seq<u8>, Option<Seq<u8>>)>, ys: Seq<(Seq<u8>, Option<Seq<u8>>)>)
    ensures
        log_bytes(xs + ys) == log_bytes(xs) + log_bytes(ys),
    decreases xs.len(),
{
    if xs.len() == 0 {
        assert(xs + ys =~= ys);
        assert(log_bytes(xs) + log_bytes(ys) =~= log_bytes(ys));
    } else {
        assert((xs + ys)[0] == xs[0]);
        assert((xs + ys).drop_first() =~= xs.drop_first() + ys);
        lemma_log_bytes_append(xs.drop_first(), ys);
        assert(log_bytes(xs + ys) =~= log_bytes(xs) + log_bytes(ys));
    }
}

/// A lookup that finds nothing among the first records goes on with the
/// rest.
proof fn lemma_lookup_skip(rs: Seq<(Seq<u8>, Option<Seq<u8>>)>, i: int, k: Seq<u8>)
    requires
        0 <= i < rs.len(),
        rs[i].0 != k,
    ensures
        lookup(rs.subrange(i, rs.len() as int), k) == lookup(rs.subrange(i + 1, rs.len() as int), k),
{
    assert(rs.subrange(i, rs.len() as int).drop_first() =~= rs.subrange(i + 1, rs.len() as int));
}

/// The bytes of a list start with those of its first record.
proof fn lemma_log_bytes_split(rs: Seq<(Seq<u8>, Option<Seq<u8>>)>)
    requires
        rs.len() > 0,
    ensures
        log_bytes(rs) == record_bytes(rs[0].0, rs[0].1) + log_bytes(rs.drop_first()),
{
}

/// When the bytes from `off` on are `x` followed by `y`, the bytes at
/// `off` of the length of `x` are `x`.
proof fn lemma_subrange_prefix(s: Seq<u8>, off: int, x: Seq<u8>, y: Seq<u8>)
    requires
        0 <= off <= s.len(),
        s.subrange(off, s.len() as int) == x + y,
    ensures
        off + x.len() <= s.len(),
        s.subrange(off, off + x.len()) == x,
{
    assert(s.subrange(off, s.len() as int).len() == x.len() + y.len());
    assert forall|j: int| 0 <= j < x.len() implies s.subrange(off, off + x.len())[j] == x[j] by {
        assert(s[off + j] == s.subrange(off, s.len() as int)[j]);
        assert((x + y)[j] == x[j]);
    }
    assert(s.subrange(off, off + x.len()) =~= x);
}

/// When the bytes from `off` on are `x` followed by `y`, the bytes after
/// `x` are `y`.
proof fn lemma_subrange_suffix(s: Seq<u8>, off: int, x: Seq<u8>, y: Seq<u8>)
    requires
        0 <= off <= s.len(),
        s.subrange(off, s.len() as int) == x + y,
    ensures
        s.subrange(off + x.len(), s.len() as int) == y,
{
    assert(s.subrange(off, s.len() as int).len() == x.len() + y.len());
    assert forall|j: int| 0 <= j < y.len() implies s.subrange(off + x.len(), s.len() as int)[j] == y[j] by {
        assert(s[off + x.len() + j] == s.subrange(off, s.len() as int)[x.len() + j]);
        assert((x + y)[x.len() + j] == y[j]);
    }
    assert(s.subrange(off + x.len(), s.len() as int) =~= y);
}

/// Whether a record's header byte marks a tombstone.
fn is_tombstone(header: u8) -> (r: bool)
    ensures
        r == (header == constants::TOMBSTONE_LOG_HEADER),
{
    header == constants::TOMBSTONE_LOG_HEADER
}

/// Reads the record of `key` that starts at `offset`: its data, or
/// `Tombstone` when it is a tombstone. The key is where the index said the
/// record stands; it is not read again.
#[allow(unused_variables)]
pub fn read_data_block(buffer: &[u8], offset: usize, key: &[u8]) -> (r: Result<Vec<u8>, SSTableError>)
    requires
        record_at(buffer@, offset as int) matches Some((k, _, _)) && k == key@,
    ensures
        match record_at(buffer@, offset as int) {
            Some((_, Some(d), _)) => r matches Ok(v) && v@ == d,
            Some((_, None, _)) => r matches Err(SSTableError::Tombstone),
            None => false,
        },
{
    let mut at = offset;
    match decode::decode_disk_record(buffer, &mut at) {
        Some(rec) => match rec.data {
            NodeData::Data(d) => Ok(d),
            NodeData::Tombstone => Err(SSTableError::Tombstone),
        },
        None => Err(SSTableError::DiskRecordNotFound),
    }
}

/// Finds the record with `search_key` in a data block: its data, or
/// `Tombstone`, or `DiskRecordNotFound` when no record of the block has the
/// key. Records are skipped by their log size.
pub fn search_data_block(block: &[u8], search_key: &[u8]) -> (r: Result<Vec<u8>, SSTableError>)
    requires
        is_block(block@),
    ensures
        match r {
            Ok(d) => lookup(block_records(block@), search_key@) == Ok::<Seq<u8>, SSTableError>(d@),
            Err(e) => lookup(block_records(block@), search_key@) == Err::<Seq<u8>, SSTableError>(e),
        },
{
    let ghost rs = block_records(block@);
    let block_size = block.len();
    let mut offset: usize = 0;
    let ghost mut i: int = 0;
    proof {
        assert(rs.subrange(0, rs.len() as int) =~= rs);
        assert(block@.subrange(0, block@.len() as int) =~= block@);
    }
    while offset < block_size
        invariant
            block_size == block@.len(),
            rs == block_records(block@),
            log_bytes(rs) == block@,
            all_fit(rs),
            0 <= i <= rs.len(),
            block@.subrange(offset as int, block@.len() as int) == log_bytes(
                rs.subrange(i, rs.len() as int),
            ),
            offset <= block_size,
            lookup(rs, search_key@) == lookup(rs.subrange(i, rs.len() as int), search_key@),
        decreases block_size - offset,
    {
        let ghost rest = rs.subrange(i, rs.len() as int);
        let ghost start = offset;
        proof {
            if rest.len() == 0 {
                assert(log_bytes(rest) =~= Seq::<u8>::empty());
                assert(false);
            }
            let (k, d) = rest[0];
            assert(rest[0] == rs[i]);
            lemma_log_bytes_split(rest);
            let rb = record_bytes(k, d);
            assert(block@.subrange(offset as int, block@.len() as int) == rb + log_bytes(
                rest.drop_first(),
            ));
            lemma_subrange_prefix(block@, offset as int, rb, log_bytes(rest.drop_first()));
            lemma_record_at_bytes(block@, offset as int, k, d);
        }
        let header = block[offset];
        offset = offset + 1;
        let (log_size, bytes_walked) = decode_varint(block, offset);
        offset = offset + bytes_walked;
        let log_end = offset + log_size as usize;
        let (key_size, bytes_walked) = decode_varint(block, offset);
        offset = offset + bytes_walked;
        let key_end = offset + key_size as usize;
        let key = slice_range_eq(block, offset, key_end, search_key);
        if !key {
            proof {
                lemma_lookup_skip(rs, i, search_key@);
                assert(rest.drop_first() =~= rs.subrange(i + 1, rs.len() as int));
                let rb = record_bytes(rest[0].0, rest[0].1);
                let tail = log_bytes(rest.drop_first());
                assert(log_end == start + rb.len());
                lemma_subrange_suffix(block@, start as int, rb, tail);
                i = i + 1;
            }
            offset = log_end;
            continue ;
        }
        proof {
            assert(rest[0].0 == search_key@);
            assert(rest.len() > 0);
            assert(lookup(rest, search_key@) == match rest[0].1 {
                Some(d) => Ok::<Seq<u8>, SSTableError>(d),
                None => Err::<Seq<u8>, SSTableError>(SSTableError::Tombstone),
            });
        }
        if is_tombstone(header) {
            return Err(SSTableError::Tombstone);
        }
        offset = key_end;
        let (data_size, bytes_walked) = decode_varint(block, offset);
        offset = offset + bytes_walked;
        let data = copy_range(block, offset, offset + data_size as usize);
        return Ok(data);
    }
    proof {
        assert(rs.subrange(i, rs.len() as int).len() == 0) by {
            if i < rs.len() {
                let rest = rs.subrange(i, rs.len() as int);
                lemma_log_bytes_split(rest);
            }
        }
    }
    Err(SSTableError::DiskRecordNotFound)
}

/// Whether the bytes of `s` in `start..end` are exactly `key`.
pub fn slice_range_eq(s: &[u8], start: usize, end: usize, key: &[u8]) -> (r: bool)
    requires
        start <= end <= s@.len(),
    ensures
        r == (s@.subrange(start as int, end as int) == key@),
{
    if end - start != key.len() {
        assert(s@.subrange(start as int, end as int).len() != key@.len());
        return false;
    }
    let mut i: usize = 0;
    while i < key.len()
        invariant
            start <= end <= s@.len(),
            end - start == key@.len(),
            i <= key@.len(),
            forall|j: int| 0 <= j < i ==> s@[start + j] == key@[j],
        decreases key.len() - i,
    {
        if s[start + i] != key[i] {
            assert(s@.subrange(start as int, end as int)[i as int] != key@[i as int]);
            return false;
        }
        i = i + 1;
    }
    assert(s@.subrange(start as int, end as int) =~= key@);
    true
}

} // verus!
