//! Encoding of records.

use vstd::prelude::*;
use super::{record_body, record_bytes, record_fits, DiskRecord};
use crate::constants;
use crate::memtable::inner::{MemtableNode, NodeData};
use crate::util::{append_slice, append_varint, encode_varint, lemma_usize_varint_len, varint_bytes};

verus! {

/// Encodes a memtable node as a data record, or as a tombstone record when
/// it holds a tombstone.
pub fn encode_memtable_node(node: &MemtableNode) -> (r: Vec<u8>)
    requires
        record_fits(node.key@, node.data@),
    ensures
        r@ == record_bytes(node.key@, node.data@),
{
    let (key_varint, varint_len) = encode_varint(node.key.len());
    let kv = slice_prefix(&key_varint, varint_len);
    match &node.data {
        NodeData::Data(data) => encode_insert_record(node.key.as_slice(), kv.as_slice(), data.as_slice()),
        NodeData::Tombstone => encode_tombstone_record(node.key.as_slice(), kv.as_slice()),
    }
}

/// Encodes a data record taken from a merge. A tombstone is never handed
/// here.
pub fn merge_encode_record(record: DiskRecord) -> (r: Vec<u8>)
    requires
        record.data@ is Some,
        record_fits(record.key@, record.data@),
    ensures
        r@ == record_bytes(record.key@, record.data@),
{
    let (key_varint, varint_len) = encode_varint(record.key.len());
    let kv = slice_prefix(&key_varint, varint_len);
    match &record.data {
        NodeData::Data(data) => encode_insert_record(record.key.as_slice(), kv.as_slice(), data.as_slice()),
        NodeData::Tombstone => {
            proof {
                assert(false);
            }
            Vec::new()
        },
    }
}

/// The first `n` bytes of an array, as a vector.
fn slice_prefix(src: &[u8; 10], n: usize) -> (r: Vec<u8>)
    requires
        n <= 10,
    ensures
        r@ == src@.subrange(0, n as int),
{
    let mut r: Vec<u8> = Vec::new();
    let mut i: usize = 0;
    while i < n
        invariant
            n <= 10,
            i <= n,
            src@.len() == 10,
            r@ == src@.subrange(0, i as int),
        decreases n - i,
    {
        r.push(src[i]);
        i = i + 1;
        assert(r@ =~= src@.subrange(0, i as int));
    }
    r
}

/// Encodes a tombstone record for `key`, whose length varint the caller
/// hands in: `[1][log size varint][key_varint][key]`.
pub fn encode_tombstone_record(key: &[u8], key_varint: &[u8]) -> (r: Vec<u8>)
    requires
        1 + varint_bytes((key_varint@.len() + key@.len()) as nat).len() + key_varint@.len()
            + key@.len() <= usize::MAX,
    ensures
        r@ == seq![constants::TOMBSTONE_LOG_HEADER] + varint_bytes((key_varint@.len() + key@.len()) as nat)
            + key_varint@ + key@,
        key_varint@ == varint_bytes(key@.len()) ==> r@ == record_bytes(key@, None),
{
    let log_size = key.len() + key_varint.len();
    let mut buffer: Vec<u8> = Vec::new();
    buffer.push(constants::TOMBSTONE_LOG_HEADER);
    append_varint(&mut buffer, log_size);
    append_slice(&mut buffer, key_varint);
    append_slice(&mut buffer, key);
    proof {
        assert(buffer@ =~= seq![constants::TOMBSTONE_LOG_HEADER] + varint_bytes(log_size as nat)
            + key_varint@ + key@);
        if key_varint@ == varint_bytes(key@.len()) {
            assert(record_body(key@, None) =~= key_varint@ + key@);
            assert(buffer@ =~= record_bytes(key@, None));
        }
    }
    buffer
}

/// The log size of a data record: the key's length varint, the key, the
/// data's length varint and the data.
pub open spec fn insert_log_size(key_varint_len: nat, key_len: nat, data_len: nat) -> nat {
    key_varint_len + key_len + varint_bytes(data_len).len() + data_len
}

/// Encodes a data record for `key` and `data`, whose key length varint the
/// caller hands in: `[0][log size varint][key_varint][key][data length varint][data]`.
pub fn encode_insert_record(key: &[u8], key_varint: &[u8], data: &[u8]) -> (r: Vec<u8>)
    requires
        1 + varint_bytes(insert_log_size(key_varint@.len(), key@.len(), data@.len())).len()
            + insert_log_size(key_varint@.len(), key@.len(), data@.len()) <= usize::MAX,
    ensures
        r@ == seq![constants::INSERT_LOG_HEADER] + varint_bytes(
            insert_log_size(key_varint@.len(), key@.len(), data@.len()),
        ) + key_varint@ + key@ + varint_bytes(data@.len()) + data@,
        key_varint@ == varint_bytes(key@.len()) ==> r@ == record_bytes(key@, Some(data@)),
{
    let (_, data_varint_len) = encode_varint(data.len());
    let log_size = key.len() + key_varint.len() + data_varint_len + data.len();
    let mut buffer: Vec<u8> = Vec::new();
    buffer.push(constants::INSERT_LOG_HEADER);
    append_varint(&mut buffer, log_size);
    append_slice(&mut buffer, key_varint);
    append_slice(&mut buffer, key);
    append_varint(&mut buffer, data.len());
    append_slice(&mut buffer, data);
    proof {
        assert(buffer@ =~= seq![constants::INSERT_LOG_HEADER] + varint_bytes(log_size as nat)
            + key_varint@ + key@ + varint_bytes(data@.len()) + data@);
        if key_varint@ == varint_bytes(key@.len()) {
            assert(record_body(key@, Some(data@)) =~= key_varint@ + key@ + varint_bytes(data@.len())
                + data@);
            assert(buffer@ =~= record_bytes(key@, Some(data@)));
        }
    }
    buffer
}

} // verus!
