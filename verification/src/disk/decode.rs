//! Decoding of records.

use vstd::prelude::*;
use super::{record_at, DiskRecord};
use crate::constants;
use crate::memtable::inner::NodeData;
use crate::util::{copy_range, decode_varint, lemma_varint_len_bound, varint_decoded_at, varint_len_at};

verus! {

/// Decodes the record at `*offset` and moves `*offset` past it. A header
/// byte of neither kind gives `None`, with `*offset` moved past that byte.
pub fn decode_disk_record(buffer: &[u8], offset: &mut usize) -> (r: Option<DiskRecord>)
    requires
        *old(offset) < buffer@.len(),
        buffer@[*old(offset) as int] == constants::INSERT_LOG_HEADER || buffer@[*old(offset) as int]
            == constants::TOMBSTONE_LOG_HEADER ==> record_at(buffer@, *old(offset) as int) is Some,
    ensures
        match r {
            None => {
                &&& buffer@[*old(offset) as int] != constants::INSERT_LOG_HEADER
                &&& buffer@[*old(offset) as int] != constants::TOMBSTONE_LOG_HEADER
                &&& *final(offset) == *old(offset) + 1
            },
            Some(rec) => record_at(buffer@, *old(offset) as int) == Some(
                (rec.key@, rec.data@, *final(offset) as int),
            ),
        },
{
    let header = buffer[*offset];
    *offset = *offset + 1;
    if header == constants::INSERT_LOG_HEADER {
        Some(decode_insert_log(buffer, offset))
    } else if header == constants::TOMBSTONE_LOG_HEADER {
        Some(decode_tombstone_log(buffer, offset))
    } else {
        None
    }
}

/// The fields of a data record after its header byte.
fn decode_insert_log(buffer: &[u8], offset: &mut usize) -> (r: DiskRecord)
    requires
        *old(offset) >= 1,
        buffer@[*old(offset) - 1] == constants::INSERT_LOG_HEADER,
        record_at(buffer@, *old(offset) - 1) is Some,
    ensures
        record_at(buffer@, *old(offset) - 1) == Some((r.key@, r.data@, *final(offset) as int)),
{
    let ghost start = *offset - 1;
    let _len = buffer.len();
    proof {
        lemma_varint_len_bound(buffer@, start + 1, 0);
    }
    let (_log_size, bytes_walked) = decode_varint(buffer, *offset);
    *offset = *offset + bytes_walked;
    proof {
        lemma_varint_len_bound(buffer@, *offset as int, 0);
    }
    let (key_length, bytes_walked) = decode_varint(buffer, *offset);
    *offset = *offset + bytes_walked;
    assert(key_length as usize == key_length);
    let key_end = *offset + key_length as usize;
    let key = copy_range(buffer, *offset, key_end);
    *offset = key_end;
    proof {
        lemma_varint_len_bound(buffer@, *offset as int, 0);
    }
    let (data_len, bytes_walked) = decode_varint(buffer, *offset);
    *offset = *offset + bytes_walked;
    assert(data_len as usize == data_len);
    let data_end = *offset + data_len as usize;
    let data = copy_range(buffer, *offset, data_end);
    *offset = data_end;
    DiskRecord { key, data: NodeData::Data(data) }
}

/// The fields of a tombstone record after its header byte.
fn decode_tombstone_log(buffer: &[u8], offset: &mut usize) -> (r: DiskRecord)
    requires
        *old(offset) >= 1,
        buffer@[*old(offset) - 1] == constants::TOMBSTONE_LOG_HEADER,
        record_at(buffer@, *old(offset) - 1) is Some,
    ensures
        record_at(buffer@, *old(offset) - 1) == Some((r.key@, r.data@, *final(offset) as int)),
{
    let ghost start = *offset - 1;
    let _len = buffer.len();
    proof {
        lemma_varint_len_bound(buffer@, start + 1, 0);
    }
    let (_log_size, bytes_walked) = decode_varint(buffer, *offset);
    *offset = *offset + bytes_walked;
    proof {
        lemma_varint_len_bound(buffer@, *offset as int, 0);
    }
    let (key_length, bytes_walked) = decode_varint(buffer, *offset);
    *offset = *offset + bytes_walked;
    assert(key_length as usize == key_length);
    let key_end = *offset + key_length as usize;
    let key = copy_range(buffer, *offset, key_end);
    *offset = key_end;
    DiskRecord { key, data: NodeData::Tombstone }
}

} // verus!
