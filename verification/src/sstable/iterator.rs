//! Reads the records of a table's data blocks one by one.

use vstd::prelude::*;
use crate::constants;
use crate::disk::{record_at, DiskRecord};
use crate::disk::decode::decode_disk_record;

verus! {

/// Walks the records of the data blocks of a table.
pub struct SSTableIterator {
    pub buffer: Vec<u8>,
    pub offset: usize,
}

impl SSTableIterator {
    /// An iterator at the first record of the data blocks, whose bytes
    /// are `data_blocks` (the table's bytes after its header, up to its
    /// index block).
    pub fn new(data_blocks: Vec<u8>) -> (r: SSTableIterator)
        ensures
            r.buffer@ == data_blocks@,
            r.offset == 0,
    {
        SSTableIterator { buffer: data_blocks, offset: 0 }
    }

    /// Whether the iterator can go on: it is at the end, or the bytes at
    /// its offset are a record or start with a header byte of neither kind.
    pub open spec fn readable(&self) -> bool {
        self.offset >= self.buffer@.len() || (self.buffer@[self.offset as int] == constants::INSERT_LOG_HEADER
            || self.buffer@[self.offset as int] == constants::TOMBSTONE_LOG_HEADER ==> record_at(
            self.buffer@,
            self.offset as int,
        ) is Some)
    }

    /// The next record; `None` at the end, or at a header byte of neither
    /// kind, which is skipped.
    pub fn next(&mut self) -> (r: Option<DiskRecord>)
        requires
            old(self).readable(),
        ensures
            final(self).buffer@ == old(self).buffer@,
            old(self).offset >= old(self).buffer@.len() ==> r is None && final(self).offset == old(self).offset,
            old(self).offset < old(self).buffer@.len() ==> match r {
                None => {
                    &&& old(self).buffer@[old(self).offset as int] != constants::INSERT_LOG_HEADER
                    &&& old(self).buffer@[old(self).offset as int] != constants::TOMBSTONE_LOG_HEADER
                    &&& final(self).offset == old(self).offset + 1
                },
                Some(rec) => record_at(old(self).buffer@, old(self).offset as int) == Some(
                    (rec.key@, rec.data@, final(self).offset as int),
                ),
            },
    {
        if self.offset >= self.buffer.len() {
            return None;
        }
        decode_disk_record(self.buffer.as_slice(), &mut self.offset)
    }
}

} // verus!
