//! The memtable that takes the writes, with its write-ahead log: every
//! record it takes is also appended to the log, whose bytes replay to the
//! table. When full it is rotated out for an empty one.

use vstd::prelude::*;
use crate::disk::{all_fit, log_bytes, record_bytes, record_fits, DiskRecord};
use crate::error::MemtableError;
use crate::memtable::inner::{MemtableInner, MemtableNode, MemtableQuery, NodeData};
use crate::sstable::table::lemma_log_bytes_injective;
use crate::wal::{
    accepted, data_total, in_state, law_log_replay, lemma_data_total_bound, lemma_data_total_prefix,
    lemma_offered_accepted, lemma_offered_size_bound, log_pos, log_records, offered, WalBuffer, WalIterator,
};

verus! {

/// The table that takes the writes, the limits that each fresh table gets,
/// and the table's log: the bytes already written out and those still
/// buffered.
pub struct Memtable {
    pub inner: MemtableInner,
    pub max_size: usize,
    pub max_nodes: usize,
    pub wal: WalBuffer,
    /// The bytes of the log handed out for writing so far.
    pub written: Ghost<Seq<u8>>,
    /// The records of the whole log.
    pub logged: Ghost<Seq<(Seq<u8>, Option<Seq<u8>>)>>,
}

impl Memtable {
    /// The table is a red-black tree made with the memtable's limits, and
    /// its log, written and buffered, holds records that, offered in turn
    /// to an empty table with those limits, leave it as this one.
    pub open spec fn wf(&self) -> bool {
        &&& self.inner.wf()
        &&& self.inner.max_size == self.max_size
        &&& self.inner.max_nodes == self.max_nodes
        &&& log_records(self.written@ + self.wal.buffer@, self.logged@)
        &&& in_state(self.inner, offered(self.max_size, self.max_nodes, self.logged@))
    }

    /// An empty memtable with an empty log, last written at `now`.
    pub fn new(max_size: usize, max_nodes: usize, now: u128) -> (r: Memtable)
        ensures
            r.wf(),
            r.max_size == max_size,
            r.max_nodes == max_nodes,
            r.inner@ == Map::<Seq<u8>, Option<Seq<u8>>>::empty(),
            r.written@ == Seq::<u8>::empty(),
            r.wal.buffer@ == Seq::<u8>::empty(),
    {
        let r = Memtable {
            inner: MemtableInner::new(max_size, max_nodes),
            max_size,
            max_nodes,
            wal: WalBuffer::new(now),
            written: Ghost(Seq::empty()),
            logged: Ghost(Seq::empty()),
        };
        proof {
            assert(r.written@ + r.wal.buffer@ =~= Seq::<u8>::empty());
            assert(log_bytes(Seq::<(Seq<u8>, Option<Seq<u8>>)>::empty()) =~= Seq::<u8>::empty());
        }
        r
    }

    /// A memtable rebuilt from the bytes of an earlier log: each record is
    /// offered in turn to an empty table with these limits, and those it
    /// takes go to its own log, still to be written.
    pub fn new_from_wal(log: Vec<u8>, max_size: usize, max_nodes: usize, now: u128) -> (r: Memtable)
        requires
            exists|rs: Seq<(Seq<u8>, Option<Seq<u8>>)>| log_bytes(rs) == log@ && all_fit(rs) && data_total(rs) <= usize::MAX,
        ensures
            r.wf(),
            r.max_size == max_size,
            r.max_nodes == max_nodes,
            forall|rs: Seq<(Seq<u8>, Option<Seq<u8>>)>|
                #[trigger] log_records(log@, rs) ==> in_state(r.inner, offered(max_size, max_nodes, rs))
                    && r.wal.buffer@ == log_bytes(accepted(max_size, max_nodes, rs)),
            r.written@ == Seq::<u8>::empty(),
    {
        let ghost rs = choose|rs: Seq<(Seq<u8>, Option<Seq<u8>>)>| log_bytes(rs) == log@ && all_fit(rs) && data_total(rs) <= usize::MAX;
        let mut m = Memtable::new(max_size, max_nodes, now);
        let mut iter = WalIterator::new(log);
        let ghost mut i: int = 0;
        proof {
            assert(rs.subrange(0, 0) =~= Seq::<(Seq<u8>, Option<Seq<u8>>)>::empty());
            assert(m.written@ + m.wal.buffer@ =~= Seq::<u8>::empty());
            assert(log_bytes(Seq::<(Seq<u8>, Option<Seq<u8>>)>::empty()) =~= Seq::<u8>::empty());
            lemma_log_bytes_injective(m.logged@, Seq::<(Seq<u8>, Option<Seq<u8>>)>::empty());
        }
        loop
            invariant_except_break
                0 <= i <= rs.len(),
                iter.buffer@ == log_bytes(rs),
                iter.offset == log_pos(rs, i),
                m.logged@ == accepted(max_size, max_nodes, rs.subrange(0, i)),
            invariant
                all_fit(rs),
                data_total(rs) <= usize::MAX,
                m.wf(),
                m.max_size == max_size,
                m.max_nodes == max_nodes,
                m.written@ == Seq::<u8>::empty(),
            ensures
                m.logged@ == accepted(max_size, max_nodes, rs),
            decreases rs.len() - i,
        {
            proof {
                law_log_replay(rs, i);
                if i < rs.len() {
                    assert(log_bytes(rs)[log_pos(rs, i)] == crate::disk::record_header(rs[i].1));
                } else {
                    assert(rs.subrange(0, i) =~= rs);
                }
            }
            match iter.next() {
                None => {
                    break;
                },
                Some(rec) => {
                    let ghost pre = rs.subrange(0, i);
                    proof {
                        lemma_data_total_prefix(rs, i);
                        lemma_data_total_bound(rs, i + 1);
                        lemma_offered_accepted(max_size, max_nodes, pre);
                        lemma_offered_size_bound(max_size, max_nodes, pre);
                        assert(rs.subrange(0, i + 1).drop_last() =~= pre);
                        assert(rs.subrange(0, i + 1).last() == rs[i]);
                        assert(rec@ == rs[i]);
                        assert(record_fits(rs[i].0, rs[i].1));
                    }
                    let DiskRecord { key, data } = rec;
                    let _ = m.record(key, data);
                    proof {
                        i = i + 1;
                    }
                },
            }
        }
        proof {
            lemma_offered_accepted(max_size, max_nodes, rs);
            assert(m.written@ + m.wal.buffer@ =~= m.wal.buffer@);
            assert forall|rs2: Seq<(Seq<u8>, Option<Seq<u8>>)>| #[trigger] log_records(log@, rs2) implies in_state(
                m.inner,
                offered(max_size, max_nodes, rs2),
            ) && m.wal.buffer@ == log_bytes(accepted(max_size, max_nodes, rs2)) by {
                lemma_log_bytes_injective(rs2, rs);
                assert(rs2 == rs);
            }
        }
        m
    }

    /// Records `data` under `key` and logs it; a full table takes nothing,
    /// logs nothing and hands both back.
    pub fn insert(&mut self, key: Vec<u8>, data: Vec<u8>) -> (r: Result<(), MemtableError>)
        requires
            old(self).wf(),
            old(self).inner.current_size + data@.len() <= usize::MAX,
            record_fits(key@, Some(data@)),
        ensures
            final(self).wf(),
            final(self).max_size == old(self).max_size,
            final(self).max_nodes == old(self).max_nodes,
            final(self).written@ == old(self).written@,
            match r {
                Ok(()) => {
                    &&& !old(self).inner.spec_full()
                    &&& final(self).inner@ == old(self).inner@.insert(key@, Some(data@))
                    &&& final(self).wal.buffer@ == old(self).wal.buffer@ + record_bytes(key@, Some(data@))
                },
                Err(MemtableError::TableFull(k, v)) => {
                    &&& old(self).inner.spec_full()
                    &&& k@ == key@
                    &&& v@ == Some(data@)
                    &&& final(self).inner@ == old(self).inner@
                    &&& final(self).wal.buffer@ == old(self).wal.buffer@
                },
            },
    {
        self.record(key, NodeData::Data(data))
    }

    /// Records a tombstone under `key` and logs it; a full table takes
    /// nothing, logs nothing and hands the key back.
    pub fn delete(&mut self, key: Vec<u8>) -> (r: Result<(), MemtableError>)
        requires
            old(self).wf(),
            record_fits(key@, None),
        ensures
            final(self).wf(),
            final(self).max_size == old(self).max_size,
            final(self).max_nodes == old(self).max_nodes,
            final(self).written@ == old(self).written@,
            match r {
                Ok(()) => {
                    &&& !old(self).inner.spec_full()
                    &&& final(self).inner@ == old(self).inner@.insert(key@, None)
                    &&& final(self).wal.buffer@ == old(self).wal.buffer@ + record_bytes(key@, None)
                },
                Err(MemtableError::TableFull(k, v)) => {
                    &&& old(self).inner.spec_full()
                    &&& k@ == key@
                    &&& v@ == None::<Seq<u8>>
                    &&& final(self).inner@ == old(self).inner@
                    &&& final(self).wal.buffer@ == old(self).wal.buffer@
                },
            },
    {
        self.record(key, NodeData::Tombstone)
    }

    /// Records `value` under `key` and logs it, unless the table is full.
    fn record(&mut self, key: Vec<u8>, value: NodeData) -> (r: Result<(), MemtableError>)
        requires
            old(self).wf(),
            old(self).inner.current_size + match value@ {
                Some(d) => d.len(),
                None => 0,
            } <= usize::MAX,
            record_fits(key@, value@),
        ensures
            final(self).wf(),
            final(self).max_size == old(self).max_size,
            final(self).max_nodes == old(self).max_nodes,
            final(self).written@ == old(self).written@,
            match r {
                Ok(()) => {
                    &&& !old(self).inner.spec_full()
                    &&& final(self).inner@ == old(self).inner@.insert(key@, value@)
                    &&& final(self).wal.buffer@ == old(self).wal.buffer@ + record_bytes(key@, value@)
                    &&& final(self).logged@ == old(self).logged@.push((key@, value@))
                },
                Err(MemtableError::TableFull(k, v)) => {
                    &&& old(self).inner.spec_full()
                    &&& k == key
                    &&& v == value
                    &&& final(self).inner@ == old(self).inner@
                    &&& final(self).wal.buffer@ == old(self).wal.buffer@
                    &&& final(self).logged@ == old(self).logged@
                },
            },
    {
        if self.inner.full() {
            return Err(MemtableError::TableFull(key, value));
        }
        let node = MemtableNode::new(key, value);
        self.wal.append_record(&node);
        let ghost rec = (node.key@, node.data@);
        let ghost before = self.logged@;
        proof {
            crate::memtable::inner::lemma_root_none_iff_empty(&self.inner);
        }
        let MemtableNode { key, data, .. } = node;
        let r = self.inner.insert(key, data);
        proof {
            self.logged@ = before.push(rec);
            crate::disk::lemma_log_bytes_push(before, rec);
            assert(self.written@ + self.wal.buffer@ =~= self.written@ + old(self).wal.buffer@ + record_bytes(rec.0, rec.1));
            assert(before.push(rec).drop_last() =~= before);
            assert forall|t: int| 0 <= t < before.push(rec).len() implies record_fits(
                #[trigger] before.push(rec)[t].0,
                before.push(rec)[t].1,
            ) by {
                if t < before.len() {
                    assert(before.push(rec)[t] == before[t]);
                }
            }
        }
        r
    }

    /// Looks a key up: its value, a tombstone, or nothing.
    pub fn get(&self, key: &[u8]) -> (r: MemtableQuery)
        requires
            self.wf(),
        ensures
            match r {
                MemtableQuery::Data(d) => self.inner@.contains_key(key@) && self.inner@[key@] == Some(d@),
                MemtableQuery::Tombstone => self.inner@.contains_key(key@) && self.inner@[key@] == None::<
                    Seq<u8>,
                >,
                MemtableQuery::NotFound => !self.inner@.contains_key(key@),
            },
    {
        self.inner.get(key)
    }

    /// Whether the buffered log should be written out at `now`.
    pub fn needs_flush(&self, now: u128) -> (r: bool)
        ensures
            r == (self.wal.last_flush + crate::constants::DEFAULT_WAL_BUFFER_FLUSH_TIME > u128::MAX
                || self.wal.spec_needs_flush(now)),
    {
        if self.wal.last_flush > u128::MAX - crate::constants::DEFAULT_WAL_BUFFER_FLUSH_TIME {
            return true;
        }
        self.wal.needs_flush(now)
    }

    /// Hands out the buffered log bytes for writing, at `now`.
    pub fn take_log(&mut self, now: u128) -> (r: Vec<u8>)
        requires
            old(self).wf(),
        ensures
            final(self).wf(),
            r@ == old(self).wal.buffer@,
            final(self).written@ == old(self).written@ + r@,
            final(self).wal.buffer@ == Seq::<u8>::empty(),
            final(self).wal.last_flush == now,
            final(self).inner == old(self).inner,
            final(self).max_size == old(self).max_size,
            final(self).max_nodes == old(self).max_nodes,
    {
        let bytes = self.wal.take_buffer(now);
        proof {
            self.written@ = self.written@ + bytes@;
            assert(self.written@ + self.wal.buffer@ =~= old(self).written@ + old(self).wal.buffer@);
        }
        bytes
    }

    /// Hands out the current table with the log bytes not yet written, and
    /// puts an empty table with an empty log, last written at `now` and with
    /// the same limits, in its place.
    pub fn rotate(&mut self, now: u128) -> (r: (MemtableInner, Vec<u8>))
        requires
            old(self).wf(),
        ensures
            r.0 == old(self).inner,
            r.1@ == old(self).wal.buffer@,
            final(self).wf(),
            final(self).max_size == old(self).max_size,
            final(self).max_nodes == old(self).max_nodes,
            final(self).inner@ == Map::<Seq<u8>, Option<Seq<u8>>>::empty(),
            final(self).written@ == Seq::<u8>::empty(),
            final(self).wal.buffer@ == Seq::<u8>::empty(),
    {
        let mut fresh = Memtable::new(self.max_size, self.max_nodes, now);
        std::mem::swap(&mut fresh, self);
        let Memtable { inner, wal, .. } = fresh;
        (inner, wal.buffer)
    }
}

/// The log of a memtable, the bytes written out and those still buffered,
/// read as records in any way, replays to the memtable: offered in turn to
/// an empty table with the same limits, those records leave it with the
/// same contents, node count and byte count.
pub proof fn law_log_recovers_table(m: Memtable, rs: Seq<(Seq<u8>, Option<Seq<u8>>)>)
    requires
        m.wf(),
        log_records(m.written@ + m.wal.buffer@, rs),
    ensures
        in_state(m.inner, offered(m.max_size, m.max_nodes, rs)),
{
    lemma_log_bytes_injective(rs, m.logged@);
}

} // verus!
