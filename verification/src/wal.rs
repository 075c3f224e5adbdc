//! The write-ahead log: records are buffered and written out once the
//! buffer holds enough bytes or enough time has passed; on restart the log
//! is read back record by record.

use vstd::prelude::*;
use crate::constants;
use crate::disk::{all_fit, log_bytes, lemma_log_bytes_append, lemma_record_at_bytes, record_at, record_bytes, record_fits, DiskRecord};
use crate::disk::decode::decode_disk_record;
use crate::disk::encode::encode_memtable_node;
use crate::memtable::inner::{MemtableInner, MemtableNode};
use crate::util::{append_slice, decode_untrusted_varint, lemma_varint_len_bound, varint_size_from_len};
use crate::disk::{record_body, lemma_log_bytes_push};

verus! {

/// The records waiting to be written, and when the log was last written.
pub struct WalBuffer {
    pub buffer: Vec<u8>,
    pub last_flush: u128,
}

impl WalBuffer {
    /// An empty buffer, last written at `now` (milliseconds).
    pub fn new(now: u128) -> (r: WalBuffer)
        ensures
            r.buffer@ == Seq::<u8>::empty(),
            r.last_flush == now,
    {
        WalBuffer { buffer: Vec::with_capacity(constants::DEFAULT_WAL_BUFFER_CAPACITY), last_flush: now }
    }

    /// Whether the buffer should be written out before more is added: it
    /// holds at least the buffer size, or the flush interval has passed.
    pub open spec fn spec_needs_flush(&self, now: u128) -> bool {
        self.buffer@.len() >= constants::DEFAULT_WAL_BUFFER_SIZE || now > self.last_flush
            + constants::DEFAULT_WAL_BUFFER_FLUSH_TIME
    }

    /// Whether the buffer should be written out at `now`.
    pub fn needs_flush(&self, now: u128) -> (r: bool)
        requires
            self.last_flush + constants::DEFAULT_WAL_BUFFER_FLUSH_TIME <= u128::MAX,
        ensures
            r == self.spec_needs_flush(now),
    {
        self.buffer.len() >= constants::DEFAULT_WAL_BUFFER_SIZE || now > self.last_flush
            + constants::DEFAULT_WAL_BUFFER_FLUSH_TIME
    }

    /// Hands out the buffered bytes for writing and starts afresh at `now`.
    pub fn take_buffer(&mut self, now: u128) -> (r: Vec<u8>)
        ensures
            r@ == old(self).buffer@,
            final(self).buffer@ == Seq::<u8>::empty(),
            final(self).last_flush == now,
    {
        let mut r: Vec<u8> = Vec::with_capacity(constants::DEFAULT_WAL_BUFFER_CAPACITY);
        std::mem::swap(&mut r, &mut self.buffer);
        self.last_flush = now;
        r
    }

    /// Buffers the record of a memtable node.
    pub fn append_record(&mut self, node: &MemtableNode)
        requires
            record_fits(node.key@, node.data@),
        ensures
            final(self).buffer@ == old(self).buffer@ + record_bytes(node.key@, node.data@),
            final(self).last_flush == old(self).last_flush,
    {
        let log = encode_memtable_node(node);
        append_slice(&mut self.buffer, log.as_slice());
    }
}

/// Reads the records of a log one by one.
pub struct WalIterator {
    pub buffer: Vec<u8>,
    pub offset: usize,
}

/// The offset at which record `i` of a log starts.
pub open spec fn log_pos(rs: Seq<(Seq<u8>, Option<Seq<u8>>)>, i: int) -> int {
    log_bytes(rs.subrange(0, i)).len() as int
}

impl WalIterator {
    /// An iterator at the start of the log's bytes.
    pub fn new(buffer: Vec<u8>) -> (r: WalIterator)
        ensures
            r.buffer@ == buffer@,
            r.offset == 0,
    {
        WalIterator { buffer, offset: 0 }
    }

    /// Whether the iterator can go on: it is at the end, or the bytes at
    /// its offset are a record or start with a header byte of neither kind.
    pub open spec fn readable(&self) -> bool {
        self.offset >= self.buffer@.len() || (self.buffer@[self.offset as int] == constants::INSERT_LOG_HEADER
            || self.buffer@[self.offset as int] == constants::TOMBSTONE_LOG_HEADER ==> record_at(
            self.buffer@,
            self.offset as int,
        ) is Some)
    }

    /// The next record; `None` at the end, or at a header byte of neither
    /// kind, which is skipped.
    pub fn next(&mut self) -> (r: Option<DiskRecord>)
        requires
            old(self).readable(),
        ensures
            final(self).buffer@ == old(self).buffer@,
            old(self).offset >= old(self).buffer@.len() ==> r is None && final(self).offset == old(self).offset,
            old(self).offset < old(self).buffer@.len() ==> match r {
                None => {
                    &&& old(self).buffer@[old(self).offset as int] != constants::INSERT_LOG_HEADER
                    &&& old(self).buffer@[old(self).offset as int] != constants::TOMBSTONE_LOG_HEADER
                    &&& final(self).offset == old(self).offset + 1
                },
                Some(rec) => record_at(old(self).buffer@, old(self).offset as int) == Some(
                    (rec.key@, rec.data@, final(self).offset as int),
                ),
            },
    {
        if self.offset >= self.buffer.len() {
            return None;
        }
        decode_disk_record(self.buffer.as_slice(), &mut self.offset)
    }
}

/// Reading a log back: record `i` starts where the records before it end,
/// reads back as itself, and the last one ends at the end of the log.
pub proof fn law_log_replay(rs: Seq<(Seq<u8>, Option<Seq<u8>>)>, i: int)
    requires
        all_fit(rs),
        0 <= i <= rs.len(),
    ensures
        i < rs.len() ==> record_at(log_bytes(rs), log_pos(rs, i)) == Some((rs[i].0, rs[i].1, log_pos(rs, i + 1))),
        i < rs.len() ==> log_pos(rs, i) < log_bytes(rs).len(),
        i == rs.len() ==> log_pos(rs, i) == log_bytes(rs).len(),
{
    let s = log_bytes(rs);
    let pre = rs.subrange(0, i);
    let post = rs.subrange(i, rs.len() as int);
    assert(rs =~= pre + post);
    lemma_log_bytes_append(pre, post);
    if i == rs.len() {
        assert(rs.subrange(0, i) =~= rs);
    } else {
        let r = rs[i];
        assert(post[0] == r);
        assert(record_fits(r.0, r.1));
        let rb = record_bytes(r.0, r.1);
        assert(log_bytes(post) == rb + log_bytes(post.drop_first()));
        let p = log_pos(rs, i);
        assert(s.subrange(p, p + rb.len()) =~= rb) by {
            assert forall|j: int| 0 <= j < rb.len() implies s.subrange(p, p + rb.len())[j] == rb[j] by {
                assert(s[p + j] == log_bytes(post)[j]);
            }
        }
        lemma_record_at_bytes(s, p, r.0, r.1);
        crate::disk::lemma_log_bytes_push(pre, r);
        assert(pre.push(r) =~= rs.subrange(0, i + 1));
    }
}

/// The contents, node count and byte count of a table with these limits,
/// empty at first, after each record was offered to it in turn: a full
/// table refuses the record, any other records it. The first node adds no
/// bytes to the count.
pub open spec fn offered(max_size: usize, max_nodes: usize, rs: Seq<(Seq<u8>, Option<Seq<u8>>)>) -> (
    Map<Seq<u8>, Option<Seq<u8>>>,
    nat,
    nat,
)
    decreases rs.len(),
{
    if rs.len() == 0 {
        (Map::empty(), 0, 0)
    } else {
        let p = offered(max_size, max_nodes, rs.drop_last());
        let r = rs.last();
        if p.1 >= max_nodes || p.2 >= max_size {
            p
        } else {
            (
                p.0.insert(r.0, r.1),
                if p.0.contains_key(r.0) {
                    p.1
                } else {
                    p.1 + 1
                },
                if p.1 == 0 || p.0.contains_key(r.0) {
                    p.2
                } else {
                    p.2 + match r.1 {
                        Some(d) => d.len(),
                        None => 0,
                    }
                },
            )
        }
    }
}

/// The records of `rs` that a table with these limits takes when they are
/// offered in turn: those that come before it is full.
pub open spec fn accepted(max_size: usize, max_nodes: usize, rs: Seq<(Seq<u8>, Option<Seq<u8>>)>) -> Seq<
    (Seq<u8>, Option<Seq<u8>>),
>
    decreases rs.len(),
{
    if rs.len() == 0 {
        Seq::empty()
    } else {
        let p = offered(max_size, max_nodes, rs.drop_last());
        if p.1 >= max_nodes || p.2 >= max_size {
            accepted(max_size, max_nodes, rs.drop_last())
        } else {
            accepted(max_size, max_nodes, rs.drop_last()).push(rs.last())
        }
    }
}

/// Offering only the records a table takes leaves it as offering them all.
pub proof fn lemma_offered_accepted(max_size: usize, max_nodes: usize, rs: Seq<(Seq<u8>, Option<Seq<u8>>)>)
    ensures
        offered(max_size, max_nodes, accepted(max_size, max_nodes, rs)) == offered(max_size, max_nodes, rs),
    decreases rs.len(),
{
    if rs.len() > 0 {
        lemma_offered_accepted(max_size, max_nodes, rs.drop_last());
        let acc = accepted(max_size, max_nodes, rs.drop_last());
        assert(acc.push(rs.last()).drop_last() =~= acc);
    }
}

/// The byte count a table reaches is at most the data bytes offered to it.
pub proof fn lemma_offered_size_bound(max_size: usize, max_nodes: usize, rs: Seq<(Seq<u8>, Option<Seq<u8>>)>)
    ensures
        offered(max_size, max_nodes, rs).2 <= data_total(rs),
    decreases rs.len(),
{
    if rs.len() > 0 {
        lemma_offered_size_bound(max_size, max_nodes, rs.drop_last());
    }
}

/// A table takes at most the records offered to it.
pub proof fn lemma_accepted_len(max_size: usize, max_nodes: usize, rs: Seq<(Seq<u8>, Option<Seq<u8>>)>)
    ensures
        accepted(max_size, max_nodes, rs).len() <= rs.len(),
    decreases rs.len(),
{
    if rs.len() > 0 {
        lemma_accepted_len(max_size, max_nodes, rs.drop_last());
    }
}

/// A replay that the table takes whole leaves it holding, for each key,
/// what the newest record of that key says.
pub proof fn law_replay_takes_all(max_size: usize, max_nodes: usize, rs: Seq<(Seq<u8>, Option<Seq<u8>>)>)
    requires
        accepted(max_size, max_nodes, rs) == rs,
    ensures
        offered(max_size, max_nodes, rs).0 == crate::memtable::inner::apply_writes(Map::empty(), rs),
    decreases rs.len(),
{
    if rs.len() > 0 {
        let init = rs.drop_last();
        let p = offered(max_size, max_nodes, init);
        lemma_accepted_len(max_size, max_nodes, init);
        if p.1 >= max_nodes || p.2 >= max_size {
            assert(accepted(max_size, max_nodes, rs).len() < rs.len());
        } else {
            assert(accepted(max_size, max_nodes, init) =~= accepted(max_size, max_nodes, rs).drop_last());
            law_replay_takes_all(max_size, max_nodes, init);
        }
    }
}

/// A replayed log that the table takes whole gives, for each key, what the
/// newest record of that key says, and nothing for a key no record names.
pub proof fn law_replay_newest_record(
    max_size: usize,
    max_nodes: usize,
    rs: Seq<(Seq<u8>, Option<Seq<u8>>)>,
    k: Seq<u8>,
)
    requires
        accepted(max_size, max_nodes, rs) == rs,
    ensures
        match crate::memtable::inner::last_write(rs, k) {
            Some(v) => offered(max_size, max_nodes, rs).0.contains_key(k) && offered(max_size, max_nodes, rs).0[k] == v,
            None => !offered(max_size, max_nodes, rs).0.contains_key(k),
        },
{
    law_replay_takes_all(max_size, max_nodes, rs);
    crate::memtable::inner::law_newest_write_wins(Map::empty(), rs, k);
}

/// The table's contents, node count and byte count are `st`.
pub open spec fn in_state(t: MemtableInner, st: (Map<Seq<u8>, Option<Seq<u8>>>, nat, nat)) -> bool {
    &&& t@ == st.0
    &&& t.arena@.len() == st.1
    &&& t.current_size == st.2
}

/// The number of data bytes in the records.
pub open spec fn data_total(rs: Seq<(Seq<u8>, Option<Seq<u8>>)>) -> nat
    decreases rs.len(),
{
    if rs.len() == 0 {
        0
    } else {
        data_total(rs.drop_last()) + match rs.last().1 {
            Some(d) => d.len(),
            None => 0,
        }
    }
}

impl MemtableInner {
    /// Rebuilds a table from the bytes of its log: offers it each record
    /// in turn; records that come when the table is full are dropped.
    pub fn from_wal(log: Vec<u8>, max_size: usize, max_nodes: usize) -> (r: MemtableInner)
        requires
            exists|rs: Seq<(Seq<u8>, Option<Seq<u8>>)>| log_bytes(rs) == log@ && all_fit(rs) && data_total(rs) <= usize::MAX,
        ensures
            r.wf(),
            r.max_size == max_size,
            r.max_nodes == max_nodes,
            forall|rs: Seq<(Seq<u8>, Option<Seq<u8>>)>|
                #[trigger] log_records(log@, rs) ==> in_state(r, offered(max_size, max_nodes, rs)),
    {
        let ghost rs = choose|rs: Seq<(Seq<u8>, Option<Seq<u8>>)>| log_bytes(rs) == log@ && all_fit(rs) && data_total(rs) <= usize::MAX;
        let mut table = MemtableInner::new(max_size, max_nodes);
        let mut iter = WalIterator::new(log);
        let ghost mut i: int = 0;
        proof {
            assert(rs.subrange(0, 0) =~= Seq::<(Seq<u8>, Option<Seq<u8>>)>::empty());
            assert(table@ =~= Map::<Seq<u8>, Option<Seq<u8>>>::empty());
        }
        loop
            invariant_except_break
                0 <= i <= rs.len(),
                iter.buffer@ == log_bytes(rs),
                all_fit(rs),
                data_total(rs) <= usize::MAX,
                iter.offset == log_pos(rs, i),
                table.wf(),
                table.max_size == max_size,
                table.max_nodes == max_nodes,
                in_state(table, offered(max_size, max_nodes, rs.subrange(0, i))),
                table.current_size <= data_total(rs.subrange(0, i)),
            ensures
                table.wf(),
                table.max_size == max_size,
                table.max_nodes == max_nodes,
                in_state(table, offered(max_size, max_nodes, rs)),
            decreases rs.len() - i,
        {
            proof {
                law_log_replay(rs, i);
                if i < rs.len() {
                    assert(log_bytes(rs)[log_pos(rs, i)] == crate::disk::record_header(rs[i].1));
                } else {
                    assert(rs.subrange(0, i) =~= rs);
                }
            }
            match iter.next() {
                None => {
                    break;
                },
                Some(rec) => {
                    proof {
                        lemma_data_total_prefix(rs, i);
                        lemma_data_total_bound(rs, i + 1);
                        crate::memtable::inner::lemma_root_none_iff_empty(&table);
                        assert(rs.subrange(0, i + 1).drop_last() =~= rs.subrange(0, i));
                        assert(rs.subrange(0, i + 1).last() == rs[i]);
                        assert(rec@ == rs[i]);
                    }
                    let DiskRecord { key, data } = rec;
                    let _ = table.insert(key, data);
                    proof {
                        i = i + 1;
                    }
                },
            }
        }
        proof {
            assert forall|rs2: Seq<(Seq<u8>, Option<Seq<u8>>)>| #[trigger] log_records(log@, rs2) implies in_state(
                table,
                offered(max_size, max_nodes, rs2),
            ) by {
                crate::sstable::table::lemma_log_bytes_injective(rs2, rs);
                assert(rs2 == rs);
            }
        }
        table
    }
}

pub proof fn lemma_data_total_prefix(rs: Seq<(Seq<u8>, Option<Seq<u8>>)>, i: int)
    requires
        0 <= i < rs.len(),
    ensures
        data_total(rs.subrange(0, i + 1)) == data_total(rs.subrange(0, i)) + match rs[i].1 {
            Some(d) => d.len(),
            None => 0,
        },
{
    assert(rs.subrange(0, i + 1).drop_last() =~= rs.subrange(0, i));
}

pub proof fn lemma_data_total_bound(rs: Seq<(Seq<u8>, Option<Seq<u8>>)>, i: int)
    requires
        0 <= i <= rs.len(),
    ensures
        data_total(rs.subrange(0, i)) <= data_total(rs),
    decreases rs.len() - i,
{
    if i < rs.len() {
        lemma_data_total_bound(rs, i + 1);
        lemma_data_total_prefix(rs, i);
    } else {
        assert(rs.subrange(0, i) =~= rs);
    }
}

/// Whether a whole record can be read at `off`: a header byte of either
/// kind and every field inside the bytes.
fn record_readable(buf: &[u8], off: usize) -> (r: bool)
    ensures
        r == (record_at(buf@, off as int) is Some),
{
    let len = buf.len();
    if off >= len {
        return false;
    }
    let h = buf[off];
    if h != constants::INSERT_LOG_HEADER && h != constants::TOMBSTONE_LOG_HEADER {
        return false;
    }
    let l1 = match decode_untrusted_varint(buf, off + 1) {
        Ok((_, l)) => l,
        Err(_) => {
            return false;
        },
    };
    proof {
        lemma_varint_len_bound(buf@, off + 1, 0);
    }
    let kp = off + 1 + l1;
    let (klen, l2) = match decode_untrusted_varint(buf, kp) {
        Ok(p) => p,
        Err(_) => {
            return false;
        },
    };
    proof {
        lemma_varint_len_bound(buf@, kp as int, 0);
    }
    let ks = kp + l2;
    if klen > (len - ks) as u64 {
        return false;
    }
    let ke = ks + klen as usize;
    if h == constants::TOMBSTONE_LOG_HEADER {
        return true;
    }
    let (dlen, l3) = match decode_untrusted_varint(buf, ke) {
        Ok(p) => p,
        Err(_) => {
            return false;
        },
    };
    proof {
        lemma_varint_len_bound(buf@, ke as int, 0);
    }
    let ds = ke + l3;
    if dlen > (len - ds) as u64 {
        return false;
    }
    true
}

/// The records `rs` are what the bytes hold, laid one after the other, each
/// one addressable.
pub open spec fn log_records(log: Seq<u8>, rs: Seq<(Seq<u8>, Option<Seq<u8>>)>) -> bool {
    &&& log_bytes(rs) == log
    &&& all_fit(rs)
}

/// The records `rs` are what the log's bytes hold, each one addressable,
/// with values that fit a memtable's byte count.
pub open spec fn log_parse(log: Seq<u8>, rs: Seq<(Seq<u8>, Option<Seq<u8>>)>) -> bool {
    &&& log_records(log, rs)
    &&& data_total(rs) <= usize::MAX
}

/// Records as values.
pub open spec fn record_views(v: Seq<DiskRecord>) -> Seq<(Seq<u8>, Option<Seq<u8>>)> {
    v.map_values(|r: DiskRecord| r@)
}

/// Where the next record of a log stands, when the records before it are
/// `done` and the log is the bytes of `rs`.
proof fn lemma_next_record(log: Seq<u8>, rs: Seq<(Seq<u8>, Option<Seq<u8>>)>, done: Seq<(Seq<u8>, Option<Seq<u8>>)>, off: int)
    requires
        log_records(log, rs),
        done.len() <= rs.len(),
        done == rs.subrange(0, done.len() as int),
        log_bytes(done) == log.subrange(0, off),
        0 <= off < log.len(),
    ensures
        done.len() < rs.len(),
        ({
            let i = done.len() as int;
            let n = record_bytes(rs[i].0, rs[i].1).len();
            &&& record_at(log, off) == Some((rs[i].0, rs[i].1, off + n))
            &&& off + n <= log.len()
            &&& log.subrange(off, off + n) == record_bytes(rs[i].0, rs[i].1)
            &&& record_fits(rs[i].0, rs[i].1)
        }),
{
    let i = done.len() as int;
    if i == rs.len() {
        assert(done =~= rs);
        assert(log.subrange(0, off).len() == off);
        assert(false);
    }
    law_log_replay(rs, i);
    let pre = rs.subrange(0, i);
    let post = rs.subrange(i + 1, rs.len() as int);
    assert(rs.subrange(0, i + 1) =~= pre.push(rs[i]));
    lemma_log_bytes_push(pre, rs[i]);
    assert(rs =~= rs.subrange(0, i + 1) + post);
    lemma_log_bytes_append(rs.subrange(0, i + 1), post);
    let n = record_bytes(rs[i].0, rs[i].1).len();
    assert(log_pos(rs, i) == off);
    assert(log_pos(rs, i + 1) == off + n);
    assert(log.subrange(off, off + n) =~= record_bytes(rs[i].0, rs[i].1)) by {
        assert forall|j: int| 0 <= j < n implies log.subrange(off, off + n)[j] == record_bytes(rs[i].0, rs[i].1)[j] by {
            assert(log[off + j] == log_bytes(rs.subrange(0, i + 1))[off + j]);
            assert(log_bytes(rs.subrange(0, i + 1))[off + j] == (log_bytes(pre) + record_bytes(rs[i].0, rs[i].1))[off + j]);
        }
    }
}

/// What every reading of a log into records says of the record at `off`,
/// when the records before it are `done` and that record reads as `key`
/// and `data`.
proof fn lemma_parse_next(
    log: Seq<u8>,
    done: Seq<(Seq<u8>, Option<Seq<u8>>)>,
    off: int,
    key: Seq<u8>,
    data: Option<Seq<u8>>,
    end: int,
)
    requires
        forall|rs: Seq<(Seq<u8>, Option<Seq<u8>>)>|
            #[trigger] log_records(log, rs) ==> done.len() <= rs.len() && done == rs.subrange(0, done.len() as int),
        log_bytes(done) == log.subrange(0, off),
        0 <= off < log.len(),
        record_at(log, off) == Some((key, data, end)),
    ensures
        forall|rs: Seq<(Seq<u8>, Option<Seq<u8>>)>| #[trigger] log_records(log, rs) ==> {
            &&& done.len() < rs.len()
            &&& off + record_bytes(key, data).len() <= log.len()
            &&& log.subrange(off, off + record_bytes(key, data).len()) == record_bytes(key, data)
            &&& record_fits(key, data)
            &&& done.push((key, data)) == rs.subrange(0, done.len() + 1int)
        },
{
    assert forall|rs: Seq<(Seq<u8>, Option<Seq<u8>>)>| #[trigger] log_records(log, rs) implies {
        &&& done.len() < rs.len()
        &&& off + record_bytes(key, data).len() <= log.len()
        &&& log.subrange(off, off + record_bytes(key, data).len()) == record_bytes(key, data)
        &&& record_fits(key, data)
        &&& done.push((key, data)) == rs.subrange(0, done.len() + 1int)
    } by {
        lemma_next_record(log, rs, done, off);
        let i = done.len() as int;
        assert(rs[i] == (key, data));
        assert(done.push((key, data)) =~= rs.subrange(0, i + 1));
    }
}

/// Reads the bytes as records laid one after the other; `None` when they
/// are not such records.
#[verifier::rlimit(30)]
pub fn parse_log(log: &[u8]) -> (r: Option<Vec<DiskRecord>>)
    ensures
        match r {
            Some(v) => log_records(log@, record_views(v@)),
            None => forall|rs: Seq<(Seq<u8>, Option<Seq<u8>>)>| !#[trigger] log_records(log@, rs),
        },
{
    let len = log.len();
    let mut off: usize = 0;
    let mut records: Vec<DiskRecord> = Vec::new();
    proof {
        assert(log@.subrange(0, 0) =~= Seq::<u8>::empty());
        assert(record_views(records@) =~= Seq::<(Seq<u8>, Option<Seq<u8>>)>::empty());
    }
    while off < len
        invariant
            len == log@.len(),
            off <= len,
            log_bytes(record_views(records@)) == log@.subrange(0, off as int),
            all_fit(record_views(records@)),
            forall|rs: Seq<(Seq<u8>, Option<Seq<u8>>)>|
                #[trigger] log_records(log@, rs) ==> record_views(records@).len() <= rs.len()
                    && record_views(records@) == rs.subrange(0, record_views(records@).len() as int),
        decreases len - off,
    {
        let ghost done = record_views(records@);
        if !record_readable(log, off) {
            proof {
                assert forall|rs: Seq<(Seq<u8>, Option<Seq<u8>>)>| !#[trigger] log_records(log@, rs) by {
                    if log_records(log@, rs) {
                        lemma_next_record(log@, rs, done, off as int);
                    }
                }
            }
            return None;
        }
        let mut end = off;
        let decoded = decode_disk_record(log, &mut end);
        let rec = match decoded {
            Some(rec) => rec,
            None => {
                return None;
            },
        };
        proof {
            lemma_parse_next(log@, done, off as int, rec.key@, rec.data@, end as int);
        }
        let size = match record_size(&rec.key, &rec.data) {
            Some(s) => s,
            None => {
                proof {
                    assert forall|rs: Seq<(Seq<u8>, Option<Seq<u8>>)>| !#[trigger] log_records(log@, rs) by {}
                }
                return None;
            },
        };
        if size > len - off {
            proof {
                assert forall|rs: Seq<(Seq<u8>, Option<Seq<u8>>)>| !#[trigger] log_records(log@, rs) by {}
            }
            return None;
        }
        let DiskRecord { key, data } = rec;
        let node = MemtableNode::new(key, data);
        let enc = encode_memtable_node(&node);
        if !bytes_at(log, off, enc.as_slice()) {
            proof {
                assert forall|rs: Seq<(Seq<u8>, Option<Seq<u8>>)>| !#[trigger] log_records(log@, rs) by {}
            }
            return None;
        }
        let MemtableNode { key, data, .. } = node;
        let rec = DiskRecord { key, data };
        let ghost r = rec@;
        records.push(rec);
        proof {
            assert(record_views(records@) =~= done.push(r));
            lemma_log_bytes_push(done, r);
            assert(log@.subrange(0, off + size) =~= log@.subrange(0, off as int) + enc@);
            assert forall|rs: Seq<(Seq<u8>, Option<Seq<u8>>)>| #[trigger] log_records(log@, rs) implies done.push(r).len()
                <= rs.len() && done.push(r) == rs.subrange(0, done.push(r).len() as int) by {}
            assert forall|t: int| 0 <= t < done.push(r).len() implies record_fits(#[trigger] done.push(r)[t].0, done.push(r)[t].1) by {
                if t < done.len() {
                    assert(done.push(r)[t] == done[t]);
                }
            }
        }
        off = off + size;
    }
    proof {
        assert(log@.subrange(0, len as int) =~= log@);
    }
    Some(records)
}

/// Whether the bytes of a log are records laid one after the other, each
/// addressable, with values whose lengths add up within a `usize`: what
/// replaying the log asks of it.
pub fn wal_is_readable(log: &[u8]) -> (r: bool)
    ensures
        r == exists|rs: Seq<(Seq<u8>, Option<Seq<u8>>)>| log_parse(log@, rs),
{
    let records = match parse_log(log) {
        Some(v) => v,
        None => {
            proof {
                assert forall|rs: Seq<(Seq<u8>, Option<Seq<u8>>)>| !#[trigger] log_parse(log@, rs) by {
                    assert(!log_records(log@, rs));
                }
            }
            return false;
        },
    };
    let ghost vs = record_views(records@);
    let mut total: usize = 0;
    let mut i: usize = 0;
    while i < records.len()
        invariant
            i <= records@.len(),
            vs == record_views(records@),
            log_records(log@, vs),
            total == data_total(vs.subrange(0, i as int)),
        decreases records.len() - i,
    {
        proof {
            lemma_data_total_prefix(vs, i as int);
        }
        let dlen = records[i].data.len();
        total = match total.checked_add(dlen) {
            Some(t) => t,
            None => {
                proof {
                    lemma_data_total_bound(vs, i + 1);
                    assert forall|rs: Seq<(Seq<u8>, Option<Seq<u8>>)>| !#[trigger] log_parse(log@, rs) by {
                        if log_parse(log@, rs) {
                            crate::sstable::table::lemma_log_bytes_injective(rs, vs);
                        }
                    }
                }
                return false;
            },
        };
        i = i + 1;
    }
    proof {
        assert(vs.subrange(0, vs.len() as int) =~= vs);
        assert(log_parse(log@, vs));
    }
    true
}

/// The length of the record of `key` and `data`, if it fits a `usize`.
pub fn record_size(key: &Vec<u8>, data: &crate::memtable::inner::NodeData) -> (r: Option<usize>)
    ensures
        match r {
            Some(n) => n == record_bytes(key@, data@).len(),
            None => !record_fits(key@, data@),
        },
{
    let klen = key.len();
    let mut body: usize = match varint_size_from_len(klen).checked_add(klen) {
        Some(b) => b,
        None => {
            return None;
        },
    };
    match data {
        crate::memtable::inner::NodeData::Data(d) => {
            let dlen = d.len();
            body = match body.checked_add(varint_size_from_len(dlen)) {
                Some(b) => match b.checked_add(dlen) {
                    Some(b2) => b2,
                    None => {
                        return None;
                    },
                },
                None => {
                    return None;
                },
            };
        },
        crate::memtable::inner::NodeData::Tombstone => {},
    }
    assert(body == record_body(key@, data@).len());
    match varint_size_from_len(body).checked_add(body) {
        Some(s) => s.checked_add(1),
        None => None,
    }
}

/// Whether `pat` stands in `s` at `off`.
pub(crate) fn bytes_at(s: &[u8], off: usize, pat: &[u8]) -> (r: bool)
    requires
        off + pat@.len() <= s@.len(),
    ensures
        r == (s@.subrange(off as int, off + pat@.len()) == pat@),
{
    let _len = s.len();
    let n = pat.len();
    let mut j: usize = 0;
    while j < n
        invariant
            n == pat@.len(),
            _len == s@.len(),
            off + n <= s@.len(),
            j <= n,
            forall|t: int| 0 <= t < j ==> s@[off + t] == pat@[t],
        decreases n - j,
    {
        if s[off + j] != pat[j] {
            assert(s@.subrange(off as int, off + n)[j as int] != pat@[j as int]);
            return false;
        }
        j = j + 1;
    }
    assert(s@.subrange(off as int, off + n) =~= pat@);
    true
}

} // verus!
