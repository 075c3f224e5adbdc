//! Compaction: merges the records of several tables, newest table first,
//! into one table. For a key held by several tables the newest table's
//! record wins; tombstones are dropped; the output is in key order.

use vstd::prelude::*;
use crate::disk::{all_fit, log_bytes, lookup, record_fits, record_bytes, DiskRecord};
use crate::error::SSTableError;
use crate::keys::{compare_keys, key_lt, lemma_key_order_facts, KeyOrder};
use crate::memtable::inner::NodeData;
use crate::memtable::order::{has_key, lemma_lookup_absent, lemma_lookup_append};
use crate::sstable::compaction_writer::{records_sorted, sstable_bytes, CompactionWriter, MERGE_FILTER_KEYS};
use crate::wal::{law_log_replay, log_pos};
use crate::sstable::iterator::SSTableIterator;
use crate::disk::record_at;

verus! {

/// Signals to the background task that loads tables and compacts them.
pub enum CompactionSignal {
    Shutdown,
    /// A table file was written, by its name.
    LoadSSTable(Vec<u8>),
}

/// The background task's answer once a table is loaded.
pub enum SSTableLoadAck {
    Done,
}

/// The first table from `t` on that has a record with key `k`.
pub open spec fn first_from(ts: Seq<Seq<(Seq<u8>, Option<Seq<u8>>)>>, k: Seq<u8>, t: int) -> Option<int>
    decreases ts.len() - t,
{
    if t < 0 || t >= ts.len() {
        None
    } else if has_key(ts[t], k) {
        Some(t)
    } else {
        first_from(ts, k, t + 1)
    }
}

/// What the merge keeps for `k`: the data of the newest table's record for
/// it, or nothing when that record is a tombstone or no table has the key.
pub open spec fn merged_answer(ts: Seq<Seq<(Seq<u8>, Option<Seq<u8>>)>>, k: Seq<u8>) -> Result<Seq<u8>, SSTableError> {
    match first_from(ts, k, 0) {
        Some(t) => match lookup(ts[t], k) {
            Ok(d) => Ok(d),
            Err(_) => Err(SSTableError::DiskRecordNotFound),
        },
        None => Err(SSTableError::DiskRecordNotFound),
    }
}

proof fn lemma_first_from(ts: Seq<Seq<(Seq<u8>, Option<Seq<u8>>)>>, k: Seq<u8>, t: int, s: int)
    requires
        0 <= t <= s < ts.len(),
        has_key(ts[s], k),
        forall|u: int| t <= u < s ==> !has_key(#[trigger] ts[u], k),
    ensures
        first_from(ts, k, t) == Some(s),
    decreases s - t,
{
    if t < s {
        lemma_first_from(ts, k, t + 1, s);
    }
}

proof fn lemma_first_from_none(ts: Seq<Seq<(Seq<u8>, Option<Seq<u8>>)>>, k: Seq<u8>, t: int)
    requires
        0 <= t <= ts.len(),
        forall|u: int| t <= u < ts.len() ==> !has_key(#[trigger] ts[u], k),
    ensures
        first_from(ts, k, t) is None,
    decreases ts.len() - t,
{
    if t < ts.len() {
        lemma_first_from_none(ts, k, t + 1);
    }
}

/// Whether `k` lies below the record under each table's cursor.
pub open spec fn below_heads(ts: Seq<Seq<(Seq<u8>, Option<Seq<u8>>)>>, pos: Seq<int>, k: Seq<u8>) -> bool {
    forall|t: int| 0 <= t < ts.len() && #[trigger] pos[t] < ts[t].len() ==> key_lt(k, ts[t][pos[t]].0)
}

/// The state of the merge: cursors inside the tables, the records passed
/// by every cursor below the records under the cursors, and the output
/// sorted, below the cursors, and answering as the merge does for every key
/// below the cursors.
pub open spec fn merge_inv(
    ts: Seq<Seq<(Seq<u8>, Option<Seq<u8>>)>>,
    pos: Seq<int>,
    out: Seq<(Seq<u8>, Option<Seq<u8>>)>,
) -> bool {
    &&& pos.len() == ts.len()
    &&& forall|t: int| 0 <= t < ts.len() ==> 0 <= #[trigger] pos[t] <= ts[t].len()
    &&& forall|t: int| 0 <= t < ts.len() ==> records_sorted(#[trigger] ts[t])
    &&& forall|t: int, j: int|
        0 <= t < ts.len() && 0 <= j < pos[t] ==> below_heads(ts, pos, (#[trigger] ts[t][j]).0)
    &&& records_sorted(out)
    &&& forall|i: int| 0 <= i < out.len() ==> below_heads(ts, pos, (#[trigger] out[i]).0)
    &&& forall|i: int| 0 <= i < out.len() ==> (#[trigger] out[i]).1 is Some
    &&& forall|k: Seq<u8>| below_heads(ts, pos, k) ==> lookup(out, k) == merged_answer(ts, k)
}

/// The records left under and after the cursors.
pub open spec fn remaining(ts: Seq<Seq<(Seq<u8>, Option<Seq<u8>>)>>, pos: Seq<int>, n: int) -> int
    decreases n,
{
    if n <= 0 {
        0
    } else {
        remaining(ts, pos, n - 1) + (ts[n - 1].len() - pos[n - 1])
    }
}

proof fn lemma_remaining_step(ts: Seq<Seq<(Seq<u8>, Option<Seq<u8>>)>>, pos: Seq<int>, pos2: Seq<int>, s: int, n: int)
    requires
        0 <= n <= ts.len(),
        pos.len() == ts.len(),
        pos2.len() == ts.len(),
        forall|t: int| 0 <= t < ts.len() ==> #[trigger] pos2[t] >= pos[t],
        0 <= s < ts.len(),
        pos2[s] > pos[s],
    ensures
        s < n ==> remaining(ts, pos2, n) < remaining(ts, pos, n),
        remaining(ts, pos2, n) <= remaining(ts, pos, n),
    decreases n,
{
    if n > 0 {
        lemma_remaining_step(ts, pos, pos2, s, n - 1);
    }
}

proof fn lemma_remaining_nonneg(ts: Seq<Seq<(Seq<u8>, Option<Seq<u8>>)>>, pos: Seq<int>, n: int)
    requires
        0 <= n <= ts.len(),
        pos.len() == ts.len(),
        forall|t: int| 0 <= t < ts.len() ==> #[trigger] pos[t] <= ts[t].len(),
    ensures
        remaining(ts, pos, n) >= 0,
    decreases n,
{
    if n > 0 {
        lemma_remaining_nonneg(ts, pos, n - 1);
    }
}

/// One step of the merge: the smallest key under the cursors, taken from
/// the newest table that has it under its cursor, is output when it holds
/// data, and every cursor on that key moves on.
proof fn lemma_merge_step(
    ts: Seq<Seq<(Seq<u8>, Option<Seq<u8>>)>>,
    pos: Seq<int>,
    pos2: Seq<int>,
    out: Seq<(Seq<u8>, Option<Seq<u8>>)>,
    out2: Seq<(Seq<u8>, Option<Seq<u8>>)>,
    s: int,
)
    requires
        merge_inv(ts, pos, out),
        0 <= s < ts.len(),
        pos[s] < ts[s].len(),
        forall|t: int| 0 <= t < ts.len() && #[trigger] pos[t] < ts[t].len() ==> !key_lt(ts[t][pos[t]].0, ts[s][pos[s]].0),
        forall|t: int| 0 <= t < s && #[trigger] pos[t] < ts[t].len() ==> ts[t][pos[t]].0 != ts[s][pos[s]].0,
        pos2.len() == ts.len(),
        forall|t: int| 0 <= t < ts.len() ==> #[trigger] pos2[t] == if pos[t] < ts[t].len() && ts[t][pos[t]].0 == ts[s][pos[s]].0 {
            pos[t] + 1
        } else {
            pos[t]
        },
        out2 == if ts[s][pos[s]].1 is Some {
            out.push(ts[s][pos[s]])
        } else {
            out
        },
    ensures
        merge_inv(ts, pos2, out2),
{
    lemma_key_order_facts();
    let m = ts[s][pos[s]].0;
    // Keys below the old cursors stay below the new ones.
    assert forall|k: Seq<u8>| below_heads(ts, pos, k) implies below_heads(ts, pos2, k) by {
        assert forall|t: int| 0 <= t < ts.len() && #[trigger] pos2[t] < ts[t].len() implies key_lt(k, ts[t][pos2[t]].0) by {
            if pos2[t] != pos[t] {
                assert(key_lt(k, ts[t][pos[t]].0));
                assert(key_lt(ts[t][pos[t]].0, ts[t][pos2[t]].0));
            }
        }
    }
    // The minimum key lies below the new cursors.
    assert(below_heads(ts, pos2, m)) by {
        assert forall|t: int| 0 <= t < ts.len() && #[trigger] pos2[t] < ts[t].len() implies key_lt(m, ts[t][pos2[t]].0) by {
            if pos2[t] != pos[t] {
                assert(ts[t][pos[t]].0 == m);
                assert(key_lt(ts[t][pos[t]].0, ts[t][pos2[t]].0));
            } else {
                assert(!key_lt(ts[t][pos[t]].0, m));
                assert(ts[t][pos[t]].0 != m);
            }
        }
    }
    assert forall|t: int, j: int| 0 <= t < ts.len() && 0 <= j < pos2[t] implies below_heads(ts, pos2, (#[trigger] ts[t][j]).0) by {
        if j < pos[t] {
            assert(below_heads(ts, pos, ts[t][j].0));
        } else {
            assert(ts[t][j].0 == m);
        }
    }
    // The first record of `m` in any table is the one under its cursor.
    assert forall|t: int| 0 <= t < ts.len() && has_key(#[trigger] ts[t], m) implies pos[t] < ts[t].len() && ts[t][pos[t]].0 == m by {
        let j = choose|j: int| 0 <= j < ts[t].len() && (#[trigger] ts[t][j]).0 == m;
        if j < pos[t] {
            assert(below_heads(ts, pos, ts[t][j].0));
            assert(key_lt(m, ts[s][pos[s]].0));
        } else if j > pos[t] {
            assert(key_lt(ts[t][pos[t]].0, ts[t][j].0));
            assert(!key_lt(ts[t][pos[t]].0, m));
        }
    }
    // The merge keeps for `m` what the table `s` holds under its cursor.
    assert(has_key(ts[s], m));
    lemma_first_from(ts, m, 0, s);
    lemma_lookup_at(ts[s], pos[s]);
    let rec = ts[s][pos[s]];
    assert forall|i: int| 0 <= i < out.len() implies key_lt((#[trigger] out[i]).0, m) by {
        assert(below_heads(ts, pos, out[i].0));
    }
    assert(records_sorted(out2)) by {
        if rec.1 is Some {
            assert forall|x: int, y: int| 0 <= x < y < out2.len() implies key_lt(#[trigger] out2[x].0, #[trigger] out2[y].0) by {
                if y == out.len() {
                    assert(out2[x] == out[x]);
                } else {
                    assert(out2[x] == out[x] && out2[y] == out[y]);
                }
            }
        }
    }
    assert forall|i: int| 0 <= i < out2.len() implies below_heads(ts, pos2, (#[trigger] out2[i]).0) by {
        if i < out.len() {
            assert(out2[i] == out[i]);
            assert(below_heads(ts, pos, out[i].0));
        }
    }
    assert forall|i: int| 0 <= i < out2.len() implies (#[trigger] out2[i]).1 is Some by {
        if i < out.len() {
            assert(out2[i] == out[i]);
        }
    }
    assert forall|k: Seq<u8>| below_heads(ts, pos2, k) implies lookup(out2, k) == merged_answer(ts, k) by {
        lemma_lookup_absent(out, k);
        if rec.1 is Some {
            lemma_lookup_append(out, seq![rec], k);
            assert(out.push(rec) =~= out + seq![rec]);
            assert(seq![rec].drop_first() =~= Seq::<(Seq<u8>, Option<Seq<u8>>)>::empty());
        }
        if below_heads(ts, pos, k) {
            assert(lookup(out, k) == merged_answer(ts, k));
            if rec.1 is Some {
                assert(key_lt(k, m));
                assert(k != m);
                assert(lookup(seq![rec], k) == lookup(seq![rec].drop_first(), k));
            }
        } else if k == m {
            if has_key(out, k) {
                let i = choose|i: int| 0 <= i < out.len() && (#[trigger] out[i]).0 == k;
                assert(key_lt(out[i].0, m));
            }
        } else {
            // No table has a key between the old and the new cursors other
            // than `m`.
            let t0 = choose|t: int| 0 <= t < ts.len() && #[trigger] pos[t] < ts[t].len() && !key_lt(k, ts[t][pos[t]].0);
            assert(!key_lt(k, ts[t0][pos[t0]].0));
            assert(!key_lt(k, m)) by {
                assert(!key_lt(ts[t0][pos[t0]].0, m));
            }
            assert forall|t: int| 0 <= t < ts.len() implies !has_key(#[trigger] ts[t], k) by {
                if has_key(ts[t], k) {
                    let j = choose|j: int| 0 <= j < ts[t].len() && (#[trigger] ts[t][j]).0 == k;
                    if j < pos[t] {
                        assert(below_heads(ts, pos, ts[t][j].0));
                        assert(key_lt(k, ts[t0][pos[t0]].0));
                    } else if j < pos2[t] {
                        assert(j == pos[t]);
                        assert(ts[t][j].0 == m);
                    } else {
                        assert(key_lt(k, ts[t][pos2[t]].0));
                        if j > pos2[t] {
                            assert(key_lt(ts[t][pos2[t]].0, ts[t][j].0));
                        }
                    }
                }
            }
            lemma_first_from_none(ts, k, 0);
            if has_key(out, k) {
                let i = choose|i: int| 0 <= i < out.len() && (#[trigger] out[i]).0 == k;
                assert(key_lt(out[i].0, m));
            }
            if rec.1 is Some {
                assert(lookup(seq![rec], k) == lookup(seq![rec].drop_first(), k));
            }
        }
    }
}

/// In a sorted list, a lookup of the key at `j` finds that record.
proof fn lemma_lookup_at(rs: Seq<(Seq<u8>, Option<Seq<u8>>)>, j: int)
    requires
        records_sorted(rs),
        0 <= j < rs.len(),
    ensures
        lookup(rs, rs[j].0) == match rs[j].1 {
            Some(d) => Ok::<Seq<u8>, SSTableError>(d),
            None => Err::<Seq<u8>, SSTableError>(SSTableError::Tombstone),
        },
    decreases j,
{
    lemma_key_order_facts();
    if j > 0 {
        assert(key_lt(rs[0].0, rs[j].0));
        let rest = rs.drop_first();
        assert forall|x: int, y: int| 0 <= x < y < rest.len() implies key_lt(#[trigger] rest[x].0, #[trigger] rest[y].0) by {
            assert(rest[x] == rs[x + 1] && rest[y] == rs[y + 1]);
        }
        assert(rest[j - 1] == rs[j]);
        lemma_lookup_at(rest, j - 1);
    }
}

// ---------------------------------------------------------------------------
// Sizes
// ---------------------------------------------------------------------------

/// The bytes of the records before each cursor, over the first `n` tables.
pub open spec fn consumed(ts: Seq<Seq<(Seq<u8>, Option<Seq<u8>>)>>, pos: Seq<int>, n: int) -> int
    decreases n,
{
    if n <= 0 {
        0
    } else {
        consumed(ts, pos, n - 1) + log_pos(ts[n - 1], pos[n - 1])
    }
}

/// The bytes of all records of the first `n` tables.
pub open spec fn total_bytes(ts: Seq<Seq<(Seq<u8>, Option<Seq<u8>>)>>, n: int) -> int
    decreases n,
{
    if n <= 0 {
        0
    } else {
        total_bytes(ts, n - 1) + log_bytes(ts[n - 1]).len()
    }
}

proof fn lemma_log_pos_step(rs: Seq<(Seq<u8>, Option<Seq<u8>>)>, i: int)
    requires
        0 <= i < rs.len(),
    ensures
        log_pos(rs, i + 1) == log_pos(rs, i) + record_bytes(rs[i].0, rs[i].1).len(),
{
    crate::disk::lemma_log_bytes_push(rs.subrange(0, i), rs[i]);
    assert(rs.subrange(0, i).push(rs[i]) =~= rs.subrange(0, i + 1));
}

proof fn lemma_log_pos_mono(rs: Seq<(Seq<u8>, Option<Seq<u8>>)>, i: int, j: int)
    requires
        0 <= i <= j <= rs.len(),
    ensures
        0 <= log_pos(rs, i) <= log_pos(rs, j),
        log_pos(rs, rs.len() as int) == log_bytes(rs).len(),
    decreases j - i,
{
    assert(rs.subrange(0, rs.len() as int) =~= rs);
    if i < j {
        lemma_log_pos_mono(rs, i, j - 1);
        lemma_log_pos_step(rs, j - 1);
    }
}

proof fn lemma_consumed_step(
    ts: Seq<Seq<(Seq<u8>, Option<Seq<u8>>)>>,
    pos: Seq<int>,
    pos2: Seq<int>,
    s: int,
    n: int,
)
    requires
        0 <= n <= ts.len(),
        pos.len() == ts.len(),
        pos2.len() == ts.len(),
        forall|t: int| 0 <= t < ts.len() ==> 0 <= #[trigger] pos[t] <= pos2[t] <= ts[t].len(),
        0 <= s < ts.len(),
        pos2[s] == pos[s] + 1,
    ensures
        consumed(ts, pos2, n) >= consumed(ts, pos, n) + if s < n {
            record_bytes(ts[s][pos[s]].0, ts[s][pos[s]].1).len() as int
        } else {
            0
        },
    decreases n,
{
    if n > 0 {
        lemma_consumed_step(ts, pos, pos2, s, n - 1);
        let t = n - 1;
        lemma_log_pos_mono(ts[t], pos[t], pos2[t]);
        if t == s {
            lemma_log_pos_step(ts[s], pos[s]);
        }
    }
}

proof fn lemma_consumed_bound(ts: Seq<Seq<(Seq<u8>, Option<Seq<u8>>)>>, pos: Seq<int>, n: int)
    requires
        0 <= n <= ts.len(),
        pos.len() == ts.len(),
        forall|t: int| 0 <= t < ts.len() ==> 0 <= #[trigger] pos[t] <= ts[t].len(),
    ensures
        0 <= consumed(ts, pos, n) <= total_bytes(ts, n),
    decreases n,
{
    if n > 0 {
        lemma_consumed_bound(ts, pos, n - 1);
        lemma_log_pos_mono(ts[n - 1], pos[n - 1], ts[n - 1].len() as int);
        lemma_log_pos_mono(ts[n - 1], 0, pos[n - 1]);
    }
}

proof fn lemma_consumed_zero(ts: Seq<Seq<(Seq<u8>, Option<Seq<u8>>)>>, pos: Seq<int>, n: int)
    requires
        0 <= n <= ts.len(),
        pos.len() == ts.len(),
        forall|t: int| 0 <= t < ts.len() ==> #[trigger] pos[t] == 0,
    ensures
        consumed(ts, pos, n) == 0,
    decreases n,
{
    if n > 0 {
        lemma_consumed_zero(ts, pos, n - 1);
        assert(ts[n - 1].subrange(0, 0) =~= Seq::<(Seq<u8>, Option<Seq<u8>>)>::empty());
    }
}

/// An index entry takes at most nine times the bytes of its record.
proof fn lemma_index_bound(rs: Seq<(Seq<u8>, Option<Seq<u8>>)>, off: nat)
    ensures
        crate::ssindex::index_bytes(crate::sstable::encode::block_index(rs, off)).len() <= 9 * log_bytes(rs).len(),
    decreases rs.len(),
{
    if rs.len() > 0 {
        let n = record_bytes(rs[0].0, rs[0].1).len();
        lemma_index_bound(rs.drop_first(), off + n);
        let es = crate::sstable::encode::block_index(rs.drop_first(), off + n);
        crate::util::lemma_u64_be_roundtrip(off as u64);
        assert(record_bytes(rs[0].0, rs[0].1).len() >= crate::util::varint_bytes(rs[0].0.len()).len() + rs[0].0.len() + 2) by {
            crate::util::lemma_varint_bytes_shape((crate::disk::record_body(rs[0].0, rs[0].1).len()) as nat);
        }
        if crate::sstable::encode::starts_block(off, n) {
            assert(crate::ssindex::index_bytes(seq![(rs[0].0, off as u64)] + es) =~= crate::ssindex::index_entry_bytes(rs[0].0, off as u64) + crate::ssindex::index_bytes(es)) by {
                let e2 = seq![(rs[0].0, off as u64)] + es;
                assert(e2[0] == (rs[0].0, off as u64));
                assert(e2.drop_first() =~= es);
            }
        }
    }
}

/// Whether the tables on disk are due for compaction: once there are as
/// many as the compaction rate.
pub fn compaction_due(table_count: usize, compaction_rate: usize) -> (r: bool)
    ensures
        r == (table_count >= compaction_rate),
{
    table_count >= compaction_rate
}

/// Whether the iterators read the tables `ts`, each from its start, each
/// sorted with addressable records.
pub open spec fn input_of(iters: Seq<crate::sstable::iterator::SSTableIterator>, ts: Seq<Seq<(Seq<u8>, Option<Seq<u8>>)>>) -> bool {
    &&& ts.len() == iters.len()
    &&& forall|t: int| 0 <= t < ts.len() ==> (#[trigger] iters[t]).buffer@ == log_bytes(ts[t])
    &&& forall|t: int| 0 <= t < ts.len() ==> (#[trigger] iters[t]).offset == 0
    &&& forall|t: int| 0 <= t < ts.len() ==> records_sorted(#[trigger] ts[t])
    &&& forall|t: int| 0 <= t < ts.len() ==> all_fit(#[trigger] ts[t])
    &&& 6 + 10 * total_bytes(ts, ts.len() as int) <= crate::sstable::encode::size_limit()
}

/// The record under each cursor, as the merge holds it.
pub open spec fn heads_match(
    heads: Seq<Option<DiskRecord>>,
    iters: Seq<SSTableIterator>,
    ts: Seq<Seq<(Seq<u8>, Option<Seq<u8>>)>>,
    pos: Seq<int>,
) -> bool {
    &&& heads.len() == ts.len()
    &&& iters.len() == ts.len()
    &&& forall|t: int| 0 <= t < ts.len() ==> match #[trigger] heads[t] {
        Some(r) => pos[t] < ts[t].len() && r@ == ts[t][pos[t]],
        None => pos[t] == ts[t].len(),
    }
    &&& forall|t: int| 0 <= t < ts.len() ==> (#[trigger] iters[t]).buffer@ == log_bytes(ts[t])
    &&& forall|t: int| 0 <= t < ts.len() ==> (#[trigger] iters[t]).offset == log_pos(ts[t], after_head(ts[t], pos[t]))
}

/// Where an iterator stands when the cursor of its table is at `p`: past
/// the record under the cursor.
pub open spec fn after_head(rs: Seq<(Seq<u8>, Option<Seq<u8>>)>, p: int) -> int {
    if p < rs.len() {
        p + 1
    } else {
        p
    }
}

/// The cursor of table `x` while the tables before `u` have moved on.
pub open spec fn cursor(pos0: Seq<int>, pos2: Seq<int>, x: int, u: int) -> int {
    if x < u {
        pos2[x]
    } else {
        pos0[x]
    }
}

/// Moves the iterator of a table past its next record and returns it.
fn advance(
    iters: &mut Vec<SSTableIterator>,
    t: usize,
    Ghost(rs): Ghost<Seq<(Seq<u8>, Option<Seq<u8>>)>>,
    Ghost(i): Ghost<int>,
) -> (r: Option<DiskRecord>)
    requires
        t < old(iters)@.len(),
        all_fit(rs),
        0 <= i <= rs.len(),
        old(iters)@[t as int].buffer@ == log_bytes(rs),
        old(iters)@[t as int].offset == log_pos(rs, i),
    ensures
        final(iters)@.len() == old(iters)@.len(),
        forall|u: int| 0 <= u < old(iters)@.len() && u != t ==> final(iters)@[u] == old(iters)@[u],
        final(iters)@[t as int].buffer@ == log_bytes(rs),
        i < rs.len() ==> (r matches Some(rec) && rec@ == rs[i] && final(iters)@[t as int].offset == log_pos(rs, i + 1)),
        i == rs.len() ==> r is None && final(iters)@[t as int].offset == log_pos(rs, i),
{
    proof {
        law_log_replay(rs, i);
    }
    proof {
        if i < rs.len() {
            let s = log_bytes(rs);
            let p = log_pos(rs, i);
            assert(record_at(s, p) is Some);
            assert(s[p] == crate::disk::record_header(rs[i].1)) by {
                law_log_replay(rs, i);
                let post = rs.subrange(i, rs.len() as int);
                crate::disk::lemma_log_bytes_append(rs.subrange(0, i), post);
                assert(rs =~= rs.subrange(0, i) + post);
                assert(post[0] == rs[i]);
                assert(log_bytes(post) == record_bytes(rs[i].0, rs[i].1) + log_bytes(post.drop_first()));
                assert(s[p] == log_bytes(post)[0]);
            }
        }
    }
    iters[t].next()
}

/// Merges the tables that the iterators read, the first the newest, into
/// the bytes of one table: for each key the newest table's record, without
/// tombstones, in key order.
pub fn run_compaction(table_iters: Vec<SSTableIterator>, num_tables: usize) -> (r: Vec<u8>)
    requires
        num_tables == table_iters@.len(),
        exists|ts: Seq<Seq<(Seq<u8>, Option<Seq<u8>>)>>| input_of(table_iters@, ts),
    ensures
        forall|ts: Seq<Seq<(Seq<u8>, Option<Seq<u8>>)>>|
            #![trigger input_of(table_iters@, ts)]
            input_of(table_iters@, ts) ==> exists|out: Seq<(Seq<u8>, Option<Seq<u8>>)>|
                {
                    &&& crate::sstable::encode::is_sstable_of(r@, out)
                    &&& crate::sstable::encode::sstable_with_filter(
                        r@,
                        out,
                        crate::sstable::encode::filter_words(MERGE_FILTER_KEYS as nat),
                        crate::sstable::bloom_filter::hash_count(
                            64 * crate::sstable::encode::filter_words(MERGE_FILTER_KEYS as nat),
                            MERGE_FILTER_KEYS as nat,
                        ),
                    )
                    &&& records_sorted(out)
                    &&& all_fit(out)
                    &&& crate::sstable::compaction_writer::sstable_size(out) <= u64::MAX
                    &&& forall|k: Seq<u8>| #[trigger] lookup(out, k) == merged_answer(ts, k)
                },
{
    let ghost ts = choose|ts: Seq<Seq<(Seq<u8>, Option<Seq<u8>>)>>| input_of(table_iters@, ts);
    let ghost iters0 = table_iters@;
    let mut iters = table_iters;
    let mut writer = CompactionWriter::new();
    let mut heads: Vec<Option<DiskRecord>> = Vec::new();
    let ghost mut pos: Seq<int> = Seq::empty();
    let mut i: usize = 0;
    while i < num_tables
        invariant
            num_tables == iters@.len(),
            input_of(iters0, ts),
            i <= num_tables,
            heads@.len() == i,
            pos.len() == i,
            iters@.len() == iters0.len(),
            forall|t: int| i <= t < num_tables ==> #[trigger] iters@[t] == iters0[t],
            forall|t: int| 0 <= t < i ==> match #[trigger] heads@[t] {
                Some(r) => pos[t] < ts[t].len() && r@ == ts[t][pos[t]],
                None => pos[t] == ts[t].len(),
            },
            forall|t: int| 0 <= t < i ==> pos[t] == 0,
            forall|t: int| 0 <= t < num_tables ==> (#[trigger] iters@[t]).buffer@ == log_bytes(ts[t]),
            forall|t: int| 0 <= t < i ==> (#[trigger] iters@[t]).offset == log_pos(ts[t], after_head(ts[t], pos[t])),
        decreases num_tables - i,
    {
        proof {
            assert(ts[i as int].subrange(0, 0) =~= Seq::<(Seq<u8>, Option<Seq<u8>>)>::empty());
            assert(iters@[i as int] == iters0[i as int]);
        }
        let h = advance(&mut iters, i, Ghost(ts[i as int]), Ghost(0int));
        heads.push(h);
        proof {
            pos = pos.push(0int);
        }
        i = i + 1;
    }
    let ghost mut out: Seq<(Seq<u8>, Option<Seq<u8>>)> = Seq::empty();
    proof {
        lemma_key_order_facts();
        lemma_consumed_zero(ts, pos, ts.len() as int);
        assert(merge_inv(ts, pos, out)) by {
            assert forall|k: Seq<u8>| below_heads(ts, pos, k) implies lookup(out, k) == merged_answer(ts, k) by {
                assert forall|t: int| 0 <= t < ts.len() implies !has_key(#[trigger] ts[t], k) by {
                    if has_key(ts[t], k) {
                        let j = choose|j: int| 0 <= j < ts[t].len() && (#[trigger] ts[t][j]).0 == k;
                        assert(pos[t] == 0 && 0 < ts[t].len());
                        assert(key_lt(k, ts[t][0].0));
                        if j > 0 {
                            assert(key_lt(ts[t][0].0, ts[t][j].0));
                        }
                    }
                }
                lemma_first_from_none(ts, k, 0);
            }
        }
    }
    loop
        invariant
            num_tables == ts.len(),
            input_of(iters0, ts),
            merge_inv(ts, pos, out),
            heads_match(heads@, iters@, ts, pos),
            writer.wf(),
            writer.records@ == out,
            writer.bloom_filter.bits@.len() == crate::sstable::encode::filter_words(MERGE_FILTER_KEYS as nat),
            writer.bloom_filter.num_hashes == crate::sstable::bloom_filter::hash_count(
                64 * crate::sstable::encode::filter_words(MERGE_FILTER_KEYS as nat),
                MERGE_FILTER_KEYS as nat,
            ),
            log_bytes(out).len() <= consumed(ts, pos, ts.len() as int),
        ensures
            merge_inv(ts, pos, out),
            writer.wf(),
            writer.records@ == out,
            writer.bloom_filter.bits@.len() == crate::sstable::encode::filter_words(MERGE_FILTER_KEYS as nat),
            writer.bloom_filter.num_hashes == crate::sstable::bloom_filter::hash_count(
                64 * crate::sstable::encode::filter_words(MERGE_FILTER_KEYS as nat),
                MERGE_FILTER_KEYS as nat,
            ),
            log_bytes(out).len() <= consumed(ts, pos, ts.len() as int),
            forall|x: int| 0 <= x < ts.len() ==> #[trigger] pos[x] == ts[x].len(),
        decreases remaining(ts, pos, ts.len() as int),
    {
        proof {
            lemma_key_order_facts();
        }
        // The smallest key under the cursors, from the newest table on ties.
        let mut best: Option<usize> = None;
        let mut t: usize = 0;
        while t < num_tables
            invariant
                num_tables == ts.len(),
                heads@.len() == ts.len(),
                t <= num_tables,
                merge_inv(ts, pos, out),
                heads_match(heads@, iters@, ts, pos),
                forall|a: Seq<u8>, b: Seq<u8>, c: Seq<u8>| key_lt(a, b) && key_lt(b, c) ==> key_lt(a, c),
                forall|a: Seq<u8>, b: Seq<u8>| key_lt(a, b) ==> !key_lt(b, a),
                forall|a: Seq<u8>| !key_lt(a, a),
                match best {
                    Some(b) => {
                        &&& b < t
                        &&& pos[b as int] < ts[b as int].len()
                        &&& forall|u: int| 0 <= u < t && #[trigger] pos[u] < ts[u].len() ==> !key_lt(ts[u][pos[u]].0, ts[b as int][pos[b as int]].0)
                        &&& forall|u: int| 0 <= u < b && #[trigger] pos[u] < ts[u].len() ==> ts[u][pos[u]].0 != ts[b as int][pos[b as int]].0
                    },
                    None => forall|u: int| 0 <= u < t ==> #[trigger] pos[u] == ts[u].len(),
                },
            decreases num_tables - t,
        {
            proof {
                assert(heads_match(heads@, iters@, ts, pos));
            }
            match &heads[t] {
                Some(rec) => {
                    match best {
                        None => {
                            best = Some(t);
                        },
                        Some(b) => {
                            let bk = match &heads[b] {
                                Some(br) => br.key.as_slice(),
                                None => {
                                    proof {
                                        assert(false);
                                    }
                                    rec.key.as_slice()
                                },
                            };
                            if let KeyOrder::Less = compare_keys(rec.key.as_slice(), bk) {
                                best = Some(t);
                            }
                        },
                    }
                },
                None => {},
            }
            t = t + 1;
        }
        let s = match best {
            Some(s) => s,
            None => {
                break;
            },
        };
        // Every other cursor on the same key moves on.
        let ghost m = ts[s as int][pos[s as int]].0;
        let m_key = match &heads[s] {
            Some(r) => crate::util::copy_range(r.key.as_slice(), 0, r.key.len()),
            None => {
                proof {
                    assert(false);
                }
                Vec::new()
            },
        };
        let ghost pos0 = pos;
        let ghost pos2 = Seq::new(ts.len(), |u: int| if pos0[u] < ts[u].len() && ts[u][pos0[u]].0 == m {
            pos0[u] + 1
        } else {
            pos0[u]
        });
        let mut u: usize = 0;
        while u < num_tables
            invariant
                num_tables == ts.len(),
                u <= num_tables,
                s < num_tables,
                m_key@ == m,
                m == ts[s as int][pos0[s as int]].0,
                pos0[s as int] < ts[s as int].len(),
                merge_inv(ts, pos0, out),
                input_of(iters0, ts),
                heads@.len() == ts.len(),
                iters@.len() == ts.len(),
                pos2.len() == ts.len(),
                forall|x: int| 0 <= x < ts.len() ==> #[trigger] pos2[x] == if pos0[x] < ts[x].len() && ts[x][pos0[x]].0 == m {
                    pos0[x] + 1
                } else {
                    pos0[x]
                },
                (heads@[s as int] matches Some(r) && r@ == ts[s as int][pos0[s as int]]),
                iters@[s as int].offset == log_pos(ts[s as int], pos0[s as int] + 1),
                forall|x: int| 0 <= x < ts.len() ==> (#[trigger] iters@[x]).buffer@ == log_bytes(ts[x]),
                forall|x: int| 0 <= x < ts.len() && x != s ==> match #[trigger] heads@[x] {
                    Some(r) => cursor(pos0, pos2, x, u as int) < ts[x].len() && r@ == ts[x][cursor(pos0, pos2, x, u as int)],
                    None => cursor(pos0, pos2, x, u as int) == ts[x].len(),
                },
                forall|x: int| 0 <= x < ts.len() && x != s ==> (#[trigger] iters@[x]).offset == log_pos(
                    ts[x],
                    after_head(ts[x], cursor(pos0, pos2, x, u as int)),
                ),
            decreases num_tables - u,
        {
            if u != s {
                let same = match &heads[u] {
                    Some(r) => match compare_keys(r.key.as_slice(), m_key.as_slice()) {
                        KeyOrder::Equal => true,
                        _ => false,
                    },
                    None => false,
                };
                if same {
                    let ghost pu = pos0[u as int];
                    proof {
                        assert((heads@[u as int] matches Some(r) && r@ == ts[u as int][pu]));
                        assert(pu + 1 <= ts[u as int].len());
                        assert(all_fit(ts[u as int]));
                    }
                    let nx = advance(&mut iters, u, Ghost(ts[u as int]), Ghost(pu + 1));
                    heads.set(u, nx);
                }
            }
            u = u + 1;
        }
        // The smallest record itself.
        let rec = heads.remove(s);
        let ghost ps = pos0[s as int];
        proof {
            assert(all_fit(ts[s as int]));
            assert(ps + 1 <= ts[s as int].len());
        }
        let nx = advance(&mut iters, s, Ghost(ts[s as int]), Ghost(ps + 1));
        heads.insert(s, nx);
        let rec = match rec {
            Some(r) => r,
            None => {
                proof {
                    assert(false);
                }
                DiskRecord { key: Vec::new(), data: NodeData::Tombstone }
            },
        };
        let ghost out2 = if rec@.1 is Some { out.push(rec@) } else { out };
        proof {
            lemma_merge_step(ts, pos0, pos2, out, out2, s as int);
            lemma_consumed_step(ts, pos0, pos2, s as int, ts.len() as int);
            lemma_consumed_bound(ts, pos2, ts.len() as int);
            lemma_remaining_step(ts, pos0, pos2, s as int, ts.len() as int);
            lemma_remaining_nonneg(ts, pos2, ts.len() as int);
            crate::disk::lemma_log_bytes_push(out, rec@);
            assert(records_sorted(ts[s as int]));
            assert(all_fit(ts[s as int]));
            assert(record_fits(ts[s as int][ps].0, ts[s as int][ps].1));
        }
        match rec.data {
            NodeData::Data(_) => {
                proof {
                    assert(writer.disk_offset == 6 + log_bytes(out).len());
                    if out.len() > 0 {
                        assert(key_lt(out.last().0, m)) by {
                            assert(below_heads(ts, pos0, out[out.len() - 1].0));
                        }
                    }
                }
                writer.push(rec);
            },
            NodeData::Tombstone => {},
        }
        proof {
            pos = pos2;
            out = out2;
            assert(heads_match(heads@, iters@, ts, pos));
        }
    }
    proof {
        lemma_consumed_bound(ts, pos, ts.len() as int);
        lemma_index_bound(out, 6);
        assert(writer.disk_offset == 6 + log_bytes(out).len());
        assert(writer.bloom_filter.bits@.len() == writer.bloom_filter.bits.len());
    }
    let ghost bits = writer.bloom_filter.bits@;
    let ghost nh = writer.bloom_filter.num_hashes;
    let r = writer.finish();
    proof {
        assert forall|k: Seq<u8>| #[trigger] lookup(out, k) == merged_answer(ts, k) by {
            assert(below_heads(ts, pos, k));
        }
        assert(crate::sstable::encode::is_sstable_of(r@, out));
        assert(crate::sstable::compaction_writer::filter_exact(bits, out, nh));
        assert(crate::sstable::compaction_writer::sstable_size(out) <= u64::MAX);
        assert forall|ts2: Seq<Seq<(Seq<u8>, Option<Seq<u8>>)>>| #![trigger input_of(iters0, ts2)]
            input_of(iters0, ts2) implies exists|out2: Seq<(Seq<u8>, Option<Seq<u8>>)>|
                {
                    &&& crate::sstable::encode::is_sstable_of(r@, out2)
                    &&& crate::sstable::encode::sstable_with_filter(
                        r@,
                        out2,
                        crate::sstable::encode::filter_words(MERGE_FILTER_KEYS as nat),
                        crate::sstable::bloom_filter::hash_count(
                            64 * crate::sstable::encode::filter_words(MERGE_FILTER_KEYS as nat),
                            MERGE_FILTER_KEYS as nat,
                        ),
                    )
                    &&& records_sorted(out2)
                    &&& all_fit(out2)
                    &&& crate::sstable::compaction_writer::sstable_size(out2) <= u64::MAX
                    &&& forall|k: Seq<u8>| #[trigger] lookup(out2, k) == merged_answer(ts2, k)
                } by {
            assert forall|x: int| 0 <= x < ts.len() implies ts2[x] == ts[x] by {
                assert(iters0[x].buffer@ == log_bytes(ts2[x]));
                assert(iters0[x].buffer@ == log_bytes(ts[x]));
                assert(all_fit(ts2[x]) && all_fit(ts[x]));
                crate::sstable::table::lemma_log_bytes_injective(ts2[x], ts[x]);
            }
            assert(ts2 =~= ts);
        }
    }
    r
}


/// A table that compaction wrote can be read back: its bytes are a valid
/// table of its records, and a read of any key in it finds the newest
/// input table's answer.
pub proof fn law_compacted_table_reads_back(
    image: Seq<u8>,
    ts: Seq<Seq<(Seq<u8>, Option<Seq<u8>>)>>,
    out: Seq<(Seq<u8>, Option<Seq<u8>>)>,
    k: Seq<u8>,
)
    requires
        crate::sstable::encode::is_sstable_of(image, out),
        records_sorted(out),
        all_fit(out),
        crate::sstable::compaction_writer::sstable_size(out) <= u64::MAX,
        forall|k2: Seq<u8>| #[trigger] lookup(out, k2) == merged_answer(ts, k2),
        image.len() <= usize::MAX,
    ensures
        crate::sstable::table::valid_table(image, out),
        lookup(out, k) == merged_answer(ts, k),
{
}

} // verus!
