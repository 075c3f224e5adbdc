//! The read path asks the layers newest first: the cache, the active
//! memtable, the rotated-out memtables, then the SSTables newest first. The
//! first layer that knows the key decides; a tombstone there means the key
//! is deleted and the search stops.

use vstd::prelude::*;
use crate::error::SSTableError;
use crate::disk::lookup;
use crate::memtable::immutable::queue_answer;
use crate::memtable::inner::MemtableQuery;
use crate::memtable::order::map_answer;
use crate::sstable::cache::cache_lookup;

verus! {

/// What one layer says about a key.
#[derive(Debug, PartialEq, Eq)]
pub enum LayerRead {
    /// The layer holds the value: the search stops with it.
    Found(Vec<u8>),
    /// The layer holds a tombstone: the search stops with nothing.
    Deleted,
    /// The layer does not know the key: the search goes on.
    Absent,
}

/// What a memtable's answer means for the read path.
pub fn memtable_layer(q: MemtableQuery) -> (r: LayerRead)
    ensures
        match q {
            MemtableQuery::Data(d) => r matches LayerRead::Found(v) && v@ == d@,
            MemtableQuery::Tombstone => r is Deleted,
            MemtableQuery::NotFound => r is Absent,
        },
{
    match q {
        MemtableQuery::Data(d) => LayerRead::Found(d),
        MemtableQuery::Tombstone => LayerRead::Deleted,
        MemtableQuery::NotFound => LayerRead::Absent,
    }
}

/// What an SSTable's answer means for the read path: its data, its
/// tombstone, or, on any other error, nothing from this table.
pub fn sstable_layer(r: Result<Vec<u8>, SSTableError>) -> (out: LayerRead)
    ensures
        match r {
            Ok(d) => out matches LayerRead::Found(v) && v@ == d@,
            Err(SSTableError::Tombstone) => out is Deleted,
            Err(_) => out is Absent,
        },
{
    match r {
        Ok(d) => LayerRead::Found(d),
        Err(SSTableError::Tombstone) => LayerRead::Deleted,
        Err(_) => LayerRead::Absent,
    }
}

/// The answer of the first layer, in the order given, that knows the key.
pub open spec fn first_known(layers: Seq<LayerRead>) -> Option<Seq<u8>>
    decreases layers.len(),
{
    if layers.len() == 0 {
        None
    } else {
        match layers[0] {
            LayerRead::Found(v) => Some(v@),
            LayerRead::Deleted => None,
            LayerRead::Absent => first_known(layers.drop_first()),
        }
    }
}

/// Walks the layers newest first and returns the value of the first one
/// that knows the key; a tombstone there, or no layer at all, gives nothing.
pub fn resolve_read(layers: Vec<LayerRead>) -> (r: Option<Vec<u8>>)
    ensures
        match r {
            Some(v) => first_known(layers@) == Some(v@),
            None => first_known(layers@) is None,
        },
{
    let ghost all = layers@;
    let mut i: usize = 0;
    let n = layers.len();
    proof {
        assert(all.subrange(0, n as int) =~= all);
    }
    while i < n
        invariant
            n == layers.len(),
            i <= n,
            layers@ == all,
            first_known(all) == first_known(all.subrange(i as int, n as int)),
        decreases n - i,
    {
        proof {
            assert(all.subrange(i as int, n as int).drop_first() =~= all.subrange(i + 1, n as int));
        }
        match &layers[i] {
            LayerRead::Found(v) => {
                return Some(v.clone());
            },
            LayerRead::Deleted => {
                return None;
            },
            LayerRead::Absent => {},
        }
        i = i + 1;
    }
    proof {
        assert(all.subrange(n as int, n as int).len() == 0);
    }
    None
}

/// What a read of `k` gives, asked of the active memtable's contents, then
/// of the rotated-out tables' (oldest first in `queue`, asked newest
/// first), then of the SSTables' records (newest first in `runs`): the
/// first that knows the key decides, a tombstone giving nothing.
pub open spec fn read_path(
    active: Map<Seq<u8>, Option<Seq<u8>>>,
    queue: Seq<Map<Seq<u8>, Option<Seq<u8>>>>,
    runs: Seq<Seq<(Seq<u8>, Option<Seq<u8>>)>>,
    k: Seq<u8>,
) -> Option<Seq<u8>> {
    if active.contains_key(k) {
        active[k]
    } else {
        match queue_answer(queue, k) {
            Some(a) => a,
            None => match cache_lookup(runs, k) {
                Ok(d) => Some(d),
                Err(_) => None,
            },
        }
    }
}

/// Rotating the active memtable out, as the newest of the queue, behind a
/// fresh empty one, changes no read.
pub proof fn law_rotation_keeps_reads(
    active: Map<Seq<u8>, Option<Seq<u8>>>,
    queue: Seq<Map<Seq<u8>, Option<Seq<u8>>>>,
    runs: Seq<Seq<(Seq<u8>, Option<Seq<u8>>)>>,
    k: Seq<u8>,
)
    ensures
        read_path(Map::empty(), queue.push(active), runs, k) == read_path(active, queue, runs, k),
{
    assert(queue.push(active).last() == active);
    assert(queue.push(active).drop_last() =~= queue);
}

/// The queue's answer, from the table after its oldest one and the oldest
/// itself.
proof fn lemma_queue_drop_first(queue: Seq<Map<Seq<u8>, Option<Seq<u8>>>>, k: Seq<u8>)
    requires
        queue.len() > 0,
    ensures
        queue_answer(queue, k) == match queue_answer(queue.drop_first(), k) {
            Some(a) => Some(a),
            None => if queue[0].contains_key(k) {
                Some(queue[0][k])
            } else {
                None
            },
        },
    decreases queue.len(),
{
    if queue.len() == 1 {
        assert(queue.drop_first() =~= Seq::<Map<Seq<u8>, Option<Seq<u8>>>>::empty());
        assert(queue.drop_last() =~= Seq::<Map<Seq<u8>, Option<Seq<u8>>>>::empty());
    } else {
        lemma_queue_drop_first(queue.drop_last(), k);
        assert(queue.drop_last().drop_first() =~= queue.drop_first().drop_last());
        assert(queue.drop_first().last() == queue.last());
        assert(queue.drop_last()[0] == queue[0]);
    }
}

/// Writing the oldest rotated-out table to an SSTable whose records give,
/// for every key, what that table holds, and putting it in front of the
/// SSTables as it leaves the queue, changes no read.
pub proof fn law_flush_keeps_reads(
    active: Map<Seq<u8>, Option<Seq<u8>>>,
    queue: Seq<Map<Seq<u8>, Option<Seq<u8>>>>,
    runs: Seq<Seq<(Seq<u8>, Option<Seq<u8>>)>>,
    rs: Seq<(Seq<u8>, Option<Seq<u8>>)>,
    k: Seq<u8>,
)
    requires
        queue.len() > 0,
        lookup(rs, k) == map_answer(queue[0], k),
    ensures
        read_path(active, queue.drop_first(), seq![rs] + runs, k) == read_path(active, queue, runs, k),
{
    lemma_queue_drop_first(queue, k);
    assert((seq![rs] + runs)[0] == rs);
    assert((seq![rs] + runs).drop_first() =~= runs);
}


/// The first layer that knows the key decides the read: behind layers that
/// do not know it, a tombstone gives nothing, whatever older layers hold,
/// and a value gives that value.
pub proof fn law_first_known_layer_decides(layers: Seq<LayerRead>, j: int)
    requires
        0 <= j < layers.len(),
        forall|i: int| 0 <= i < j ==> (#[trigger] layers[i]) is Absent,
    ensures
        layers[j] is Deleted ==> first_known(layers) is None,
        layers[j] matches LayerRead::Found(v) ==> first_known(layers) == Some(v@),
    decreases j,
{
    if j > 0 {
        let rest = layers.drop_first();
        assert forall|i: int| 0 <= i < j - 1 implies (#[trigger] rest[i]) is Absent by {
            assert(rest[i] == layers[i + 1]);
        }
        law_first_known_layer_decides(rest, j - 1);
        assert(layers[0] is Absent);
    }
}

/// A tombstone in the newest layer that knows the key hides the key: in
/// the active memtable, or, when the active memtable does not know it, as
/// the queue's answer.
pub proof fn law_tombstone_hides_older(
    active: Map<Seq<u8>, Option<Seq<u8>>>,
    queue: Seq<Map<Seq<u8>, Option<Seq<u8>>>>,
    runs: Seq<Seq<(Seq<u8>, Option<Seq<u8>>)>>,
    k: Seq<u8>,
)
    ensures
        active.contains_key(k) && active[k] is None ==> read_path(active, queue, runs, k) is None,
        !active.contains_key(k) && queue_answer(queue, k) == Some(None::<Seq<u8>>) ==> read_path(
            active,
            queue,
            runs,
            k,
        ) is None,
{
}

/// A read after a write of `k` gives what the write put there: the value,
/// or nothing after a delete.
pub proof fn law_read_your_write(
    active: Map<Seq<u8>, Option<Seq<u8>>>,
    queue: Seq<Map<Seq<u8>, Option<Seq<u8>>>>,
    runs: Seq<Seq<(Seq<u8>, Option<Seq<u8>>)>>,
    k: Seq<u8>,
    v: Option<Seq<u8>>,
)
    ensures
        read_path(active.insert(k, v), queue, runs, k) == v,
{
}

} // verus!
