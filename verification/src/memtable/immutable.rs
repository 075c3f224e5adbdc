//! The memtables that were rotated out and wait to be written to disk,
//! oldest first. A lookup asks the newest table first.

use vstd::prelude::*;
use super::inner::{MemtableInner, MemtableQuery};

verus! {

/// What the queue answers for `k`: the newest table that holds the key
/// decides, with its data or its tombstone.
pub open spec fn queue_answer(views: Seq<Map<Seq<u8>, Option<Seq<u8>>>>, k: Seq<u8>) -> Option<Option<Seq<u8>>>
    decreases views.len(),
{
    if views.len() == 0 {
        None
    } else if views.last().contains_key(k) {
        Some(views.last()[k])
    } else {
        queue_answer(views.drop_last(), k)
    }
}

/// The rotated-out tables, oldest first.
pub struct ImmutableMemtable {
    pub tables: Vec<MemtableInner>,
}

impl ImmutableMemtable {
    /// Every table is well formed.
    pub open spec fn wf(&self) -> bool {
        forall|i: int| 0 <= i < self.tables@.len() ==> (#[trigger] self.tables@[i]).wf()
    }

    /// The tables' contents, oldest first.
    pub open spec fn views(&self) -> Seq<Map<Seq<u8>, Option<Seq<u8>>>> {
        self.tables@.map_values(|t: MemtableInner| t@)
    }

    /// An empty queue.
    pub fn new() -> (r: ImmutableMemtable)
        ensures
            r.wf(),
            r.tables@.len() == 0,
    {
        ImmutableMemtable { tables: Vec::new() }
    }

    /// Adds a table as the newest.
    pub fn insert(&mut self, table: MemtableInner)
        requires
            old(self).wf(),
            table.wf(),
        ensures
            final(self).wf(),
            final(self).views() == old(self).views().push(table@),
    {
        let ghost v = table@;
        self.tables.push(table);
        proof {
            assert(self.views() =~= old(self).views().push(v));
        }
    }

    /// Drops the oldest table, once it is on disk; an empty queue stays
    /// empty.
    pub fn pop(&mut self)
        requires
            old(self).wf(),
        ensures
            final(self).wf(),
            old(self).tables@.len() == 0 ==> final(self).tables@.len() == 0,
            old(self).tables@.len() > 0 ==> final(self).views() == old(self).views().drop_first(),
    {
        if self.tables.len() > 0 {
            self.tables.remove(0);
            proof {
                assert(self.views() =~= old(self).views().drop_first());
            }
        }
    }

    /// Looks `key` up in the newest table that holds it.
    pub fn get(&self, key: &[u8]) -> (r: MemtableQuery)
        requires
            self.wf(),
        ensures
            match queue_answer(self.views(), key@) {
                Some(Some(d)) => r matches MemtableQuery::Data(v) && v@ == d,
                Some(None) => r is Tombstone,
                None => r is NotFound,
            },
    {
        let mut i: usize = self.tables.len();
        proof {
            assert(self.views().subrange(0, i as int) =~= self.views());
        }
        while i > 0
            invariant
                i <= self.tables@.len(),
                self.wf(),
                queue_answer(self.views(), key@) == queue_answer(self.views().subrange(0, i as int), key@),
            decreases i,
        {
            let ghost vs = self.views().subrange(0, i as int);
            proof {
                assert(self.views() =~= self.tables@.map_values(|t: MemtableInner| t@));
                assert(vs.last() == self.tables@[i - 1]@);
                assert(vs.drop_last() =~= self.views().subrange(0, i - 1));
            }
            let result = self.tables[i - 1].get(key);
            match result {
                MemtableQuery::Data(_) => {
                    return result;
                },
                MemtableQuery::Tombstone => {
                    return MemtableQuery::Tombstone;
                },
                MemtableQuery::NotFound => {},
            }
            i = i - 1;
        }
        proof {
            assert(self.views().subrange(0, 0) =~= Seq::<Map<Seq<u8>, Option<Seq<u8>>>>::empty());
        }
        MemtableQuery::NotFound
    }
}


/// The newest table that holds a key decides what the queue answers for
/// it, a tombstone there hiding every older table; no table holding it
/// gives no answer.
pub proof fn law_newest_table_wins(views: Seq<Map<Seq<u8>, Option<Seq<u8>>>>, k: Seq<u8>, j: int)
    ensures
        0 <= j < views.len() && views[j].contains_key(k) && (forall|i: int|
            j < i < views.len() ==> !(#[trigger] views[i]).contains_key(k)) ==> queue_answer(views, k)
            == Some(views[j][k]),
        (forall|i: int| 0 <= i < views.len() ==> !(#[trigger] views[i]).contains_key(k)) ==> queue_answer(
            views,
            k,
        ) is None,
    decreases views.len(),
{
    if views.len() > 0 {
        let init = views.drop_last();
        law_newest_table_wins(init, k, j);
        assert(views.last() == views[views.len() - 1]);
        assert forall|i: int| 0 <= i < init.len() implies init[i] == views[i] by {}
    }
}

} // verus!
