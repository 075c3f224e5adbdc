//! The SSTables on the read path, newest first, with their bytes; and the
//! compaction that merges them into one table.

use vstd::prelude::*;
use crate::compaction::{first_from, input_of, merged_answer, run_compaction, total_bytes};
use crate::constants;
use crate::disk::{all_fit, log_bytes, lookup};
use crate::error::SSTableError;
use crate::memtable::order::{has_key, lemma_lookup_absent};
use crate::sstable::compaction_writer::{records_sorted, sstable_size};
use crate::sstable::encode::{is_sstable_of, size_limit};
use crate::sstable::iterator::SSTableIterator;
use crate::sstable::table::{lemma_layout, table_index_of, valid_table, SSTable};
use crate::util::copy_range;

verus! {

/// What the tables answer for `k`, the newest first: the first table that
/// holds the key decides, with its data, or with nothing for a tombstone.
pub open spec fn cache_lookup(runs: Seq<Seq<(Seq<u8>, Option<Seq<u8>>)>>, k: Seq<u8>) -> Result<Seq<u8>, SSTableError>
    decreases runs.len(),
{
    if runs.len() == 0 {
        Err(SSTableError::DiskRecordNotFound)
    } else {
        match lookup(runs[0], k) {
            Ok(d) => Ok(d),
            Err(SSTableError::Tombstone) => Err(SSTableError::DiskRecordNotFound),
            Err(_) => cache_lookup(runs.drop_first(), k),
        }
    }
}

/// The first table at or after `t + 1` that holds `k`, counted in the
/// tables after the first.
proof fn lemma_first_from_shift(ts: Seq<Seq<(Seq<u8>, Option<Seq<u8>>)>>, k: Seq<u8>, t: int)
    requires
        ts.len() > 0,
        0 <= t,
    ensures
        first_from(ts, k, t + 1) == match first_from(ts.drop_first(), k, t) {
            Some(u) => Some(u + 1),
            None => None::<int>,
        },
    decreases ts.len() - t,
{
    if t + 1 < ts.len() {
        assert(ts.drop_first()[t] == ts[t + 1]);
        if !has_key(ts[t + 1], k) {
            lemma_first_from_shift(ts, k, t + 1);
        }
    }
}

/// A lookup finds data, a tombstone, or nothing.
proof fn lemma_lookup_kinds(rs: Seq<(Seq<u8>, Option<Seq<u8>>)>, k: Seq<u8>)
    ensures
        lookup(rs, k) is Ok || lookup(rs, k) == Err::<Seq<u8>, SSTableError>(SSTableError::Tombstone)
            || lookup(rs, k) == Err::<Seq<u8>, SSTableError>(SSTableError::DiskRecordNotFound),
    decreases rs.len(),
{
    if rs.len() > 0 && rs[0].0 != k {
        lemma_lookup_kinds(rs.drop_first(), k);
    }
}

/// A table found for `k` from `t` on holds the key.
proof fn lemma_first_from_range(ts: Seq<Seq<(Seq<u8>, Option<Seq<u8>>)>>, k: Seq<u8>, t: int)
    requires
        0 <= t,
    ensures
        first_from(ts, k, t) matches Some(u) ==> t <= u < ts.len() && has_key(ts[u], k),
    decreases ts.len() - t,
{
    if t < ts.len() && !has_key(ts[t], k) {
        lemma_first_from_range(ts, k, t + 1);
    }
}

/// Reading the tables newest first, a tombstone stopping the search, gives
/// for every key what their merge keeps: the newest table's data, or
/// nothing.
pub proof fn law_cache_matches_merge(ts: Seq<Seq<(Seq<u8>, Option<Seq<u8>>)>>, k: Seq<u8>)
    ensures
        cache_lookup(ts, k) == merged_answer(ts, k),
    decreases ts.len(),
{
    if ts.len() > 0 {
        lemma_lookup_absent(ts[0], k);
        lemma_lookup_kinds(ts[0], k);
        if has_key(ts[0], k) {
            assert(first_from(ts, k, 0) == Some(0int));
        } else {
            assert(lookup(ts[0], k) == Err::<Seq<u8>, SSTableError>(SSTableError::DiskRecordNotFound));
            assert(cache_lookup(ts, k) == cache_lookup(ts.drop_first(), k));
            law_cache_matches_merge(ts.drop_first(), k);
            lemma_first_from_shift(ts, k, 0);
            lemma_first_from_range(ts.drop_first(), k, 0);
            assert(first_from(ts, k, 0) == first_from(ts, k, 1));
            match first_from(ts.drop_first(), k, 0) {
                Some(u) => {
                    assert(ts.drop_first()[u] == ts[u + 1]);
                },
                None => {},
            }
        }
    }
}

/// The tables, newest first, with the bytes each was read from.
pub struct SSTableCache {
    pub tables: Vec<SSTable>,
    pub images: Vec<Vec<u8>>,
    /// The records of each table.
    pub runs: Ghost<Seq<Seq<(Seq<u8>, Option<Seq<u8>>)>>>,
}

/// Where the records of the table at `i` lie in its bytes.
proof fn lemma_entry(c: &SSTableCache, i: int)
    requires
        c.wf(),
        0 <= i < c.runs@.len(),
    ensures
        c.tables@[i].index.data_block_end == 6 + log_bytes(c.runs@[i]).len(),
        6 + log_bytes(c.runs@[i]).len() <= c.images@[i]@.len(),
        c.images@[i]@.subrange(6, 6 + log_bytes(c.runs@[i]).len() as int) == log_bytes(c.runs@[i]),
        records_sorted(c.runs@[i]),
        all_fit(c.runs@[i]),
{
    assert(valid_table(c.images@[i]@, c.runs@[i]));
    lemma_layout(c.images@[i]@, c.runs@[i]);
}

impl SSTableCache {
    /// Each table was read from its bytes, which hold its records.
    pub open spec fn wf(&self) -> bool {
        &&& self.tables@.len() == self.runs@.len()
        &&& self.images@.len() == self.runs@.len()
        &&& forall|i: int|
            0 <= i < self.runs@.len() ==> {
                &&& valid_table(#[trigger] self.images@[i]@, self.runs@[i])
                &&& self.tables@[i].index.wf()
                &&& table_index_of(&self.tables@[i].index, self.images@[i]@, self.runs@[i])
            }
    }

    /// No table.
    pub fn new() -> (r: SSTableCache)
        ensures
            r.wf(),
            r.runs@.len() == 0,
    {
        SSTableCache { tables: Vec::new(), images: Vec::new(), runs: Ghost(Seq::empty()) }
    }

    /// Reads the table whose bytes are `image` and puts it first, as the
    /// newest; returns the number of tables.
    pub fn push(&mut self, image: Vec<u8>) -> (r: usize)
        requires
            old(self).wf(),
            exists|rs: Seq<(Seq<u8>, Option<Seq<u8>>)>| valid_table(image@, rs),
        ensures
            final(self).wf(),
            r == final(self).runs@.len(),
            final(self).runs@.len() == old(self).runs@.len() + 1,
            final(self).runs@.drop_first() == old(self).runs@,
            valid_table(image@, final(self).runs@[0]),
            final(self).images@[0]@ == image@,
    {
        let ghost rs = choose|rs: Seq<(Seq<u8>, Option<Seq<u8>>)>| valid_table(image@, rs);
        let table = match SSTable::from_image(image.as_slice()) {
            Ok(t) => t,
            Err(_) => {
                proof {
                    assert(false);
                }
                return self.tables.len();
            },
        };
        let ghost old_runs = self.runs@;
        let ghost old_images = self.images@;
        let ghost old_tables = self.tables@;
        self.tables.insert(0, table);
        self.images.insert(0, image);
        proof {
            self.runs@ = seq![rs] + old_runs;
            assert(self.runs@.drop_first() =~= old_runs);
            assert forall|i: int| 0 <= i < self.runs@.len() implies {
                &&& valid_table(#[trigger] self.images@[i]@, self.runs@[i])
                &&& self.tables@[i].index.wf()
                &&& table_index_of(&self.tables@[i].index, self.images@[i]@, self.runs@[i])
            } by {
                if i > 0 {
                    assert(self.images@[i] == old_images[i - 1]);
                    assert(self.tables@[i] == old_tables[i - 1]);
                    assert(self.runs@[i] == old_runs[i - 1]);
                }
            }
        }
        self.tables.len()
    }

    /// Replaces every table by the one whose bytes are `image`.
    pub fn replace_with_compact_table(&mut self, image: Vec<u8>)
        requires
            exists|rs: Seq<(Seq<u8>, Option<Seq<u8>>)>| valid_table(image@, rs),
        ensures
            final(self).wf(),
            final(self).runs@.len() == 1,
            valid_table(image@, final(self).runs@[0]),
            final(self).images@[0]@ == image@,
    {
        let ghost rs = choose|rs: Seq<(Seq<u8>, Option<Seq<u8>>)>| valid_table(image@, rs);
        self.install(image, Ghost(rs));
    }

    /// Makes the table of `rs`, whose bytes are `image`, the only one.
    fn install(&mut self, image: Vec<u8>, Ghost(rs): Ghost<Seq<(Seq<u8>, Option<Seq<u8>>)>>)
        requires
            valid_table(image@, rs),
        ensures
            final(self).wf(),
            final(self).runs@ == seq![rs],
            final(self).images@[0]@ == image@,
    {
        let table = match SSTable::from_image(image.as_slice()) {
            Ok(t) => t,
            Err(_) => {
                proof {
                    assert(false);
                }
                return;
            },
        };
        let mut tables: Vec<SSTable> = Vec::new();
        tables.push(table);
        let mut images: Vec<Vec<u8>> = Vec::new();
        images.push(image);
        self.tables = tables;
        self.images = images;
        proof {
            self.runs@ = seq![rs];
        }
    }

    /// Looks `key` up in the tables, the newest first: the first table that
    /// holds the key decides; its tombstone gives `DiskRecordNotFound`.
    pub fn search(&self, key: &[u8]) -> (r: Result<Vec<u8>, SSTableError>)
        requires
            self.wf(),
        ensures
            match r {
                Ok(d) => cache_lookup(self.runs@, key@) == Ok::<Seq<u8>, SSTableError>(d@),
                Err(e) => cache_lookup(self.runs@, key@) == Err::<Seq<u8>, SSTableError>(e),
            },
    {
        let n = self.tables.len();
        let mut i: usize = 0;
        proof {
            assert(self.runs@.subrange(0, n as int) =~= self.runs@);
        }
        while i < n
            invariant
                self.wf(),
                n == self.runs@.len(),
                i <= n,
                cache_lookup(self.runs@, key@) == cache_lookup(self.runs@.subrange(i as int, n as int), key@),
            decreases n - i,
        {
            let ghost rest = self.runs@.subrange(i as int, n as int);
            proof {
                assert(rest[0] == self.runs@[i as int]);
                assert(rest.drop_first() =~= self.runs@.subrange(i + 1, n as int));
                assert(valid_table(self.images@[i as int]@, self.runs@[i as int]));
            }
            let r = self.tables[i].search(self.images[i].as_slice(), key);
            match r {
                Ok(d) => {
                    return Ok(d);
                },
                Err(SSTableError::Tombstone) => {
                    return Err(SSTableError::DiskRecordNotFound);
                },
                Err(_) => {},
            }
            i = i + 1;
        }
        Err(SSTableError::DiskRecordNotFound)
    }

    /// Iterators over the records of each table, the newest first.
    pub fn compaction_iterators(&self) -> (r: Vec<SSTableIterator>)
        requires
            self.wf(),
        ensures
            r@.len() == self.runs@.len(),
            forall|t: int| 0 <= t < r@.len() ==> (#[trigger] r@[t]).buffer@ == log_bytes(self.runs@[t]),
            forall|t: int| 0 <= t < r@.len() ==> (#[trigger] r@[t]).offset == 0,
    {
        let mut iters: Vec<SSTableIterator> = Vec::new();
        let n = self.tables.len();
        let mut i: usize = 0;
        while i < n
            invariant
                self.wf(),
                n == self.runs@.len(),
                i <= n,
                iters@.len() == i,
                forall|t: int| 0 <= t < i ==> (#[trigger] iters@[t]).buffer@ == log_bytes(self.runs@[t]),
                forall|t: int| 0 <= t < i ==> (#[trigger] iters@[t]).offset == 0,
            decreases n - i,
        {
            proof {
                lemma_entry(self, i as int);
            }
            let end = self.tables[i].index.data_block_end as usize;
            let blocks = copy_range(self.images[i].as_slice(), constants::HEADER_SIZE as usize, end);
            iters.push(SSTableIterator::new(blocks));
            i = i + 1;
        }
        iters
    }

    /// The bytes of the records of all tables, if 10 times that, and the
    /// header, fit the machine.
    fn merge_size(&self) -> (r: Option<usize>)
        requires
            self.wf(),
        ensures
            match r {
                Some(n) => n == total_bytes(self.runs@, self.runs@.len() as int),
                None => 6 + 10 * total_bytes(self.runs@, self.runs@.len() as int) > size_limit(),
            },
    {
        let n = self.tables.len();
        let mut total: usize = 0;
        let mut i: usize = 0;
        while i < n
            invariant
                self.wf(),
                n == self.runs@.len(),
                i <= n,
                total == total_bytes(self.runs@, i as int),
            decreases n - i,
        {
            proof {
                lemma_entry(self, i as int);
                lemma_total_bytes_grows(self.runs@, i as int + 1, n as int);
            }
            let len = self.tables[i].index.data_block_end - constants::HEADER_SIZE;
            total = match total.checked_add(len as usize) {
                Some(t) => t,
                None => {
                    return None;
                },
            };
            i = i + 1;
        }
        Some(total)
    }

    /// Merges every table into one: for each key the newest table's record,
    /// without tombstones. Returns the new table's bytes, which replace the
    /// tables; every key reads as before. When the merged table could not
    /// be addressed (ten times the records' bytes past the machine's
    /// limit), nothing changes and `None` comes back.
    pub fn compact(&mut self) -> (r: Option<Vec<u8>>)
        requires
            old(self).wf(),
        ensures
            final(self).wf(),
            r is None <==> 6 + 10 * total_bytes(old(self).runs@, old(self).runs@.len() as int) > size_limit(),
            r is None ==> final(self).runs@ == old(self).runs@,
            r matches Some(image) ==> {
                &&& final(self).runs@.len() == 1
                &&& final(self).images@[0]@ == image@
                &&& forall|k: Seq<u8>| #[trigger] cache_lookup(final(self).runs@, k) == cache_lookup(
                    old(self).runs@,
                    k,
                )
            },
    {
        let total = match self.merge_size() {
            Some(t) => t,
            None => {
                return None;
            },
        };
        let limit_ok = match total.checked_mul(10) {
            Some(t10) => t10.checked_add(6).is_some(),
            None => false,
        };
        if !limit_ok {
            return None;
        }
        let ghost ts = self.runs@;
        let iters = self.compaction_iterators();
        proof {
            assert(input_of(iters@, ts)) by {
                assert forall|t: int| 0 <= t < ts.len() implies records_sorted(#[trigger] ts[t]) && all_fit(ts[t]) by {
                    lemma_entry(self, t);
                }
            }
        }
        let n = iters.len();
        let image = run_compaction(iters, n);
        let ilen = image.len();
        let ghost out = choose|out: Seq<(Seq<u8>, Option<Seq<u8>>)>|
            {
                &&& is_sstable_of(image@, out)
                &&& records_sorted(out)
                &&& all_fit(out)
                &&& sstable_size(out) <= u64::MAX
                &&& forall|k: Seq<u8>| #[trigger] lookup(out, k) == merged_answer(ts, k)
            };
        proof {
            assert(valid_table(image@, out));
        }
        let copy = copy_range(image.as_slice(), 0, ilen);
        proof {
            assert(copy@ =~= image@);
        }
        self.install(copy, Ghost(out));
        proof {
            assert forall|k: Seq<u8>| #[trigger] cache_lookup(self.runs@, k) == cache_lookup(ts, k) by {
                law_cache_matches_merge(ts, k);
                assert(lookup(out, k) == merged_answer(ts, k));
                assert(self.runs@[0] == out);
                assert(self.runs@.drop_first() =~= Seq::<Seq<(Seq<u8>, Option<Seq<u8>>)>>::empty());
                assert(cache_lookup(self.runs@.drop_first(), k) == Err::<Seq<u8>, SSTableError>(
                    SSTableError::DiskRecordNotFound,
                ));
            }
        }
        Some(image)
    }
}

/// The bytes of the records of the first tables grow with their number.
proof fn lemma_total_bytes_grows(ts: Seq<Seq<(Seq<u8>, Option<Seq<u8>>)>>, i: int, n: int)
    requires
        0 <= i <= n,
    ensures
        total_bytes(ts, i) <= total_bytes(ts, n),
    decreases n - i,
{
    if i < n {
        lemma_total_bytes_grows(ts, i + 1, n);
    }
}

} // verus!
