//! The layout of a whole SSTable:
//!
//! `[header][data blocks][index block][bloom filter][footer]`
//!
//! The header is the magic bytes and the version; the data blocks are the
//! records in key order; the index block has an entry for the first record
//! and for every record that reaches across a multiple of the block size;
//! the footer says where the index block and the bloom filter start.

use vstd::prelude::*;
use crate::constants;
use crate::disk::{all_fit, log_bytes, record_bytes, record_fits, DiskRecord, lemma_log_bytes_push};
use crate::keys::key_lt;
use crate::memtable::inner::{MemtableInner, MemtableNode, NodeData};
use crate::memtable::tree::{contents, height, lemma_at_push, lemma_node_links, lemma_path_height, Tree};
use crate::sstable::bloom_filter::BloomFilter;
use crate::sstable::compaction_writer::CompactionWriter;
use crate::sstable::footer::footer_bytes;
use crate::ssindex::{index_bytes, index_entry_bytes};
use crate::util::{append_slice, append_varint, copy_range, u64_be_bytes, u64_to_be_bytes, varint_bytes, varint_size_from_len};
use crate::wal::record_size;
use crate::memtable::order::{inorder, lemma_inorder};
use crate::sstable::compaction_writer::{filter_exact, records_sorted, sstable_bytes, sstable_size};
use crate::sstable::bloom_filter::{all_bits_set, hash_count};
use crate::disk::lemma_log_bytes_append;

verus! {

/// The six header bytes: "NLDB" and version 0, big-endian.
pub open spec fn header_bytes() -> Seq<u8> {
    seq![78u8, 76u8, 68u8, 66u8, 0u8, 0u8]
}

/// Whether a record at file offset `off` that takes `n` bytes opens an
/// index entry: the first record does, and so does every record that
/// reaches across a multiple of the block size.
pub open spec fn starts_block(off: nat, n: nat) -> bool {
    off == constants::HEADER_SIZE || off % (constants::DISK_BLOCK_SIZE as nat) > (off + n) % (
    constants::DISK_BLOCK_SIZE as nat)
}

/// The index entries of records laid out from file offset `off` on.
pub open spec fn block_index(rs: Seq<(Seq<u8>, Option<Seq<u8>>)>, off: nat) -> Seq<(Seq<u8>, u64)>
    decreases rs.len(),
{
    if rs.len() == 0 {
        Seq::<(Seq<u8>, u64)>::empty()
    } else {
        let n = record_bytes(rs[0].0, rs[0].1).len();
        let rest = block_index(rs.drop_first(), off + n);
        if starts_block(off, n) {
            seq![(rs[0].0, off as u64)] + rest
        } else {
            rest
        }
    }
}

/// One more record adds at most one index entry, at the end.
pub proof fn lemma_block_index_push(
    rs: Seq<(Seq<u8>, Option<Seq<u8>>)>,
    r: (Seq<u8>, Option<Seq<u8>>),
    off: nat,
)
    ensures
        block_index(rs.push(r), off) == block_index(rs, off) + if starts_block(
            off + log_bytes(rs).len(),
            record_bytes(r.0, r.1).len(),
        ) {
            seq![(r.0, (off + log_bytes(rs).len()) as u64)]
        } else {
            Seq::<(Seq<u8>, u64)>::empty()
        },
    decreases rs.len(),
{
    if rs.len() == 0 {
        assert(rs.push(r).drop_first() =~= Seq::<(Seq<u8>, Option<Seq<u8>>)>::empty());
        assert(rs.push(r)[0] == r);
        assert(log_bytes(rs) == Seq::<u8>::empty());
        let e = Seq::<(Seq<u8>, u64)>::empty();
        assert(block_index(rs.push(r).drop_first(), off + record_bytes(r.0, r.1).len()) == e);
        assert(block_index(rs, off) == e);
        if starts_block(off, record_bytes(r.0, r.1).len()) {
            assert(block_index(rs.push(r), off) =~= seq![(r.0, off as u64)]);
        } else {
            assert(block_index(rs.push(r), off) =~= e);
        }
        assert(block_index(rs.push(r), off) =~= block_index(rs, off) + if starts_block(
            off + log_bytes(rs).len(),
            record_bytes(r.0, r.1).len(),
        ) {
            seq![(r.0, (off + log_bytes(rs).len()) as u64)]
        } else {
            e
        });
    } else {
        let n = record_bytes(rs[0].0, rs[0].1).len();
        assert(rs.push(r).drop_first() =~= rs.drop_first().push(r));
        assert(rs.push(r)[0] == rs[0]);
        lemma_block_index_push(rs.drop_first(), r, off + n);
        assert(log_bytes(rs) == record_bytes(rs[0].0, rs[0].1) + log_bytes(rs.drop_first()));
        let tail = if starts_block(off + log_bytes(rs).len(), record_bytes(r.0, r.1).len()) {
            seq![(r.0, (off + log_bytes(rs).len()) as u64)]
        } else {
            Seq::<(Seq<u8>, u64)>::empty()
        };
        if starts_block(off, n) {
            assert(block_index(rs.push(r), off) =~= seq![(rs[0].0, off as u64)] + (block_index(
                rs.drop_first(),
                off + n,
            ) + tail));
        } else {
            assert(block_index(rs.push(r), off) =~= block_index(rs.drop_first(), off + n) + tail);
        }
    }
}

/// Encodes the index entries.
pub fn encode_index_block(index_block: Vec<(Vec<u8>, u64)>) -> (r: Vec<u8>)
    ensures
        r@ == index_bytes(index_block@.map_values(|e: (Vec<u8>, u64)| (e.0@, e.1))),
{
    let ghost es = index_block@.map_values(|e: (Vec<u8>, u64)| (e.0@, e.1));
    let mut buffer: Vec<u8> = Vec::new();
    let mut i: usize = 0;
    proof {
        assert(es.subrange(0, es.len() as int) =~= es);
        assert(buffer@ + index_bytes(es) =~= index_bytes(es));
    }
    while i < index_block.len()
        invariant
            i <= index_block@.len(),
            es == index_block@.map_values(|e: (Vec<u8>, u64)| (e.0@, e.1)),
            buffer@ + index_bytes(es.subrange(i as int, es.len() as int)) == index_bytes(es),
        decreases index_block.len() - i,
    {
        let ghost before = buffer@;
        let key = &index_block[i].0;
        append_varint(&mut buffer, key.len());
        append_slice(&mut buffer, key.as_slice());
        append_slice(&mut buffer, &u64_to_be_bytes(index_block[i].1));
        proof {
            let rest = es.subrange(i as int, es.len() as int);
            assert(rest[0] == es[i as int]);
            assert(rest.drop_first() =~= es.subrange(i + 1, es.len() as int));
            assert(buffer@ =~= before + index_entry_bytes(es[i as int].0, es[i as int].1));
        }
        i = i + 1;
    }
    proof {
        assert(es.subrange(es.len() as int, es.len() as int) =~= Seq::<(Seq<u8>, u64)>::empty());
        assert(buffer@ =~= index_bytes(es));
    }
    buffer
}

/// The largest size a table may take: it must be addressable and its
/// offsets must fit in 64 bits.
pub open spec fn size_limit() -> nat {
    if usize::MAX < u64::MAX {
        usize::MAX as nat
    } else {
        u64::MAX as nat
    }
}

/// A copy of the data.
fn copy_data(d: &NodeData) -> (r: NodeData)
    ensures
        r@ == d@,
{
    match d {
        NodeData::Data(v) => NodeData::Data(copy_range(v.as_slice(), 0, v.len())),
        NodeData::Tombstone => NodeData::Tombstone,
    }
}

/// Writes the records of the subtree at `p` in key order.
fn inorder_flush(
    table: &MemtableInner,
    node_idx_opt: Option<usize>,
    Ghost(p): Ghost<Seq<bool>>,
    writer: &mut CompactionWriter,
)
    requires
        table.wf(),
        table.tree@.valid_path(p),
        table.tree@.at(p).root() == node_idx_opt,
        old(writer).wf(),
        records_sorted(old(writer).records@ + inorder(table.arena@, table.tree@.at(p))),
        old(writer).disk_offset + log_bytes(inorder(table.arena@, table.tree@.at(p))).len() <= size_limit(),
    ensures
        final(writer).wf(),
        final(writer).records@ == old(writer).records@ + inorder(table.arena@, table.tree@.at(p)),
        final(writer).bloom_filter.bits@.len() == old(writer).bloom_filter.bits@.len(),
        final(writer).bloom_filter.num_hashes == old(writer).bloom_filter.num_hashes,
    decreases height(table.tree@) - p.len(),
{
    let ghost a = table.arena@;
    let ghost t = table.tree@;
    let node_idx = match node_idx_opt {
        Some(i) => i,
        None => {
            proof {
                assert(t.at(p) == Tree::Leaf);
                assert(old(writer).records@ + inorder(a, t.at(p)) =~= old(writer).records@);
            }
            return;
        },
    };
    proof {
        lemma_node_links(a, t, p);
        lemma_path_height(t, p);
        lemma_at_push(t, p, false);
        lemma_at_push(t, p, true);
    }
    let ghost s = t.at(p);
    let ghost ls = inorder(a, t.at(p.push(false)));
    let ghost rs = inorder(a, t.at(p.push(true)));
    let ghost node = (a[node_idx as int].key@, a[node_idx as int].data@);
    let ghost w0 = writer.records@;
    proof {
        assert(inorder(a, s) == ls + seq![node] + rs);
        lemma_log_bytes_append(ls + seq![node], rs);
        lemma_log_bytes_append(ls, seq![node]);
        assert(seq![node].drop_first() =~= Seq::<(Seq<u8>, Option<Seq<u8>>)>::empty());
        assert(log_bytes(seq![node]) == record_bytes(node.0, node.1) + log_bytes(
            Seq::<(Seq<u8>, Option<Seq<u8>>)>::empty(),
        ));
        assert(log_bytes(seq![node]) =~= record_bytes(node.0, node.1));
        assert(w0 + inorder(a, s) =~= (w0 + ls) + seq![node] + rs);
        let all = w0 + inorder(a, s);
        assert forall|x: int, y: int| 0 <= x < y < (w0 + ls).len() implies key_lt(
            #[trigger] (w0 + ls)[x].0,
            #[trigger] (w0 + ls)[y].0,
        ) by {
            assert((w0 + ls)[x] == all[x] && (w0 + ls)[y] == all[y]);
        }
    }
    inorder_flush(table, table.arena[node_idx].left, Ghost(p.push(false)), writer);
    proof {
        lemma_log_bytes_append(w0, ls);
    }
    let key = copy_range(table.arena[node_idx].key.as_slice(), 0, table.arena[node_idx].key.len());
    let data = copy_data(&table.arena[node_idx].data);
    proof {
        let all = w0 + inorder(a, s);
        assert(key@ =~= node.0);
        assert(all[(w0 + ls).len() as int] == node);
        if writer.records@.len() > 0 {
            assert(writer.records@.last() == all[(w0 + ls).len() - 1]);
        }
        assert(record_bytes(node.0, node.1).len() <= log_bytes(inorder(a, s)).len());
    }
    writer.push_record(key, data);
    proof {
        let all = w0 + inorder(a, s);
        assert(writer.records@ =~= (w0 + ls).push(node));
        assert(writer.records@ + rs =~= all);
        lemma_log_bytes_append(w0 + ls, seq![node]);
        assert((w0 + ls).push(node) =~= (w0 + ls) + seq![node]);
        assert(log_bytes(writer.records@) == log_bytes(w0) + log_bytes(ls) + record_bytes(node.0, node.1));
        assert(writer.disk_offset == 6 + log_bytes(writer.records@).len());
        assert(old(writer).disk_offset == 6 + log_bytes(w0).len());
        assert(log_bytes(inorder(a, s)).len() == log_bytes(ls).len() + record_bytes(node.0, node.1).len()
            + log_bytes(rs).len());
    }
    inorder_flush(table, table.arena[node_idx].right, Ghost(p.push(true)), writer);
    proof {
        assert(writer.records@ =~= w0 + inorder(a, s));
    }
}

/// Whether `image` is the table of the records `rs`: their bytes, index
/// and footer, with a bloom filter that answers yes for every key.
pub open spec fn is_sstable_of(image: Seq<u8>, rs: Seq<(Seq<u8>, Option<Seq<u8>>)>) -> bool {
    exists|bits: Seq<u64>, nh: u64|
        {
            &&& image == sstable_bytes(rs, bits, nh)
            &&& 0 < bits.len() <= usize::MAX
            &&& 64 * bits.len() <= u64::MAX
            &&& forall|i: int| 0 <= i < rs.len() ==> all_bits_set(bits, #[trigger] rs[i].0, nh, (64 * bits.len()) as u64)
        }
}

/// The words of a bloom filter sized for `n` keys: ten bits a key, rounded
/// up to whole words.
pub open spec fn filter_words(n: nat) -> nat {
    (n * 10 + 63) / 64
}

/// Whether `image` is the table of the records `rs` with a bloom filter of
/// `words` words and `num_hashes` hashes, whose set bits are exactly those
/// that the records' keys set.
pub open spec fn sstable_with_filter(
    image: Seq<u8>,
    rs: Seq<(Seq<u8>, Option<Seq<u8>>)>,
    words: nat,
    num_hashes: nat,
) -> bool {
    exists|bits: Seq<u64>, nh: u64|
        {
            &&& image == sstable_bytes(rs, bits, nh)
            &&& bits.len() == words
            &&& nh == num_hashes
            &&& filter_exact(bits, rs, nh)
        }
}

/// The bytes of the SSTable that holds the records of a memtable, in key
/// order, with a bloom filter sized for its node count.
pub fn write_sstable(table: &MemtableInner) -> (r: Vec<u8>)
    requires
        table.wf(),
        table.arena@.len() >= 1,
        table.arena@.len() * 10 + 63 <= usize::MAX,
        (table.arena@.len() * 10 + 63) / 64 * 64 <= u64::MAX,
        sstable_size(inorder(table.arena@, table.tree@)) <= size_limit(),
    ensures
        is_sstable_of(r@, inorder(table.arena@, table.tree@)),
        sstable_with_filter(
            r@,
            inorder(table.arena@, table.tree@),
            filter_words(table.arena@.len() as nat),
            hash_count(64 * filter_words(table.arena@.len() as nat), table.arena@.len() as nat),
        ),
{
    let mut writer = CompactionWriter::with_capacity(table.arena.len());
    proof {
        lemma_inorder(table.arena@, table.tree@, None, None);
        assert(writer.records@ + inorder(table.arena@, table.tree@) =~= inorder(table.arena@, table.tree@));
        assert(table.tree@.at(Seq::<bool>::empty()) == table.tree@);
    }
    inorder_flush(table, table.root_node, Ghost(Seq::<bool>::empty()), &mut writer);
    proof {
        assert(writer.records@ =~= inorder(table.arena@, table.tree@));
    }
    let ghost bits = writer.bloom_filter.bits@;
    let ghost nh = writer.bloom_filter.num_hashes;
    let ghost rs = writer.records@;
    let r = writer.finish();
    proof {
        assert(r@ == sstable_bytes(rs, bits, nh));
        assert(filter_exact(bits, rs, nh));
    }
    r
}


/// The index of entries with one more at the end.
proof fn lemma_index_bytes_push(es: Seq<(Seq<u8>, u64)>, e: (Seq<u8>, u64))
    ensures
        index_bytes(es.push(e)).len() == index_bytes(es).len() + index_entry_bytes(e.0, e.1).len(),
    decreases es.len(),
{
    if es.len() == 0 {
        let none = Seq::<(Seq<u8>, u64)>::empty();
        assert(es.push(e).drop_first() =~= none);
        assert(es.push(e)[0] == e);
        assert(index_bytes(none).len() == 0);
        assert(index_bytes(es).len() == 0);
        assert(index_bytes(es.push(e)) == index_entry_bytes(e.0, e.1) + index_bytes(none));
    } else {
        lemma_index_bytes_push(es.drop_first(), e);
        assert(es.push(e).drop_first() =~= es.drop_first().push(e));
        assert(es.push(e)[0] == es[0]);
    }
}

/// What one more record adds to the size of a table: its bytes, and an
/// index entry when it opens a block.
proof fn lemma_size_push(rs: Seq<(Seq<u8>, Option<Seq<u8>>)>, r: (Seq<u8>, Option<Seq<u8>>))
    ensures
        sstable_size(rs.push(r)) == sstable_size(rs) + record_bytes(r.0, r.1).len() + if starts_block(
            constants::HEADER_SIZE as nat + log_bytes(rs).len(),
            record_bytes(r.0, r.1).len(),
        ) {
            varint_bytes(r.0.len()).len() + r.0.len() + 8
        } else {
            0
        },
{
    let off = constants::HEADER_SIZE as nat;
    lemma_log_bytes_push(rs, r);
    lemma_block_index_push(rs, r, off);
    let es = block_index(rs, off);
    if starts_block(off + log_bytes(rs).len(), record_bytes(r.0, r.1).len()) {
        let e = (r.0, (off + log_bytes(rs).len()) as u64);
        assert(es + seq![e] =~= es.push(e));
        lemma_index_bytes_push(es, e);
    } else {
        assert(es + Seq::<(Seq<u8>, u64)>::empty() =~= es);
    }
}

/// A table of more records is no smaller.
proof fn lemma_size_grows(pre: Seq<(Seq<u8>, Option<Seq<u8>>)>, more: Seq<(Seq<u8>, Option<Seq<u8>>)>)
    ensures
        sstable_size(pre) <= sstable_size(pre + more),
        log_bytes(pre + more).len() + 6 <= sstable_size(pre + more),
    decreases more.len(),
{
    if more.len() == 0 {
        assert(pre + more =~= pre);
    } else {
        let init = more.drop_last();
        lemma_size_grows(pre, init);
        assert(pre + more =~= (pre + init).push(more.last()));
        lemma_size_push(pre + init, more.last());
    }
}

/// Walks the subtree at `p` in key order after the records `pre`, and
/// gives the end of the records and the length of their index, or `None`
/// once the table would outgrow what its offsets address.
fn size_walk(
    table: &MemtableInner,
    node_idx_opt: Option<usize>,
    Ghost(p): Ghost<Seq<bool>>,
    Ghost(pre): Ghost<Seq<(Seq<u8>, Option<Seq<u8>>)>>,
    off: u128,
    ilen: u128,
    limit: u128,
) -> (r: Option<(u128, u128)>)
    requires
        table.wf(),
        table.tree@.valid_path(p),
        table.tree@.at(p).root() == node_idx_opt,
        limit == size_limit(),
        off == constants::HEADER_SIZE + log_bytes(pre).len(),
        off + ilen == sstable_size(pre),
        sstable_size(pre) <= size_limit(),
    ensures
        match r {
            Some((o, l)) => {
                let all = pre + inorder(table.arena@, table.tree@.at(p));
                &&& o == constants::HEADER_SIZE + log_bytes(all).len()
                &&& o + l == sstable_size(all)
                &&& sstable_size(all) <= size_limit()
            },
            None => sstable_size(pre + inorder(table.arena@, table.tree@.at(p))) > size_limit(),
        },
    decreases height(table.tree@) - p.len(),
{
    let ghost a = table.arena@;
    let ghost t = table.tree@;
    let node_idx = match node_idx_opt {
        Some(i) => i,
        None => {
            proof {
                assert(t.at(p) == Tree::Leaf);
                assert(pre + inorder(a, t.at(p)) =~= pre);
            }
            return Some((off, ilen));
        },
    };
    proof {
        lemma_node_links(a, t, p);
        lemma_path_height(t, p);
        lemma_at_push(t, p, false);
        lemma_at_push(t, p, true);
    }
    let ghost ls = inorder(a, t.at(p.push(false)));
    let ghost rs = inorder(a, t.at(p.push(true)));
    let ghost node = (a[node_idx as int].key@, a[node_idx as int].data@);
    proof {
        assert(inorder(a, t.at(p)) == ls + seq![node] + rs);
        assert(pre + inorder(a, t.at(p)) =~= (pre + ls).push(node) + rs);
        assert((pre + ls).push(node) =~= (pre + ls) + seq![node]);
        lemma_size_grows(pre + ls, seq![node] + rs);
        assert((pre + ls) + (seq![node] + rs) =~= (pre + ls).push(node) + rs);
        lemma_size_grows((pre + ls).push(node), rs);
    }
    let (o, l) = match size_walk(table, table.arena[node_idx].left, Ghost(p.push(false)), Ghost(pre), off, ilen, limit) {
        Some(v) => v,
        None => {
            return None;
        },
    };
    let n = match record_size(&table.arena[node_idx].key, &table.arena[node_idx].data) {
        Some(n) => n,
        None => {
            proof {
                lemma_size_push(pre + ls, node);
            }
            return None;
        },
    };
    proof {
        lemma_size_push(pre + ls, node);
    }
    let block = constants::DISK_BLOCK_SIZE as u128;
    let opens = o == constants::HEADER_SIZE as u128 || o % block > (o + n as u128) % block;
    let entry: u128 = if opens {
        varint_size_from_len(table.arena[node_idx].key.len()) as u128 + table.arena[node_idx].key.len() as u128 + 8
    } else {
        0
    };
    let o2 = o + n as u128;
    let l2 = l + entry;
    if o2 + l2 > limit {
        return None;
    }
    proof {
        lemma_log_bytes_push(pre + ls, node);
    }
    size_walk(table, table.arena[node_idx].right, Ghost(p.push(true)), Ghost((pre + ls).push(node)), o2, l2, limit)
}

/// Whether the SSTable of a memtable's records stays within what its
/// offsets can address, as `write_sstable` needs.
pub fn fits_sstable(table: &MemtableInner) -> (b: bool)
    requires
        table.wf(),
    ensures
        b == (sstable_size(inorder(table.arena@, table.tree@)) <= size_limit()),
{
    let limit: u128 = if (usize::MAX as u128) < (u64::MAX as u128) {
        usize::MAX as u128
    } else {
        u64::MAX as u128
    };
    let ghost e = Seq::<(Seq<u8>, Option<Seq<u8>>)>::empty();
    proof {
        assert(log_bytes(e) =~= Seq::<u8>::empty());
        assert(block_index(e, constants::HEADER_SIZE as nat) =~= Seq::<(Seq<u8>, u64)>::empty());
        assert(index_bytes(Seq::<(Seq<u8>, u64)>::empty()) =~= Seq::<u8>::empty());
        assert(sstable_size(e) == 6);
        assert(table.tree@.at(Seq::<bool>::empty()) == table.tree@);
        assert(e + inorder(table.arena@, table.tree@) =~= inorder(table.arena@, table.tree@));
    }
    let r = size_walk(table, table.root_node, Ghost(Seq::<bool>::empty()), Ghost(e), 6, 0, limit);
    r.is_some()
}

} // verus!
