//! The records of the tree in key order, and what a lookup among them
//! finds.

use vstd::prelude::*;
use crate::disk::{lookup, record_fits};
use crate::error::SSTableError;
use crate::keys::{in_bounds, key_lt, lemma_key_order_facts};
use crate::sstable::compaction_writer::records_sorted;
use super::inner::MemtableNode;
use super::tree::{contents, lemma_contents_bounds, ordered, Tree};

verus! {

/// The records of a tree in key order: left subtree, node, right subtree.
pub open spec fn inorder(a: Seq<MemtableNode>, t: Tree) -> Seq<(Seq<u8>, Option<Seq<u8>>)>
    decreases t,
{
    match t {
        Tree::Leaf => Seq::empty(),
        Tree::Node(i, l, r) => inorder(a, *l) + seq![(a[i as int].key@, a[i as int].data@)] + inorder(
            a,
            *r,
        ),
    }
}

/// What a key maps to, as a lookup answers it: the data, `Tombstone`, or
/// `DiskRecordNotFound` when the key is absent.
pub open spec fn map_answer(m: Map<Seq<u8>, Option<Seq<u8>>>, k: Seq<u8>) -> Result<Seq<u8>, SSTableError> {
    if m.contains_key(k) {
        match m[k] {
            Some(d) => Ok(d),
            None => Err(SSTableError::Tombstone),
        }
    } else {
        Err(SSTableError::DiskRecordNotFound)
    }
}

/// A lookup over two lists goes to the second only when the first has no
/// record with the key.
pub proof fn lemma_lookup_append(
    xs: Seq<(Seq<u8>, Option<Seq<u8>>)>,
    ys: Seq<(Seq<u8>, Option<Seq<u8>>)>,
    k: Seq<u8>,
)
    ensures
        lookup(xs + ys, k) == if lookup(xs, k) == Err::<Seq<u8>, SSTableError>(
            SSTableError::DiskRecordNotFound,
        ) {
            lookup(ys, k)
        } else {
            lookup(xs, k)
        },
    decreases xs.len(),
{
    if xs.len() == 0 {
        assert(xs + ys =~= ys);
    } else {
        assert((xs + ys)[0] == xs[0]);
        assert((xs + ys).drop_first() =~= xs.drop_first() + ys);
        lemma_lookup_append(xs.drop_first(), ys, k);
    }
}

/// Whether some record has key `k`.
pub open spec fn has_key(rs: Seq<(Seq<u8>, Option<Seq<u8>>)>, k: Seq<u8>) -> bool {
    exists|i: int| 0 <= i < rs.len() && (#[trigger] rs[i]).0 == k
}

/// A lookup finds nothing exactly when no record has the key.
pub proof fn lemma_lookup_absent(rs: Seq<(Seq<u8>, Option<Seq<u8>>)>, k: Seq<u8>)
    ensures
        (lookup(rs, k) == Err::<Seq<u8>, SSTableError>(SSTableError::DiskRecordNotFound)) <==> !has_key(
            rs,
            k,
        ),
    decreases rs.len(),
{
    if rs.len() > 0 {
        lemma_lookup_absent(rs.drop_first(), k);
        if has_key(rs, k) && rs[0].0 != k {
            let i = choose|i: int| 0 <= i < rs.len() && (#[trigger] rs[i]).0 == k;
            assert(rs.drop_first()[i - 1] == rs[i]);
        }
        if has_key(rs.drop_first(), k) {
            let i = choose|i: int| 0 <= i < rs.len() - 1 && (#[trigger] rs.drop_first()[i]).0 == k;
            assert(rs[i + 1] == rs.drop_first()[i]);
        }
    }
}

/// The records of an ordered tree are sorted, lie within its bounds, and a
/// lookup among them answers as the tree's contents do.
pub proof fn lemma_inorder(a: Seq<MemtableNode>, t: Tree, lo: Option<Seq<u8>>, hi: Option<Seq<u8>>)
    requires
        ordered(a, t, lo, hi),
    ensures
        records_sorted(inorder(a, t)),
        forall|i: int| 0 <= i < inorder(a, t).len() ==> in_bounds(#[trigger] inorder(a, t)[i].0, lo, hi),
        forall|k: Seq<u8>| lookup(inorder(a, t), k) == map_answer(contents(a, t), k),
    decreases t,
{
    if let Tree::Node(i, l, r) = t {
        let ki = a[i as int].key@;
        let node = (ki, a[i as int].data@);
        let ls = inorder(a, *l);
        let rs = inorder(a, *r);
        let all = inorder(a, t);
        lemma_inorder(a, *l, lo, Some(ki));
        lemma_inorder(a, *r, Some(ki), hi);
        lemma_contents_bounds(a, *l, lo, Some(ki));
        lemma_contents_bounds(a, *r, Some(ki), hi);
        lemma_key_order_facts();
        assert(all =~= ls + seq![node] + rs);
        assert forall|j: int| 0 <= j < all.len() implies in_bounds(#[trigger] all[j].0, lo, hi) by {
            if j < ls.len() {
                assert(all[j] == ls[j]);
                assert(in_bounds(ls[j].0, lo, Some(ki)));
            } else if j == ls.len() {
            } else {
                assert(all[j] == rs[j - ls.len() - 1]);
                assert(in_bounds(rs[j - ls.len() - 1].0, Some(ki), hi));
            }
        }
        assert forall|x: int, y: int| 0 <= x < y < all.len() implies key_lt(
            #[trigger] all[x].0,
            #[trigger] all[y].0,
        ) by {
            if y < ls.len() {
                assert(all[x] == ls[x] && all[y] == ls[y]);
            } else if x > ls.len() {
                assert(all[x] == rs[x - ls.len() - 1] && all[y] == rs[y - ls.len() - 1]);
            } else {
                if x < ls.len() {
                    assert(all[x] == ls[x]);
                    assert(in_bounds(ls[x].0, lo, Some(ki)));
                }
                if y > ls.len() {
                    assert(all[y] == rs[y - ls.len() - 1]);
                    assert(in_bounds(rs[y - ls.len() - 1].0, Some(ki), hi));
                }
            }
        }
        assert forall|k: Seq<u8>| lookup(all, k) == map_answer(contents(a, t), k) by {
            let nf = Err::<Seq<u8>, SSTableError>(SSTableError::DiskRecordNotFound);
            let one = seq![node];
            lemma_lookup_append(ls + one, rs, k);
            lemma_lookup_append(ls, one, k);
            assert(one.drop_first() =~= Seq::<(Seq<u8>, Option<Seq<u8>>)>::empty());
            assert(one[0] == node);
            let cl = contents(a, *l);
            let cr = contents(a, *r);
            let ct = contents(a, t);
            assert(ct == cl.union_prefer_right(cr).insert(ki, a[i as int].data@));
            if k == ki {
                if cl.contains_key(k) {
                    assert(in_bounds(k, lo, Some(ki)));
                }
                assert(lookup(ls, k) == nf);
                assert(lookup(one, k) != nf);
            } else {
                assert(lookup(one.drop_first(), k) == nf);
                assert(lookup(one, k) == nf);
                if cl.contains_key(k) {
                    assert(in_bounds(k, lo, Some(ki)));
                    if cr.contains_key(k) {
                        assert(in_bounds(k, Some(ki), hi));
                    }
                    assert(ct[k] == cl[k]);
                    assert(lookup(ls, k) != nf);
                } else {
                    assert(lookup(ls, k) == nf);
                    assert(lookup(ls + one, k) == nf);
                    assert(ct.contains_key(k) == cr.contains_key(k));
                    if cr.contains_key(k) {
                        assert(ct[k] == cr[k]);
                    }
                }
            }
        }
    }
}

} // verus!
