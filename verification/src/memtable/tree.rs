//! The ghost shape of the memtable's arena tree, and what the arena holds
//! along it: parent/child links, the search-tree order of keys, the key/value
//! contents, and the red-black colouring.

use vstd::prelude::*;
use crate::keys::{in_bounds, key_lt, lemma_key_order_facts};
use super::inner::{Color, MemtableNode};

verus! {

/// The shape of the tree that the arena links describe: arena indices
/// arranged as a binary tree.
pub enum Tree {
    Leaf,
    Node(usize, Box<Tree>, Box<Tree>),
}

impl Tree {
    pub open spec fn root(self) -> Option<usize> {
        match self {
            Tree::Leaf => None,
            Tree::Node(i, _, _) => Some(i),
        }
    }

    pub open spec fn indices(self) -> Set<usize>
        decreases self,
    {
        match self {
            Tree::Leaf => Set::empty(),
            Tree::Node(i, l, r) => l.indices().union(r.indices()).insert(i),
        }
    }

    /// The right (`true`) or left (`false`) subtree.
    pub open spec fn child(self, right: bool) -> Tree {
        match self {
            Tree::Leaf => Tree::Leaf,
            Tree::Node(_, l, r) => if right {
                *r
            } else {
                *l
            },
        }
    }

    /// The subtree reached by following a path of directions from the root.
    pub open spec fn at(self, p: Seq<bool>) -> Tree
        decreases p.len(),
    {
        if p.len() == 0 {
            self
        } else {
            self.child(p[0]).at(p.drop_first())
        }
    }

    /// Every step of the path leaves from a node.
    pub open spec fn valid_path(self, p: Seq<bool>) -> bool
        decreases p.len(),
    {
        if p.len() == 0 {
            true
        } else {
            self is Node && self.child(p[0]).valid_path(p.drop_first())
        }
    }

    /// The tree with the subtree at `p` replaced by `s`.
    pub open spec fn replace(self, p: Seq<bool>, s: Tree) -> Tree
        decreases p.len(),
    {
        if p.len() == 0 {
            s
        } else {
            match self {
                Tree::Leaf => Tree::Leaf,
                Tree::Node(i, l, r) => if p[0] {
                    Tree::Node(i, l, Box::new(r.replace(p.drop_first(), s)))
                } else {
                    Tree::Node(i, Box::new(l.replace(p.drop_first(), s)), r)
                },
            }
        }
    }

    /// The index of the node above the subtree at `p` (`top` for the root).
    pub open spec fn parent_at(self, p: Seq<bool>, top: Option<usize>) -> Option<usize> {
        if p.len() == 0 {
            top
        } else {
            self.at(p.drop_last()).root()
        }
    }

    /// Left rotation: the right child takes the node's place.
    pub open spec fn rotate_left(self) -> Tree {
        match self {
            Tree::Node(n, a, rt) => match *rt {
                Tree::Node(r, b, c) => Tree::Node(r, Box::new(Tree::Node(n, a, b)), c),
                Tree::Leaf => self,
            },
            Tree::Leaf => self,
        }
    }

    /// Right rotation: the left child takes the node's place.
    pub open spec fn rotate_right(self) -> Tree {
        match self {
            Tree::Node(n, lt, c) => match *lt {
                Tree::Node(l, a, b) => Tree::Node(l, a, Box::new(Tree::Node(n, b, c))),
                Tree::Leaf => self,
            },
            Tree::Leaf => self,
        }
    }
}

/// The way down from the root that a search for `key` takes: left below a
/// larger key, right below a smaller one, until the node with the key or an
/// empty subtree.
pub open spec fn search_path(a: Seq<MemtableNode>, t: Tree, key: Seq<u8>) -> Seq<bool>
    decreases t,
{
    match t {
        Tree::Leaf => Seq::empty(),
        Tree::Node(i, l, r) => if key == a[i as int].key@ {
            Seq::empty()
        } else if key_lt(key, a[i as int].key@) {
            seq![false] + search_path(a, *l, key)
        } else {
            seq![true] + search_path(a, *r, key)
        },
    }
}

/// The arena's child and parent links follow the tree, whose indices are
/// distinct and inside the arena; `parent` is the link the root carries.
pub open spec fn links(a: Seq<MemtableNode>, t: Tree, parent: Option<usize>) -> bool
    decreases t,
{
    match t {
        Tree::Leaf => true,
        Tree::Node(i, l, r) => {
            &&& i < a.len()
            &&& a[i as int].left == l.root()
            &&& a[i as int].right == r.root()
            &&& a[i as int].parent == parent
            &&& !l.indices().contains(i)
            &&& !r.indices().contains(i)
            &&& l.indices().disjoint(r.indices())
            &&& links(a, *l, Some(i))
            &&& links(a, *r, Some(i))
        },
    }
}

/// Keys grow from left to right and stay strictly between `lo` and `hi`.
pub open spec fn ordered(a: Seq<MemtableNode>, t: Tree, lo: Option<Seq<u8>>, hi: Option<Seq<u8>>) -> bool
    decreases t,
{
    match t {
        Tree::Leaf => true,
        Tree::Node(i, l, r) => {
            &&& i < a.len()
            &&& in_bounds(a[i as int].key@, lo, hi)
            &&& ordered(a, *l, lo, Some(a[i as int].key@))
            &&& ordered(a, *r, Some(a[i as int].key@), hi)
        },
    }
}

/// The bounds that the order puts on the subtree at `p`.
pub open spec fn bounds_at(
    a: Seq<MemtableNode>,
    t: Tree,
    p: Seq<bool>,
    lo: Option<Seq<u8>>,
    hi: Option<Seq<u8>>,
) -> (Option<Seq<u8>>, Option<Seq<u8>>)
    decreases p.len(),
{
    if p.len() == 0 {
        (lo, hi)
    } else {
        match t {
            Tree::Leaf => (lo, hi),
            Tree::Node(i, l, r) => if p[0] {
                bounds_at(a, *r, p.drop_first(), Some(a[i as int].key@), hi)
            } else {
                bounds_at(a, *l, p.drop_first(), lo, Some(a[i as int].key@))
            },
        }
    }
}

/// What the tree maps each key to: the data, or `None` for a tombstone.
pub open spec fn contents(a: Seq<MemtableNode>, t: Tree) -> Map<Seq<u8>, Option<Seq<u8>>>
    decreases t,
{
    match t {
        Tree::Leaf => Map::empty(),
        Tree::Node(i, l, r) => contents(a, *l).union_prefer_right(contents(a, *r)).insert(
            a[i as int].key@,
            a[i as int].data@,
        ),
    }
}

pub open spec fn is_red(a: Seq<MemtableNode>, t: Tree) -> bool {
    match t {
        Tree::Leaf => false,
        Tree::Node(i, _, _) => a[i as int].color == Color::Red,
    }
}

/// The number of black nodes on the leftmost path down.
pub open spec fn black_height(a: Seq<MemtableNode>, t: Tree) -> nat
    decreases t,
{
    match t {
        Tree::Leaf => 0,
        Tree::Node(i, l, _) => black_height(a, *l) + if a[i as int].color == Color::Black {
            1nat
        } else {
            0nat
        },
    }
}

/// Every path down holds the same number of black nodes.
pub open spec fn bh_ok(a: Seq<MemtableNode>, t: Tree) -> bool
    decreases t,
{
    match t {
        Tree::Leaf => true,
        Tree::Node(i, l, r) => {
            &&& black_height(a, *l) == black_height(a, *r)
            &&& bh_ok(a, *l)
            &&& bh_ok(a, *r)
        },
    }
}

/// No red node has a red child, except that the node with index `ex` may
/// have a red parent.
pub open spec fn red_ok(a: Seq<MemtableNode>, t: Tree, ex: Option<usize>) -> bool
    decreases t,
{
    match t {
        Tree::Leaf => true,
        Tree::Node(i, l, r) => {
            &&& (a[i as int].color == Color::Red ==> (!is_red(a, *l) || l.root() == ex) && (
            !is_red(a, *r) || r.root() == ex))
            &&& red_ok(a, *l, ex)
            &&& red_ok(a, *r, ex)
        },
    }
}

/// The red-black rules below the root: equal black heights on all paths
/// and no red node with a red child.
pub open spec fn red_black(a: Seq<MemtableNode>, t: Tree) -> bool {
    bh_ok(a, t) && red_ok(a, t, None)
}

// ---------------------------------------------------------------------------
// Paths
// ---------------------------------------------------------------------------

pub proof fn lemma_at_push(t: Tree, p: Seq<bool>, d: bool)
    ensures
        t.at(p.push(d)) == t.at(p).child(d),
        t.valid_path(p.push(d)) == (t.valid_path(p) && t.at(p) is Node),
    decreases p.len(),
{
    if p.len() == 0 {
        assert(p.push(d).drop_first() =~= Seq::<bool>::empty());
        assert(p.push(d)[0] == d);
        assert(t.child(d).at(Seq::<bool>::empty()) == t.child(d));
        assert(t.child(d).valid_path(Seq::<bool>::empty()));
        assert(t.valid_path(p.push(d)) == (t is Node));
    } else {
        assert(p.push(d).drop_first() =~= p.drop_first().push(d));
        assert(p.push(d)[0] == p[0]);
        lemma_at_push(t.child(p[0]), p.drop_first(), d);
        assert(t.valid_path(p.push(d)) == (t is Node && t.child(p[0]).valid_path(
            p.drop_first().push(d),
        )));
        assert(t.valid_path(p) == (t is Node && t.child(p[0]).valid_path(p.drop_first())));
    }
}

pub proof fn lemma_indices_finite(t: Tree)
    ensures
        t.indices().finite(),
    decreases t,
{
    if let Tree::Node(i, l, r) = t {
        lemma_indices_finite(*l);
        lemma_indices_finite(*r);
    }
}

pub proof fn lemma_at_indices(t: Tree, p: Seq<bool>)
    ensures
        t.at(p).indices().subset_of(t.indices()),
    decreases p.len(),
{
    if p.len() > 0 {
        lemma_at_indices(t.child(p[0]), p.drop_first());
    }
}

/// The links of the whole tree give the links of each subtree.
pub proof fn lemma_links_at(a: Seq<MemtableNode>, t: Tree, par: Option<usize>, p: Seq<bool>)
    requires
        links(a, t, par),
    ensures
        links(a, t.at(p), t.parent_at(p, par)),
    decreases p.len(),
{
    if p.len() > 0 {
        match t {
            Tree::Leaf => {
                lemma_at_leaf(p);
            },
            Tree::Node(i, l, r) => {
                let c = t.child(p[0]);
                let q = p.drop_first();
                lemma_links_at(a, c, Some(i), q);
                if q.len() == 0 {
                    assert(p.drop_last() =~= Seq::<bool>::empty());
                } else {
                    assert(p.drop_last().drop_first() =~= q.drop_last());
                }
            },
        }
    }
}

pub proof fn lemma_at_leaf(p: Seq<bool>)
    ensures
        Tree::Leaf.at(p) == Tree::Leaf,
    decreases p.len(),
{
    if p.len() > 0 {
        lemma_at_leaf(p.drop_first());
    }
}

/// The order of the whole tree gives the order of each subtree, within the
/// bounds that the path collects.
pub proof fn lemma_ordered_at(
    a: Seq<MemtableNode>,
    t: Tree,
    p: Seq<bool>,
    lo: Option<Seq<u8>>,
    hi: Option<Seq<u8>>,
)
    requires
        ordered(a, t, lo, hi),
    ensures
        ordered(a, t.at(p), bounds_at(a, t, p, lo, hi).0, bounds_at(a, t, p, lo, hi).1),
    decreases p.len(),
{
    if p.len() > 0 {
        match t {
            Tree::Leaf => {
                lemma_at_leaf(p);
            },
            Tree::Node(i, l, r) => {
                if p[0] {
                    lemma_ordered_at(a, *r, p.drop_first(), Some(a[i as int].key@), hi);
                } else {
                    lemma_ordered_at(a, *l, p.drop_first(), lo, Some(a[i as int].key@));
                }
            },
        }
    }
}

pub proof fn lemma_bounds_push(
    a: Seq<MemtableNode>,
    t: Tree,
    p: Seq<bool>,
    d: bool,
    lo: Option<Seq<u8>>,
    hi: Option<Seq<u8>>,
)
    requires
        t.valid_path(p),
        t.at(p) is Node,
    ensures
        d ==> bounds_at(a, t, p.push(d), lo, hi) == (
            Some(a[t.at(p)->0 as int].key@),
            bounds_at(a, t, p, lo, hi).1,
        ),
        !d ==> bounds_at(a, t, p.push(d), lo, hi) == (
            bounds_at(a, t, p, lo, hi).0,
            Some(a[t.at(p)->0 as int].key@),
        ),
    decreases p.len(),
{
    if p.len() == 0 {
        assert(p.push(d).drop_first() =~= Seq::<bool>::empty());
        assert(p.push(d)[0] == d);
        if let Tree::Node(i, l, r) = t {
            let e = Seq::<bool>::empty();
            assert(bounds_at(a, *r, e, Some(a[i as int].key@), hi) == (Some(a[i as int].key@), hi));
            assert(bounds_at(a, *l, e, lo, Some(a[i as int].key@)) == (lo, Some(a[i as int].key@)));
            assert(bounds_at(a, t, p, lo, hi) == (lo, hi));
        }
    } else {
        assert(p.push(d).drop_first() =~= p.drop_first().push(d));
        assert(p.push(d)[0] == p[0]);
        match t {
            Tree::Leaf => {
                lemma_at_leaf(p);
            },
            Tree::Node(i, l, r) => {
                if p[0] {
                    lemma_bounds_push(a, *r, p.drop_first(), d, Some(a[i as int].key@), hi);
                } else {
                    lemma_bounds_push(a, *l, p.drop_first(), d, lo, Some(a[i as int].key@));
                }
            },
        }
    }
}

// ---------------------------------------------------------------------------
// Contents
// ---------------------------------------------------------------------------

/// Every key of an ordered tree lies within its bounds.
pub proof fn lemma_contents_bounds(
    a: Seq<MemtableNode>,
    t: Tree,
    lo: Option<Seq<u8>>,
    hi: Option<Seq<u8>>,
)
    requires
        ordered(a, t, lo, hi),
    ensures
        forall|k: Seq<u8>| contents(a, t).contains_key(k) ==> in_bounds(k, lo, hi),
    decreases t,
{
    if let Tree::Node(i, l, r) = t {
        let ki = a[i as int].key@;
        lemma_contents_bounds(a, *l, lo, Some(ki));
        lemma_contents_bounds(a, *r, Some(ki), hi);
        lemma_key_order_facts();
        assert forall|k: Seq<u8>| contents(a, t).contains_key(k) implies in_bounds(k, lo, hi) by {
            if k != ki {
                if contents(a, *r).contains_key(k) {
                    assert(in_bounds(k, Some(ki), hi));
                } else {
                    assert(contents(a, *l).contains_key(k));
                    assert(in_bounds(k, lo, Some(ki)));
                }
            }
        }
    }
}

/// Each node's key is in the contents, mapped to the node's data.
pub proof fn lemma_contents_has_node(a: Seq<MemtableNode>, t: Tree, lo: Option<Seq<u8>>, hi: Option<Seq<u8>>, j: usize)
    requires
        ordered(a, t, lo, hi),
        t.indices().contains(j),
    ensures
        contents(a, t).contains_key(a[j as int].key@),
        contents(a, t)[a[j as int].key@] == a[j as int].data@,
    decreases t,
{
    if let Tree::Node(i, l, r) = t {
        let ki = a[i as int].key@;
        lemma_key_order_facts();
        let kj = a[j as int].key@;
        if j != i {
            lemma_contents_bounds(a, *r, Some(ki), hi);
            lemma_contents_bounds(a, *l, lo, Some(ki));
            if l.indices().contains(j) {
                lemma_contents_has_node(a, *l, lo, Some(ki), j);
                assert(contents(a, *l).contains_key(kj));
                assert(in_bounds(kj, lo, Some(ki)));
                assert(key_lt(kj, ki));
                crate::keys::lemma_key_lt_irreflexive(ki);
                assert(kj != ki);
                if contents(a, *r).contains_key(kj) {
                    assert(in_bounds(kj, Some(ki), hi));
                    assert(key_lt(ki, kj));
                    crate::keys::lemma_key_lt_asymmetric(ki, kj);
                }
            } else {
                lemma_contents_has_node(a, *r, Some(ki), hi, j);
                assert(contents(a, *r).contains_key(kj));
                assert(in_bounds(kj, Some(ki), hi));
                assert(key_lt(ki, kj));
                crate::keys::lemma_key_lt_irreflexive(ki);
                assert(kj != ki);
            }
        }
    }
}

/// Within the bounds of the subtree at `p`, the whole tree maps a key as
/// that subtree does.
pub proof fn lemma_contents_at(
    a: Seq<MemtableNode>,
    t: Tree,
    p: Seq<bool>,
    lo: Option<Seq<u8>>,
    hi: Option<Seq<u8>>,
    k: Seq<u8>,
)
    requires
        ordered(a, t, lo, hi),
        t.valid_path(p),
        in_bounds(k, bounds_at(a, t, p, lo, hi).0, bounds_at(a, t, p, lo, hi).1),
    ensures
        contents(a, t).contains_key(k) == contents(a, t.at(p)).contains_key(k),
        contents(a, t).contains_key(k) ==> contents(a, t)[k] == contents(a, t.at(p))[k],
    decreases p.len(),
{
    if p.len() > 0 {
        if let Tree::Node(i, l, r) = t {
            let ki = a[i as int].key@;
            lemma_key_order_facts();
            let (l2, h2) = bounds_at(a, t, p, lo, hi);
            if p[0] {
                lemma_contents_at(a, *r, p.drop_first(), Some(ki), hi, k);
                lemma_bounds_lo(a, *r, p.drop_first(), Some(ki), hi);
                lemma_contents_bounds(a, *l, lo, Some(ki));
                assert(key_lt(l2->0, k));
                assert(key_lt(ki, k));
                crate::keys::lemma_key_lt_irreflexive(ki);
                if contents(a, *l).contains_key(k) {
                    assert(in_bounds(k, lo, Some(ki)));
                    crate::keys::lemma_key_lt_asymmetric(ki, k);
                }
            } else {
                lemma_contents_at(a, *l, p.drop_first(), lo, Some(ki), k);
                lemma_bounds_hi(a, *l, p.drop_first(), lo, Some(ki));
                lemma_contents_bounds(a, *r, Some(ki), hi);
                assert(key_lt(k, h2->0));
                assert(key_lt(k, ki));
                crate::keys::lemma_key_lt_irreflexive(ki);
                if contents(a, *r).contains_key(k) {
                    assert(in_bounds(k, Some(ki), hi));
                    crate::keys::lemma_key_lt_asymmetric(ki, k);
                }
            }
        }
    }
}

/// Bounds only narrow along a path.
pub proof fn lemma_bounds_lo(
    a: Seq<MemtableNode>,
    t: Tree,
    p: Seq<bool>,
    lo: Option<Seq<u8>>,
    hi: Option<Seq<u8>>,
)
    requires
        ordered(a, t, lo, hi),
        lo is Some,
    ensures
        bounds_at(a, t, p, lo, hi).0 matches Some(l2) && (l2 == lo->0 || key_lt(lo->0, l2)),
    decreases p.len(),
{
    if p.len() > 0 {
        if let Tree::Node(i, l, r) = t {
            let ki = a[i as int].key@;
            lemma_key_order_facts();
            if p[0] {
                lemma_bounds_lo(a, *r, p.drop_first(), Some(ki), hi);
            } else {
                lemma_bounds_lo(a, *l, p.drop_first(), lo, Some(ki));
            }
        }
    }
}

pub proof fn lemma_bounds_hi(
    a: Seq<MemtableNode>,
    t: Tree,
    p: Seq<bool>,
    lo: Option<Seq<u8>>,
    hi: Option<Seq<u8>>,
)
    requires
        ordered(a, t, lo, hi),
        hi is Some,
    ensures
        bounds_at(a, t, p, lo, hi).1 matches Some(h2) && (h2 == hi->0 || key_lt(h2, hi->0)),
    decreases p.len(),
{
    if p.len() > 0 {
        if let Tree::Node(i, l, r) = t {
            let ki = a[i as int].key@;
            lemma_key_order_facts();
            if p[0] {
                lemma_bounds_hi(a, *r, p.drop_first(), Some(ki), hi);
            } else {
                lemma_bounds_hi(a, *l, p.drop_first(), lo, Some(ki));
            }
        }
    }
}


// ---------------------------------------------------------------------------
// Frames: what each property reads of the arena
// ---------------------------------------------------------------------------

/// The root of a linked tree is one of its indices and carries the given
/// parent link.
pub proof fn lemma_root_facts(a: Seq<MemtableNode>, t: Tree, par: Option<usize>)
    requires
        links(a, t, par),
    ensures
        t.root() matches Some(x) ==> t.indices().contains(x) && a[x as int].parent == par
            && x < a.len(),
{
}

/// The indices of a node's subtrees, and its own, are indices of the node.
pub proof fn lemma_node_indices(t: Tree)
    ensures
        t matches Tree::Node(i, l, r) ==> {
            &&& t.indices().contains(i)
            &&& forall|j: usize| #[trigger] l.indices().contains(j) ==> t.indices().contains(j)
            &&& forall|j: usize| #[trigger] r.indices().contains(j) ==> t.indices().contains(j)
        },
{
}

/// Keys at the tree's indices decide its order.
pub proof fn lemma_ordered_frame(
    a: Seq<MemtableNode>,
    a2: Seq<MemtableNode>,
    t: Tree,
    lo: Option<Seq<u8>>,
    hi: Option<Seq<u8>>,
)
    requires
        forall|j: usize|
            t.indices().contains(j) ==> j < a.len() && j < a2.len() && a2[j as int].key@
                == a[j as int].key@,
    ensures
        ordered(a2, t, lo, hi) == ordered(a, t, lo, hi),
    decreases t,
{
    if let Tree::Node(i, l, r) = t {
        lemma_node_indices(t);
        let ki = a[i as int].key@;
        lemma_ordered_frame(a, a2, *l, lo, Some(ki));
        lemma_ordered_frame(a, a2, *r, Some(ki), hi);
    }
}

/// Keys and data at the tree's indices decide its order and contents.
pub proof fn lemma_kd_frame(
    a: Seq<MemtableNode>,
    a2: Seq<MemtableNode>,
    t: Tree,
    lo: Option<Seq<u8>>,
    hi: Option<Seq<u8>>,
)
    requires
        forall|j: usize|
            t.indices().contains(j) ==> j < a.len() && j < a2.len() && a2[j as int].key@
                == a[j as int].key@ && a2[j as int].data@ == a[j as int].data@,
    ensures
        ordered(a2, t, lo, hi) == ordered(a, t, lo, hi),
        contents(a2, t) == contents(a, t),
    decreases t,
{
    if let Tree::Node(i, l, r) = t {
        lemma_node_indices(t);
        let ki = a[i as int].key@;
        lemma_kd_frame(a, a2, *l, lo, Some(ki));
        lemma_kd_frame(a, a2, *r, Some(ki), hi);
    }
}

/// Colours at the tree's indices decide its colouring properties.
pub proof fn lemma_color_frame(a: Seq<MemtableNode>, a2: Seq<MemtableNode>, t: Tree)
    requires
        forall|j: usize| t.indices().contains(j) ==> a2[j as int].color == a[j as int].color,
    ensures
        bh_ok(a2, t) == bh_ok(a, t),
        forall|ex: Option<usize>| red_ok(a2, t, ex) == red_ok(a, t, ex),
        red_black(a2, t) == red_black(a, t),
        black_height(a2, t) == black_height(a, t),
        is_red(a2, t) == is_red(a, t),
    decreases t,
{
    if let Tree::Node(i, l, r) = t {
        lemma_node_indices(t);
        lemma_node_indices(*l);
        lemma_node_indices(*r);
        lemma_color_frame(a, a2, *l);
        lemma_color_frame(a, a2, *r);
        assert forall|ex: Option<usize>| red_ok(a2, t, ex) == red_ok(a, t, ex) by {
            assert(red_ok(a2, *l, ex) == red_ok(a, *l, ex));
            assert(red_ok(a2, *r, ex) == red_ok(a, *r, ex));
        }
    }
}

/// Links at the tree's indices decide whether it is linked; the root's
/// parent link may change along with the parent it should name.
pub proof fn lemma_links_frame(
    a: Seq<MemtableNode>,
    a2: Seq<MemtableNode>,
    t: Tree,
    par: Option<usize>,
    par2: Option<usize>,
)
    requires
        links(a, t, par),
        a.len() <= a2.len(),
        forall|j: usize|
            t.indices().contains(j) ==> a2[j as int].left == a[j as int].left && a2[j as int].right
                == a[j as int].right && (Some(j) != t.root() ==> a2[j as int].parent
                == a[j as int].parent),
        t.root() matches Some(x) ==> a2[x as int].parent == par2,
    ensures
        links(a2, t, par2),
    decreases t,
{
    if let Tree::Node(i, l, r) = t {
        lemma_node_indices(t);
        lemma_node_indices(*l);
        lemma_node_indices(*r);
        if let Tree::Node(x, _, _) = *l {
            assert(t.indices().contains(x));
            assert(x != i);
        }
        if let Tree::Node(x, _, _) = *r {
            assert(t.indices().contains(x));
            assert(x != i);
        }
        lemma_links_frame(a, a2, *l, Some(i), Some(i));
        lemma_links_frame(a, a2, *r, Some(i), Some(i));
    }
}

pub proof fn lemma_links_indices(a: Seq<MemtableNode>, t: Tree, par: Option<usize>)
    requires
        links(a, t, par),
    ensures
        forall|j: usize| t.indices().contains(j) ==> j < a.len(),
    decreases t,
{
    if let Tree::Node(i, l, r) = t {
        lemma_links_indices(a, *l, Some(i));
        lemma_links_indices(a, *r, Some(i));
    }
}

// ---------------------------------------------------------------------------
// Replacing a subtree
// ---------------------------------------------------------------------------

pub proof fn lemma_replace_contents(a: Seq<MemtableNode>, t: Tree, p: Seq<bool>, s2: Tree)
    requires
        t.valid_path(p),
        contents(a, s2) == contents(a, t.at(p)),
    ensures
        contents(a, t.replace(p, s2)) == contents(a, t),
    decreases p.len(),
{
    if p.len() > 0 {
        if let Tree::Node(i, l, r) = t {
            if p[0] {
                lemma_replace_contents(a, *r, p.drop_first(), s2);
            } else {
                lemma_replace_contents(a, *l, p.drop_first(), s2);
            }
        }
    }
}

pub proof fn lemma_replace_ordered(
    a: Seq<MemtableNode>,
    t: Tree,
    p: Seq<bool>,
    s2: Tree,
    lo: Option<Seq<u8>>,
    hi: Option<Seq<u8>>,
)
    requires
        ordered(a, t, lo, hi),
        t.valid_path(p),
        ordered(a, s2, bounds_at(a, t, p, lo, hi).0, bounds_at(a, t, p, lo, hi).1),
    ensures
        ordered(a, t.replace(p, s2), lo, hi),
    decreases p.len(),
{
    if p.len() > 0 {
        if let Tree::Node(i, l, r) = t {
            let ki = a[i as int].key@;
            if p[0] {
                lemma_replace_ordered(a, *r, p.drop_first(), s2, Some(ki), hi);
            } else {
                lemma_replace_ordered(a, *l, p.drop_first(), s2, lo, Some(ki));
            }
        }
    }
}

/// Replacing a subtree by one over the same indices keeps the index set.
pub proof fn lemma_replace_same_indices(t: Tree, p: Seq<bool>, s2: Tree)
    requires
        t.valid_path(p),
        s2.indices() == t.at(p).indices(),
    ensures
        t.replace(p, s2).indices() == t.indices(),
    decreases p.len(),
{
    if p.len() > 0 {
        if let Tree::Node(i, l, r) = t {
            if p[0] {
                lemma_replace_same_indices(*r, p.drop_first(), s2);
                assert(t.replace(p, s2).indices() =~= t.indices());
            } else {
                lemma_replace_same_indices(*l, p.drop_first(), s2);
                assert(t.replace(p, s2).indices() =~= t.indices());
            }
        }
    }
}

/// Replacing an empty spot by a single node adds its index.
pub proof fn lemma_replace_leaf_indices(t: Tree, p: Seq<bool>, x: usize)
    requires
        t.valid_path(p),
        t.at(p) == Tree::Leaf,
    ensures
        t.replace(p, Tree::Node(x, Box::new(Tree::Leaf), Box::new(Tree::Leaf))).indices()
            == t.indices().insert(x),
    decreases p.len(),
{
    let s2 = Tree::Node(x, Box::new(Tree::Leaf), Box::new(Tree::Leaf));
    if p.len() == 0 {
        assert(Tree::Leaf.indices() =~= Set::<usize>::empty());
        assert(s2.indices() =~= Set::<usize>::empty().insert(x));
        assert(t.indices() =~= Set::<usize>::empty());
    } else {
        if let Tree::Node(i, l, r) = t {
            if p[0] {
                lemma_replace_leaf_indices(*r, p.drop_first(), x);
            } else {
                lemma_replace_leaf_indices(*l, p.drop_first(), x);
            }
            assert(t.replace(p, s2).indices() =~= t.indices().insert(x));
        }
    }
}

// ---------------------------------------------------------------------------
// Rotations keep order and contents
// ---------------------------------------------------------------------------

pub proof fn lemma_rotate_left_keeps(
    a: Seq<MemtableNode>,
    s: Tree,
    lo: Option<Seq<u8>>,
    hi: Option<Seq<u8>>,
)
    requires
        ordered(a, s, lo, hi),
        s matches Tree::Node(_, _, rt) && *rt is Node,
    ensures
        ordered(a, s.rotate_left(), lo, hi),
        contents(a, s.rotate_left()) == contents(a, s),
        s.rotate_left().indices() == s.indices(),
{
    if let Tree::Node(n, ta, rt) = s {
        if let Tree::Node(r, tb, tc) = *rt {
            let kn = a[n as int].key@;
            let kr = a[r as int].key@;
            lemma_key_order_facts();
            assert(ordered(a, *rt, Some(kn), hi));
            lemma_contents_bounds(a, *ta, lo, Some(kn));
            lemma_contents_bounds(a, *tb, Some(kn), Some(kr));
            lemma_contents_bounds(a, *tc, Some(kr), hi);
            let s2 = s.rotate_left();
            let inner = Tree::Node(n, ta, tb);
            assert(in_bounds(kr, lo, hi));
            assert(ordered(a, inner, lo, Some(kr)));
            let (ma, mb, mc) = (contents(a, *ta), contents(a, *tb), contents(a, *tc));
            let (dn, dr) = (a[n as int].data@, a[r as int].data@);
            assert(contents(a, *rt) == mb.union_prefer_right(mc).insert(kr, dr));
            assert(contents(a, inner) == ma.union_prefer_right(mb).insert(kn, dn));
            assert(key_lt(kn, kr));
            assert forall|k: Seq<u8>| #[trigger] contents(a, s2).contains_key(k) == contents(a, s).contains_key(k)
                && (contents(a, s).contains_key(k) ==> contents(a, s2)[k] == contents(a, s)[k]) by {
                if ma.contains_key(k) {
                    assert(in_bounds(k, lo, Some(kn)));
                }
                if mb.contains_key(k) {
                    assert(in_bounds(k, Some(kn), Some(kr)));
                }
                if mc.contains_key(k) {
                    assert(in_bounds(k, Some(kr), hi));
                }
            }
            assert(contents(a, s2) =~= contents(a, s));
            lemma_rotate_indices(s);
        }
    }
}

pub proof fn lemma_rotate_right_keeps(
    a: Seq<MemtableNode>,
    s: Tree,
    lo: Option<Seq<u8>>,
    hi: Option<Seq<u8>>,
)
    requires
        ordered(a, s, lo, hi),
        s matches Tree::Node(_, lt, _) && *lt is Node,
    ensures
        ordered(a, s.rotate_right(), lo, hi),
        contents(a, s.rotate_right()) == contents(a, s),
        s.rotate_right().indices() == s.indices(),
{
    if let Tree::Node(n, lt, tc) = s {
        if let Tree::Node(l, ta, tb) = *lt {
            let kn = a[n as int].key@;
            let kl = a[l as int].key@;
            lemma_key_order_facts();
            assert(ordered(a, *lt, lo, Some(kn)));
            lemma_contents_bounds(a, *ta, lo, Some(kl));
            lemma_contents_bounds(a, *tb, Some(kl), Some(kn));
            lemma_contents_bounds(a, *tc, Some(kn), hi);
            let s2 = s.rotate_right();
            let inner = Tree::Node(n, tb, tc);
            assert(in_bounds(kl, lo, hi));
            assert(ordered(a, inner, Some(kl), hi));
            let (ma, mb, mc) = (contents(a, *ta), contents(a, *tb), contents(a, *tc));
            let (dn, dl) = (a[n as int].data@, a[l as int].data@);
            assert(contents(a, *lt) == ma.union_prefer_right(mb).insert(kl, dl));
            assert(contents(a, inner) == mb.union_prefer_right(mc).insert(kn, dn));
            assert(key_lt(kl, kn));
            assert forall|k: Seq<u8>| #[trigger] contents(a, s2).contains_key(k) == contents(a, s).contains_key(k)
                && (contents(a, s).contains_key(k) ==> contents(a, s2)[k] == contents(a, s)[k]) by {
                if ma.contains_key(k) {
                    assert(in_bounds(k, lo, Some(kl)));
                }
                if mb.contains_key(k) {
                    assert(in_bounds(k, Some(kl), Some(kn)));
                }
                if mc.contains_key(k) {
                    assert(in_bounds(k, Some(kn), hi));
                }
            }
            assert(contents(a, s2) =~= contents(a, s));
            lemma_rotate_indices(s);
        }
    }
}


// ---------------------------------------------------------------------------
// Writing a value and adding a node
// ---------------------------------------------------------------------------

/// Every index of an ordered tree carries a key within its bounds.
pub proof fn lemma_index_bounds(
    a: Seq<MemtableNode>,
    t: Tree,
    lo: Option<Seq<u8>>,
    hi: Option<Seq<u8>>,
    j: usize,
)
    requires
        ordered(a, t, lo, hi),
        t.indices().contains(j),
    ensures
        in_bounds(a[j as int].key@, lo, hi),
{
    lemma_contents_has_node(a, t, lo, hi, j);
    lemma_contents_bounds(a, t, lo, hi);
}

/// Overwriting the data of one node maps its key to the new data.
pub proof fn lemma_contents_update(
    a: Seq<MemtableNode>,
    a2: Seq<MemtableNode>,
    t: Tree,
    lo: Option<Seq<u8>>,
    hi: Option<Seq<u8>>,
    j: usize,
)
    requires
        ordered(a, t, lo, hi),
        t.indices().contains(j),
        forall|m: usize|
            t.indices().contains(m) ==> m < a.len() && m < a2.len() && a2[m as int].key@
                == a[m as int].key@ && (m != j ==> a2[m as int].data@ == a[m as int].data@),
    ensures
        ordered(a2, t, lo, hi),
        contents(a2, t) == contents(a, t).insert(a[j as int].key@, a2[j as int].data@),
    decreases t,
{
    if let Tree::Node(i, l, r) = t {
        let ki = a[i as int].key@;
        let kj = a[j as int].key@;
        lemma_key_order_facts();
        lemma_node_indices(t);
        lemma_ordered_frame(a, a2, t, lo, hi);
        crate::keys::lemma_key_lt_irreflexive(kj);
        if j == i {
            if l.indices().contains(j) {
                lemma_index_bounds(a, *l, lo, Some(ki), j);
                assert(in_bounds(kj, lo, Some(ki)));
            }
            if r.indices().contains(j) {
                lemma_index_bounds(a, *r, Some(ki), hi, j);
                assert(in_bounds(kj, Some(ki), hi));
            }
            lemma_kd_frame(a, a2, *l, lo, Some(ki));
            lemma_kd_frame(a, a2, *r, Some(ki), hi);
            assert(contents(a2, t) =~= contents(a, t).insert(kj, a2[j as int].data@));
        } else if l.indices().contains(j) {
            lemma_index_bounds(a, *l, lo, Some(ki), j);
            assert(in_bounds(kj, lo, Some(ki)));
            if r.indices().contains(j) {
                lemma_index_bounds(a, *r, Some(ki), hi, j);
                assert(in_bounds(kj, Some(ki), hi));
            }
            lemma_contents_update(a, a2, *l, lo, Some(ki), j);
            lemma_kd_frame(a, a2, *r, Some(ki), hi);
            lemma_contents_bounds(a, *r, Some(ki), hi);
            if contents(a, *r).contains_key(kj) {
                assert(in_bounds(kj, Some(ki), hi));
            }
            assert(contents(a2, t) =~= contents(a, t).insert(kj, a2[j as int].data@));
        } else {
            lemma_index_bounds(a, *r, Some(ki), hi, j);
            assert(in_bounds(kj, Some(ki), hi));
            lemma_contents_update(a, a2, *r, Some(ki), hi, j);
            lemma_kd_frame(a, a2, *l, lo, Some(ki));
            lemma_contents_bounds(a, *l, lo, Some(ki));
            if contents(a, *l).contains_key(kj) {
                assert(in_bounds(kj, lo, Some(ki)));
            }
            assert(contents(a2, t) =~= contents(a, t).insert(kj, a2[j as int].data@));
        }
    }
}

/// Hanging a new node into an empty spot whose bounds admit its key keeps
/// the order and maps the key to its data.
pub proof fn lemma_contents_insert_leaf(
    a: Seq<MemtableNode>,
    t: Tree,
    q: Seq<bool>,
    lo: Option<Seq<u8>>,
    hi: Option<Seq<u8>>,
    x: usize,
)
    requires
        ordered(a, t, lo, hi),
        t.valid_path(q),
        t.at(q) == Tree::Leaf,
        x < a.len(),
        in_bounds(a[x as int].key@, bounds_at(a, t, q, lo, hi).0, bounds_at(a, t, q, lo, hi).1),
    ensures
        ordered(a, t.replace(q, Tree::Node(x, Box::new(Tree::Leaf), Box::new(Tree::Leaf))), lo, hi),
        contents(a, t.replace(q, Tree::Node(x, Box::new(Tree::Leaf), Box::new(Tree::Leaf))))
            == contents(a, t).insert(a[x as int].key@, a[x as int].data@),
    decreases q.len(),
{
    let s1 = Tree::Node(x, Box::new(Tree::Leaf), Box::new(Tree::Leaf));
    let kx = a[x as int].key@;
    let (l2, h2) = bounds_at(a, t, q, lo, hi);
    assert(ordered(a, Tree::Leaf, l2, Some(kx)));
    assert(ordered(a, Tree::Leaf, Some(kx), h2));
    assert(ordered(a, s1, l2, h2));
    assert(contents(a, Tree::Leaf) == Map::<Seq<u8>, Option<Seq<u8>>>::empty());
    lemma_replace_ordered(a, t, q, s1, lo, hi);
    if q.len() == 0 {
        assert(contents(a, s1) =~= Map::<Seq<u8>, Option<Seq<u8>>>::empty().insert(
            kx,
            a[x as int].data@,
        ));
    } else {
        if let Tree::Node(i, l, r) = t {
            let ki = a[i as int].key@;
            lemma_key_order_facts();
            crate::keys::lemma_key_lt_irreflexive(ki);
            if q[0] {
                lemma_contents_insert_leaf(a, *r, q.drop_first(), Some(ki), hi, x);
                lemma_bounds_lo(a, *r, q.drop_first(), Some(ki), hi);
                lemma_contents_bounds(a, *l, lo, Some(ki));
                assert(key_lt(l2->0, kx));
                assert(key_lt(ki, kx));
                if contents(a, *l).contains_key(kx) {
                    assert(in_bounds(kx, lo, Some(ki)));
                    crate::keys::lemma_key_lt_asymmetric(ki, kx);
                }
            } else {
                lemma_contents_insert_leaf(a, *l, q.drop_first(), lo, Some(ki), x);
                lemma_bounds_hi(a, *l, q.drop_first(), lo, Some(ki));
                lemma_contents_bounds(a, *r, Some(ki), hi);
                assert(key_lt(kx, h2->0));
                assert(key_lt(kx, ki));
                if contents(a, *r).contains_key(kx) {
                    assert(in_bounds(kx, Some(ki), hi));
                    crate::keys::lemma_key_lt_asymmetric(ki, kx);
                }
            }
            assert(contents(a, t.replace(q, s1)) =~= contents(a, t).insert(kx, a[x as int].data@));
        }
    }
}

/// The links after hanging node `x` below the node at the end of `q`.
pub open spec fn leaf_linked(a: Seq<MemtableNode>, a2: Seq<MemtableNode>, pi: usize, d: bool, x: usize) -> bool {
    &&& a.len() <= a2.len()
    &&& x < a2.len()
    &&& a2[x as int].left == None::<usize>
    &&& a2[x as int].right == None::<usize>
    &&& a2[x as int].parent == Some(pi)
    &&& a2[pi as int].parent == a[pi as int].parent
    &&& (if d {
        a2[pi as int].right == Some(x) && a2[pi as int].left == a[pi as int].left
    } else {
        a2[pi as int].left == Some(x) && a2[pi as int].right == a[pi as int].right
    })
    &&& forall|j: usize|
        j != pi && j != x && j < a.len() ==> a2[j as int].left == a[j as int].left
            && a2[j as int].right == a[j as int].right && a2[j as int].parent == a[j as int].parent
}

pub proof fn lemma_links_insert_leaf(
    a: Seq<MemtableNode>,
    a2: Seq<MemtableNode>,
    t: Tree,
    par: Option<usize>,
    q: Seq<bool>,
    x: usize,
)
    requires
        links(a, t, par),
        q.len() > 0,
        t.valid_path(q),
        t.at(q) == Tree::Leaf,
        x >= a.len(),
        par matches Some(pi) ==> !t.indices().contains(pi),
        leaf_linked(a, a2, t.at(q.drop_last())->0, q.last(), x),
    ensures
        links(a2, t.replace(q, Tree::Node(x, Box::new(Tree::Leaf), Box::new(Tree::Leaf))), par),
    decreases q.len(),
{
    lemma_links_indices(a, t, par);
    if let Tree::Node(i, l, r) = t {
        let s1 = Tree::Node(x, Box::new(Tree::Leaf), Box::new(Tree::Leaf));
        let d = q[0];
        let c = t.child(d);
        let q2 = q.drop_first();
        let pi = t.at(q.drop_last())->0;
        lemma_node_indices(t);
        lemma_node_indices(*l);
        lemma_node_indices(*r);
        lemma_root_facts(a, *l, Some(i));
        lemma_root_facts(a, *r, Some(i));
        assert(Tree::Leaf.indices() =~= Set::<usize>::empty());
        assert(links(a2, Tree::Leaf, Some(x)));
        if q2.len() == 0 {
            assert(q.drop_last() =~= Seq::<bool>::empty());
            assert(pi == i);
            assert(c.at(q2) == c);
            assert(c == Tree::Leaf);
            assert(q.last() == d);
            assert(links(a2, s1, Some(i)));
            assert(s1.indices() =~= Set::<usize>::empty().insert(x));
            if d {
                lemma_links_frame(a, a2, *l, Some(i), Some(i));
                assert(t.replace(q, s1) == Tree::Node(i, l, Box::new(s1)));
                assert(a2[i as int].left == l.root());
                assert(a2[i as int].parent == par);
                assert(l.indices().disjoint(s1.indices()));
            } else {
                lemma_links_frame(a, a2, *r, Some(i), Some(i));
                assert(t.replace(q, s1) == Tree::Node(i, Box::new(s1), r));
                assert(a2[i as int].right == r.root());
                assert(a2[i as int].parent == par);
                assert(r.indices().disjoint(s1.indices()));
            }
        } else {
            assert(q.drop_last()[0] == d);
            assert(q.drop_last().drop_first() =~= q2.drop_last());
            assert(q2.last() == q.last());
            assert(q2 =~= q2.drop_last().push(q2.last()));
            lemma_at_push(c, q2.drop_last(), q2.last());
            lemma_at_indices(c, q2.drop_last());
            let up = c.at(q2.drop_last());
            lemma_node_indices(up);
            assert(c.indices().contains(pi));
            lemma_links_insert_leaf(a, a2, c, Some(i), q2, x);
            lemma_replace_leaf_indices(c, q2, x);
            let c2 = c.replace(q2, s1);
            assert(c2.root() == c.root());
            assert(i != pi);
            assert(a2[i as int].left == a[i as int].left);
            assert(a2[i as int].right == a[i as int].right);
            assert(a2[i as int].parent == a[i as int].parent);
            if d {
                lemma_links_frame(a, a2, *l, Some(i), Some(i));
                assert(t.replace(q, s1) == Tree::Node(i, l, Box::new(c2)));
            } else {
                lemma_links_frame(a, a2, *r, Some(i), Some(i));
                assert(t.replace(q, s1) == Tree::Node(i, Box::new(c2), r));
            }
        }
    }
}

// ---------------------------------------------------------------------------
// Rotations in the arena
// ---------------------------------------------------------------------------

/// The arena links after `left_rotate(n)`: the right child `r` of `n` takes
/// its place, `n` becomes the left child of `r`, and the old left child of
/// `r` becomes the right child of `n`.
pub open spec fn left_rotated(a: Seq<MemtableNode>, a2: Seq<MemtableNode>, n: usize) -> bool {
    let r = a[n as int].right->0;
    let b = a[r as int].left;
    let pp = a[n as int].parent;
    &&& a2.len() == a.len()
    &&& a2[n as int].left == a[n as int].left
    &&& a2[n as int].right == b
    &&& a2[n as int].parent == Some(r)
    &&& a2[r as int].left == Some(n)
    &&& a2[r as int].right == a[r as int].right
    &&& a2[r as int].parent == pp
    &&& (b matches Some(bi) ==> a2[bi as int].left == a[bi as int].left && a2[bi as int].right
        == a[bi as int].right && a2[bi as int].parent == Some(n))
    &&& (pp matches Some(pi) ==> a2[pi as int].parent == a[pi as int].parent && if a[pi as int].left
        == Some(n) {
        a2[pi as int].left == Some(r) && a2[pi as int].right == a[pi as int].right
    } else {
        a2[pi as int].right == Some(r) && a2[pi as int].left == a[pi as int].left
    })
    &&& forall|j: usize|
        j < a.len() && j != n && j != r && Some(j) != b && Some(j) != pp ==> a2[j as int].left
            == a[j as int].left && a2[j as int].right == a[j as int].right && a2[j as int].parent
            == a[j as int].parent
}

/// The arena links after `right_rotate(n)`, the mirror image.
pub open spec fn right_rotated(a: Seq<MemtableNode>, a2: Seq<MemtableNode>, n: usize) -> bool {
    let l = a[n as int].left->0;
    let b = a[l as int].right;
    let pp = a[n as int].parent;
    &&& a2.len() == a.len()
    &&& a2[n as int].right == a[n as int].right
    &&& a2[n as int].left == b
    &&& a2[n as int].parent == Some(l)
    &&& a2[l as int].right == Some(n)
    &&& a2[l as int].left == a[l as int].left
    &&& a2[l as int].parent == pp
    &&& (b matches Some(bi) ==> a2[bi as int].left == a[bi as int].left && a2[bi as int].right
        == a[bi as int].right && a2[bi as int].parent == Some(n))
    &&& (pp matches Some(pi) ==> a2[pi as int].parent == a[pi as int].parent && if a[pi as int].left
        == Some(n) {
        a2[pi as int].left == Some(l) && a2[pi as int].right == a[pi as int].right
    } else {
        a2[pi as int].right == Some(l) && a2[pi as int].left == a[pi as int].left
    })
    &&& forall|j: usize|
        j < a.len() && j != n && j != l && Some(j) != b && Some(j) != pp ==> a2[j as int].left
            == a[j as int].left && a2[j as int].right == a[j as int].right && a2[j as int].parent
            == a[j as int].parent
}

pub proof fn lemma_links_rotate_left(
    a: Seq<MemtableNode>,
    a2: Seq<MemtableNode>,
    t: Tree,
    par: Option<usize>,
    q: Seq<bool>,
)
    requires
        links(a, t, par),
        par matches Some(pi) ==> !t.indices().contains(pi),
        t.valid_path(q),
        t.at(q) matches Tree::Node(_, _, rt) && *rt is Node,
        left_rotated(a, a2, t.at(q)->0),
    ensures
        links(a2, t.replace(q, t.at(q).rotate_left()), par),
    decreases q.len(),
{
    lemma_links_indices(a, t, par);
    lemma_links_at(a, t, par, q);
    if let Tree::Node(i, l, r) = t {
        if q.len() == 0 {
            if let Tree::Node(rr, tb, tc) = *r {
                let n = i;
                assert(links(a, *r, Some(n)));
                lemma_node_indices(t);
                lemma_node_indices(*r);
                lemma_root_facts(a, *l, Some(n));
                lemma_root_facts(a, *tb, Some(rr));
                lemma_root_facts(a, *tc, Some(rr));
                lemma_links_indices(a, *l, Some(n));
                lemma_links_indices(a, *tb, Some(rr));
                lemma_links_indices(a, *tc, Some(rr));
                assert(a[n as int].right == Some(rr));
                assert(a[rr as int].left == tb.root());
                assert(a[n as int].parent == par);
                lemma_links_frame(a, a2, *l, Some(n), Some(n));
                lemma_links_frame(a, a2, *tb, Some(rr), Some(n));
                lemma_links_frame(a, a2, *tc, Some(rr), Some(rr));
                let inner = Tree::Node(n, l, tb);
                assert(inner.indices() == l.indices().union(tb.indices()).insert(n));
                assert(links(a2, inner, Some(rr)));
                assert(t.rotate_left() == Tree::Node(rr, Box::new(inner), tc));
                assert(inner.indices().disjoint(tc.indices()));
                assert(links(a2, t.rotate_left(), par));
            }
        } else {
            let d = q[0];
            let c = t.child(d);
            let q2 = q.drop_first();
            let s = t.at(q);
            assert(s == c.at(q2));
            lemma_node_indices(t);
            lemma_root_facts(a, *l, Some(i));
            lemma_root_facts(a, *r, Some(i));
            lemma_at_indices(c, q2);
            lemma_links_at(a, c, Some(i), q2);
            let pp = c.parent_at(q2, Some(i));
            lemma_root_facts(a, s, pp);
            let n = s->0;
            lemma_node_indices(s);
            if let Tree::Node(_, _, rt) = s {
                lemma_node_indices(*rt);
                assert(links(a, *rt, Some(n)));
                lemma_root_facts(a, *rt, Some(n));
                if let Tree::Node(_, lb, rb) = *rt {
                    lemma_node_indices(*lb);
                    lemma_root_facts(a, *lb, Some(rt->0));
                }
            }
            lemma_links_rotate_left(a, a2, c, Some(i), q2);
            lemma_rotate_indices(s);
            lemma_replace_same_indices(c, q2, s.rotate_left());
            let c2 = c.replace(q2, s.rotate_left());
            if q2.len() > 0 {
                lemma_parent_inside(a, c, Some(i), q2);
                assert(c2.root() == c.root());
            } else {
                assert(pp == Some(i));
                assert(c2 == s.rotate_left());
            }
            if d {
                lemma_links_frame(a, a2, *l, Some(i), Some(i));
                assert(t.replace(q, s.rotate_left()) == Tree::Node(i, l, Box::new(c2)));
            } else {
                lemma_links_frame(a, a2, *r, Some(i), Some(i));
                assert(t.replace(q, s.rotate_left()) == Tree::Node(i, Box::new(c2), r));
            }
        }
    }
}

pub proof fn lemma_links_rotate_right(
    a: Seq<MemtableNode>,
    a2: Seq<MemtableNode>,
    t: Tree,
    par: Option<usize>,
    q: Seq<bool>,
)
    requires
        links(a, t, par),
        par matches Some(pi) ==> !t.indices().contains(pi),
        t.valid_path(q),
        t.at(q) matches Tree::Node(_, lt, _) && *lt is Node,
        right_rotated(a, a2, t.at(q)->0),
    ensures
        links(a2, t.replace(q, t.at(q).rotate_right()), par),
    decreases q.len(),
{
    lemma_links_indices(a, t, par);
    lemma_links_at(a, t, par, q);
    if let Tree::Node(i, l, r) = t {
        if q.len() == 0 {
            if let Tree::Node(ll, ta, tb) = *l {
                let n = i;
                assert(links(a, *l, Some(n)));
                lemma_node_indices(t);
                lemma_node_indices(*l);
                lemma_root_facts(a, *r, Some(n));
                lemma_root_facts(a, *ta, Some(ll));
                lemma_root_facts(a, *tb, Some(ll));
                lemma_links_indices(a, *r, Some(n));
                lemma_links_indices(a, *ta, Some(ll));
                lemma_links_indices(a, *tb, Some(ll));
                assert(a[n as int].left == Some(ll));
                assert(a[ll as int].right == tb.root());
                assert(a[n as int].parent == par);
                lemma_links_frame(a, a2, *r, Some(n), Some(n));
                lemma_links_frame(a, a2, *tb, Some(ll), Some(n));
                lemma_links_frame(a, a2, *ta, Some(ll), Some(ll));
                let inner = Tree::Node(n, tb, r);
                assert(inner.indices() == tb.indices().union(r.indices()).insert(n));
                assert(links(a2, inner, Some(ll)));
                assert(t.rotate_right() == Tree::Node(ll, ta, Box::new(inner)));
                assert(inner.indices().disjoint(ta.indices()));
                assert(links(a2, t.rotate_right(), par));
            }
        } else {
            let d = q[0];
            let c = t.child(d);
            let q2 = q.drop_first();
            let s = t.at(q);
            assert(s == c.at(q2));
            lemma_node_indices(t);
            lemma_root_facts(a, *l, Some(i));
            lemma_root_facts(a, *r, Some(i));
            lemma_at_indices(c, q2);
            lemma_links_at(a, c, Some(i), q2);
            let pp = c.parent_at(q2, Some(i));
            lemma_root_facts(a, s, pp);
            let n = s->0;
            lemma_node_indices(s);
            if let Tree::Node(_, lt, _) = s {
                lemma_node_indices(*lt);
                assert(links(a, *lt, Some(n)));
                lemma_root_facts(a, *lt, Some(n));
                if let Tree::Node(_, lb, rb) = *lt {
                    lemma_node_indices(*rb);
                    lemma_root_facts(a, *rb, Some(lt->0));
                }
            }
            lemma_links_rotate_right(a, a2, c, Some(i), q2);
            lemma_rotate_indices(s);
            lemma_replace_same_indices(c, q2, s.rotate_right());
            let c2 = c.replace(q2, s.rotate_right());
            if q2.len() > 0 {
                lemma_parent_inside(a, c, Some(i), q2);
                assert(c2.root() == c.root());
            } else {
                assert(pp == Some(i));
                assert(c2 == s.rotate_right());
            }
            if d {
                lemma_links_frame(a, a2, *l, Some(i), Some(i));
                assert(t.replace(q, s.rotate_right()) == Tree::Node(i, l, Box::new(c2)));
            } else {
                lemma_links_frame(a, a2, *r, Some(i), Some(i));
                assert(t.replace(q, s.rotate_right()) == Tree::Node(i, Box::new(c2), r));
            }
        }
    }
}

pub proof fn lemma_rotate_indices(s: Tree)
    ensures
        s.rotate_left().indices() == s.indices(),
        s.rotate_right().indices() == s.indices(),
{
    if let Tree::Node(n, lt, rt) = s {
        if let Tree::Node(r, b, c) = *rt {
            let inner = Tree::Node(n, lt, b);
            assert(rt.indices() == b.indices().union(c.indices()).insert(r));
            assert(inner.indices() == lt.indices().union(b.indices()).insert(n));
            assert(s.rotate_left().indices() =~= s.indices());
        }
        if let Tree::Node(l, a, b) = *lt {
            let inner = Tree::Node(n, b, rt);
            assert(lt.indices() == a.indices().union(b.indices()).insert(l));
            assert(inner.indices() == b.indices().union(rt.indices()).insert(n));
            assert(s.rotate_right().indices() =~= s.indices());
        }
    }
}

/// Below the root, the parent of a subtree is a node of the tree outside
/// that subtree.
pub proof fn lemma_parent_inside(a: Seq<MemtableNode>, t: Tree, par: Option<usize>, q: Seq<bool>)
    requires
        links(a, t, par),
        q.len() > 0,
        t.valid_path(q),
    ensures
        t.parent_at(q, par) matches Some(pi) && t.indices().contains(pi) && !t.at(q).indices().contains(pi),
    decreases q.len(),
{
    if let Tree::Node(i, l, r) = t {
        let c = t.child(q[0]);
        let q2 = q.drop_first();
        lemma_at_indices(c, q2);
        if q2.len() == 0 {
            assert(q.drop_last() =~= Seq::<bool>::empty());
        } else {
            lemma_parent_inside(a, c, Some(i), q2);
            assert(q.drop_last().drop_first() =~= q2.drop_last());
            lemma_at_indices(c, q2.drop_last());
        }
    }
}


/// The number of nodes on the longest path down.
pub open spec fn height(t: Tree) -> nat
    decreases t,
{
    match t {
        Tree::Leaf => 0,
        Tree::Node(_, l, r) => 1 + if height(*l) >= height(*r) {
            height(*l)
        } else {
            height(*r)
        },
    }
}

/// A path that ends at a node is shorter than the tree is high.
pub proof fn lemma_path_height(t: Tree, p: Seq<bool>)
    requires
        t.valid_path(p),
        t.at(p) is Node,
    ensures
        p.len() < height(t),
    decreases p.len(),
{
    if p.len() > 0 {
        lemma_path_height(t.child(p[0]), p.drop_first());
    }
}


/// Replacing the subtree at a path puts the new subtree there; below the
/// root the root stays.
pub proof fn lemma_replace_at(t: Tree, q: Seq<bool>, s: Tree)
    requires
        t.valid_path(q),
    ensures
        t.replace(q, s).at(q) == s,
        t.replace(q, s).valid_path(q),
        q.len() > 0 ==> t.replace(q, s).root() == t.root(),
        q.len() > 0 ==> t.replace(q, s) is Node,
    decreases q.len(),
{
    if q.len() > 0 {
        if let Tree::Node(i, l, r) = t {
            if q[0] {
                lemma_replace_at(*r, q.drop_first(), s);
            } else {
                lemma_replace_at(*l, q.drop_first(), s);
            }
        }
    }
}

/// What the links say about the node at `q`: its children and parent, all
/// distinct indices of the arena.
pub proof fn lemma_node_links(a: Seq<MemtableNode>, t: Tree, q: Seq<bool>)
    requires
        links(a, t, None),
        t.valid_path(q),
        t.at(q) is Node,
    ensures
        ({
            let s = t.at(q);
            let i = s->0;
            let l = s.child(false);
            let r = s.child(true);
            &&& i < a.len()
            &&& t.indices().contains(i)
            &&& a[i as int].left == l.root()
            &&& a[i as int].right == r.root()
            &&& a[i as int].parent == t.parent_at(q, None)
            &&& l.root() != Some(i)
            &&& r.root() != Some(i)
            &&& (l.root() is Some ==> l.root() != r.root())
            &&& s.indices().contains(i)
            &&& (l.root() matches Some(x) ==> x < a.len() && a[x as int].parent == Some(i)
                && t.indices().contains(x) && s.indices().contains(x))
            &&& (r.root() matches Some(x) ==> x < a.len() && a[x as int].parent == Some(i)
                && t.indices().contains(x) && s.indices().contains(x))
            &&& (t.parent_at(q, None) matches Some(pi) ==> pi != i && !s.indices().contains(pi)
                && t.indices().contains(pi) && pi < a.len())
            &&& (t.parent_at(q, None) is None <==> q.len() == 0)
            &&& (q.len() > 0 ==> t.root() != Some(i))
        })
{
    let s = t.at(q);
    lemma_links_at(a, t, None, q);
    lemma_links_indices(a, t, None);
    lemma_at_indices(t, q);
    lemma_node_indices(s);
    if let Tree::Node(i, l, r) = s {
        lemma_root_facts(a, *l, Some(i));
        lemma_root_facts(a, *r, Some(i));
        lemma_node_indices(*l);
        lemma_node_indices(*r);
    }
    if q.len() > 0 {
        lemma_parent_inside(a, t, None, q);
        assert(q =~= q.drop_last().push(q.last()));
        lemma_at_push(t, q.drop_last(), q.last());
        if let Tree::Node(ti, tl, tr) = t {
            lemma_node_indices(t);
            lemma_at_indices(t.child(q[0]), q.drop_first());
        }
    }
}


/// Keys at the tree's indices decide the bounds along a path.
pub proof fn lemma_bounds_frame(
    a: Seq<MemtableNode>,
    a2: Seq<MemtableNode>,
    t: Tree,
    p: Seq<bool>,
    lo: Option<Seq<u8>>,
    hi: Option<Seq<u8>>,
)
    requires
        forall|j: usize| t.indices().contains(j) ==> a2[j as int].key@ == a[j as int].key@,
    ensures
        bounds_at(a2, t, p, lo, hi) == bounds_at(a, t, p, lo, hi),
    decreases p.len(),
{
    if p.len() > 0 {
        if let Tree::Node(i, l, r) = t {
            lemma_node_indices(t);
            if p[0] {
                lemma_bounds_frame(a, a2, *r, p.drop_first(), Some(a[i as int].key@), hi);
            } else {
                lemma_bounds_frame(a, a2, *l, p.drop_first(), lo, Some(a[i as int].key@));
            }
        }
    }
}


/// The arena holds a search tree whose links follow the ghost shape, over
/// exactly the arena's indices, rooted at `root`.
pub open spec fn structured(a: Seq<MemtableNode>, t: Tree, root: Option<usize>) -> bool {
    &&& t.root() == root
    &&& links(a, t, None)
    &&& forall|j: usize| j < a.len() <==> #[trigger] t.indices().contains(j)
    &&& ordered(a, t, None, None)
}

/// Keys, data and colours stay as they were.
pub open spec fn same_payload(a: Seq<MemtableNode>, a2: Seq<MemtableNode>) -> bool {
    &&& a2.len() == a.len()
    &&& forall|j: int|
        0 <= j < a.len() ==> a2[j].key == a[j].key && a2[j].data == a[j].data && a2[j].color
            == a[j].color
}

/// Only colours changed.
pub open spec fn recolored(a: Seq<MemtableNode>, a2: Seq<MemtableNode>) -> bool {
    &&& a2.len() == a.len()
    &&& forall|j: int|
        0 <= j < a.len() ==> a2[j].key == a[j].key && a2[j].data == a[j].data && a2[j].left
            == a[j].left && a2[j].right == a[j].right && a2[j].parent == a[j].parent
}

pub proof fn lemma_recolor_keeps(a: Seq<MemtableNode>, a2: Seq<MemtableNode>, t: Tree, root: Option<usize>)
    requires
        structured(a, t, root),
        recolored(a, a2),
    ensures
        structured(a2, t, root),
        contents(a2, t) == contents(a, t),
{
    lemma_links_indices(a, t, None);
    lemma_links_frame(a, a2, t, None, None);
    lemma_kd_frame(a, a2, t, None, None);
    assert forall|j: usize| j < a2.len() <==> #[trigger] t.indices().contains(j) by {
        assert(j < a.len() <==> t.indices().contains(j));
    }
}

/// A left rotation at `q` keeps the arena a search tree with the same
/// contents, over the rotated shape.
pub proof fn lemma_rotation_left_keeps(
    a: Seq<MemtableNode>,
    a2: Seq<MemtableNode>,
    t: Tree,
    root: Option<usize>,
    q: Seq<bool>,
    root2: Option<usize>,
)
    requires
        structured(a, t, root),
        t.valid_path(q),
        t.at(q) matches Tree::Node(_, _, rt) && *rt is Node,
        left_rotated(a, a2, t.at(q)->0),
        same_payload(a, a2),
        root2 == t.replace(q, t.at(q).rotate_left()).root(),
    ensures
        structured(a2, t.replace(q, t.at(q).rotate_left()), root2),
        contents(a2, t.replace(q, t.at(q).rotate_left())) == contents(a, t),
        t.replace(q, t.at(q).rotate_left()).indices() == t.indices(),
{
    let s = t.at(q);
    let s2 = s.rotate_left();
    let t2 = t.replace(q, s2);
    let (lo, hi) = bounds_at(a, t, q, None, None);
    lemma_links_rotate_left(a, a2, t, None, q);
    lemma_ordered_at(a, t, q, None, None);
    lemma_rotate_left_keeps(a, s, lo, hi);
    lemma_replace_ordered(a, t, q, s2, None, None);
    lemma_replace_contents(a, t, q, s2);
    lemma_rotate_indices(s);
    lemma_replace_same_indices(t, q, s2);
    lemma_links_indices(a, t, None);
    lemma_kd_frame(a, a2, t2, None, None);
    assert forall|j: usize| j < a2.len() <==> #[trigger] t2.indices().contains(j) by {
        assert(j < a.len() <==> t.indices().contains(j));
    }
}

/// A right rotation at `q` keeps the arena a search tree with the same
/// contents, over the rotated shape.
pub proof fn lemma_rotation_right_keeps(
    a: Seq<MemtableNode>,
    a2: Seq<MemtableNode>,
    t: Tree,
    root: Option<usize>,
    q: Seq<bool>,
    root2: Option<usize>,
)
    requires
        structured(a, t, root),
        t.valid_path(q),
        t.at(q) matches Tree::Node(_, lt, _) && *lt is Node,
        right_rotated(a, a2, t.at(q)->0),
        same_payload(a, a2),
        root2 == t.replace(q, t.at(q).rotate_right()).root(),
    ensures
        structured(a2, t.replace(q, t.at(q).rotate_right()), root2),
        contents(a2, t.replace(q, t.at(q).rotate_right())) == contents(a, t),
        t.replace(q, t.at(q).rotate_right()).indices() == t.indices(),
{
    let s = t.at(q);
    let s2 = s.rotate_right();
    let t2 = t.replace(q, s2);
    let (lo, hi) = bounds_at(a, t, q, None, None);
    lemma_links_rotate_right(a, a2, t, None, q);
    lemma_ordered_at(a, t, q, None, None);
    lemma_rotate_right_keeps(a, s, lo, hi);
    lemma_replace_ordered(a, t, q, s2, None, None);
    lemma_replace_contents(a, t, q, s2);
    lemma_rotate_indices(s);
    lemma_replace_same_indices(t, q, s2);
    lemma_links_indices(a, t, None);
    lemma_kd_frame(a, a2, t2, None, None);
    assert forall|j: usize| j < a2.len() <==> #[trigger] t2.indices().contains(j) by {
        assert(j < a.len() <==> t.indices().contains(j));
    }
}

} // verus!
