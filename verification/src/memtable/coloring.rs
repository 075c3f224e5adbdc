//! The red-black rules and how the insertion fix-up keeps them: a red leaf
//! added below a node leaves at most one red node with a red parent, and
//! each fix-up step moves that exception up or removes it.

use vstd::prelude::*;
use super::inner::{Color, MemtableNode};
use super::tree::{
    black_height, bh_ok, is_red, lemma_at_indices, lemma_color_frame, lemma_node_indices,
    lemma_root_facts, links, red_ok, Tree,
};

verus! {

pub proof fn lemma_red_ok_weaken(a: Seq<MemtableNode>, t: Tree, ex: Option<usize>)
    requires
        red_ok(a, t, None),
    ensures
        red_ok(a, t, ex),
    decreases t,
{
    if let Tree::Node(i, l, r) = t {
        lemma_red_ok_weaken(a, *l, ex);
        lemma_red_ok_weaken(a, *r, ex);
    }
}

/// An exception that names the root, or no node of the tree, excuses
/// nothing.
pub proof fn lemma_red_ok_strict(a: Seq<MemtableNode>, t: Tree, par: Option<usize>, ex: Option<usize>)
    requires
        links(a, t, par),
        red_ok(a, t, ex),
        ex matches Some(e) ==> (t.root() == Some(e) || !t.indices().contains(e)),
    ensures
        red_ok(a, t, None),
    decreases t,
{
    if let Tree::Node(i, l, r) = t {
        lemma_node_indices(t);
        lemma_node_indices(*l);
        lemma_node_indices(*r);
        lemma_root_facts(a, *l, Some(i));
        lemma_root_facts(a, *r, Some(i));
        lemma_red_ok_strict(a, *l, Some(i), ex);
        lemma_red_ok_strict(a, *r, Some(i), ex);
    }
}

pub proof fn lemma_red_ok_at(a: Seq<MemtableNode>, t: Tree, q: Seq<bool>, ex: Option<usize>)
    requires
        red_ok(a, t, ex),
    ensures
        red_ok(a, t.at(q), ex),
    decreases q.len(),
{
    if q.len() > 0 {
        match t {
            Tree::Leaf => {
                super::tree::lemma_at_leaf(q);
            },
            Tree::Node(i, l, r) => {
                lemma_red_ok_at(a, t.child(q[0]), q.drop_first(), ex);
            },
        }
    }
}

pub proof fn lemma_bh_ok_at(a: Seq<MemtableNode>, t: Tree, q: Seq<bool>)
    requires
        bh_ok(a, t),
    ensures
        bh_ok(a, t.at(q)),
    decreases q.len(),
{
    if q.len() > 0 {
        match t {
            Tree::Leaf => {
                super::tree::lemma_at_leaf(q);
            },
            Tree::Node(i, l, r) => {
                lemma_bh_ok_at(a, t.child(q[0]), q.drop_first());
            },
        }
    }
}

/// Replacing the subtree at `q` by one of the same black height, whose
/// paths are balanced, keeps every path of the tree balanced.
pub proof fn lemma_bh_replace(
    a: Seq<MemtableNode>,
    a2: Seq<MemtableNode>,
    t: Tree,
    par: Option<usize>,
    q: Seq<bool>,
    s2: Tree,
)
    requires
        links(a, t, par),
        bh_ok(a, t),
        t.valid_path(q),
        forall|j: usize|
            t.indices().contains(j) && !t.at(q).indices().contains(j) ==> a2[j as int].color
                == a[j as int].color,
        bh_ok(a2, s2),
        black_height(a2, s2) == black_height(a, t.at(q)),
    ensures
        bh_ok(a2, t.replace(q, s2)),
        black_height(a2, t.replace(q, s2)) == black_height(a, t),
    decreases q.len(),
{
    if q.len() > 0 {
        if let Tree::Node(i, l, r) = t {
            let d = q[0];
            let c = t.child(d);
            let q2 = q.drop_first();
            lemma_node_indices(t);
            lemma_at_indices(c, q2);
            assert(t.at(q) == c.at(q2));
            lemma_bh_replace(a, a2, c, Some(i), q2, s2);
            if d {
                lemma_color_frame(a, a2, *l);
            } else {
                lemma_color_frame(a, a2, *r);
            }
        }
    }
}

/// Replacing the subtree at `q` that holds the exception by one that keeps
/// the red rule (with a new exception), and whose root the parent above
/// admits, keeps the red rule of the whole tree.
pub proof fn lemma_red_replace(
    a: Seq<MemtableNode>,
    a2: Seq<MemtableNode>,
    t: Tree,
    par: Option<usize>,
    q: Seq<bool>,
    s2: Tree,
    ex: Option<usize>,
    ex2: Option<usize>,
)
    requires
        links(a, t, par),
        red_ok(a, t, ex),
        t.valid_path(q),
        ex matches Some(e) ==> t.at(q).indices().contains(e),
        forall|j: usize|
            t.indices().contains(j) && !t.at(q).indices().contains(j) ==> a2[j as int].color
                == a[j as int].color,
        red_ok(a2, s2, ex2),
        q.len() > 0 ==> (a2[t.parent_at(q, par)->0 as int].color == Color::Red ==> !is_red(
            a2,
            s2,
        ) || s2.root() == ex2),
    ensures
        red_ok(a2, t.replace(q, s2), ex2),
    decreases q.len(),
{
    if q.len() > 0 {
        if let Tree::Node(i, l, r) = t {
            let d = q[0];
            let c = t.child(d);
            let o = t.child(!d);
            let q2 = q.drop_first();
            lemma_node_indices(t);
            lemma_node_indices(c);
            lemma_at_indices(c, q2);
            assert(t.at(q) == c.at(q2));
            lemma_root_facts(a, *l, Some(i));
            lemma_root_facts(a, *r, Some(i));
            assert(links(a, c, Some(i)));
            assert(links(a, o, Some(i)));
            if q2.len() == 0 {
                assert(q.drop_last() =~= Seq::<bool>::empty());
                assert(t.parent_at(q, par) == Some(i));
            } else {
                assert(q.drop_last()[0] == d);
                assert(q.drop_last().drop_first() =~= q2.drop_last());
                assert(t.parent_at(q, par) == c.parent_at(q2, Some(i)));
            }
            lemma_red_replace(a, a2, c, Some(i), q2, s2, ex, ex2);
            // The other subtree holds no exception and keeps its colours.
            lemma_red_ok_strict(a, o, Some(i), ex);
            lemma_color_frame(a, a2, o);
            lemma_red_ok_weaken(a2, o, ex2);
            let c2 = c.replace(q2, s2);
            super::tree::lemma_replace_at(c, q2, s2);
            if q2.len() > 0 {
                if let Tree::Node(ci, cl, cr) = c {
                    assert(c.at(q2).indices().subset_of(c.child(q2[0]).indices())) by {
                        lemma_at_indices(c.child(q2[0]), q2.drop_first());
                    }
                    assert(!c.at(q2).indices().contains(ci));
                }
            }
            if d {
                assert(t.replace(q, s2) == Tree::Node(i, l, Box::new(c2)));
            } else {
                assert(t.replace(q, s2) == Tree::Node(i, Box::new(c2), r));
            }
        }
    }
}


/// Colours at the indices of `t` are the same in both arenas, but for the
/// listed ones.
pub open spec fn same_colors_except(
    a: Seq<MemtableNode>,
    a2: Seq<MemtableNode>,
    t: Tree,
    x: usize,
    y: usize,
    z: usize,
) -> bool {
    forall|j: usize|
        t.indices().contains(j) && j != x && j != y && j != z ==> a2[j as int].color
            == a[j as int].color
}

/// A subtree without the exception keeps the strict red rule under the new
/// colours where none of its nodes changed colour.
proof fn lemma_clean_subtree(
    a: Seq<MemtableNode>,
    a2: Seq<MemtableNode>,
    t: Tree,
    par: Option<usize>,
    ex: Option<usize>,
    ex2: Option<usize>,
)
    requires
        links(a, t, par),
        red_ok(a, t, ex),
        ex matches Some(e) ==> (t.root() == Some(e) || !t.indices().contains(e)),
        bh_ok(a, t),
        forall|j: usize| t.indices().contains(j) ==> a2[j as int].color == a[j as int].color,
    ensures
        red_ok(a2, t, ex2),
        red_ok(a2, t, None),
        bh_ok(a2, t),
        black_height(a2, t) == black_height(a, t),
        is_red(a2, t) == is_red(a, t),
{
    lemma_red_ok_strict(a, t, par, ex);
    lemma_color_frame(a, a2, t);
    lemma_red_ok_weaken(a2, t, ex2);
}

/// The red-uncle step of the fix-up: with a red parent and a red uncle, blackening both
/// and reddening the grandparent keeps the black heights and moves the
/// exception up to the grandparent.
pub proof fn lemma_step_recolor(
    a: Seq<MemtableNode>,
    a2: Seq<MemtableNode>,
    s: Tree,
    par: Option<usize>,
    d1: bool,
    d2: bool,
)
    requires
        links(a, s, par),
        s is Node,
        s.child(d1) is Node,
        s.child(d1).child(d2) is Node,
        s.child(!d1) is Node,
        red_ok(a, s, s.child(d1).child(d2).root()),
        bh_ok(a, s),
        is_red(a, s.child(d1)),
        is_red(a, s.child(d1).child(d2)),
        is_red(a, s.child(!d1)),
        a2[s.child(d1)->0 as int].color == Color::Black,
        a2[s.child(!d1)->0 as int].color == Color::Black,
        a2[s->0 as int].color == Color::Red,
        same_colors_except(a, a2, s, s->0, s.child(d1)->0, s.child(!d1)->0),
    ensures
        a[s->0 as int].color == Color::Black,
        red_ok(a2, s, s.root()),
        bh_ok(a2, s),
        black_height(a2, s) == black_height(a, s),
{
    if let Tree::Node(g, sl, sr) = s {
        let pt = s.child(d1);
        let ut = s.child(!d1);
        let xt = pt.child(d2);
        let wt = pt.child(!d2);
        let ex = xt.root();
        let ex2 = s.root();
        lemma_node_indices(s);
        lemma_node_indices(pt);
        lemma_node_indices(ut);
        lemma_root_facts(a, *sl, Some(g));
        lemma_root_facts(a, *sr, Some(g));
        assert(links(a, pt, Some(g)));
        assert(links(a, ut, Some(g)));
        if let Tree::Node(p, pl, pr) = pt {
            if let Tree::Node(u, ul, ur) = ut {
                lemma_root_facts(a, *pl, Some(p));
                lemma_root_facts(a, *pr, Some(p));
                lemma_root_facts(a, *ul, Some(u));
                lemma_root_facts(a, *ur, Some(u));
                lemma_node_indices(*pl);
                lemma_node_indices(*pr);
                lemma_node_indices(*ul);
                lemma_node_indices(*ur);
                assert(red_ok(a, pt, ex));
                assert(red_ok(a, ut, ex));
                assert(bh_ok(a, pt));
                assert(bh_ok(a, ut));
                lemma_clean_subtree(a, a2, *pl, Some(p), ex, ex2);
                lemma_clean_subtree(a, a2, *pr, Some(p), ex, ex2);
                lemma_clean_subtree(a, a2, *ul, Some(u), ex, ex2);
                lemma_clean_subtree(a, a2, *ur, Some(u), ex, ex2);
                assert(red_ok(a2, pt, ex2));
                assert(red_ok(a2, ut, ex2));
                assert(bh_ok(a2, pt));
                assert(bh_ok(a2, ut));
                assert(black_height(a2, pt) == black_height(a, pt) + 1);
                assert(black_height(a2, ut) == black_height(a, ut) + 1);
                if d1 {
                    assert(black_height(a2, s) == black_height(a2, ut));
                } else {
                    assert(black_height(a2, s) == black_height(a2, pt));
                }
            }
        }
    }
}

/// The inner-child step of the fix-up, a red right child of a red left child: rotating
/// the parent left makes the parent the outer red child of the node.
pub proof fn lemma_step_inner_left(a: Seq<MemtableNode>, s: Tree, par: Option<usize>)
    requires
        links(a, s, par),
        s matches Tree::Node(_, _, xt) && *xt is Node,
        red_ok(a, s, s.child(true).root()),
        bh_ok(a, s),
        is_red(a, s),
        is_red(a, s.child(true)),
    ensures
        red_ok(a, s.rotate_left(), s.root()),
        bh_ok(a, s.rotate_left()),
        black_height(a, s.rotate_left()) == black_height(a, s),
        is_red(a, s.rotate_left()),
        s.rotate_left().child(false).root() == s.root(),
{
    if let Tree::Node(p, ta, xt) = s {
        if let Tree::Node(x, tb, tc) = *xt {
            let ex = Some(x);
            let ex2 = Some(p);
            lemma_node_indices(s);
            lemma_node_indices(*xt);
            lemma_root_facts(a, *ta, Some(p));
            lemma_root_facts(a, *xt, Some(p));
            assert(links(a, *xt, Some(p)));
            lemma_root_facts(a, *tb, Some(x));
            lemma_root_facts(a, *tc, Some(x));
            lemma_node_indices(*ta);
            lemma_node_indices(*tb);
            lemma_node_indices(*tc);
            assert(red_ok(a, *xt, ex));
            assert(bh_ok(a, *xt));
            lemma_clean_subtree(a, a, *ta, Some(p), ex, ex2);
            lemma_clean_subtree(a, a, *tb, Some(x), ex, ex2);
            lemma_clean_subtree(a, a, *tc, Some(x), ex, ex2);
            let inner = Tree::Node(p, ta, tb);
            assert(red_ok(a, inner, ex2));
            assert(bh_ok(a, inner));
        }
    }
}

/// The inner-child step mirrored: a red left child of a red right child; rotating the
/// parent right.
pub proof fn lemma_step_inner_right(a: Seq<MemtableNode>, s: Tree, par: Option<usize>)
    requires
        links(a, s, par),
        s matches Tree::Node(_, xt, _) && *xt is Node,
        red_ok(a, s, s.child(false).root()),
        bh_ok(a, s),
        is_red(a, s),
        is_red(a, s.child(false)),
    ensures
        red_ok(a, s.rotate_right(), s.root()),
        bh_ok(a, s.rotate_right()),
        black_height(a, s.rotate_right()) == black_height(a, s),
        is_red(a, s.rotate_right()),
        s.rotate_right().child(true).root() == s.root(),
{
    if let Tree::Node(p, xt, tc) = s {
        if let Tree::Node(x, ta, tb) = *xt {
            let ex = Some(x);
            let ex2 = Some(p);
            lemma_node_indices(s);
            lemma_node_indices(*xt);
            lemma_root_facts(a, *tc, Some(p));
            lemma_root_facts(a, *xt, Some(p));
            assert(links(a, *xt, Some(p)));
            lemma_root_facts(a, *ta, Some(x));
            lemma_root_facts(a, *tb, Some(x));
            lemma_node_indices(*ta);
            lemma_node_indices(*tb);
            lemma_node_indices(*tc);
            assert(red_ok(a, *xt, ex));
            assert(bh_ok(a, *xt));
            lemma_clean_subtree(a, a, *ta, Some(x), ex, ex2);
            lemma_clean_subtree(a, a, *tb, Some(x), ex, ex2);
            lemma_clean_subtree(a, a, *tc, Some(p), ex, ex2);
            let inner = Tree::Node(p, tb, tc);
            assert(red_ok(a, inner, ex2));
            assert(bh_ok(a, inner));
            assert(black_height(a, s.rotate_right()) == black_height(a, *ta));
        }
    }
}

/// The outer-child step of the fix-up, a red left child of a red left child under a black
/// grandparent with a black uncle: blackening the parent, reddening the
/// grandparent and rotating it right restores the rules.
pub proof fn lemma_step_outer_right(
    a: Seq<MemtableNode>,
    a1: Seq<MemtableNode>,
    s: Tree,
    par: Option<usize>,
)
    requires
        links(a, s, par),
        s matches Tree::Node(_, pt, _) && *pt is Node,
        s.child(false).child(false) is Node,
        red_ok(a, s, s.child(false).child(false).root()),
        bh_ok(a, s),
        is_red(a, s.child(false)),
        is_red(a, s.child(false).child(false)),
        !is_red(a, s.child(true)),
        a1[s.child(false)->0 as int].color == Color::Black,
        a1[s->0 as int].color == Color::Red,
        same_colors_except(a, a1, s, s->0, s.child(false)->0, s->0),
    ensures
        red_ok(a1, s.rotate_right(), None),
        bh_ok(a1, s.rotate_right()),
        black_height(a1, s.rotate_right()) == black_height(a, s),
        !is_red(a1, s.rotate_right()),
{
    if let Tree::Node(g, pt, ut) = s {
        if let Tree::Node(p, xt, tb) = *pt {
            let ex = xt.root();
            lemma_node_indices(s);
            lemma_node_indices(*pt);
            lemma_root_facts(a, *pt, Some(g));
            lemma_root_facts(a, *ut, Some(g));
            assert(links(a, *pt, Some(g)));
            lemma_root_facts(a, *xt, Some(p));
            lemma_root_facts(a, *tb, Some(p));
            lemma_node_indices(*xt);
            lemma_node_indices(*tb);
            lemma_node_indices(*ut);
            assert(red_ok(a, *pt, ex));
            assert(bh_ok(a, *pt));
            lemma_clean_subtree(a, a1, *xt, Some(p), ex, None);
            lemma_clean_subtree(a, a1, *tb, Some(p), ex, None);
            lemma_clean_subtree(a, a1, *ut, Some(g), ex, None);
            let inner = Tree::Node(g, tb, ut);
            assert(red_ok(a1, inner, None));
            assert(bh_ok(a1, inner));
        }
    }
}

/// The outer-child step mirrored: a red right child of a red right child; rotating the
/// grandparent left.
pub proof fn lemma_step_outer_left(
    a: Seq<MemtableNode>,
    a1: Seq<MemtableNode>,
    s: Tree,
    par: Option<usize>,
)
    requires
        links(a, s, par),
        s matches Tree::Node(_, _, pt) && *pt is Node,
        s.child(true).child(true) is Node,
        red_ok(a, s, s.child(true).child(true).root()),
        bh_ok(a, s),
        is_red(a, s.child(true)),
        is_red(a, s.child(true).child(true)),
        !is_red(a, s.child(false)),
        a1[s.child(true)->0 as int].color == Color::Black,
        a1[s->0 as int].color == Color::Red,
        same_colors_except(a, a1, s, s->0, s.child(true)->0, s->0),
    ensures
        red_ok(a1, s.rotate_left(), None),
        bh_ok(a1, s.rotate_left()),
        black_height(a1, s.rotate_left()) == black_height(a, s),
        !is_red(a1, s.rotate_left()),
{
    if let Tree::Node(g, ut, pt) = s {
        if let Tree::Node(p, tb, xt) = *pt {
            let ex = xt.root();
            lemma_node_indices(s);
            lemma_node_indices(*pt);
            lemma_root_facts(a, *pt, Some(g));
            lemma_root_facts(a, *ut, Some(g));
            assert(links(a, *pt, Some(g)));
            lemma_root_facts(a, *xt, Some(p));
            lemma_root_facts(a, *tb, Some(p));
            lemma_node_indices(*xt);
            lemma_node_indices(*tb);
            lemma_node_indices(*ut);
            assert(red_ok(a, *pt, ex));
            assert(bh_ok(a, *pt));
            lemma_clean_subtree(a, a1, *xt, Some(p), ex, None);
            lemma_clean_subtree(a, a1, *tb, Some(p), ex, None);
            lemma_clean_subtree(a, a1, *ut, Some(g), ex, None);
            let inner = Tree::Node(g, ut, tb);
            assert(red_ok(a1, inner, None));
            assert(bh_ok(a1, inner));
            assert(black_height(a1, s.rotate_left()) == black_height(a1, inner) + 1);
        }
    }
}


/// When the node named by the exception has no red parent, nothing is
/// excused.
pub proof fn lemma_red_ok_parent_black(a: Seq<MemtableNode>, t: Tree, par: Option<usize>, x: usize)
    requires
        links(a, t, par),
        red_ok(a, t, Some(x)),
        a[x as int].parent matches Some(pi) ==> a[pi as int].color != Color::Red,
    ensures
        red_ok(a, t, None),
    decreases t,
{
    if let Tree::Node(i, l, r) = t {
        lemma_root_facts(a, *l, Some(i));
        lemma_root_facts(a, *r, Some(i));
        lemma_red_ok_parent_black(a, *l, Some(i), x);
        lemma_red_ok_parent_black(a, *r, Some(i), x);
    }
}

/// Blackening the root keeps the red-black rules.
pub proof fn lemma_blacken_root(a: Seq<MemtableNode>, a2: Seq<MemtableNode>, t: Tree, par: Option<usize>)
    requires
        links(a, t, par),
        bh_ok(a, t),
        red_ok(a, t, None),
        t is Node,
        a2[t->0 as int].color == Color::Black,
        forall|j: usize| t.indices().contains(j) && j != t->0 ==> a2[j as int].color == a[j as int].color,
    ensures
        bh_ok(a2, t),
        red_ok(a2, t, None),
{
    if let Tree::Node(i, l, r) = t {
        lemma_node_indices(t);
        lemma_color_frame(a, a2, *l);
        lemma_color_frame(a, a2, *r);
    }
}

/// Putting the same subtree back changes nothing.
pub proof fn lemma_replace_self(t: Tree, q: Seq<bool>)
    requires
        t.valid_path(q),
    ensures
        t.replace(q, t.at(q)) == t,
    decreases q.len(),
{
    if q.len() > 0 {
        if let Tree::Node(i, l, r) = t {
            lemma_replace_self(t.child(q[0]), q.drop_first());
        }
    }
}


/// Above a red child that is not the exception, the red rule leaves only
/// black.
pub proof fn lemma_parent_of_red_is_black(a: Seq<MemtableNode>, s: Tree, d: bool, ex: Option<usize>)
    requires
        red_ok(a, s, ex),
        s is Node,
        is_red(a, s.child(d)),
        s.child(d).root() != ex,
    ensures
        a[s->0 as int].color == Color::Black,
{
}

} // verus!
