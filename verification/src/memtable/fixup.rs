//! The steps of the insertion fix-up, each stated over the arena before and
//! after it: what holds while a red node may still have a red parent, and
//! how each case keeps it or ends it.

use vstd::prelude::*;
use super::inner::{Color, MemtableNode};
use super::tree::{
    bh_ok, contents, lemma_at_indices, lemma_at_push, lemma_color_frame, lemma_links_at,
    lemma_links_indices, lemma_node_indices, lemma_node_links, lemma_recolor_keeps,
    lemma_replace_at, lemma_rotate_indices, lemma_rotation_left_keeps, lemma_rotation_right_keeps,
    left_rotated, recolored, red_ok, right_rotated, same_payload, search_path, structured, Tree,
};
use super::coloring::{
    lemma_bh_ok_at, lemma_bh_replace, lemma_step_inner_left, lemma_step_inner_right,
    lemma_step_outer_left, lemma_step_outer_right, lemma_step_recolor, lemma_parent_of_red_is_black,
    lemma_red_ok_at, lemma_red_ok_parent_black, lemma_red_ok_strict, lemma_red_replace,
    lemma_replace_self,
};

verus! {

/// What the fix-up loop strictly decreases: twice the depth of the current
/// node, plus one while it is an inner child.
pub open spec fn fix_measure(p: Seq<bool>) -> nat {
    2 * p.len() + if p.len() >= 2 && p[p.len() - 1] != p[p.len() - 2] {
        1nat
    } else {
        0nat
    }
}

/// The state between fix-up steps: a search tree with balanced black
/// heights, where only the red node `x` at path `p` may have a red parent,
/// and the root is black unless it is `x`.
pub open spec fn fix_state(a: Seq<MemtableNode>, t: Tree, root: Option<usize>, p: Seq<bool>, x: usize) -> bool {
    &&& structured(a, t, root)
    &&& bh_ok(a, t)
    &&& red_ok(a, t, Some(x))
    &&& x < a.len()
    &&& a[x as int].color == Color::Red
    &&& t.valid_path(p)
    &&& t.at(p).root() == Some(x)
    &&& (p.len() == 0 || (root matches Some(r) && a[r as int].color == Color::Black))
}

/// The state after the last step: the red-black rules hold below the root.
pub open spec fn fix_done(a: Seq<MemtableNode>, t: Tree, root: Option<usize>) -> bool {
    &&& structured(a, t, root)
    &&& bh_ok(a, t)
    &&& red_ok(a, t, None)
    &&& root is Some
}

/// The colour of each arena node, by index.
pub open spec fn colors(a: Seq<MemtableNode>) -> Seq<Color> {
    Seq::new(a.len(), |j: int| a[j].color)
}

/// The fix-up on colours `c` and shape `t`, from the red node at path `p`
/// on. It stops at the root and under a black parent. With a red uncle it
/// blackens parent and uncle, reddens the grandparent and goes on from the
/// grandparent. With a black uncle and the node an inner child it rotates
/// the parent away from the node, which leaves the parent an outer child,
/// and goes on from the parent. With the node an outer child it blackens
/// the parent, reddens the grandparent, rotates the grandparent away from
/// the parent and stops.
pub open spec fn fix_run(c: Seq<Color>, t: Tree, p: Seq<bool>) -> (Seq<Color>, Tree)
    decreases fix_measure(p),
{
    let parent = t.parent_at(p, None);
    if p.len() < 2 || parent is None || c[parent->0 as int] == Color::Black {
        (c, t)
    } else {
        let pi = parent->0;
        let pp = p.drop_last();
        let gpp = pp.drop_last();
        let d1 = pp.last();
        let d2 = p.last();
        let sg = t.at(gpp);
        let gp = sg->0;
        let uncle = sg.child(!d1).root();
        if uncle is Some && c[uncle->0 as int] == Color::Red {
            let c2 = c.update(uncle->0 as int, Color::Black).update(pi as int, Color::Black).update(
                gp as int,
                Color::Red,
            );
            fix_run(c2, t, gpp)
        } else if d1 != d2 {
            let sp = t.at(pp);
            let turned = if d1 {
                sp.rotate_right()
            } else {
                sp.rotate_left()
            };
            proof {
                assert(pp.push(d1)[pp.len() - 1] == pp[pp.len() - 1]);
            }
            fix_run(c, t.replace(pp, turned), pp.push(d1))
        } else {
            let c2 = c.update(pi as int, Color::Black).update(gp as int, Color::Red);
            let turned = if d1 {
                sg.rotate_left()
            } else {
                sg.rotate_right()
            };
            (c2, t.replace(gpp, turned))
        }
    }
}

/// The colours and shape that the whole fix-up leaves: its run, then the
/// root blackened.
pub open spec fn fix_result(c: Seq<Color>, t: Tree, p: Seq<bool>) -> (Seq<Color>, Tree) {
    let r = fix_run(c, t, p);
    (r.0.update(r.1->0 as int, Color::Black), r.1)
}

/// The colours and shape after an insert of `key`: as they were when the
/// key is already there; otherwise a red leaf for the new node, the next
/// index of the arena, where the search for the key ends, and then the
/// fix-up from that leaf.
pub open spec fn insert_shape(a: Seq<MemtableNode>, t: Tree, key: Seq<u8>) -> (Seq<Color>, Tree) {
    if contents(a, t).contains_key(key) {
        (colors(a), t)
    } else {
        let q = search_path(a, t, key);
        let leaf = Tree::Node(a.len() as usize, Box::new(Tree::Leaf), Box::new(Tree::Leaf));
        fix_result(colors(a).push(Color::Red), t.replace(q, leaf), q)
    }
}

/// The uncle that the arena links name for `parent` below `gp`.
pub open spec fn uncle_of(a: Seq<MemtableNode>, gp: usize, parent: usize) -> Option<usize> {
    if a[gp as int].left == Some(parent) {
        a[gp as int].right
    } else {
        a[gp as int].left
    }
}

/// With a red parent, the node has a black grandparent; the links tell on
/// which side each hangs, which subtree is the uncle, and that the
/// rotations around them touch distinct nodes.
pub proof fn lemma_fix_family(a: Seq<MemtableNode>, t: Tree, root: Option<usize>, p: Seq<bool>, x: usize, parent: usize)
    requires
        fix_state(a, t, root, p, x),
        a[x as int].parent == Some(parent),
        a[parent as int].color == Color::Red,
    ensures
        p.len() >= 2,
        ({
            let pp = p.drop_last();
            let gpp = pp.drop_last();
            let d1 = pp.last();
            let d2 = p.last();
            let sg = t.at(gpp);
            let sp = t.at(pp);
            let gp = sg->0;
            &&& t.valid_path(pp)
            &&& t.valid_path(gpp)
            &&& sg is Node
            &&& sp is Node
            &&& sp == sg.child(d1)
            &&& t.at(p) == sp.child(d2)
            &&& sp.root() == Some(parent)
            &&& a[parent as int].parent == Some(gp)
            &&& gp < a.len()
            &&& parent < a.len()
            &&& gp != parent
            &&& (a[gp as int].left == Some(parent)) == !d1
            &&& (a[parent as int].left == Some(x)) == !d2
            &&& uncle_of(a, gp, parent) == sg.child(!d1).root()
            &&& (uncle_of(a, gp, parent) matches Some(u) ==> u < a.len())
            &&& a[gp as int].color == Color::Black
            &&& (!d2 ==> super::inner::rotatable_right(a, parent))
            &&& (d2 ==> super::inner::rotatable_left(a, parent))
            &&& (!d1 ==> super::inner::rotatable_right(a, gp))
            &&& (d1 ==> super::inner::rotatable_left(a, gp))
        }),
{
    lemma_node_links(a, t, p);
    let d2 = p.last();
    let pp = p.drop_last();
    assert(p =~= pp.push(d2));
    lemma_at_push(t, pp, d2);
    lemma_node_links(a, t, pp);
    // The parent is red and the root black unless it is `x`, so the parent
    // is not the root.
    assert(pp.len() > 0);
    let d1 = pp.last();
    let gpp = pp.drop_last();
    assert(pp =~= gpp.push(d1));
    lemma_at_push(t, gpp, d1);
    lemma_at_push(t, gpp, !d1);
    lemma_node_links(a, t, gpp);
    lemma_at_push(t, p, true);
    lemma_at_push(t, p, false);
    lemma_at_push(t, pp, !d2);
    let sg = t.at(gpp);
    let sp = t.at(pp);
    lemma_node_indices(sg);
    lemma_node_indices(sp);
    lemma_red_ok_at(a, t, gpp, Some(x));
    lemma_parent_of_red_is_black(a, sg, d1, Some(x));
    if let Tree::Node(xi, xl, xr) = t.at(p) {
        lemma_node_indices(t.at(p));
    }
}

/// The node is the root: nothing lies above it, so nothing is excused.
pub proof fn lemma_fix_stop_root(a: Seq<MemtableNode>, t: Tree, root: Option<usize>, p: Seq<bool>, x: usize)
    requires
        fix_state(a, t, root, p, x),
        a[x as int].parent is None,
    ensures
        fix_done(a, t, root),
{
    lemma_node_links(a, t, p);
    lemma_red_ok_strict(a, t, None, Some(x));
}

/// The node has a black parent: nothing is excused.
pub proof fn lemma_fix_stop_black(a: Seq<MemtableNode>, t: Tree, root: Option<usize>, p: Seq<bool>, x: usize)
    requires
        fix_state(a, t, root, p, x),
        a[x as int].parent matches Some(pi) && a[pi as int].color == Color::Black,
    ensures
        fix_done(a, t, root),
{
    lemma_node_links(a, t, p);
    lemma_red_ok_parent_black(a, t, None, x);
    if p.len() > 0 {
        lemma_replace_at(t, p, t.at(p));
    }
}

/// The red-uncle step. Blackening parent and uncle and reddening the
/// grandparent moves the only possible red-red pair up to the grandparent.
pub proof fn lemma_fix_red_uncle(
    a: Seq<MemtableNode>,
    a2: Seq<MemtableNode>,
    t: Tree,
    root: Option<usize>,
    p: Seq<bool>,
    x: usize,
    parent: usize,
    gp: usize,
    u: usize,
)
    requires
        fix_state(a, t, root, p, x),
        a[x as int].parent == Some(parent),
        a[parent as int].color == Color::Red,
        a[parent as int].parent == Some(gp),
        uncle_of(a, gp, parent) == Some(u),
        a[u as int].color == Color::Red,
        recolored(a, a2),
        a2[u as int].color == Color::Black,
        a2[parent as int].color == Color::Black,
        a2[gp as int].color == Color::Red,
        forall|j: int|
            0 <= j < a.len() && j != u && j != parent && j != gp ==> a2[j].color == a[j].color,
    ensures
        p.len() >= 2,
        fix_state(a2, t, root, p.drop_last().drop_last(), gp),
        contents(a2, t) == contents(a, t),
        fix_measure(p.drop_last().drop_last()) < fix_measure(p),
{
    lemma_fix_family(a, t, root, p, x, parent);
    let pp = p.drop_last();
    let gpp = pp.drop_last();
    let d1 = pp.last();
    let d2 = p.last();
    let sg = t.at(gpp);
    lemma_at_push(t, gpp, !d1);
    lemma_node_links(a, t, gpp.push(!d1));
    lemma_node_links(a, t, gpp);
    lemma_node_links(a, t, pp);
    lemma_links_at(a, t, None, gpp);
    lemma_links_indices(a, t, None);
    lemma_at_indices(t, gpp);
    lemma_node_indices(sg);
    lemma_node_indices(sg.child(d1));
    lemma_red_ok_at(a, t, gpp, Some(x));
    lemma_bh_ok_at(a, t, gpp);
    lemma_recolor_keeps(a, a2, t, root);
    lemma_step_recolor(a, a2, sg, t.parent_at(gpp, None), d1, d2);
    lemma_replace_self(t, gpp);
    lemma_bh_replace(a, a2, t, None, gpp, sg);
    lemma_red_replace(a, a2, t, None, gpp, sg, Some(x), Some(gp));
    if gpp.len() > 0 {
        lemma_replace_at(t, gpp, sg);
    }
}

/// The inner-child step, the node a left child of a right child: rotating the parent right
/// makes the parent the red outer child of the node.
pub proof fn lemma_fix_inner_right(
    a: Seq<MemtableNode>,
    a2: Seq<MemtableNode>,
    t: Tree,
    root: Option<usize>,
    p: Seq<bool>,
    x: usize,
    parent: usize,
    root2: Option<usize>,
)
    requires
        fix_state(a, t, root, p, x),
        a[x as int].parent == Some(parent),
        a[parent as int].color == Color::Red,
        a[parent as int].parent matches Some(gp) && a[gp as int].left != Some(parent),
        a[parent as int].left == Some(x),
        right_rotated(a, a2, parent),
        same_payload(a, a2),
        root2 == if a[parent as int].parent is None {
            a[parent as int].left
        } else {
            root
        },
    ensures
        p.len() >= 2,
        fix_state(
            a2,
            t.replace(p.drop_last(), t.at(p.drop_last()).rotate_right()),
            root2,
            p.drop_last().push(true),
            parent,
        ),
        contents(a2, t.replace(p.drop_last(), t.at(p.drop_last()).rotate_right())) == contents(a, t),
        fix_measure(p.drop_last().push(true)) < fix_measure(p),
{
    lemma_fix_family(a, t, root, p, x, parent);
    let pp = p.drop_last();
    let gpp = pp.drop_last();
    let d1 = pp.last();
    let sp = t.at(pp);
    let s2 = sp.rotate_right();
    let t2 = t.replace(pp, s2);
    lemma_node_links(a, t, pp);
    lemma_links_at(a, t, None, pp);
    lemma_red_ok_at(a, t, pp, Some(x));
    lemma_bh_ok_at(a, t, pp);
    lemma_rotation_right_keeps(a, a2, t, root, pp, root2);
    lemma_step_inner_right(a, sp, t.parent_at(pp, None));
    lemma_rotate_indices(sp);
    lemma_links_indices(a, t, None);
    lemma_at_indices(t, pp);
    lemma_color_frame(a, a2, s2);
    lemma_bh_replace(a, a2, t, None, pp, s2);
    lemma_node_links(a, t, gpp);
    lemma_red_replace(a, a2, t, None, pp, s2, Some(x), Some(parent));
    lemma_replace_at(t, pp, s2);
    lemma_at_push(t2, pp, true);
    lemma_node_links(a, t, Seq::<bool>::empty());
    lemma_color_frame(a, a2, t);
    let q = pp.push(true);
    assert(q.drop_last() =~= pp);
}

/// The inner-child step mirrored, the node a right child of a left child: rotating the
/// parent left.
pub proof fn lemma_fix_inner_left(
    a: Seq<MemtableNode>,
    a2: Seq<MemtableNode>,
    t: Tree,
    root: Option<usize>,
    p: Seq<bool>,
    x: usize,
    parent: usize,
    root2: Option<usize>,
)
    requires
        fix_state(a, t, root, p, x),
        a[x as int].parent == Some(parent),
        a[parent as int].color == Color::Red,
        a[parent as int].parent matches Some(gp) && a[gp as int].left == Some(parent),
        a[parent as int].left != Some(x),
        left_rotated(a, a2, parent),
        same_payload(a, a2),
        root2 == if a[parent as int].parent is None {
            a[parent as int].right
        } else {
            root
        },
    ensures
        p.len() >= 2,
        fix_state(
            a2,
            t.replace(p.drop_last(), t.at(p.drop_last()).rotate_left()),
            root2,
            p.drop_last().push(false),
            parent,
        ),
        contents(a2, t.replace(p.drop_last(), t.at(p.drop_last()).rotate_left())) == contents(a, t),
        fix_measure(p.drop_last().push(false)) < fix_measure(p),
{
    lemma_fix_family(a, t, root, p, x, parent);
    let pp = p.drop_last();
    let gpp = pp.drop_last();
    let sp = t.at(pp);
    let s2 = sp.rotate_left();
    let t2 = t.replace(pp, s2);
    lemma_node_links(a, t, pp);
    lemma_links_at(a, t, None, pp);
    lemma_red_ok_at(a, t, pp, Some(x));
    lemma_bh_ok_at(a, t, pp);
    lemma_rotation_left_keeps(a, a2, t, root, pp, root2);
    lemma_step_inner_left(a, sp, t.parent_at(pp, None));
    lemma_rotate_indices(sp);
    lemma_links_indices(a, t, None);
    lemma_at_indices(t, pp);
    lemma_color_frame(a, a2, s2);
    lemma_bh_replace(a, a2, t, None, pp, s2);
    lemma_node_links(a, t, gpp);
    lemma_red_replace(a, a2, t, None, pp, s2, Some(x), Some(parent));
    lemma_replace_at(t, pp, s2);
    lemma_at_push(t2, pp, false);
    lemma_node_links(a, t, Seq::<bool>::empty());
    lemma_color_frame(a, a2, t);
    let q = pp.push(false);
    assert(q.drop_last() =~= pp);
}

/// The outer-child step, the node a left child of a left child with a black uncle:
/// blackening the parent, reddening the grandparent and rotating it right
/// ends the fix-up.
pub proof fn lemma_fix_outer_right(
    a: Seq<MemtableNode>,
    a1: Seq<MemtableNode>,
    a2: Seq<MemtableNode>,
    t: Tree,
    root: Option<usize>,
    p: Seq<bool>,
    x: usize,
    parent: usize,
    gp: usize,
    root2: Option<usize>,
)
    requires
        fix_state(a, t, root, p, x),
        a[x as int].parent == Some(parent),
        a[parent as int].color == Color::Red,
        a[parent as int].parent == Some(gp),
        a[gp as int].left == Some(parent),
        a[parent as int].left == Some(x),
        uncle_of(a, gp, parent) matches Some(u) ==> a[u as int].color != Color::Red,
        recolored(a, a1),
        a1[parent as int].color == Color::Black,
        a1[gp as int].color == Color::Red,
        forall|j: int| 0 <= j < a.len() && j != parent && j != gp ==> a1[j].color == a[j].color,
        right_rotated(a1, a2, gp),
        same_payload(a1, a2),
        root2 == if a1[gp as int].parent is None {
            a1[gp as int].left
        } else {
            root
        },
    ensures
        p.len() >= 2,
        fix_done(
            a2,
            t.replace(p.drop_last().drop_last(), t.at(p.drop_last().drop_last()).rotate_right()),
            root2,
        ),
        contents(
            a2,
            t.replace(p.drop_last().drop_last(), t.at(p.drop_last().drop_last()).rotate_right()),
        ) == contents(a, t),
{
    lemma_fix_family(a, t, root, p, x, parent);
    let pp = p.drop_last();
    let gpp = pp.drop_last();
    let sg = t.at(gpp);
    let s2 = sg.rotate_right();
    let t2 = t.replace(gpp, s2);
    lemma_node_links(a, t, gpp);
    lemma_links_at(a, t, None, gpp);
    lemma_red_ok_at(a, t, gpp, Some(x));
    lemma_bh_ok_at(a, t, gpp);
    lemma_links_indices(a, t, None);
    lemma_at_indices(t, gpp);
    lemma_node_indices(sg);
    lemma_node_indices(sg.child(pp.last()));
    lemma_node_indices(t.at(p));
    lemma_recolor_keeps(a, a1, t, root);
    lemma_step_outer_right(a, a1, sg, t.parent_at(gpp, None));
    lemma_rotation_right_keeps(a1, a2, t, root, gpp, root2);
    lemma_rotate_indices(sg);
    lemma_color_frame(a1, a2, s2);
    lemma_bh_replace(a, a2, t, None, gpp, s2);
    lemma_red_replace(a, a2, t, None, gpp, s2, Some(x), None);
    if gpp.len() > 0 {
        lemma_replace_at(t, gpp, s2);
    }
}

/// The outer-child step mirrored, the node a right child of a right child: rotating the
/// grandparent left.
pub proof fn lemma_fix_outer_left(
    a: Seq<MemtableNode>,
    a1: Seq<MemtableNode>,
    a2: Seq<MemtableNode>,
    t: Tree,
    root: Option<usize>,
    p: Seq<bool>,
    x: usize,
    parent: usize,
    gp: usize,
    root2: Option<usize>,
)
    requires
        fix_state(a, t, root, p, x),
        a[x as int].parent == Some(parent),
        a[parent as int].color == Color::Red,
        a[parent as int].parent == Some(gp),
        a[gp as int].left != Some(parent),
        a[parent as int].left != Some(x),
        uncle_of(a, gp, parent) matches Some(u) ==> a[u as int].color != Color::Red,
        recolored(a, a1),
        a1[parent as int].color == Color::Black,
        a1[gp as int].color == Color::Red,
        forall|j: int| 0 <= j < a.len() && j != parent && j != gp ==> a1[j].color == a[j].color,
        left_rotated(a1, a2, gp),
        same_payload(a1, a2),
        root2 == if a1[gp as int].parent is None {
            a1[gp as int].right
        } else {
            root
        },
    ensures
        p.len() >= 2,
        fix_done(
            a2,
            t.replace(p.drop_last().drop_last(), t.at(p.drop_last().drop_last()).rotate_left()),
            root2,
        ),
        contents(
            a2,
            t.replace(p.drop_last().drop_last(), t.at(p.drop_last().drop_last()).rotate_left()),
        ) == contents(a, t),
{
    lemma_fix_family(a, t, root, p, x, parent);
    let pp = p.drop_last();
    let gpp = pp.drop_last();
    let sg = t.at(gpp);
    let s2 = sg.rotate_left();
    let t2 = t.replace(gpp, s2);
    lemma_node_links(a, t, gpp);
    lemma_links_at(a, t, None, gpp);
    lemma_red_ok_at(a, t, gpp, Some(x));
    lemma_bh_ok_at(a, t, gpp);
    lemma_links_indices(a, t, None);
    lemma_at_indices(t, gpp);
    lemma_node_indices(sg);
    lemma_node_indices(sg.child(pp.last()));
    lemma_node_indices(t.at(p));
    lemma_recolor_keeps(a, a1, t, root);
    lemma_step_outer_left(a, a1, sg, t.parent_at(gpp, None));
    lemma_rotation_left_keeps(a1, a2, t, root, gpp, root2);
    lemma_rotate_indices(sg);
    lemma_color_frame(a1, a2, s2);
    lemma_bh_replace(a, a2, t, None, gpp, s2);
    lemma_red_replace(a, a2, t, None, gpp, s2, Some(x), None);
    if gpp.len() > 0 {
        lemma_replace_at(t, gpp, s2);
    }
}

} // verus!
