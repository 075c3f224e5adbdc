use vstd::prelude::*;
use crate::keys::{compare_keys, in_bounds, key_lt, lemma_key_order_facts, KeyOrder};
use super::tree::{
    bounds_at, contents, height, lemma_at_indices, lemma_at_push, lemma_bounds_push,
    lemma_contents_at, lemma_contents_has_node, lemma_links_at, lemma_links_indices,
    lemma_ordered_at, lemma_path_height, lemma_root_facts, left_rotated, links, ordered,
    right_rotated, same_payload, Tree, structured, recolored, lemma_node_links,
    lemma_replace_at, lemma_recolor_keeps, lemma_rotation_left_keeps,
    lemma_rotation_right_keeps, lemma_contents_update, lemma_links_frame, lemma_kd_frame,
    lemma_bounds_frame, lemma_contents_insert_leaf, lemma_replace_leaf_indices,
    lemma_links_insert_leaf, search_path,
};
use crate::error::MemtableError;
use super::tree::{bh_ok, black_height, lemma_color_frame, red_ok, red_black};
use super::coloring::{lemma_blacken_root, lemma_bh_replace, lemma_red_replace};
use super::fixup::{
    colors, fix_done, fix_measure, fix_result, fix_run, fix_state, insert_shape, lemma_fix_red_uncle, lemma_fix_inner_left, lemma_fix_inner_right,
    lemma_fix_outer_left, lemma_fix_outer_right, lemma_fix_family, lemma_fix_stop_black,
    lemma_fix_stop_root,
};

verus! {

/// What a memtable holds for a key: a value, or a tombstone that marks the
/// key as deleted.
#[derive(Debug, PartialEq, Eq, Clone)]
pub enum NodeData {
    Data(Vec<u8>),
    Tombstone,
}

impl View for NodeData {
    /// The value, or `None` for a tombstone.
    type V = Option<Seq<u8>>;

    open spec fn view(&self) -> Option<Seq<u8>> {
        match self {
            NodeData::Data(d) => Some(d@),
            NodeData::Tombstone => None,
        }
    }
}

impl NodeData {
    /// The number of value bytes; a tombstone has none.
    pub fn len(&self) -> (r: usize)
        ensures
            r == match self@ {
                Some(d) => d.len(),
                None => 0,
            },
    {
        match self {
            NodeData::Data(data) => data.len(),
            NodeData::Tombstone => 0,
        }
    }
}

/// The answer of a memtable to a lookup.
#[derive(Debug, PartialEq, Eq, Clone)]
pub enum MemtableQuery {
    Data(Vec<u8>),
    Tombstone,
    NotFound,
}

#[derive(Debug, PartialEq, Eq, Structural, Clone, Copy)]
pub enum Color {
    Red,
    Black,
}

/// A node of the arena-backed red-black tree.
#[derive(Debug)]
pub struct MemtableNode {
    pub key: Vec<u8>,
    pub data: NodeData,
    pub left: Option<usize>,
    pub right: Option<usize>,
    pub parent: Option<usize>,
    pub color: Color,
}

} // verus!

verus! {

// ---------------------------------------------------------------------------
// Rotation helpers
// ---------------------------------------------------------------------------

/// Whether a node hangs on the same side of its parent as the parent hangs
/// on the grandparent (outer) or on the other side (inner).
#[derive(Debug, PartialEq, Eq, Clone, Copy)]
enum ChildType {
    Inner,
    Outer,
}

#[derive(Debug, PartialEq, Eq, Clone, Copy)]
enum RotationDirection {
    Left,
    Right,
}

#[derive(Debug, PartialEq, Eq, Clone, Copy)]
enum Child {
    Left,
    Right,
}

/// Where a key goes: below a node on the given side, or onto an existing
/// node with the same key.
enum InsertionPosition {
    NewNode(usize, Child),
    ExistingNode(usize),
}

fn is_index(o: Option<usize>, v: usize) -> (r: bool)
    ensures
        r == (o == Some(v)),
{
    match o {
        Some(x) => x == v,
        None => false,
    }
}

/// Determines inner versus outer child.
fn child_type(
    grandparent_left: Option<usize>,
    parent: usize,
    parent_left: Option<usize>,
    node: usize,
) -> (r: ChildType)
    ensures
        r == if (grandparent_left == Some(parent)) == (parent_left == Some(node)) {
            ChildType::Outer
        } else {
            ChildType::Inner
        },
{
    let is_parent_left = is_index(grandparent_left, parent);
    let is_node_left = is_index(parent_left, node);
    if is_parent_left == is_node_left {
        ChildType::Outer
    } else {
        ChildType::Inner
    }
}

/// For an inner child: a left-right zig-zag rotates the parent left,
/// a right-left one rotates it right.
fn derive_inner_rotation(grandparent_left: Option<usize>, parent: usize) -> (r: RotationDirection)
    ensures
        r == if grandparent_left == Some(parent) {
            RotationDirection::Left
        } else {
            RotationDirection::Right
        },
{
    if is_index(grandparent_left, parent) {
        RotationDirection::Left
    } else {
        RotationDirection::Right
    }
}

/// For an outer child: a left-left line rotates the grandparent right,
/// a right-right one rotates it left.
fn derive_outer_rotation(grandparent_left: Option<usize>, parent: usize) -> (r: RotationDirection)
    ensures
        r == if grandparent_left == Some(parent) {
            RotationDirection::Right
        } else {
            RotationDirection::Left
        },
{
    if is_index(grandparent_left, parent) {
        RotationDirection::Right
    } else {
        RotationDirection::Left
    }
}

/// Determines inner versus outer child and the rotation direction.
fn derive_rotation_direction(
    grandparent_left: Option<usize>,
    parent: usize,
    parent_left: Option<usize>,
    node: usize,
) -> (r: (ChildType, RotationDirection))
    ensures
        r.0 == if (grandparent_left == Some(parent)) == (parent_left == Some(node)) {
            ChildType::Outer
        } else {
            ChildType::Inner
        },
        r.0 == ChildType::Outer ==> r.1 == if grandparent_left == Some(parent) {
            RotationDirection::Right
        } else {
            RotationDirection::Left
        },
        r.0 == ChildType::Inner ==> r.1 == if grandparent_left == Some(parent) {
            RotationDirection::Left
        } else {
            RotationDirection::Right
        },
{
    match child_type(grandparent_left, parent, parent_left, node) {
        ChildType::Outer => (ChildType::Outer, derive_outer_rotation(grandparent_left, parent)),
        ChildType::Inner => (ChildType::Inner, derive_inner_rotation(grandparent_left, parent)),
    }
}

impl MemtableNode {
    /// A fresh red node with no links.
    pub fn new(key: Vec<u8>, data: NodeData) -> (r: MemtableNode)
        ensures
            r.key == key,
            r.data == data,
            r.left == None::<usize>,
            r.right == None::<usize>,
            r.parent == None::<usize>,
            r.color == Color::Red,
    {
        MemtableNode { key, data, left: None, right: None, parent: None, color: Color::Red }
    }

    /// The index of the node's uncle: the other child of its grandparent.
    pub fn uncle(&self, arena: &[MemtableNode]) -> (r: Option<usize>)
        requires
            self.parent matches Some(p) ==> p < arena@.len() && (arena@[p as int].parent matches Some(
                g,
            ) ==> g < arena@.len()),
        ensures
            r == match self.parent {
                None => None,
                Some(p) => match arena@[p as int].parent {
                    None => None,
                    Some(g) => if arena@[g as int].left == self.parent {
                        arena@[g as int].right
                    } else {
                        arena@[g as int].left
                    },
                },
            },
    {
        let parent = &arena[self.parent?];
        let grandparent = &arena[parent.parent?];
        if is_index(grandparent.left, self.parent.unwrap()) {
            grandparent.right
        } else {
            grandparent.left
        }
    }

    /// Takes over the data of another node with the same key.
    pub fn update_data_from_node(&mut self, node: MemtableNode)
        ensures
            final(self).data == node.data,
            final(self).key == old(self).key,
            final(self).left == old(self).left,
            final(self).right == old(self).right,
            final(self).parent == old(self).parent,
            final(self).color == old(self).color,
    {
        self.data = node.data;
    }
}

} // verus!

verus! {

/// The memtable's red-black tree. Nodes live in an arena and link to each
/// other by index; the root is black.
pub struct MemtableInner {
    pub arena: Vec<MemtableNode>,
    pub max_size: usize,
    pub max_nodes: usize,
    pub root_node: Option<usize>,
    pub current_size: usize,
    pub tree: Ghost<Tree>,
}

impl View for MemtableInner {
    /// What the table maps each key to: a value, or `None` for a tombstone.
    type V = Map<Seq<u8>, Option<Seq<u8>>>;

    open spec fn view(&self) -> Map<Seq<u8>, Option<Seq<u8>>> {
        contents(self.arena@, self.tree@)
    }
}

/// A table has no root exactly when it has no node.
pub proof fn lemma_root_none_iff_empty(t: &MemtableInner)
    requires
        t.wf(),
    ensures
        (t.root_node is None) == (t.arena@.len() == 0),
{
    if t.arena@.len() > 0 {
        assert(t.tree@.indices().contains(0usize));
        if let Tree::Leaf = t.tree@ {
            assert(Tree::Leaf.indices() =~= Set::<usize>::empty());
        }
    }
    if let Tree::Node(i, l, r) = t.tree@ {
        assert(t.tree@.indices().contains(i));
    }
}

impl MemtableInner {
    /// The arena holds a red-black search tree whose links match the ghost
    /// shape, over exactly the arena's indices.
    pub open spec fn wf(&self) -> bool {
        &&& structured(self.arena@, self.tree@, self.root_node)
        &&& (self.root_node matches Some(r) ==> self.arena@[r as int].color == Color::Black)
        &&& red_black(self.arena@, self.tree@)
    }

    /// Whether the table takes no more records.
    pub open spec fn spec_full(&self) -> bool {
        self.arena@.len() >= self.max_nodes || self.current_size >= self.max_size
    }

    /// An empty table for at most `max_nodes` nodes and `max_size` bytes of
    /// values.
    pub fn new(max_size: usize, max_nodes: usize) -> (r: MemtableInner)
        ensures
            r.wf(),
            r@ == Map::<Seq<u8>, Option<Seq<u8>>>::empty(),
            r.max_size == max_size,
            r.max_nodes == max_nodes,
            r.current_size == 0,
            r.arena@.len() == 0,
            r.root_node == None::<usize>,
    {
        let arena = Vec::with_capacity(max_nodes);
        let r = MemtableInner {
            arena,
            max_size,
            max_nodes,
            root_node: None,
            current_size: 0,
            tree: Ghost(Tree::Leaf),
        };
        assert(Tree::Leaf.indices() =~= Set::<usize>::empty());
        assert(r@ =~= Map::<Seq<u8>, Option<Seq<u8>>>::empty());
        r
    }

    /// The table is full when its node budget or its byte budget is used up.
    pub fn full(&self) -> (r: bool)
        ensures
            r == self.spec_full(),
    {
        self.arena.len() >= self.max_nodes || self.current_size >= self.max_size
    }

    /// Finds the arena index of the node that holds `key`.
    fn get_search(&self, key: &[u8]) -> (r: Option<usize>)
        requires
            self.wf(),
        ensures
            match r {
                Some(i) => {
                    &&& i < self.arena@.len()
                    &&& self.arena@[i as int].key@ == key@
                    &&& self@.contains_key(key@)
                    &&& self@[key@] == self.arena@[i as int].data@
                },
                None => !self@.contains_key(key@),
            },
    {
        let ghost a = self.arena@;
        let ghost t = self.tree@;
        let mut curr = match self.root_node {
            Some(r) => r,
            None => {
                return None;
            },
        };
        let ghost mut p: Seq<bool> = Seq::empty();
        proof {
            lemma_key_order_facts();
        }
        loop
            invariant
                self.wf(),
                a == self.arena@,
                t == self.tree@,
                t.valid_path(p),
                t.at(p).root() == Some(curr),
                in_bounds(key@, bounds_at(a, t, p, None, None).0, bounds_at(a, t, p, None, None).1),
            decreases height(t) - p.len(),
        {
            proof {
                lemma_path_height(t, p);
                lemma_links_at(a, t, None, p);
                lemma_root_facts(a, t.at(p), t.parent_at(p, None));
                lemma_links_indices(a, t, None);
                lemma_at_indices(t, p);
                lemma_ordered_at(a, t, p, None, None);
                lemma_key_order_facts();
            }
            let node = &self.arena[curr];
            match compare_keys(key, node.key.as_slice()) {
                KeyOrder::Equal => {
                    proof {
                        lemma_contents_has_node(a, t, None, None, curr);
                    }
                    return Some(curr);
                },
                KeyOrder::Less => {
                    proof {
                        lemma_at_push(t, p, false);
                        lemma_bounds_push(a, t, p, false, None, None);
                    }
                    match node.left {
                        Some(l) => {
                            curr = l;
                            proof {
                                p = p.push(false);
                            }
                        },
                        None => {
                            proof {
                                lemma_contents_at(a, t, p.push(false), None, None, key@);
                            }
                            return None;
                        },
                    }
                },
                KeyOrder::Greater => {
                    proof {
                        lemma_at_push(t, p, true);
                        lemma_bounds_push(a, t, p, true, None, None);
                    }
                    match node.right {
                        Some(r) => {
                            curr = r;
                            proof {
                                p = p.push(true);
                            }
                        },
                        None => {
                            proof {
                                lemma_contents_at(a, t, p.push(true), None, None, key@);
                            }
                            return None;
                        },
                    }
                },
            }
        }
    }

    /// Looks a key up: its value, a tombstone, or nothing.
    pub fn get(&self, key: &[u8]) -> (r: MemtableQuery)
        requires
            self.wf(),
        ensures
            match r {
                MemtableQuery::Data(d) => self@.contains_key(key@) && self@[key@] == Some(d@),
                MemtableQuery::Tombstone => self@.contains_key(key@) && self@[key@] == None::<Seq<u8>>,
                MemtableQuery::NotFound => !self@.contains_key(key@),
            },
    {
        match self.get_search(key) {
            None => MemtableQuery::NotFound,
            Some(node_idx) => match &self.arena[node_idx].data {
                NodeData::Data(data) => MemtableQuery::Data(data.clone()),
                NodeData::Tombstone => MemtableQuery::Tombstone,
            },
        }
    }
}


impl MemtableInner {
    /// Rotates the subtree at `n` to the left: the right child of `n` takes
    /// its place and `n` becomes that child's left child.
    fn left_rotate(&mut self, n: usize)
        requires
            rotatable_left(old(self).arena@, n),
        ensures
            left_rotated(old(self).arena@, final(self).arena@, n),
            same_payload(old(self).arena@, final(self).arena@),
            final(self).root_node == if old(self).arena@[n as int].parent is None {
                old(self).arena@[n as int].right
            } else {
                old(self).root_node
            },
            final(self).max_size == old(self).max_size,
            final(self).max_nodes == old(self).max_nodes,
            final(self).current_size == old(self).current_size,
            final(self).tree == old(self).tree,
    {
        let r = self.arena[n].right.unwrap();
        self.arena[n].right = self.arena[r].left;
        if let Some(r_left) = self.arena[r].left {
            self.arena[r_left].parent = Some(n);
        }
        self.arena[r].parent = self.arena[n].parent;
        match self.arena[n].parent {
            Some(p) => {
                if is_index(self.arena[p].left, n) {
                    self.arena[p].left = Some(r);
                } else {
                    self.arena[p].right = Some(r);
                }
            },
            None => self.root_node = Some(r),
        }
        self.arena[r].left = Some(n);
        self.arena[n].parent = Some(r);
    }

    /// Rotates the subtree at `n` to the right: the left child of `n` takes
    /// its place and `n` becomes that child's right child.
    fn right_rotate(&mut self, n: usize)
        requires
            rotatable_right(old(self).arena@, n),
        ensures
            right_rotated(old(self).arena@, final(self).arena@, n),
            same_payload(old(self).arena@, final(self).arena@),
            final(self).root_node == if old(self).arena@[n as int].parent is None {
                old(self).arena@[n as int].left
            } else {
                old(self).root_node
            },
            final(self).max_size == old(self).max_size,
            final(self).max_nodes == old(self).max_nodes,
            final(self).current_size == old(self).current_size,
            final(self).tree == old(self).tree,
    {
        let l = self.arena[n].left.unwrap();
        self.arena[n].left = self.arena[l].right;
        if let Some(l_right) = self.arena[l].right {
            self.arena[l_right].parent = Some(n);
        }
        self.arena[l].parent = self.arena[n].parent;
        match self.arena[n].parent {
            Some(p) => {
                if is_index(self.arena[p].left, n) {
                    self.arena[p].left = Some(l);
                } else {
                    self.arena[p].right = Some(l);
                }
            },
            None => self.root_node = Some(l),
        }
        self.arena[l].right = Some(n);
        self.arena[n].parent = Some(l);
    }
}

/// The nodes that a left rotation at `n` touches exist and are distinct.
pub open spec fn rotatable_left(a: Seq<MemtableNode>, n: usize) -> bool {
    &&& n < a.len()
    &&& a[n as int].right matches Some(r) && {
        &&& r < a.len()
        &&& r != n
        &&& (a[r as int].left matches Some(b) ==> b < a.len() && b != n && b != r)
        &&& (a[n as int].parent matches Some(p) ==> p < a.len() && p != n && p != r && Some(p)
            != a[r as int].left)
    }
}

/// The nodes that a right rotation at `n` touches exist and are distinct.
pub open spec fn rotatable_right(a: Seq<MemtableNode>, n: usize) -> bool {
    &&& n < a.len()
    &&& a[n as int].left matches Some(l) && {
        &&& l < a.len()
        &&& l != n
        &&& (a[l as int].right matches Some(b) ==> b < a.len() && b != n && b != l)
        &&& (a[n as int].parent matches Some(p) ==> p < a.len() && p != n && p != l && Some(p)
            != a[l as int].right)
    }
}



impl MemtableInner {
    fn insert_recolor(&mut self, parent: usize, grandparent: usize)
        requires
            parent < old(self).arena@.len(),
            grandparent < old(self).arena@.len(),
            parent != grandparent,
        ensures
            recolored(old(self).arena@, final(self).arena@),
            final(self).arena@[parent as int].color == Color::Black,
            final(self).arena@[grandparent as int].color == Color::Red,
            forall|j: int|
                0 <= j < old(self).arena@.len() && j != parent && j != grandparent
                    ==> final(self).arena@[j].color == old(self).arena@[j].color,
            final(self).root_node == old(self).root_node,
            final(self).max_size == old(self).max_size,
            final(self).max_nodes == old(self).max_nodes,
            final(self).current_size == old(self).current_size,
            final(self).tree == old(self).tree,
    {
        self.arena[parent].color = Color::Black;
        self.arena[grandparent].color = Color::Red;
    }

    /// Restores the colouring after a red node was hung at `path`: recolours
    /// while the uncle is red, otherwise rotates once or twice, and finally
    /// blackens the root.
    fn insert_fix_tree(&mut self, node_idx: usize, Ghost(path): Ghost<Seq<bool>>)
        requires
            fix_state(old(self).arena@, old(self).tree@, old(self).root_node, path, node_idx),
        ensures
            final(self).wf(),
            colors(final(self).arena@) == fix_result(colors(old(self).arena@), old(self).tree@, path).0,
            final(self).tree@ == fix_result(colors(old(self).arena@), old(self).tree@, path).1,
            contents(final(self).arena@, final(self).tree@) == contents(old(self).arena@, old(self).tree@),
            final(self).arena@.len() == old(self).arena@.len(),
            forall|j: int|
                0 <= j < old(self).arena@.len() ==> final(self).arena@[j].key == old(self).arena@[j].key
                    && final(self).arena@[j].data == old(self).arena@[j].data,
            final(self).max_size == old(self).max_size,
            final(self).max_nodes == old(self).max_nodes,
            final(self).current_size == old(self).current_size,
    {
        let ghost target = contents(self.arena@, self.tree@);
        let ghost a0 = self.arena@;
        let ghost max_size = self.max_size;
        let ghost max_nodes = self.max_nodes;
        let ghost current_size = self.current_size;
        let ghost run = fix_run(colors(self.arena@), self.tree@, path);
        let mut node_idx = node_idx;
        let ghost mut p = path;
        loop
            invariant_except_break
                fix_state(self.arena@, self.tree@, self.root_node, p, node_idx),
                fix_run(colors(self.arena@), self.tree@, p) == run,
            invariant
                contents(self.arena@, self.tree@) == target,
                self.arena@.len() == a0.len(),
                forall|j: int|
                    0 <= j < a0.len() ==> self.arena@[j].key == a0[j].key && self.arena@[j].data
                        == a0[j].data,
                self.max_size == max_size,
                self.max_nodes == max_nodes,
                self.current_size == current_size,
            ensures
                fix_done(self.arena@, self.tree@, self.root_node),
                colors(self.arena@) == run.0,
                self.tree@ == run.1,
            decreases fix_measure(p),
        {
            let ghost a = self.arena@;
            let ghost t = self.tree@;
            proof {
                lemma_node_links(a, t, p);
            }
            let parent_idx = match self.arena[node_idx].parent {
                Some(pi) => pi,
                None => {
                    proof {
                        lemma_fix_stop_root(a, t, self.root_node, p, node_idx);
                    }
                    break;
                },
            };
            if self.arena[parent_idx].color == Color::Black {
                proof {
                    lemma_fix_stop_black(a, t, self.root_node, p, node_idx);
                }
                break;
            }
            proof {
                lemma_fix_family(a, t, self.root_node, p, node_idx, parent_idx);
            }
            let grandparent_idx = self.arena[parent_idx].parent.unwrap();
            let uncle = self.arena[node_idx].uncle(self.arena.as_slice());
            match uncle {
                Some(u) if self.arena[u].color == Color::Red => {
                    self.arena[u].color = Color::Black;
                    self.arena[parent_idx].color = Color::Black;
                    self.arena[grandparent_idx].color = Color::Red;
                    proof {
                        lemma_fix_red_uncle(a, self.arena@, t, self.root_node, p, node_idx, parent_idx, grandparent_idx, u);
                        let c2 = colors(a).update(u as int, Color::Black).update(parent_idx as int, Color::Black).update(
                            grandparent_idx as int,
                            Color::Red,
                        );
                        assert(colors(self.arena@) =~= c2);
                        assert(fix_run(colors(a), t, p) == fix_run(c2, t, p.drop_last().drop_last()));
                        p = p.drop_last().drop_last();
                    }
                    node_idx = grandparent_idx;
                },
                _ => {
                    match derive_rotation_direction(
                        self.arena[grandparent_idx].left,
                        parent_idx,
                        self.arena[parent_idx].left,
                        node_idx,
                    ) {
                        (ChildType::Inner, RotationDirection::Right) => {
                            let ghost root = self.root_node;
                            self.right_rotate(parent_idx);
                            proof {
                                lemma_fix_inner_right(a, self.arena@, t, root, p, node_idx, parent_idx, self.root_node);
                                let pp = p.drop_last();
                                assert(colors(self.arena@) =~= colors(a));
                                assert(fix_run(colors(a), t, p) == fix_run(
                                    colors(a),
                                    t.replace(pp, t.at(pp).rotate_right()),
                                    pp.push(true),
                                ));
                                self.tree = Ghost(t.replace(pp, t.at(pp).rotate_right()));
                                p = pp.push(true);
                            }
                            node_idx = parent_idx;
                        },
                        (ChildType::Inner, RotationDirection::Left) => {
                            let ghost root = self.root_node;
                            self.left_rotate(parent_idx);
                            proof {
                                lemma_fix_inner_left(a, self.arena@, t, root, p, node_idx, parent_idx, self.root_node);
                                let pp = p.drop_last();
                                assert(colors(self.arena@) =~= colors(a));
                                assert(fix_run(colors(a), t, p) == fix_run(
                                    colors(a),
                                    t.replace(pp, t.at(pp).rotate_left()),
                                    pp.push(false),
                                ));
                                self.tree = Ghost(t.replace(pp, t.at(pp).rotate_left()));
                                p = pp.push(false);
                            }
                            node_idx = parent_idx;
                        },
                        (ChildType::Outer, RotationDirection::Right) => {
                            let ghost root = self.root_node;
                            self.insert_recolor(parent_idx, grandparent_idx);
                            let ghost a1 = self.arena@;
                            self.right_rotate(grandparent_idx);
                            proof {
                                lemma_fix_outer_right(a, a1, self.arena@, t, root, p, node_idx, parent_idx, grandparent_idx, self.root_node);
                                let gpp = p.drop_last().drop_last();
                                self.tree = Ghost(t.replace(gpp, t.at(gpp).rotate_right()));
                            }
                            break;
                        },
                        (ChildType::Outer, RotationDirection::Left) => {
                            let ghost root = self.root_node;
                            self.insert_recolor(parent_idx, grandparent_idx);
                            let ghost a1 = self.arena@;
                            self.left_rotate(grandparent_idx);
                            proof {
                                lemma_fix_outer_left(a, a1, self.arena@, t, root, p, node_idx, parent_idx, grandparent_idx, self.root_node);
                                let gpp = p.drop_last().drop_last();
                                self.tree = Ghost(t.replace(gpp, t.at(gpp).rotate_left()));
                            }
                            break;
                        },
                    }
                },
            }
        }
        // Rule 2: the root is always black.
        let root = self.root_node.unwrap();
        let ghost a = self.arena@;
        proof {
            lemma_links_indices(a, self.tree@, None);
        }
        self.arena[root].color = Color::Black;
        proof {
            lemma_recolor_keeps(a, self.arena@, self.tree@, self.root_node);
            lemma_blacken_root(a, self.arena@, self.tree@, None);
        }
    }
}


impl MemtableInner {
    /// Walks down from the root to where `node`'s key belongs: the node that
    /// already holds the key, or the empty side of the node to hang it on.
    fn find_insert_position(&self, node: &MemtableNode) -> (r: (InsertionPosition, Ghost<Seq<bool>>))
        requires
            self.wf(),
            self.root_node is Some,
        ensures
            match r.0 {
                InsertionPosition::ExistingNode(i) => {
                    &&& self.tree@.indices().contains(i)
                    &&& self.arena@[i as int].key@ == node.key@
                },
                InsertionPosition::NewNode(pidx, child) => {
                    let p = r.1@;
                    let d = child == Child::Right;
                    &&& search_path(self.arena@, self.tree@, node.key@) == p.push(d)
                    &&& self.tree@.valid_path(p)
                    &&& self.tree@.at(p).root() == Some(pidx)
                    &&& self.tree@.at(p.push(d)) == Tree::Leaf
                    &&& self.tree@.valid_path(p.push(d))
                    &&& in_bounds(
                        node.key@,
                        bounds_at(self.arena@, self.tree@, p.push(d), None, None).0,
                        bounds_at(self.arena@, self.tree@, p.push(d), None, None).1,
                    )
                },
            },
    {
        let ghost a = self.arena@;
        let ghost t = self.tree@;
        let mut curr = self.root_node.unwrap();
        let ghost mut p: Seq<bool> = Seq::empty();
        loop
            invariant
                self.wf(),
                a == self.arena@,
                t == self.tree@,
                t.valid_path(p),
                t.at(p).root() == Some(curr),
                in_bounds(node.key@, bounds_at(a, t, p, None, None).0, bounds_at(a, t, p, None, None).1),
                search_path(a, t, node.key@) == p + search_path(a, t.at(p), node.key@),
            decreases height(t) - p.len(),
        {
            proof {
                lemma_path_height(t, p);
                lemma_node_links(a, t, p);
                lemma_key_order_facts();
            }
            let parent = curr;
            let current = &self.arena[curr];
            match compare_keys(node.key.as_slice(), current.key.as_slice()) {
                KeyOrder::Equal => {
                    return (InsertionPosition::ExistingNode(curr), Ghost(p));
                },
                KeyOrder::Less => {
                    proof {
                        lemma_at_push(t, p, false);
                        lemma_bounds_push(a, t, p, false, None, None);
                    }
                    if let Some(child_idx) = current.left {
                        curr = child_idx;
                        proof {
                            p = p.push(false);
                        }
                    } else {
                        proof {
                            assert(search_path(a, t.at(p).child(false), node.key@) =~= Seq::<bool>::empty());
                            assert(search_path(a, t, node.key@) =~= p.push(false));
                        }
                        return (InsertionPosition::NewNode(parent, Child::Left), Ghost(p));
                    }
                },
                KeyOrder::Greater => {
                    proof {
                        lemma_at_push(t, p, true);
                        lemma_bounds_push(a, t, p, true, None, None);
                    }
                    if let Some(child_idx) = current.right {
                        curr = child_idx;
                        proof {
                            p = p.push(true);
                        }
                    } else {
                        proof {
                            assert(search_path(a, t.at(p).child(true), node.key@) =~= Seq::<bool>::empty());
                            assert(search_path(a, t, node.key@) =~= p.push(true));
                        }
                        return (InsertionPosition::NewNode(parent, Child::Right), Ghost(p));
                    }
                },
            }
        }
    }

    /// Makes `node` the black root of an empty tree.
    fn set_root(&mut self, node: MemtableNode, node_idx: usize)
        requires
            old(self).wf(),
            old(self).root_node is None,
            node_idx == old(self).arena@.len(),
            node.left is None,
            node.right is None,
            node.parent is None,
        ensures
            final(self).wf(),
            final(self)@ == old(self)@.insert(node.key@, node.data@),
            final(self).arena@.len() == 1,
            final(self).tree@ == Tree::Node(node_idx, Box::new(Tree::Leaf), Box::new(Tree::Leaf)),
            colors(final(self).arena@) == seq![Color::Black],
            old(self).arena@.len() == 0,
            old(self)@ == Map::<Seq<u8>, Option<Seq<u8>>>::empty(),
            final(self).max_size == old(self).max_size,
            final(self).max_nodes == old(self).max_nodes,
            final(self).current_size == old(self).current_size,
    {
        let ghost key = node.key@;
        let ghost data = node.data@;
        proof {
            assert(self.arena@.len() == 0) by {
                if self.arena@.len() > 0 {
                    assert(self.tree@.indices().contains(0));
                }
            }
        }
        self.root_node = Some(node_idx);
        let mut node = node;
        node.color = Color::Black;
        self.arena.push(node);
        let ghost leaf = Tree::Leaf;
        self.tree = Ghost(Tree::Node(node_idx, Box::new(Tree::Leaf), Box::new(Tree::Leaf)));
        proof {
            let t = self.tree@;
            let a = self.arena@;
            assert(leaf.indices() =~= Set::<usize>::empty());
            assert(t.indices() =~= Set::<usize>::empty().insert(0usize));
            assert(contents(a, leaf) == Map::<Seq<u8>, Option<Seq<u8>>>::empty());
            assert(contents(a, t) =~= Map::<Seq<u8>, Option<Seq<u8>>>::empty().insert(key, data));
            assert(ordered(a, leaf, None, Some(key)));
            assert(ordered(a, leaf, Some(key), None));
            assert(links(a, leaf, Some(0usize)));
            assert(links(a, t, None));
            assert(ordered(a, t, None, None));
            assert forall|j: usize| j < a.len() <==> #[trigger] t.indices().contains(j) by {}
            assert(old(self)@ =~= Map::<Seq<u8>, Option<Seq<u8>>>::empty());
            assert(black_height(a, leaf) == 0);
            assert(bh_ok(a, leaf));
            assert(red_ok(a, leaf, None));
            assert(bh_ok(a, t));
            assert(red_ok(a, t, None));
        }
    }

    /// Puts `node` into the tree: overwrites the data of the node with the
    /// same key, or hangs it as a new red leaf and restores the colouring.
    /// Only a new non-root node adds its data length to `current_size`.
    fn insert_node(&mut self, node: MemtableNode)
        requires
            old(self).wf(),
            node.left is None,
            node.right is None,
            node.parent is None,
            node.color == Color::Red,
            old(self).arena@.len() < usize::MAX,
            old(self).current_size + match node.data@ {
                Some(d) => d.len(),
                None => 0,
            } <= usize::MAX,
        ensures
            final(self).wf(),
            final(self)@ == old(self)@.insert(node.key@, node.data@),
            colors(final(self).arena@) == insert_shape(old(self).arena@, old(self).tree@, node.key@).0,
            final(self).tree@ == insert_shape(old(self).arena@, old(self).tree@, node.key@).1,
            final(self).arena@.len() == old(self).arena@.len() + if old(self)@.contains_key(node.key@) {
                0int
            } else {
                1int
            },
            final(self).current_size == old(self).current_size + if old(self).root_node is None
                || old(self)@.contains_key(node.key@) {
                0int
            } else {
                match node.data@ {
                    Some(d) => d.len() as int,
                    None => 0int,
                }
            },
            final(self).max_size == old(self).max_size,
            final(self).max_nodes == old(self).max_nodes,
    {
        let node_idx = self.arena.len();
        if self.root_node.is_none() {
            let ghost key = node.key@;
            let ghost a = self.arena@;
            let ghost t = self.tree@;
            self.set_root(node, node_idx);
            proof {
                let s1 = Tree::Node(node_idx, Box::new(Tree::Leaf), Box::new(Tree::Leaf));
                assert(t == Tree::Leaf);
                assert(search_path(a, t, key) =~= Seq::<bool>::empty());
                assert(t.replace(Seq::<bool>::empty(), s1) == s1);
                assert(colors(a).push(Color::Red).update(0, Color::Black) =~= seq![Color::Black]);
            }
            return;
        }
        let ghost a = self.arena@;
        let ghost t = self.tree@;
        let ghost key = node.key@;
        let ghost data = node.data@;
        let (position, Ghost(path)) = self.find_insert_position(&node);
        proof {
            lemma_links_indices(a, t, None);
        }
        let (parent_ptr, child) = match position {
            InsertionPosition::ExistingNode(curr_idx) => {
                self.arena[curr_idx].update_data_from_node(node);
                proof {
                    let a2 = self.arena@;
                    lemma_contents_update(a, a2, t, None, None, curr_idx);
                    lemma_links_frame(a, a2, t, None, None);
                    lemma_contents_has_node(a, t, None, None, curr_idx);
                    assert forall|j: usize| j < a2.len() <==> #[trigger] t.indices().contains(j) by {
                        assert(j < a.len() <==> t.indices().contains(j));
                    }
                    assert forall|j: usize| #[trigger] t.indices().contains(j) implies a2[j as int].color
                        == a[j as int].color by {
                        assert(j < a.len());
                    }
                    lemma_color_frame(a, a2, t);
                }
                return;
            },
            InsertionPosition::NewNode(parent, child) => (parent, child),
        };
        let ghost d = child == Child::Right;
        let ghost q = path.push(d);
        proof {
            lemma_node_links(a, t, path);
            lemma_contents_at(a, t, q, None, None, key);
            assert(!contents(a, t).contains_key(key));
            assert(q.drop_last() =~= path);
        }
        match child {
            Child::Left => self.arena[parent_ptr].left = Some(node_idx),
            Child::Right => self.arena[parent_ptr].right = Some(node_idx),
        }
        let mut node = node;
        node.parent = Some(parent_ptr);
        self.current_size = self.current_size + node.data.len();
        self.arena.push(node);
        proof {
            let a2 = self.arena@;
            let s1 = Tree::Node(node_idx, Box::new(Tree::Leaf), Box::new(Tree::Leaf));
            let t2 = t.replace(q, s1);
            assert(a2[node_idx as int].key@ == key);
            lemma_links_insert_leaf(a, a2, t, None, q, node_idx);
            lemma_kd_frame(a, a2, t, None, None);
            lemma_bounds_frame(a, a2, t, q, None, None);
            lemma_contents_insert_leaf(a2, t, q, None, None, node_idx);
            lemma_replace_leaf_indices(t, q, node_idx);
            lemma_replace_at(t, q, s1);
            assert forall|j: usize| j < a2.len() <==> #[trigger] t2.indices().contains(j) by {
                assert(j < a.len() <==> t.indices().contains(j));
            }
            assert forall|j: usize| #[trigger] t.indices().contains(j) implies a2[j as int].color
                == a[j as int].color by {
                assert(j < a.len());
            }
            assert(t.at(q).indices() =~= Set::<usize>::empty());
            assert(black_height(a2, Tree::Leaf) == 0);
            assert(bh_ok(a2, Tree::Leaf));
            assert(red_ok(a2, Tree::Leaf, Some(node_idx)));
            assert(a2[node_idx as int].color == Color::Red);
            assert(black_height(a2, s1) == 0);
            assert(bh_ok(a2, s1));
            assert(red_ok(a2, s1, Some(node_idx)));
            lemma_bh_replace(a, a2, t, None, q, s1);
            lemma_red_replace(a, a2, t, None, q, s1, None, Some(node_idx));
            self.tree = Ghost(t2);
            assert forall|j: int| 0 <= j < a.len() implies a2[j].color == a[j].color by {
                assert(t.indices().contains(j as usize));
            }
            assert(colors(a2) =~= colors(a).push(Color::Red));
        }
        self.insert_fix_tree(node_idx, Ghost(q));
    }

    /// Records `key` with `value` (data or a tombstone). A full table takes
    /// nothing and hands both back in `TableFull`.
    pub fn insert(&mut self, key: Vec<u8>, value: NodeData) -> (r: Result<(), MemtableError>)
        requires
            old(self).wf(),
            old(self).current_size + match value@ {
                Some(d) => d.len(),
                None => 0,
            } <= usize::MAX,
        ensures
            final(self).wf(),
            final(self).max_size == old(self).max_size,
            final(self).max_nodes == old(self).max_nodes,
            match r {
                Ok(()) => {
                    &&& !old(self).spec_full()
                    &&& final(self)@ == old(self)@.insert(key@, value@)
                    &&& colors(final(self).arena@) == insert_shape(old(self).arena@, old(self).tree@, key@).0
                    &&& final(self).tree@ == insert_shape(old(self).arena@, old(self).tree@, key@).1
                    &&& final(self).arena@.len() == old(self).arena@.len() + if old(
                        self,
                    )@.contains_key(key@) {
                        0int
                    } else {
                        1int
                    }
                    &&& final(self).current_size == old(self).current_size + if old(self).root_node
                        is None || old(self)@.contains_key(key@) {
                        0int
                    } else {
                        match value@ {
                            Some(d) => d.len() as int,
                            None => 0int,
                        }
                    }
                },
                Err(MemtableError::TableFull(k, v)) => {
                    &&& old(self).spec_full()
                    &&& k == key
                    &&& v == value
                    &&& final(self)@ == old(self)@
                    &&& final(self).arena@ == old(self).arena@
                    &&& final(self).tree@ == old(self).tree@
                    &&& final(self).current_size == old(self).current_size
                },
            },
    {
        if self.full() {
            return Err(MemtableError::TableFull(key, value));
        }
        let node = MemtableNode::new(key, value);
        self.insert_node(node);
        Ok(())
    }
}


/// The contents after the writes `ops`, oldest first, each an insert of a
/// key with a value or a tombstone.
pub open spec fn apply_writes(
    m: Map<Seq<u8>, Option<Seq<u8>>>,
    ops: Seq<(Seq<u8>, Option<Seq<u8>>)>,
) -> Map<Seq<u8>, Option<Seq<u8>>>
    decreases ops.len(),
{
    if ops.len() == 0 {
        m
    } else {
        apply_writes(m, ops.drop_last()).insert(ops.last().0, ops.last().1)
    }
}

/// The newest of the writes `ops` to `k`, if any.
pub open spec fn last_write(ops: Seq<(Seq<u8>, Option<Seq<u8>>)>, k: Seq<u8>) -> Option<Option<Seq<u8>>>
    decreases ops.len(),
{
    if ops.len() == 0 {
        None
    } else if ops.last().0 == k {
        Some(ops.last().1)
    } else {
        last_write(ops.drop_last(), k)
    }
}

/// After a run of writes, a key holds what its newest write put there, and
/// a key that no write touched holds what it held before.
pub proof fn law_newest_write_wins(
    m: Map<Seq<u8>, Option<Seq<u8>>>,
    ops: Seq<(Seq<u8>, Option<Seq<u8>>)>,
    k: Seq<u8>,
)
    ensures
        match last_write(ops, k) {
            Some(v) => apply_writes(m, ops).contains_key(k) && apply_writes(m, ops)[k] == v,
            None => apply_writes(m, ops).contains_key(k) == m.contains_key(k) && (m.contains_key(k)
                ==> apply_writes(m, ops)[k] == m[k]),
        },
    decreases ops.len(),
{
    if ops.len() > 0 {
        law_newest_write_wins(m, ops.drop_last(), k);
    }
}

} // verus!
