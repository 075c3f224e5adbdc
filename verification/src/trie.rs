//! A byte trie from keys to block offsets: each node has one slot per byte
//! value and may hold the offset of the key that ends there.

use vstd::prelude::*;

verus! {

/// A node of the trie: the offset of the key that ends here, if any, and a
/// child per byte value.
pub struct TrieNode {
    pub offset: Option<u64>,
    pub children: Vec<Option<Box<TrieNode>>>,
}

/// The offset that the trie under `node` holds for `key`.
pub open spec fn node_get(node: TrieNode, key: Seq<u8>) -> Option<u64>
    decreases key.len(),
{
    if key.len() == 0 {
        node.offset
    } else if key[0] as int >= node.children@.len() {
        None
    } else {
        match node.children@[key[0] as int] {
            Some(child) => node_get(*child, key.drop_first()),
            None => None,
        }
    }
}

impl TrieNode {
    /// A node with no offset and an empty slot for each byte value.
    pub fn new_node() -> (r: TrieNode)
        ensures
            r.offset is None,
            r.children@.len() == 256,
            forall|i: int| 0 <= i < 256 ==> r.children@[i] is None,
            forall|k: Seq<u8>| #[trigger] node_get(r, k) is None,
    {
        let mut children: Vec<Option<Box<TrieNode>>> = Vec::with_capacity(256);
        let mut i: usize = 0;
        while i < 256
            invariant
                i <= 256,
                children@.len() == i,
                forall|j: int| 0 <= j < i ==> children@[j] is None,
            decreases 256 - i,
        {
            children.push(None);
            i = i + 1;
        }
        let r = TrieNode { offset: None, children };
        proof {
            assert forall|k: Seq<u8>| #[trigger] node_get(r, k) is None by {
                if k.len() > 0 && (k[0] as int) < r.children@.len() {
                    assert(r.children@[k[0] as int] is None);
                }
            }
        }
        r
    }
}

/// Records `offset` for the part of `key` from `i` on, under `node`.
fn insert_at(node: &mut TrieNode, key: &[u8], i: usize, offset: u64)
    requires
        i <= key@.len(),
    ensures
        forall|k: Seq<u8>|
            #[trigger] node_get(*final(node), k) == if k == key@.subrange(i as int, key@.len() as int) {
                Some(offset)
            } else {
                node_get(*old(node), k)
            },
    decreases key@.len() - i,
{
    let n = key.len();
    if i == n {
        node.offset = Some(offset);
        proof {
            assert forall|k: Seq<u8>|
                #[trigger] node_get(*node, k) == if k == key@.subrange(i as int, key@.len() as int) {
                    Some(offset)
                } else {
                    node_get(*old(node), k)
                } by {
                if k.len() == 0 {
                    assert(k =~= key@.subrange(i as int, key@.len() as int));
                } else {
                    assert(k != key@.subrange(i as int, key@.len() as int));
                }
            }
        }
        return;
    }
    let c = key[i] as usize;
    while node.children.len() <= c
        invariant
            node.offset == old(node).offset,
            old(node).children@.len() <= node.children@.len(),
            forall|j: int| 0 <= j < old(node).children@.len() ==> node.children@[j] == old(node).children@[j],
            forall|j: int| old(node).children@.len() <= j < node.children@.len() ==> node.children@[j] is None,
        decreases c + 1 - node.children.len(),
    {
        node.children.push(None);
    }
    let ghost grown = *node;
    proof {
        assert forall|k: Seq<u8>| #[trigger] node_get(grown, k) == node_get(*old(node), k) by {
            if k.len() > 0 && k[0] as int >= old(node).children@.len() && (k[0] as int) < grown.children@.len() {
                assert(grown.children@[k[0] as int] is None);
            }
        }
    }
    let taken = node.children.remove(c);
    let mut child: Box<TrieNode> = match taken {
        Some(b) => b,
        None => Box::new(TrieNode::new_node()),
    };
    let ghost before_child = *child;
    insert_at(&mut *child, key, i + 1, offset);
    node.children.insert(c, Some(child));
    proof {
        assert(node.children@ =~= grown.children@.update(c as int, Some(child)));
        let rest = key@.subrange(i + 1, key@.len() as int);
        let whole = key@.subrange(i as int, key@.len() as int);
        assert(whole.drop_first() =~= rest);
        assert(whole[0] == key@[i as int]);
        assert forall|k: Seq<u8>|
            #[trigger] node_get(*node, k) == if k == whole {
                Some(offset)
            } else {
                node_get(*old(node), k)
            } by {
            assert(node_get(grown, k) == node_get(*old(node), k));
            if k.len() > 0 && k[0] as int == c as int {
                assert(node_get(*node, k) == node_get(*child, k.drop_first()));
                assert(node_get(*child, k.drop_first()) == if k.drop_first() == rest {
                    Some(offset)
                } else {
                    node_get(before_child, k.drop_first())
                });
                if k.drop_first() == rest {
                    assert(k =~= whole) by {
                        assert forall|j: int| 0 <= j < k.len() implies k[j] == whole[j] by {
                            if j > 0 {
                                assert(k[j] == k.drop_first()[j - 1]);
                                assert(whole[j] == whole.drop_first()[j - 1]);
                            }
                        }
                    }
                } else {
                    assert(k != whole) by {
                        if k == whole {
                            assert(k.drop_first() =~= whole.drop_first());
                        }
                    }
                }
                match grown.children@[c as int] {
                    Some(g) => {
                        assert(before_child == *g);
                    },
                    None => {
                        assert(node_get(before_child, k.drop_first()) is None);
                    },
                }
            } else if k.len() > 0 {
                assert(k != whole);
            } else {
                assert(k != whole);
            }
        }
    }
}

/// A trie from keys to offsets.
pub struct Trie {
    pub head: TrieNode,
}

impl Trie {
    /// The offset held for `key`, if any.
    pub open spec fn spec_get(&self, key: Seq<u8>) -> Option<u64> {
        node_get(self.head, key)
    }

    /// A trie that holds no key: a root with no offset and an empty slot
    /// for each of the 256 byte values.
    pub fn new() -> (r: Trie)
        ensures
            forall|k: Seq<u8>| #[trigger] r.spec_get(k) is None,
            r.head.offset is None,
            r.head.children@.len() == 256,
            forall|i: int| 0 <= i < 256 ==> r.head.children@[i] is None,
    {
        Trie { head: TrieNode::new_node() }
    }

    /// Records `offset` for `key`, replacing what the key held.
    pub fn insert(&mut self, key: &[u8], offset: u64)
        ensures
            forall|k: Seq<u8>|
                #[trigger] final(self).spec_get(k) == if k == key@ {
                    Some(offset)
                } else {
                    old(self).spec_get(k)
                },
    {
        insert_at(&mut self.head, key, 0, offset);
        proof {
            assert(key@.subrange(0, key@.len() as int) =~= key@);
        }
    }

    /// The offset held for `key`, if any.
    pub fn get(&self, key: &[u8]) -> (r: Option<u64>)
        ensures
            r == self.spec_get(key@),
    {
        let mut curr: &TrieNode = &self.head;
        let n = key.len();
        let mut i: usize = 0;
        proof {
            assert(key@.subrange(0, n as int) =~= key@);
        }
        while i < n
            invariant
                n == key@.len(),
                i <= n,
                node_get(self.head, key@) == node_get(*curr, key@.subrange(i as int, n as int)),
            decreases n - i,
        {
            let c = key[i] as usize;
            let ghost rest = key@.subrange(i as int, n as int);
            proof {
                assert(rest[0] == key@[i as int]);
                assert(rest.drop_first() =~= key@.subrange(i + 1, n as int));
            }
            if c >= curr.children.len() {
                return None;
            }
            curr = match &curr.children[c] {
                Some(node) => node,
                None => {
                    return None;
                },
            };
            i = i + 1;
        }
        proof {
            assert(key@.subrange(n as int, n as int).len() == 0);
        }
        curr.offset
    }
}

} // verus!
