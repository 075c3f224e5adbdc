use nldb::error::MemtableError;
use nldb::memtable::immutable::ImmutableMemtable;
use nldb::memtable::inner::{Color, MemtableInner, MemtableNode, MemtableQuery, NodeData};

fn make_memtable() -> MemtableInner {
    MemtableInner::new(usize::MAX, 64)
}

fn check_subtree(arena: &[MemtableNode], node: Option<usize>) -> usize {
    let Some(idx) = node else {
        return 1;
    };
    let n = &arena[idx];
    if n.color == Color::Red {
        assert!(
            n.left.map_or(true, |l| arena[l].color == Color::Black),
            "Red node {idx} has red left child"
        );
        assert!(
            n.right.map_or(true, |r| arena[r].color == Color::Black),
            "Red node {idx} has red right child"
        );
    }
    let lbh = check_subtree(arena, n.left);
    let rbh = check_subtree(arena, n.right);
    assert_eq!(lbh, rbh, "Black height mismatch at node {idx}");
    if n.color == Color::Black {
        lbh + 1
    } else {
        lbh
    }
}

fn check_invariants(t: &MemtableInner) {
    let Some(root) = t.root_node else { return };
    assert_eq!(t.arena[root].color, Color::Black, "Root must be black");
    check_subtree(&t.arena, Some(root));
}

#[test]
fn test_root_is_black() {
    let mut t = make_memtable();
    t.insert(b"m".to_vec(), NodeData::Data(b"v".to_vec())).unwrap();
    assert_eq!(t.arena[t.root_node.unwrap()].color, Color::Black);
}

#[test]
fn test_get_after_insert() {
    let mut t = make_memtable();
    t.insert(b"hello".to_vec(), NodeData::Data(b"world".to_vec())).unwrap();
    assert_eq!(t.get(b"hello"), MemtableQuery::Data(b"world".to_vec()));
    assert_eq!(t.get(b"missing"), MemtableQuery::NotFound);
}

#[test]
fn test_duplicate_key_updates_value() {
    let mut t = make_memtable();
    t.insert(b"key".to_vec(), NodeData::Data(b"v1".to_vec())).unwrap();
    t.insert(b"key".to_vec(), NodeData::Data(b"v2".to_vec())).unwrap();
    assert_eq!(t.get(b"key"), MemtableQuery::Data(b"v2".to_vec()));
}

#[test]
fn test_case1_uncle_red() {
    let mut t = make_memtable();
    for k in ["m", "e", "t", "a"] {
        t.insert(k.as_bytes().to_vec(), NodeData::Data(b"".to_vec())).unwrap();
    }
    check_invariants(&t);
    let root = t.root_node.unwrap();
    let e_idx = t.arena[root].left.unwrap();
    let t_idx = t.arena[root].right.unwrap();
    assert_eq!(t.arena[e_idx].color, Color::Black);
    assert_eq!(t.arena[t_idx].color, Color::Black);
}

#[test]
fn test_case3_right_right() {
    let mut t = make_memtable();
    for k in ["a", "b", "c"] {
        t.insert(k.as_bytes().to_vec(), NodeData::Data(b"".to_vec())).unwrap();
    }
    check_invariants(&t);
    let root = t.root_node.unwrap();
    assert_eq!(t.arena[root].key, b"b");
    assert_eq!(t.arena[root].color, Color::Black);
}

#[test]
fn test_case3_left_left() {
    let mut t = make_memtable();
    for k in ["c", "b", "a"] {
        t.insert(k.as_bytes().to_vec(), NodeData::Data(b"".to_vec())).unwrap();
    }
    check_invariants(&t);
    let root = t.root_node.unwrap();
    assert_eq!(t.arena[root].key, b"b");
    assert_eq!(t.arena[root].color, Color::Black);
}

#[test]
fn test_case2_case3_right_left() {
    let mut t = make_memtable();
    for k in ["a", "c", "b"] {
        t.insert(k.as_bytes().to_vec(), NodeData::Data(b"".to_vec())).unwrap();
    }
    check_invariants(&t);
    let root = t.root_node.unwrap();
    assert_eq!(t.arena[root].key, b"b");
    assert_eq!(t.arena[root].color, Color::Black);
}

#[test]
fn zigzag_insert_leaves_red_children_under_black_root() {
    let mut t = make_memtable();
    for k in ["a", "c", "b"] {
        t.insert(k.as_bytes().to_vec(), NodeData::Data(b"".to_vec())).unwrap();
    }
    let root = t.root_node.unwrap();
    assert_eq!(root, 2);
    assert_eq!(t.arena[2].parent, None);
    assert_eq!(t.arena[2].left, Some(0));
    assert_eq!(t.arena[2].right, Some(1));
    assert_eq!(t.arena[0].key, b"a");
    assert_eq!(t.arena[0].color, Color::Red);
    assert_eq!(t.arena[0].parent, Some(2));
    assert_eq!(t.arena[1].key, b"c");
    assert_eq!(t.arena[1].color, Color::Red);
    assert_eq!(t.arena[1].parent, Some(2));
}

#[test]
fn test_case2_case3_left_right() {
    let mut t = make_memtable();
    for k in ["c", "a", "b"] {
        t.insert(k.as_bytes().to_vec(), NodeData::Data(b"".to_vec())).unwrap();
    }
    check_invariants(&t);
    let root = t.root_node.unwrap();
    assert_eq!(t.arena[root].key, b"b");
    assert_eq!(t.arena[root].color, Color::Black);
}

#[test]
fn test_invariants_many_inserts() {
    let mut t = make_memtable();
    for k in ["f", "b", "g", "a", "d", "i", "c", "e", "h"] {
        t.insert(k.as_bytes().to_vec(), NodeData::Data(b"".to_vec())).unwrap();
        check_invariants(&t);
    }
}

#[test]
fn test_all_keys_retrievable() {
    let mut t = make_memtable();
    let keys = ["f", "b", "g", "a", "d", "i", "c", "e", "h"];
    for k in keys {
        t.insert(k.as_bytes().to_vec(), NodeData::Data(vec![*k.as_bytes().first().unwrap()]))
            .unwrap();
    }
    for k in keys {
        assert_eq!(
            t.get(k.as_bytes()),
            MemtableQuery::Data(vec![*k.as_bytes().first().unwrap()]),
            "Missing key {k}"
        );
    }
}

#[test]
fn tombstone_is_reported() {
    let mut t = make_memtable();
    t.insert(b"k".to_vec(), NodeData::Data(b"v".to_vec())).unwrap();
    t.insert(b"k".to_vec(), NodeData::Tombstone).unwrap();
    assert_eq!(t.get(b"k"), MemtableQuery::Tombstone);
    assert_eq!(t.arena.len(), 1);
}

#[test]
fn table_full_hands_back_the_record() {
    let mut t = MemtableInner::new(usize::MAX, 2);
    t.insert(b"a".to_vec(), NodeData::Data(b"1".to_vec())).unwrap();
    t.insert(b"b".to_vec(), NodeData::Data(b"2".to_vec())).unwrap();
    assert!(t.full());
    match t.insert(b"c".to_vec(), NodeData::Data(b"3".to_vec())) {
        Err(MemtableError::TableFull(k, v)) => {
            assert_eq!(k, b"c".to_vec());
            assert_eq!(v, NodeData::Data(b"3".to_vec()));
        }
        Ok(()) => panic!("a full table took a record"),
    }
    assert_eq!(t.get(b"c"), MemtableQuery::NotFound);
}

#[test]
fn size_budget_counts_new_non_root_data() {
    let mut t = MemtableInner::new(5, 64);
    t.insert(b"root".to_vec(), NodeData::Data(b"xxxxxxxx".to_vec())).unwrap();
    assert_eq!(t.current_size, 0);
    t.insert(b"a".to_vec(), NodeData::Data(b"abc".to_vec())).unwrap();
    assert_eq!(t.current_size, 3);
    t.insert(b"a".to_vec(), NodeData::Data(b"abcdef".to_vec())).unwrap();
    assert_eq!(t.current_size, 3);
    t.insert(b"b".to_vec(), NodeData::Data(b"zz".to_vec())).unwrap();
    assert_eq!(t.current_size, 5);
    assert!(t.full());
}

#[test]
fn many_keys_keep_balance() {
    let mut t = MemtableInner::new(usize::MAX, 1024);
    for i in 0..500u32 {
        let k = format!("key{:05}", (i * 7919) % 500);
        t.insert(k.into_bytes(), NodeData::Data(i.to_be_bytes().to_vec())).unwrap();
    }
    check_invariants(&t);
    assert_eq!(t.arena.len(), 500);
}

fn make_inner(entries: &[(&str, NodeData)]) -> MemtableInner {
    let mut inner = MemtableInner::new(usize::MAX, 64);
    for (key, data) in entries {
        inner.insert(key.as_bytes().to_vec(), data.clone()).unwrap();
    }
    inner
}

#[test]
fn test_empty_returns_none() {
    let imm = ImmutableMemtable::new();
    assert_eq!(imm.get(b"key"), MemtableQuery::NotFound);
}

#[test]
fn immutable_test_insert_and_get() {
    let mut imm = ImmutableMemtable::new();
    imm.insert(make_inner(&[("k", NodeData::Data(b"v".to_vec()))]));
    assert_eq!(imm.get(b"k"), MemtableQuery::Data(b"v".to_vec()));
    assert_eq!(imm.get(b"missing"), MemtableQuery::NotFound);
}

#[test]
fn test_newest_wins() {
    let mut imm = ImmutableMemtable::new();
    imm.insert(make_inner(&[("k", NodeData::Data(b"v1".to_vec()))]));
    imm.insert(make_inner(&[("k", NodeData::Data(b"v2".to_vec()))]));
    assert_eq!(imm.get(b"k"), MemtableQuery::Data(b"v2".to_vec()));
}

#[test]
fn immutable_test_tombstone_hides_older_data() {
    let mut imm = ImmutableMemtable::new();
    imm.insert(make_inner(&[("k", NodeData::Data(b"v1".to_vec()))]));
    imm.insert(make_inner(&[("k", NodeData::Tombstone)]));
    assert_eq!(imm.get(b"k"), MemtableQuery::Tombstone);
}

#[test]
fn test_pop_removes_oldest() {
    let mut imm = ImmutableMemtable::new();
    imm.insert(make_inner(&[("only_a", NodeData::Data(b"v".to_vec()))]));
    imm.insert(make_inner(&[("only_b", NodeData::Data(b"v".to_vec()))]));
    imm.pop();
    assert_eq!(imm.get(b"only_a"), MemtableQuery::NotFound);
    assert_eq!(imm.get(b"only_b"), MemtableQuery::Data(b"v".to_vec()));
}

#[test]
fn run_of_writes_newest_wins() {
    let mut t = MemtableInner::new(usize::MAX, 1024);
    let mut model: Vec<(Vec<u8>, Option<Vec<u8>>)> = Vec::new();
    for i in 0..200u32 {
        let key = format!("k{}", (i * 7) % 31).into_bytes();
        let data = if i % 5 == 0 { NodeData::Tombstone } else { NodeData::Data(i.to_le_bytes().to_vec()) };
        t.insert(key.clone(), data.clone()).unwrap();
        model.push((key, match data { NodeData::Data(d) => Some(d), NodeData::Tombstone => None }));
    }
    for j in 0..40u32 {
        let key = format!("k{j}").into_bytes();
        let newest = model.iter().rev().find(|(k, _)| *k == key);
        let expected = match newest {
            None => MemtableQuery::NotFound,
            Some((_, None)) => MemtableQuery::Tombstone,
            Some((_, Some(d))) => MemtableQuery::Data(d.clone()),
        };
        assert_eq!(t.get(&key), expected);
    }
}
