use nldb::trie::Trie;

#[test]
fn trie_empty_holds_nothing() {
    let t = Trie::new();
    assert_eq!(t.get(b""), None);
    assert_eq!(t.get(b"abc"), None);
}

#[test]
fn trie_insert_then_get() {
    let mut t = Trie::new();
    t.insert(b"apple", 6);
    t.insert(b"app", 100);
    t.insert(b"banana", 4006);
    assert_eq!(t.get(b"apple"), Some(6));
    assert_eq!(t.get(b"app"), Some(100));
    assert_eq!(t.get(b"banana"), Some(4006));
    assert_eq!(t.get(b"ap"), None);
    assert_eq!(t.get(b"apples"), None);
    assert_eq!(t.get(b"b"), None);
}

#[test]
fn trie_insert_replaces() {
    let mut t = Trie::new();
    t.insert(b"k", 1);
    t.insert(b"k", 2);
    assert_eq!(t.get(b"k"), Some(2));
    t.insert(b"", 9);
    assert_eq!(t.get(b""), Some(9));
    t.insert(&[0u8, 255u8], 7);
    assert_eq!(t.get(&[0u8, 255u8]), Some(7));
    assert_eq!(t.get(&[0u8]), None);
}
