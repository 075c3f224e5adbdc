use nldb::error::MemtableError;
use nldb::memtable::active::Memtable;
use nldb::memtable::inner::{MemtableNode, MemtableQuery, NodeData};
use nldb::wal::WalBuffer;

fn make_memtable() -> Memtable {
    Memtable::new(usize::MAX, 64, 0)
}

#[test]
fn mod_test_insert_and_get() {
    let mut m = make_memtable();
    m.insert(b"foo".to_vec(), b"bar".to_vec()).unwrap();
    assert_eq!(m.get(b"foo"), MemtableQuery::Data(b"bar".to_vec()));
}

#[test]
fn test_get_missing_returns_none() {
    let m = make_memtable();
    assert_eq!(m.get(b"missing"), MemtableQuery::NotFound);
}

#[test]
fn test_insert_overwrites_existing() {
    let mut m = make_memtable();
    m.insert(b"k".to_vec(), b"v1".to_vec()).unwrap();
    m.insert(b"k".to_vec(), b"v2".to_vec()).unwrap();
    assert_eq!(m.get(b"k"), MemtableQuery::Data(b"v2".to_vec()));
}

#[test]
fn test_delete_writes_tombstone() {
    let mut m = make_memtable();
    m.insert(b"k".to_vec(), b"v".to_vec()).unwrap();
    m.delete(b"k".to_vec()).unwrap();
    assert_eq!(m.get(b"k"), MemtableQuery::Tombstone);
}

#[test]
fn test_delete_nonexistent_key_writes_tombstone() {
    let mut m = make_memtable();
    m.delete(b"ghost".to_vec()).unwrap();
    assert_eq!(m.get(b"ghost"), MemtableQuery::Tombstone);
}

#[test]
fn test_rotate_returns_old_table() {
    let mut m = make_memtable();
    m.insert(b"a".to_vec(), b"1".to_vec()).unwrap();
    m.insert(b"b".to_vec(), b"2".to_vec()).unwrap();

    let (old, _) = m.rotate(1);
    assert_eq!(old.get(b"a"), MemtableQuery::Data(b"1".to_vec()));
    assert_eq!(old.get(b"b"), MemtableQuery::Data(b"2".to_vec()));
}

#[test]
fn test_rotate_fresh_table_is_empty() {
    let mut m = make_memtable();
    m.insert(b"a".to_vec(), b"1".to_vec()).unwrap();
    m.rotate(1);
    assert_eq!(m.get(b"a"), MemtableQuery::NotFound);
}

#[test]
fn test_table_full_error() {
    // max_nodes = 2: root and one child fill the table, the third insert errors.
    let mut m = Memtable::new(usize::MAX, 2, 0);
    m.insert(b"a".to_vec(), b"".to_vec()).unwrap();
    m.insert(b"b".to_vec(), b"".to_vec()).unwrap();
    assert!(matches!(
        m.insert(b"c".to_vec(), b"".to_vec()),
        Err(MemtableError::TableFull(..))
    ));
}

#[test]
fn test_new_from_wal_recovers_data() {
    let mut wal = WalBuffer::new(0);
    wal.append_record(&MemtableNode::new(
        b"hello".to_vec(),
        NodeData::Data(b"world".to_vec()),
    ));
    wal.append_record(&MemtableNode::new(
        b"foo".to_vec(),
        NodeData::Data(b"bar".to_vec()),
    ));
    let log = wal.take_buffer(1);

    let m = Memtable::new_from_wal(log, usize::MAX, 64, 0);
    assert_eq!(m.get(b"hello"), MemtableQuery::Data(b"world".to_vec()));
    assert_eq!(m.get(b"foo"), MemtableQuery::Data(b"bar".to_vec()));
    assert_eq!(m.get(b"missing"), MemtableQuery::NotFound);
}

#[test]
fn memtable_full_error_hands_back_key_and_value() {
    let mut m = Memtable::new(usize::MAX, 1, 0);
    m.insert(b"a".to_vec(), b"1".to_vec()).unwrap();
    match m.insert(b"b".to_vec(), b"2".to_vec()) {
        Err(MemtableError::TableFull(k, v)) => {
            assert_eq!(k, b"b".to_vec());
            assert_eq!(v, NodeData::Data(b"2".to_vec()));
        }
        _ => panic!("expected a full table"),
    }
    match m.delete(b"a".to_vec()) {
        Err(MemtableError::TableFull(k, v)) => {
            assert_eq!(k, b"a".to_vec());
            assert_eq!(v, NodeData::Tombstone);
        }
        _ => panic!("expected a full table"),
    }
    assert_eq!(m.get(b"a"), MemtableQuery::Data(b"1".to_vec()));
}

#[test]
fn memtable_byte_budget_fills_table() {
    let mut m = Memtable::new(4, 64, 0);
    m.insert(b"a".to_vec(), b"1".to_vec()).unwrap();
    m.insert(b"b".to_vec(), b"1234".to_vec()).unwrap();
    assert!(matches!(
        m.insert(b"c".to_vec(), b"x".to_vec()),
        Err(MemtableError::TableFull(..))
    ));
}

#[test]
fn memtable_rotate_keeps_limits() {
    let mut m = Memtable::new(usize::MAX, 1, 0);
    m.insert(b"a".to_vec(), b"1".to_vec()).unwrap();
    let (old, _) = m.rotate(1);
    assert_eq!(old.get(b"a"), MemtableQuery::Data(b"1".to_vec()));
    m.insert(b"b".to_vec(), b"2".to_vec()).unwrap();
    assert!(m.insert(b"c".to_vec(), b"3".to_vec()).is_err());
}

#[test]
fn memtable_log_replays_to_the_table() {
    let mut m = Memtable::new(usize::MAX, 3, 0);
    m.insert(b"a".to_vec(), b"1".to_vec()).unwrap();
    let mut log = m.take_log(5);
    assert!(m.wal.buffer.is_empty());
    m.delete(b"b".to_vec()).unwrap();
    m.insert(b"a".to_vec(), b"2".to_vec()).unwrap();
    m.insert(b"c".to_vec(), b"3".to_vec()).unwrap();
    // Full: neither taken nor logged.
    assert!(m.insert(b"d".to_vec(), b"4".to_vec()).is_err());
    log.extend_from_slice(&m.wal.buffer);
    let recovered = Memtable::new_from_wal(log.clone(), usize::MAX, 3, 9);
    for k in [b"a".as_slice(), b"b", b"c", b"d"] {
        assert_eq!(recovered.get(k), m.get(k));
    }
    assert_eq!(recovered.inner.arena.len(), m.inner.arena.len());
    assert_eq!(recovered.inner.current_size, m.inner.current_size);
    assert_eq!(recovered.wal.buffer, log);
}

#[test]
fn memtable_rotate_hands_out_unwritten_log() {
    let mut m = Memtable::new(usize::MAX, 8, 0);
    m.insert(b"k".to_vec(), b"v".to_vec()).unwrap();
    let expected = m.wal.buffer.clone();
    let (old, rest) = m.rotate(3);
    assert_eq!(rest, expected);
    assert_eq!(old.get(b"k"), MemtableQuery::Data(b"v".to_vec()));
    assert!(m.wal.buffer.is_empty());
    assert_eq!(m.wal.last_flush, 3);
}

#[test]
fn memtable_flush_timing() {
    let mut m = Memtable::new(usize::MAX, 8, 1000);
    assert!(!m.needs_flush(1000));
    assert!(!m.needs_flush(1400));
    assert!(m.needs_flush(1401));
    m.take_log(1401);
    assert!(!m.needs_flush(1500));
}

#[test]
fn recovery_logs_only_the_records_it_takes() {
    let mut big = Memtable::new(usize::MAX, 64, 0);
    big.insert(b"a".to_vec(), b"1".to_vec()).unwrap();
    big.insert(b"b".to_vec(), b"2".to_vec()).unwrap();
    let taken = big.wal.buffer.clone();
    big.insert(b"c".to_vec(), b"3".to_vec()).unwrap();
    let log = big.wal.buffer.clone();
    let recovered = Memtable::new_from_wal(log, usize::MAX, 2, 1);
    assert_eq!(recovered.wal.buffer, taken);
    assert_eq!(recovered.get(b"a"), MemtableQuery::Data(b"1".to_vec()));
    assert_eq!(recovered.get(b"c"), MemtableQuery::NotFound);
}
