use nldb::constants;
use nldb::disk::DiskRecord;
use nldb::memtable::inner::{MemtableInner, MemtableNode, MemtableQuery, NodeData};
use nldb::wal::{WalBuffer, WalIterator};

fn data_node(key: &[u8], value: &[u8]) -> MemtableNode {
    MemtableNode::new(key.to_vec(), NodeData::Data(value.to_vec()))
}

fn tombstone_node(key: &[u8]) -> MemtableNode {
    MemtableNode::new(key.to_vec(), NodeData::Tombstone)
}

fn collect(bytes: Vec<u8>) -> Vec<DiskRecord> {
    let mut it = WalIterator::new(bytes);
    let mut out = Vec::new();
    while let Some(r) = it.next() {
        out.push(r);
    }
    out
}

#[test]
fn test_data_record_roundtrip() {
    let mut wal = WalBuffer::new(0);
    wal.append_record(&data_node(b"hello", b"world"));
    let records = collect(wal.take_buffer(1));
    assert_eq!(records.len(), 1);
    assert_eq!(records[0].key, b"hello");
    assert_eq!(records[0].data, NodeData::Data(b"world".to_vec()));
}

#[test]
fn test_tombstone_roundtrip() {
    let mut wal = WalBuffer::new(0);
    wal.append_record(&tombstone_node(b"gone"));
    let records = collect(wal.take_buffer(1));
    assert_eq!(records.len(), 1);
    assert_eq!(records[0].key, b"gone");
    assert_eq!(records[0].data, NodeData::Tombstone);
}

#[test]
fn test_multiple_records_in_order() {
    let mut wal = WalBuffer::new(0);
    for i in 0..5u8 {
        wal.append_record(&data_node(format!("k{:?}", i).as_bytes(), &[i]));
    }
    let records = collect(wal.take_buffer(1));
    assert_eq!(records.len(), 5);
    for i in 0..5u8 {
        assert_eq!(records[i as usize].key, format!("k{:?}", i).as_bytes());
        assert_eq!(records[i as usize].data, NodeData::Data(vec![i]));
    }
}

#[test]
fn test_mixed_data_and_tombstones() {
    let mut wal = WalBuffer::new(0);
    wal.append_record(&data_node(b"a", b"v1"));
    wal.append_record(&tombstone_node(b"b"));
    wal.append_record(&data_node(b"c", b"v3"));
    let records = collect(wal.take_buffer(1));
    assert_eq!(records.len(), 3);
    assert_eq!(records[0].data, NodeData::Data(b"v1".to_vec()));
    assert_eq!(records[1].data, NodeData::Tombstone);
    assert_eq!(records[2].data, NodeData::Data(b"v3".to_vec()));
}

#[test]
fn test_buffer_not_written_before_flush() {
    let mut wal = WalBuffer::new(1000);
    wal.append_record(&data_node(b"k", b"v"));
    assert!(!wal.needs_flush(1000));
    assert!(!wal.needs_flush(1400));
    assert!(wal.needs_flush(1401));
    let flushed = wal.take_buffer(1401);
    assert!(!flushed.is_empty());
    assert!(wal.buffer.is_empty());
    assert_eq!(wal.last_flush, 1401);
}

#[test]
fn test_size_based_flush_trigger() {
    let mut wal = WalBuffer::new(0);
    let big_value = vec![0u8; constants::DEFAULT_WAL_BUFFER_SIZE];
    wal.append_record(&data_node(b"k1", &big_value));
    assert!(wal.needs_flush(0));
}

#[test]
fn wal_replay_rebuilds_table() {
    let mut wal = WalBuffer::new(0);
    wal.append_record(&data_node(b"foo", b"bar"));
    wal.append_record(&data_node(b"baz", b"qux"));
    wal.append_record(&tombstone_node(b"foo"));
    let table = MemtableInner::from_wal(wal.take_buffer(1), usize::MAX, 64);
    assert_eq!(table.get(b"foo"), MemtableQuery::Tombstone);
    assert_eq!(table.get(b"baz"), MemtableQuery::Data(b"qux".to_vec()));
    assert_eq!(table.get(b"anything"), MemtableQuery::NotFound);
}

#[test]
fn wal_replay_stops_when_full() {
    let mut wal = WalBuffer::new(0);
    for k in [b"a", b"b", b"c"] {
        wal.append_record(&data_node(k, b"v"));
    }
    let table = MemtableInner::from_wal(wal.take_buffer(1), usize::MAX, 2);
    assert_eq!(table.get(b"a"), MemtableQuery::Data(b"v".to_vec()));
    assert_eq!(table.get(b"b"), MemtableQuery::Data(b"v".to_vec()));
    assert_eq!(table.get(b"c"), MemtableQuery::NotFound);
}

#[test]
fn empty_wal_produces_empty_table() {
    let table = MemtableInner::from_wal(Vec::new(), usize::MAX, 64);
    assert_eq!(table.get(b"anything"), MemtableQuery::NotFound);
}

#[test]
fn wal_readable_logs() {
    let mut wal = WalBuffer::new(0);
    wal.append_record(&data_node(b"hello", b"world"));
    wal.append_record(&tombstone_node(b"gone"));
    let log = wal.take_buffer(1);
    assert!(nldb::wal::wal_is_readable(&log));
    assert!(nldb::wal::wal_is_readable(&[]));
    // A record cut short.
    assert!(!nldb::wal::wal_is_readable(&log[..log.len() - 1]));
    // A header byte of neither kind.
    let mut bad = log.clone();
    bad.push(7);
    assert!(!nldb::wal::wal_is_readable(&bad));
    // A log size that does not match the fields.
    let mut wrong = log.clone();
    wrong[1] = wrong[1] + 1;
    assert!(!nldb::wal::wal_is_readable(&wrong));
}
