use nldb::disk::decode::decode_disk_record;
use nldb::disk::encode::{
    encode_insert_record, encode_memtable_node, encode_tombstone_record, merge_encode_record,
};
use nldb::disk::{read_data_block, search_data_block, DiskRecord};
use nldb::error::SSTableError;
use nldb::memtable::inner::{MemtableNode, NodeData};
use nldb::util;

fn make_insert_record(key: &[u8], data: &[u8]) -> Vec<u8> {
    let (key_varint, varint_len) = util::encode_varint(key.len());
    encode_insert_record(key, &key_varint[..varint_len], data)
}

fn make_tombstone_record(key: &[u8]) -> Vec<u8> {
    let (key_varint, varint_len) = util::encode_varint(key.len());
    encode_tombstone_record(key, &key_varint[..varint_len])
}

#[test]
fn insert_record_roundtrip() {
    let key = b"hello";
    let data = b"world";
    let buf = make_insert_record(key, data);

    let mut offset = 0;
    let record = decode_disk_record(&buf, &mut offset).unwrap();

    assert_eq!(record.key, key);
    assert!(matches!(record.data, NodeData::Data(ref d) if d == data));
    assert_eq!(offset, buf.len());
}

#[test]
fn tombstone_record_roundtrip() {
    let key = b"deleted_key";
    let buf = make_tombstone_record(key);

    let mut offset = 0;
    let record = decode_disk_record(&buf, &mut offset).unwrap();

    assert_eq!(record.key, key);
    assert!(matches!(record.data, NodeData::Tombstone));
    assert_eq!(offset, buf.len());
}

#[test]
fn insert_record_empty_data() {
    let key = b"emptyval";
    let buf = make_insert_record(key, b"");

    let mut offset = 0;
    let record = decode_disk_record(&buf, &mut offset).unwrap();

    assert_eq!(record.key, key);
    assert!(matches!(record.data, NodeData::Data(ref d) if d.is_empty()));
}

#[test]
fn insert_record_large_key_and_data() {
    let key = b"k".repeat(200);
    let data = vec![0xAB_u8; 500];
    let buf = make_insert_record(&key, &data);

    let mut offset = 0;
    let record = decode_disk_record(&buf, &mut offset).unwrap();

    assert_eq!(record.key, key);
    assert!(matches!(record.data, NodeData::Data(ref d) if *d == data));
    assert_eq!(offset, buf.len());
}

#[test]
fn multiple_records_sequential_decode() {
    let buf1 = make_insert_record(b"alpha", b"1");
    let buf2 = make_tombstone_record(b"beta");
    let buf3 = make_insert_record(b"gamma", b"3");

    let mut combined = Vec::new();
    combined.extend_from_slice(&buf1);
    combined.extend_from_slice(&buf2);
    combined.extend_from_slice(&buf3);

    let mut offset = 0;
    let r1 = decode_disk_record(&combined, &mut offset).unwrap();
    let r2 = decode_disk_record(&combined, &mut offset).unwrap();
    let r3 = decode_disk_record(&combined, &mut offset).unwrap();

    assert_eq!(r1.key, b"alpha");
    assert!(matches!(r1.data, NodeData::Data(ref d) if d == b"1"));
    assert_eq!(r2.key, b"beta");
    assert!(matches!(r2.data, NodeData::Tombstone));
    assert_eq!(r3.key, b"gamma");
    assert!(matches!(r3.data, NodeData::Data(ref d) if d == b"3"));
    assert_eq!(offset, combined.len());
}

#[test]
fn invalid_header_returns_none() {
    let buf = [0xFF_u8, 0x00];
    let mut offset = 0;
    let result = decode_disk_record(&buf, &mut offset);
    assert!(result.is_none());
    assert_eq!(offset, 1);
}

#[test]
fn insert_record_exact_bytes() {
    // [0][log size 8][key len 3]["foo"][data len 3]["bar"]
    let buf = make_insert_record(b"foo", b"bar");
    assert_eq!(buf, vec![0, 8, 3, b'f', b'o', b'o', 3, b'b', b'a', b'r']);
    let tomb = make_tombstone_record(b"foo");
    assert_eq!(tomb, vec![1, 4, 3, b'f', b'o', b'o']);
}

#[test]
fn memtable_node_encodes_as_record() {
    let node = MemtableNode::new(b"key".to_vec(), NodeData::Data(b"value".to_vec()));
    assert_eq!(encode_memtable_node(&node), make_insert_record(b"key", b"value"));
    let tomb = MemtableNode::new(b"key".to_vec(), NodeData::Tombstone);
    assert_eq!(encode_memtable_node(&tomb), make_tombstone_record(b"key"));
}

#[test]
fn merge_record_encodes_as_data_record() {
    let record = DiskRecord { key: b"k".to_vec(), data: NodeData::Data(b"v".to_vec()) };
    assert_eq!(merge_encode_record(record), make_insert_record(b"k", b"v"));
}

#[test]
fn search_block_finds_data_tombstone_and_nothing() {
    let mut block = Vec::new();
    block.extend_from_slice(&make_insert_record(b"a", b"1"));
    block.extend_from_slice(&make_tombstone_record(b"b"));
    block.extend_from_slice(&make_insert_record(b"c", b"33"));
    assert_eq!(search_data_block(&block, b"a").unwrap(), b"1".to_vec());
    assert_eq!(search_data_block(&block, b"c").unwrap(), b"33".to_vec());
    assert!(matches!(search_data_block(&block, b"b"), Err(SSTableError::Tombstone)));
    assert!(matches!(search_data_block(&block, b"d"), Err(SSTableError::DiskRecordNotFound)));
    assert!(matches!(search_data_block(&[], b"a"), Err(SSTableError::DiskRecordNotFound)));
}

#[test]
fn read_data_block_at_an_offset() {
    let mut block = vec![9u8, 9, 9];
    block.extend(encode_memtable_node(&MemtableNode::new(b"key".to_vec(), NodeData::Data(b"value".to_vec()))));
    let second = block.len();
    block.extend(encode_memtable_node(&MemtableNode::new(b"gone".to_vec(), NodeData::Tombstone)));
    assert_eq!(read_data_block(&block, 3, b"key"), Ok(b"value".to_vec()));
    assert_eq!(read_data_block(&block, second, b"gone"), Err(SSTableError::Tombstone));
}
