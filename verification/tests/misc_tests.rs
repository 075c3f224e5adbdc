use bytes::BytesMut;
use nldb::config::{setting_of, NldbConfig, Setting};
use nldb::constants;
use nldb::database::{memtable_layer, resolve_read, sstable_layer, LayerRead};
use nldb::error::{NldbError, SSTableError};
use nldb::memtable::inner::MemtableQuery;
use nldb::ser::{construct_error_message, delete_response, insert_response, serialize_get_response};

#[test]
fn config_defaults() {
    let c = NldbConfig::default();
    assert_eq!(c.max_memtable_nodes, 4096);
    assert_eq!(c.max_memtable_size, 4000000);
    assert_eq!(c.compaction_rate, 10);
    assert_eq!(c.cache_size, 2048);
    assert_eq!(c.compaction_queue_size, 100);
    assert_eq!(c.memtable_flush_queue_size, 100);
}

#[test]
fn config_from_named_params() {
    let c = NldbConfig::from_params(vec![
        (b"--cache_size".to_vec(), 7),
        (b"--max_memtable_nodes".to_vec(), 12),
        (b"--cache_size".to_vec(), 9),
    ]);
    assert_eq!(c.cache_size, 9);
    assert_eq!(c.max_memtable_nodes, 12);
    assert_eq!(c.max_memtable_size, 4000000);
    assert_eq!(c.compaction_rate, 10);
}

#[test]
fn config_every_setting_by_name() {
    assert_eq!(setting_of(b"--max_memtable_nodes"), Some(Setting::MaxMemtableNodes));
    assert_eq!(setting_of(b"--max_memtable_size"), Some(Setting::MaxMemtableSize));
    assert_eq!(setting_of(b"--compaction_rate"), Some(Setting::CompactionRate));
    assert_eq!(setting_of(b"--cache_size"), Some(Setting::CacheSize));
    assert_eq!(setting_of(b"--compaction_queue_size"), Some(Setting::CompactionQueueSize));
    assert_eq!(
        setting_of(b"--memtable_flush_queue_size"),
        Some(Setting::MemtableFlushQueueSize)
    );
    assert_eq!(setting_of(b"cache_size"), None);
    assert_eq!(setting_of(b"--cache"), None);
    assert_eq!(setting_of(b"-"), None);
}

#[test]
fn config_all_params() {
    let c = NldbConfig::from_params(vec![
        (b"--max_memtable_size".to_vec(), 1),
        (b"--compaction_rate".to_vec(), 2),
        (b"--compaction_queue_size".to_vec(), 3),
        (b"--memtable_flush_queue_size".to_vec(), 4),
    ]);
    assert_eq!(c.max_memtable_size, 1);
    assert_eq!(c.compaction_rate, 2);
    assert_eq!(c.compaction_queue_size, 3);
    assert_eq!(c.memtable_flush_queue_size, 4);
    assert_eq!(c.max_memtable_nodes, 4096);
    assert_eq!(c.cache_size, 2048);
}

#[test]
fn ser_error_messages() {
    let mut buf = BytesMut::new();
    buf.extend_from_slice(b"leftover");
    construct_error_message(NldbError::InvalidQuery, &mut buf);
    assert_eq!(&buf[..], &[0u8, 2u8]);
    construct_error_message(NldbError::KeySizeConstraint, &mut buf);
    assert_eq!(&buf[..], &[0u8, 4u8]);
    construct_error_message(NldbError::RecordSizeConstraint, &mut buf);
    assert_eq!(&buf[..], &[0u8, 5u8]);
    construct_error_message(NldbError::IOError, &mut buf);
    assert_eq!(&buf[..], &[0u8, 1u8]);
    construct_error_message(NldbError::InvalidParameter, &mut buf);
    assert_eq!(&buf[..], &[constants::TCP_SERVER_ERROR, constants::INTERNAL_ERROR]);
}

#[test]
fn ser_insert_and_delete_responses() {
    let mut buf = BytesMut::new();
    buf.extend_from_slice(b"xyz");
    insert_response(&mut buf);
    assert_eq!(&buf[..], &[1u8]);
    buf.extend_from_slice(b"xyz");
    delete_response(&mut buf);
    assert_eq!(&buf[..], &[1u8]);
}

#[test]
fn ser_get_responses() {
    let mut buf = BytesMut::new();
    serialize_get_response(Some(b"hello".to_vec()), &mut buf);
    assert_eq!(&buf[..], &[1u8, 5, b'h', b'e', b'l', b'l', b'o']);
    serialize_get_response(None, &mut buf);
    assert_eq!(&buf[..], &[1u8, 0]);
    let big = vec![7u8; 200];
    serialize_get_response(Some(big.clone()), &mut buf);
    assert_eq!(&buf[..3], &[1u8, 0xC8, 0x01]);
    assert_eq!(&buf[3..], &big[..]);
}

#[test]
fn database_layers() {
    assert_eq!(
        memtable_layer(MemtableQuery::Data(b"v".to_vec())),
        LayerRead::Found(b"v".to_vec())
    );
    assert_eq!(memtable_layer(MemtableQuery::Tombstone), LayerRead::Deleted);
    assert_eq!(memtable_layer(MemtableQuery::NotFound), LayerRead::Absent);
    assert_eq!(sstable_layer(Ok(b"w".to_vec())), LayerRead::Found(b"w".to_vec()));
    assert_eq!(sstable_layer(Err(SSTableError::Tombstone)), LayerRead::Deleted);
    assert_eq!(sstable_layer(Err(SSTableError::DiskRecordNotFound)), LayerRead::Absent);
    assert_eq!(sstable_layer(Err(SSTableError::IOError)), LayerRead::Absent);
}

#[test]
fn database_newest_layer_decides() {
    assert_eq!(resolve_read(vec![]), None);
    assert_eq!(
        resolve_read(vec![
            LayerRead::Absent,
            LayerRead::Found(b"new".to_vec()),
            LayerRead::Found(b"old".to_vec())
        ]),
        Some(b"new".to_vec())
    );
    assert_eq!(
        resolve_read(vec![LayerRead::Deleted, LayerRead::Found(b"old".to_vec())]),
        None
    );
    assert_eq!(resolve_read(vec![LayerRead::Absent, LayerRead::Absent]), None);
    assert_eq!(
        resolve_read(vec![
            LayerRead::Absent,
            LayerRead::Deleted,
            LayerRead::Found(b"old".to_vec())
        ]),
        None
    );
}

#[test]
fn config_command_line_flag_spellings() {
    assert_eq!(setting_of(b"--max_memtable-nodes"), Some(Setting::MaxMemtableNodes));
    assert_eq!(setting_of(b"--max_memtable-size"), Some(Setting::MaxMemtableSize));
    assert_eq!(setting_of(b"--compaction-rate"), Some(Setting::CompactionRate));
    assert_eq!(setting_of(b"--cache-size"), Some(Setting::CacheSize));
    assert_eq!(setting_of(b"--compaction-queue-size"), Some(Setting::CompactionQueueSize));
    assert_eq!(
        setting_of(b"--memtable-flush-queue_size"),
        Some(Setting::MemtableFlushQueueSize)
    );
    let c = NldbConfig::from_params(vec![(b"--cache-size".to_vec(), 10)]);
    assert_eq!(c.cache_size, 10);
    assert_eq!(c.max_memtable_nodes, 4096);
    assert_eq!(c.max_memtable_size, 4_000_000);
    assert_eq!(c.compaction_rate, 10);
    assert_eq!(c.compaction_queue_size, 100);
    assert_eq!(c.memtable_flush_queue_size, 100);
}
