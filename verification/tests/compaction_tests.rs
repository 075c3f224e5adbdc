use nldb::compaction::{compaction_due, run_compaction};
use nldb::disk::encode::merge_encode_record;
use nldb::disk::DiskRecord;
use nldb::sstable::compaction_writer::CompactionWriter;
use nldb::error::SSTableError;
use nldb::memtable::inner::{MemtableInner, NodeData};
use nldb::sstable::encode::write_sstable;
use nldb::sstable::iterator::SSTableIterator;
use nldb::sstable::table::SSTable;

fn make_sstable(entries: &[(&[u8], NodeData)]) -> Vec<u8> {
    let mut inner = MemtableInner::new(usize::MAX, 64);
    for (key, data) in entries {
        inner.insert(key.to_vec(), data.clone()).unwrap();
    }
    write_sstable(&inner)
}

fn to_iter(image: &[u8]) -> SSTableIterator {
    let table = SSTable::from_image(image).unwrap();
    let end = table.index.data_block_end as usize;
    SSTableIterator::new(image[6..end].to_vec())
}

fn search(image: &[u8], key: &[u8]) -> Result<Vec<u8>, SSTableError> {
    let table = SSTable::from_image(image).unwrap();
    table.search(image, key)
}

#[test]
fn test_disjoint_keys_all_present() {
    let t0 = make_sstable(&[
        (b"a", NodeData::Data(b"va".to_vec())),
        (b"c", NodeData::Data(b"vc".to_vec())),
    ]);
    let t1 = make_sstable(&[
        (b"b", NodeData::Data(b"vb".to_vec())),
        (b"d", NodeData::Data(b"vd".to_vec())),
    ]);

    let iters = vec![to_iter(&t0), to_iter(&t1)];
    let compact = run_compaction(iters, 2);

    assert!(search(&compact, b"a").is_ok());
    assert!(search(&compact, b"b").is_ok());
    assert!(search(&compact, b"c").is_ok());
    assert!(search(&compact, b"d").is_ok());
}

#[test]
fn test_newer_table_wins_on_duplicate_key() {
    // index 0 = newer
    let newer = make_sstable(&[(b"k", NodeData::Data(b"new_val".to_vec()))]);
    let older = make_sstable(&[(b"k", NodeData::Data(b"old_val".to_vec()))]);

    let iters = vec![to_iter(&newer), to_iter(&older)];
    let compact = run_compaction(iters, 2);

    assert_eq!(search(&compact, b"k").unwrap(), b"new_val".to_vec());
}

#[test]
fn test_tombstone_dropped_from_output() {
    let t0 = make_sstable(&[(b"k", NodeData::Tombstone)]);

    let iters = vec![to_iter(&t0)];
    let compact = run_compaction(iters, 1);

    assert!(search(&compact, b"k").is_err());
}

#[test]
fn compaction_outputs_are_readable_tables() {
    let t0 = make_sstable(&[(b"k", NodeData::Tombstone)]);
    let empty = run_compaction(vec![to_iter(&t0)], 1);
    assert!(nldb::sstable::readable::table_is_readable(&empty));
    let t1 = make_sstable(&[(b"a", NodeData::Data(b"1".to_vec())), (b"b", NodeData::Tombstone)]);
    let one = run_compaction(vec![to_iter(&t1), to_iter(&t0)], 2);
    assert!(nldb::sstable::readable::table_is_readable(&one));
}

#[test]
fn mod_test_tombstone_hides_older_data() {
    // Newer table (idx 0) has a tombstone, the older one data: the key must not appear.
    let newer = make_sstable(&[(b"k", NodeData::Tombstone)]);
    let older = make_sstable(&[(b"k", NodeData::Data(b"stale".to_vec()))]);

    let iters = vec![to_iter(&newer), to_iter(&older)];
    let compact = run_compaction(iters, 2);

    assert!(search(&compact, b"k").is_err());
}

#[test]
fn test_output_keys_are_sorted() {
    let t0 = make_sstable(&[
        (b"z", NodeData::Data(b"vz".to_vec())),
        (b"a", NodeData::Data(b"va".to_vec())),
    ]);

    let iters = vec![to_iter(&t0)];
    let compact = run_compaction(iters, 1);

    assert_eq!(search(&compact, b"a").unwrap(), b"va".to_vec());
    assert_eq!(search(&compact, b"z").unwrap(), b"vz".to_vec());
}

#[test]
fn compaction_tombstone_over_data_gives_not_found() {
    let newer = make_sstable(&[(b"k", NodeData::Tombstone)]);
    let older = make_sstable(&[(b"k", NodeData::Data(b"stale".to_vec()))]);
    let compact = run_compaction(vec![to_iter(&newer), to_iter(&older)], 2);
    assert_eq!(search(&compact, b"k"), Err(SSTableError::DiskRecordNotFound));
}

#[test]
fn compaction_merges_three_tables_newest_first() {
    let t0 = make_sstable(&[(b"b", NodeData::Data(b"b0".to_vec()))]);
    let t1 = make_sstable(&[
        (b"a", NodeData::Data(b"a1".to_vec())),
        (b"b", NodeData::Data(b"b1".to_vec())),
    ]);
    let t2 = make_sstable(&[
        (b"a", NodeData::Data(b"a2".to_vec())),
        (b"c", NodeData::Data(b"c2".to_vec())),
    ]);
    let compact = run_compaction(vec![to_iter(&t0), to_iter(&t1), to_iter(&t2)], 3);
    assert_eq!(search(&compact, b"a").unwrap(), b"a1".to_vec());
    assert_eq!(search(&compact, b"b").unwrap(), b"b0".to_vec());
    assert_eq!(search(&compact, b"c").unwrap(), b"c2".to_vec());
    assert_eq!(search(&compact, b"d"), Err(SSTableError::DiskRecordNotFound));
}

#[test]
fn compaction_output_iterates_in_key_order() {
    let t0 = make_sstable(&[
        (b"m", NodeData::Data(b"1".to_vec())),
        (b"c", NodeData::Data(b"2".to_vec())),
        (b"x", NodeData::Tombstone),
    ]);
    let t1 = make_sstable(&[(b"a", NodeData::Data(b"3".to_vec()))]);
    let compact = run_compaction(vec![to_iter(&t0), to_iter(&t1)], 2);
    let mut it = to_iter(&compact);
    let mut keys = Vec::new();
    while let Some(r) = it.next() {
        keys.push(r.key);
    }
    assert_eq!(keys, vec![b"a".to_vec(), b"c".to_vec(), b"m".to_vec()]);
}

use nldb::sstable::cache::SSTableCache;

#[test]
fn cache_search_newest_first() {
    let mut cache = SSTableCache::new();
    assert_eq!(cache.search(b"k"), Err(SSTableError::DiskRecordNotFound));
    let older = make_sstable(&[
        (b"k", NodeData::Data(b"old".to_vec())),
        (b"gone", NodeData::Data(b"was".to_vec())),
        (b"only_old", NodeData::Data(b"o".to_vec())),
    ]);
    let newer = make_sstable(&[
        (b"k", NodeData::Data(b"new".to_vec())),
        (b"gone", NodeData::Tombstone),
    ]);
    assert_eq!(cache.push(older), 1);
    assert_eq!(cache.push(newer), 2);
    assert_eq!(cache.search(b"k").unwrap(), b"new".to_vec());
    assert_eq!(cache.search(b"gone"), Err(SSTableError::DiskRecordNotFound));
    assert_eq!(cache.search(b"only_old").unwrap(), b"o".to_vec());
    assert_eq!(cache.search(b"missing"), Err(SSTableError::DiskRecordNotFound));
}

#[test]
fn cache_compaction_keeps_every_read() {
    let mut cache = SSTableCache::new();
    cache.push(make_sstable(&[
        (b"a", NodeData::Data(b"a0".to_vec())),
        (b"b", NodeData::Data(b"b0".to_vec())),
        (b"c", NodeData::Data(b"c0".to_vec())),
    ]));
    cache.push(make_sstable(&[
        (b"b", NodeData::Tombstone),
        (b"c", NodeData::Data(b"c1".to_vec())),
        (b"d", NodeData::Data(b"d1".to_vec())),
    ]));
    let keys: Vec<&[u8]> = vec![b"a", b"b", b"c", b"d", b"e"];
    let before: Vec<_> = keys.iter().map(|k| cache.search(k)).collect();
    let image = cache.compact().unwrap();
    assert_eq!(cache.tables.len(), 1);
    assert_eq!(cache.images[0], image);
    let after: Vec<_> = keys.iter().map(|k| cache.search(k)).collect();
    assert_eq!(before, after);
    assert_eq!(after[0], Ok(b"a0".to_vec()));
    assert_eq!(after[1], Err(SSTableError::DiskRecordNotFound));
    assert_eq!(after[2], Ok(b"c1".to_vec()));
    assert_eq!(after[3], Ok(b"d1".to_vec()));
    assert_eq!(after[4], Err(SSTableError::DiskRecordNotFound));
}

#[test]
fn cache_replace_with_compact_table() {
    let mut cache = SSTableCache::new();
    cache.push(make_sstable(&[(b"x", NodeData::Data(b"1".to_vec()))]));
    cache.push(make_sstable(&[(b"y", NodeData::Data(b"2".to_vec()))]));
    cache.replace_with_compact_table(make_sstable(&[(b"z", NodeData::Data(b"3".to_vec()))]));
    assert_eq!(cache.tables.len(), 1);
    assert_eq!(cache.search(b"z").unwrap(), b"3".to_vec());
    assert_eq!(cache.search(b"x"), Err(SSTableError::DiskRecordNotFound));
}

#[test]
fn cache_compaction_iterators_read_each_table() {
    let mut cache = SSTableCache::new();
    cache.push(make_sstable(&[(b"p", NodeData::Data(b"1".to_vec()))]));
    cache.push(make_sstable(&[(b"q", NodeData::Tombstone)]));
    let mut iters = cache.compaction_iterators();
    assert_eq!(iters.len(), 2);
    let first = iters[0].next().unwrap();
    assert_eq!(first.key, b"q".to_vec());
    assert_eq!(first.data, NodeData::Tombstone);
    let second = iters[1].next().unwrap();
    assert_eq!(second.key, b"p".to_vec());
    assert!(iters[1].next().is_none());
}

#[test]
fn compaction_is_due_at_the_rate() {
    assert!(!compaction_due(9, 10));
    assert!(compaction_due(10, 10));
    assert!(compaction_due(11, 10));
}

#[test]
fn compaction_writer_run_of_pushes_reads_back() {
    let mut w = CompactionWriter::new();
    let mut expected = vec![78u8, 76, 68, 66, 0, 0];
    let keys: Vec<Vec<u8>> = (0..300u32).map(|i| format!("key{i:04}").into_bytes()).collect();
    for (i, k) in keys.iter().enumerate() {
        let rec = DiskRecord { key: k.clone(), data: NodeData::Data(vec![i as u8; 20]) };
        expected.extend(merge_encode_record(DiskRecord { key: k.clone(), data: rec.data.clone() }));
        w.push(rec);
    }
    let image = w.finish();
    assert_eq!(&image[..expected.len()], &expected[..]);
    for (i, k) in keys.iter().enumerate() {
        assert_eq!(search(&image, k), Ok(vec![i as u8; 20]));
    }
    assert_eq!(search(&image, b"other"), Err(SSTableError::DiskRecordNotFound));
}
