use nldb::database::{memtable_layer, resolve_read, sstable_layer};
use nldb::memtable::active::Memtable;
use nldb::memtable::immutable::ImmutableMemtable;
use nldb::sstable::cache::SSTableCache;
use nldb::sstable::encode::write_sstable;

fn read(active: &Memtable, queue: &ImmutableMemtable, cache: &SSTableCache, key: &[u8]) -> Option<Vec<u8>> {
    resolve_read(vec![
        memtable_layer(active.get(key)),
        memtable_layer(queue.get(key)),
        sstable_layer(cache.search(key)),
    ])
}

const KEYS: [&[u8]; 5] = [b"a", b"b", b"c", b"d", b"e"];

fn snapshot(active: &Memtable, queue: &ImmutableMemtable, cache: &SSTableCache) -> Vec<Option<Vec<u8>>> {
    KEYS.iter().map(|k| read(active, queue, cache, k)).collect()
}

#[test]
fn read_path_rotation_flush_and_compaction_keep_reads() {
    let mut active = Memtable::new(usize::MAX, 3, 0);
    let mut queue = ImmutableMemtable::new();
    let mut cache = SSTableCache::new();

    active.insert(b"a".to_vec(), b"1".to_vec()).unwrap();
    active.insert(b"b".to_vec(), b"2".to_vec()).unwrap();
    active.delete(b"c".to_vec()).unwrap();
    let before = snapshot(&active, &queue, &cache);
    assert_eq!(before, vec![Some(b"1".to_vec()), Some(b"2".to_vec()), None, None, None]);

    // Rotation.
    let (full, _) = active.rotate(1);
    queue.insert(full);
    assert_eq!(snapshot(&active, &queue, &cache), before);

    // Newer writes shadow the rotated table.
    active.insert(b"b".to_vec(), b"20".to_vec()).unwrap();
    active.insert(b"c".to_vec(), b"30".to_vec()).unwrap();
    active.delete(b"a".to_vec()).unwrap();
    let before = snapshot(&active, &queue, &cache);
    assert_eq!(before, vec![None, Some(b"20".to_vec()), Some(b"30".to_vec()), None, None]);
    queue.insert(active.rotate(2).0);

    // Flush of the oldest rotated table.
    let before = snapshot(&active, &queue, &cache);
    let image = write_sstable(&queue.tables[0]);
    cache.push(image);
    queue.pop();
    assert_eq!(snapshot(&active, &queue, &cache), before);

    // Flush of the next one.
    let image = write_sstable(&queue.tables[0]);
    cache.push(image);
    queue.pop();
    assert_eq!(snapshot(&active, &queue, &cache), before);

    // Compaction.
    cache.compact().unwrap();
    assert_eq!(cache.tables.len(), 1);
    assert_eq!(snapshot(&active, &queue, &cache), before);
}
