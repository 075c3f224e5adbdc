use nldb::sstable::readable::table_is_readable;
use std::hash::{DefaultHasher, Hash, Hasher};
use nldb::error::SSTableError;
use nldb::memtable::inner::{MemtableInner, NodeData};
use nldb::sstable::bloom_filter::BloomFilter;
use nldb::sstable::compaction_writer::CompactionWriter;
use nldb::sstable::encode::{encode_index_block, fits_sstable, write_sstable};
use nldb::sstable::footer::{encode_footer, SSTableFooter};
use nldb::sstable::iterator::SSTableIterator;
use nldb::sstable::table::{validate_buffer_and_get_version, SSTable};
use nldb::ssindex::decode_index;

fn make_memtable_with_records(records: &[(&str, &[u8])]) -> MemtableInner {
    let mut table = MemtableInner::new(usize::MAX, 64);
    for (key, data) in records {
        table.insert(key.as_bytes().to_vec(), NodeData::Data(data.to_vec())).unwrap();
    }
    table
}

#[test]
fn roundtrip_search() {
    let records = [
        ("apple", b"fruit".as_slice()),
        ("banana", b"yellow"),
        ("cherry", b"red"),
        ("date", b"sweet"),
        ("elderberry", b"dark"),
    ];
    let table = make_memtable_with_records(&records);
    let image = write_sstable(&table);
    let sstable = SSTable::from_image(&image).unwrap();
    for (key, expected_data) in &records {
        let result = sstable.search(&image, key.as_bytes()).unwrap();
        assert_eq!(result, *expected_data, "data mismatch for key {key}");
    }
    assert!(matches!(
        sstable.search(&image, b"notakey"),
        Err(SSTableError::DiskRecordNotFound)
    ));
}

#[test]
fn sstable_layout_header_and_footer() {
    let table = make_memtable_with_records(&[("k", b"v")]);
    let image = write_sstable(&table);
    assert_eq!(&image[..6], &[78, 76, 68, 66, 0, 0]);
    assert_eq!(validate_buffer_and_get_version(&image), Ok(0));
    let footer = SSTableFooter::from_bytes(&image[image.len() - 24..]);
    // header (6) + one record [0][6][1]k[1]v (6 bytes)
    assert_eq!(footer.index_block_start, 12);
    assert_eq!(footer.index_block_len, 1);
    // one index entry: [1]k + 8-byte offset
    assert_eq!(footer.bloom_filter_start, 22);
    assert_eq!(&image[12..22], &[1, b'k', 0, 0, 0, 0, 0, 0, 0, 6]);
}

#[test]
fn invalid_magic_is_refused() {
    assert_eq!(
        validate_buffer_and_get_version(&[1, 2, 3, 4, 0, 0]),
        Err(SSTableError::InvalidSSTableFile)
    );
}

#[test]
fn tombstones_are_written_and_found() {
    let mut table = MemtableInner::new(usize::MAX, 64);
    table.insert(b"a".to_vec(), NodeData::Data(b"1".to_vec())).unwrap();
    table.insert(b"b".to_vec(), NodeData::Tombstone).unwrap();
    let image = write_sstable(&table);
    let sstable = SSTable::from_image(&image).unwrap();
    assert!(matches!(sstable.search(&image, b"b"), Err(SSTableError::Tombstone)));
    assert_eq!(sstable.search(&image, b"a").unwrap(), b"1".to_vec());
}

#[test]
fn large_table_spans_many_blocks() {
    let mut table = MemtableInner::new(usize::MAX, 4096);
    for i in 0..2000u32 {
        let key = format!("key-{i:06}");
        table.insert(key.into_bytes(), NodeData::Data(vec![(i % 251) as u8; 20])).unwrap();
    }
    let image = write_sstable(&table);
    let sstable = SSTable::from_image(&image).unwrap();
    assert!(sstable.index.keys.len() > 10);
    for i in (0..2000u32).step_by(37) {
        let key = format!("key-{i:06}");
        assert_eq!(sstable.search(&image, key.as_bytes()).unwrap(), vec![(i % 251) as u8; 20]);
    }
    assert!(sstable.search(&image, b"key-999999").is_err());
    assert!(sstable.search(&image, b"a").is_err());
}

#[test]
fn footer_roundtrip() {
    let bytes = encode_footer(1, 2, 0x0102030405060708);
    assert_eq!(bytes.len(), 24);
    let f = SSTableFooter::from_bytes(&bytes);
    assert_eq!(f.index_block_start, 1);
    assert_eq!(f.index_block_len, 2);
    assert_eq!(f.bloom_filter_start, 0x0102030405060708);
}

#[test]
fn index_block_roundtrip() {
    let entries = vec![(b"apple".to_vec(), 6u64), (b"mango".to_vec(), 4006u64)];
    let bytes = encode_index_block(entries);
    let (keys, offsets) = decode_index(&bytes, 2);
    assert_eq!(keys, vec![b"apple".to_vec(), b"mango".to_vec()]);
    assert_eq!(offsets, vec![6, 4006]);
}

#[test]
fn bloom_filter_has_no_false_negatives() {
    let mut bf = BloomFilter::new(100);
    assert_eq!(bf.bits.len(), 16);
    assert_eq!(bf.num_bits, 1024);
    assert_eq!(bf.num_hashes, 7);
    let keys: Vec<Vec<u8>> = (0..100u32).map(|i| format!("k{i}").into_bytes()).collect();
    for k in &keys {
        bf.insert(k);
    }
    for k in &keys {
        assert!(bf.contains(k));
    }
    let misses = (0..1000u32).filter(|i| bf.contains(format!("other{i}").as_bytes())).count();
    assert!(misses < 100);
}

#[test]
fn bloom_filter_hash_count_formula() {
    // num_bits / size * ln 2, rounded
    assert_eq!(BloomFilter::new(1).num_hashes, 44);
    assert_eq!(BloomFilter::new(1024).num_hashes, 7);
    assert_eq!(BloomFilter::new(0).num_hashes, 1);
    assert_eq!(BloomFilter::new(0).bits.len(), 0);
}

#[test]
fn bloom_filter_serialize_roundtrip() {
    let mut bf = BloomFilter::new(10);
    bf.insert(b"x");
    let bits = bf.bits.clone();
    let hashes = bf.num_hashes;
    let bytes = bf.serialize();
    assert_eq!(bytes.len(), 1 + 8 * bits.len() + 8);
    let back = BloomFilter::from_bytes(&bytes);
    assert_eq!(back.bits, bits);
    assert_eq!(back.num_hashes, hashes);
    assert_eq!(back.num_bits, 64 * bits.len() as u64);
    assert!(back.contains(b"x"));
}

#[test]
fn bloom_filter_second_insert_changes_nothing() {
    let mut bf = BloomFilter::new(10);
    bf.insert(b"x");
    let once = bf.bits.clone();
    bf.insert(b"x");
    assert_eq!(bf.bits, once);
    let before = bf.bits.clone();
    bf.insert(b"y");
    for (old, new) in before.iter().zip(bf.bits.iter()) {
        assert_eq!(old & !new, 0);
    }
    assert!(bf.contains(b"x") && bf.contains(b"y"));
}

#[test]
fn bloom_filter_read_ignores_trailing_bytes() {
    let mut bf = BloomFilter::new(10);
    bf.insert(b"x");
    let bits = bf.bits.clone();
    let hashes = bf.num_hashes;
    let mut bytes = bf.serialize();
    bytes.extend_from_slice(&[0xff, 0x01, 0x02]);
    let back = BloomFilter::from_bytes(&bytes);
    assert_eq!(back.bits, bits);
    assert_eq!(back.num_hashes, hashes);
    assert!(back.contains(b"x"));
}

#[test]
fn empty_filter_contains_nothing() {
    let bf = BloomFilter::new(10);
    assert!(!bf.contains(b"anything"));
}

#[test]
fn writer_records_iterate_back() {
    let mut w = CompactionWriter::new();
    w.push_record(b"a".to_vec(), NodeData::Data(b"1".to_vec()));
    w.push_record(b"b".to_vec(), NodeData::Tombstone);
    let image = w.finish();
    let sstable = SSTable::from_image(&image).unwrap();
    let data = image[6..sstable.index.data_block_end as usize].to_vec();
    let mut it = SSTableIterator::new(data);
    let r1 = it.next().unwrap();
    let r2 = it.next().unwrap();
    assert!(it.next().is_none());
    assert_eq!(r1.key, b"a");
    assert_eq!(r2.data, NodeData::Tombstone);
}

fn seeded(seed: u64, key: &[u8]) -> u64 {
    let mut h = DefaultHasher::new();
    seed.hash(&mut h);
    h.write(key);
    h.finish()
}

#[test]
fn bloom_filter_sets_the_seeded_hash_bits() {
    let mut f = nldb::sstable::bloom_filter::BloomFilter::new(100);
    f.insert(b"some key");
    let h1 = seeded(0, b"some key");
    let h2 = seeded(1, b"some key");
    let mut expected = vec![0u64; f.bits.len()];
    for i in 0..f.num_hashes {
        let b = h1.wrapping_add(i.wrapping_mul(h2)) % f.num_bits;
        expected[(b / 64) as usize] |= 1u64 << (b % 64);
    }
    assert_eq!(f.bits, expected);
}

#[test]
fn default_cache_shards_is_positive() {
    assert!(nldb::constants::get_default_cache_shards() >= 1);
}

#[test]
fn readable_tables_are_recognised() {
    let t = make_memtable_with_records(&[("apple", b"fruit"), ("banana", b"yellow"), ("cherry", b"red")]);
    let image = write_sstable(&t);
    assert!(table_is_readable(&image));
    // Cut short.
    assert!(!table_is_readable(&image[..image.len() - 1]));
    assert!(!table_is_readable(&[]));
    // A changed magic byte.
    let mut bad = image.clone();
    bad[0] = b'X';
    assert!(!table_is_readable(&bad));
    // A changed footer.
    let mut bad = image.clone();
    let n = bad.len();
    bad[n - 1] ^= 1;
    assert!(!table_is_readable(&bad));
    // A changed index entry offset.
    let table = SSTable::from_image(&image).unwrap();
    let ds = table.index.data_block_end as usize;
    let mut bad = image.clone();
    bad[ds + 7] ^= 0x10;
    assert!(!table_is_readable(&bad));
    // Trailing bytes.
    let mut longer = image.clone();
    longer.push(0);
    assert!(!table_is_readable(&longer));
}

#[test]
fn sstable_filter_is_sized_for_the_table() {
    let records: Vec<(String, Vec<u8>)> = (0..20u32).map(|i| (format!("key{i:02}"), vec![i as u8])).collect();
    let refs: Vec<(&str, &[u8])> = records.iter().map(|(k, v)| (k.as_str(), v.as_slice())).collect();
    let table = make_memtable_with_records(&refs);
    let image = write_sstable(&table);
    let footer = SSTableFooter::from_bytes(&image[image.len() - 24..]);
    let start = footer.bloom_filter_start as usize;
    let filter = BloomFilter::from_bytes(&image[start..image.len() - 24]);
    // twenty keys, ten bits each, rounded up to whole words
    assert_eq!(filter.bits.len(), (20 * 10 + 63) / 64);
    assert_eq!(filter.num_hashes, BloomFilter::new(20).num_hashes);
    for (k, _) in &records {
        assert!(filter.contains(k.as_bytes()));
    }
}

#[test]
fn small_table_fits_an_sstable() {
    let table = make_memtable_with_records(&[("a", b"1"), ("b", b"2")]);
    assert!(fits_sstable(&table));
    assert!(fits_sstable(&MemtableInner::new(10, 10)));
}
