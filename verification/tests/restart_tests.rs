use nldb::memtable::inner::{MemtableInner, MemtableNode, MemtableQuery, NodeData};
use nldb::restart::{
    get_restart_state, sstable_timestamp, wal_timestamp, DatabaseFile, SSTableArtifact,
    WalArtifact,
};
use nldb::util::{generate_sstable_file_name, generate_wal_file_name};
use nldb::wal::WalBuffer;

fn names(list: &[&str]) -> Vec<Vec<u8>> {
    list.iter().map(|s| s.as_bytes().to_vec()).collect()
}

fn scan(list: &[&str]) -> (Vec<SSTableArtifact>, Vec<WalArtifact>) {
    get_restart_state(names(list))
}

#[test]
fn test_empty_directory_returns_no_files() {
    let (sstables, wals) = scan(&[]);
    assert!(sstables.is_empty());
    assert!(wals.is_empty());
}

#[test]
fn test_sstable_files_detected() {
    let (sstables, wals) = scan(&["1000.sstable", "2000.sstable"]);
    assert_eq!(sstables.len(), 2);
    assert!(wals.is_empty());
}

#[test]
fn test_sstables_sorted_newest_first() {
    let (sstables, _) = scan(&["1000.sstable", "3000.sstable", "2000.sstable"]);
    assert_eq!(sstables[0].filename, b"3000.sstable".to_vec());
    assert_eq!(sstables[1].filename, b"2000.sstable".to_vec());
    assert_eq!(sstables[2].filename, b"1000.sstable".to_vec());
}

#[test]
fn test_wal_file_detected() {
    let (_, wals) = scan(&["wal.1000.log"]);
    assert_eq!(wals.len(), 1);
    assert_eq!(wals[0].filename, b"wal.1000.log".to_vec());
}

#[test]
fn test_multiple_wals_sorted_oldest_first() {
    let (_, wals) = scan(&["wal.3000.log", "wal.1000.log", "wal.2000.log"]);
    assert_eq!(wals.len(), 3);
    assert_eq!(wals[0].filename, b"wal.1000.log".to_vec());
    assert_eq!(wals[1].filename, b"wal.2000.log".to_vec());
    assert_eq!(wals[2].filename, b"wal.3000.log".to_vec());
}

#[test]
fn test_non_database_files_ignored() {
    let (sstables, wals) = scan(&["notes.txt", "config.json"]);
    assert!(sstables.is_empty());
    assert!(wals.is_empty());
}

#[test]
fn test_non_wal_log_files_ignored() {
    let (sstables, wals) = scan(&["other.log"]);
    assert!(sstables.is_empty());
    assert!(wals.is_empty());
}

#[test]
fn test_both_wal_and_sstable_detected() {
    let (sstables, wals) = scan(&["1000.sstable", "wal.2000.log"]);
    assert_eq!(sstables.len(), 1);
    assert_eq!(wals.len(), 1);
}

#[test]
fn restart_timestamps_are_read() {
    let (sstables, wals) = scan(&["42.sstable", "wal.7.log"]);
    assert_eq!(sstables[0].ts, 42);
    assert_eq!(wals[0].ts, 7);
}

#[test]
fn restart_file_kinds() {
    assert!(matches!(DatabaseFile::from_path(b"12.sstable"), Some(DatabaseFile::SSTable)));
    assert!(matches!(DatabaseFile::from_path(b"wal.12.log"), Some(DatabaseFile::Wal)));
    assert!(DatabaseFile::from_path(b"other.log").is_none());
    assert!(DatabaseFile::from_path(b"sstable").is_none());
    assert!(DatabaseFile::from_path(b"..").is_none());
}

#[test]
fn restart_bad_timestamps_are_found() {
    let (sstables, wals) = scan(&["abc.sstable", "wal.x1.log", "walrus.log", "wal.log", "walx.5.log", "1.sstable"]);
    assert_eq!(sstables.len(), 1);
    assert_eq!(sstables[0].filename, b"1.sstable".to_vec());
    assert!(wals.is_empty());
    assert!(DatabaseFile::from_path(b"walrus.log").is_none());
    assert!(DatabaseFile::from_path(b"wal.log").is_none());
    assert_eq!(wal_timestamp(b"wal.123.log"), Some(123));
    assert_eq!(wal_timestamp(b"wal"), None);
    assert_eq!(sstable_timestamp(b"99.sstable"), Some(99));
    assert_eq!(sstable_timestamp(b"x9.sstable"), None);
}

#[test]
fn restart_generated_names_read_back() {
    let w = generate_wal_file_name(123456789);
    assert_eq!(w, b"wal.123456789.log".to_vec());
    assert_eq!(WalArtifact::new(w).ts, 123456789);
    let s = generate_sstable_file_name(987654321);
    assert_eq!(s, b"987654321.sstable".to_vec());
    assert_eq!(SSTableArtifact::new(s).ts, 987654321);
}

fn make_wal(records: &[(&str, &[u8])]) -> Vec<u8> {
    let mut wal = WalBuffer::new(0);
    for (key, value) in records {
        let node = MemtableNode::new(key.as_bytes().to_vec(), NodeData::Data(value.to_vec()));
        wal.append_record(&node);
    }
    wal.take_buffer(1)
}

fn load(logs: Vec<Vec<u8>>) -> Vec<MemtableInner> {
    logs.into_iter()
        .map(|log| MemtableInner::from_wal(log, usize::MAX, 64))
        .collect()
}

#[test]
fn test_single_wal_data_recovered() {
    let result = load(vec![make_wal(&[("foo", b"bar"), ("baz", b"qux")])]);
    assert_eq!(result.len(), 1);
    assert_eq!(result[0].get(b"foo"), MemtableQuery::Data(b"bar".to_vec()));
    assert_eq!(result[0].get(b"baz"), MemtableQuery::Data(b"qux".to_vec()));
}

#[test]
fn test_empty_wal_produces_empty_table() {
    let result = load(vec![make_wal(&[])]);
    assert_eq!(result.len(), 1);
    assert_eq!(result[0].get(b"anything"), MemtableQuery::NotFound);
}

#[test]
fn test_multiple_wals_all_loaded() {
    let result = load(vec![
        make_wal(&[("k1", b"v1")]),
        make_wal(&[("k2", b"v2")]),
        make_wal(&[("k3", b"v3")]),
    ]);
    assert_eq!(result.len(), 3);
}

#[test]
fn test_order_preserved() {
    let result = load(vec![
        make_wal(&[("only_in_first", b"yes")]),
        make_wal(&[("only_in_second", b"yes")]),
    ]);
    assert_eq!(result.len(), 2);
    assert_eq!(result[0].get(b"only_in_first"), MemtableQuery::Data(b"yes".to_vec()));
    assert_eq!(result[0].get(b"only_in_second"), MemtableQuery::NotFound);
    assert_eq!(result[1].get(b"only_in_second"), MemtableQuery::Data(b"yes".to_vec()));
    assert_eq!(result[1].get(b"only_in_first"), MemtableQuery::NotFound);
}

#[test]
fn test_tables_are_independent() {
    let result = load(vec![make_wal(&[("k", b"old")]), make_wal(&[("k", b"new")])]);
    assert_eq!(result[0].get(b"k"), MemtableQuery::Data(b"old".to_vec()));
    assert_eq!(result[1].get(b"k"), MemtableQuery::Data(b"new".to_vec()));
}

#[test]
fn restart_equal_timestamps_keep_their_order() {
    let (sstables, wals) = scan(&["01.sstable", "2.sstable", "1.sstable", "wal.5.log", "wal.05.log", "wal.4.log"]);
    assert_eq!(sstables[0].filename, b"2.sstable".to_vec());
    assert_eq!(sstables[1].filename, b"01.sstable".to_vec());
    assert_eq!(sstables[2].filename, b"1.sstable".to_vec());
    assert_eq!(wals[0].filename, b"wal.4.log".to_vec());
    assert_eq!(wals[1].filename, b"wal.5.log".to_vec());
    assert_eq!(wals[2].filename, b"wal.05.log".to_vec());
}
