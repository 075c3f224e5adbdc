use vstd::prelude::*;

verus! {

/// Errors reported by the memtable.
#[derive(Debug)]
pub enum MemtableError {
    /// The table takes no more records; the rejected key and data are
    /// handed back so that the caller can retry after a rotation.
    TableFull(Vec<u8>, crate::memtable::inner::NodeData),
}

/// Errors reported while searching SSTables.
#[derive(Debug, PartialEq, Eq)]
pub enum SSTableError {
    DiskRecordNotFound,
    IOError,
    Tombstone,
    InvalidSSTableFile,
}

/// Errors reported to clients of the database.
#[derive(Debug, PartialEq, Eq)]
pub enum NldbError {
    InvalidQuery,
    InvalidParameter,
    InvalidConfigFile,
    IOError,
    KeySizeConstraint,
    RecordSizeConstraint,
}

} // verus!
