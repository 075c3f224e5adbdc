# nldb

An LSM-tree key-value store. The library in `src/` holds the verified core;
`app/` is the server around it (TCP, files, background tasks).

- `parser`, `ser`: the client request format and the responses.
- `util`: varints, big-endian fields, file names.
- `disk`: the record format shared by the write-ahead log and the SSTables.
- `memtable`: the red-black tree memtable, the active table that rotates,
  and the queue of rotated-out tables.
- `wal`: the log buffer, reading a log back, and replaying it into a table.
- `sstable`, `ssindex`, `trie`: table encoding, footer, index, bloom filter,
  reading a table back, the newest-first table list and its compaction.
- `compaction`: the N-way merge of tables.
- `restart`: classifying and ordering the files found at start-up.
- `config`, `constants`, `database`, `error`: settings, limits, the read
  path's layer order, errors.
