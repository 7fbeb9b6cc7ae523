# galaxdb_storage

The storage layer of a database: memtables, flushes into SST files of PAX blocks,
an adaptive radix tree over the rows, Bloom filters, compaction with garbage
collection of old versions, a log of large values, a buffer pool, and the state
machines that guard against a full disk and against too many requests.

`src/` is the library. Every function states in its contract what it computes,
and Verus proves it. It does no input or output: functions take the contents of
files and give back what is to be written. Laws that relate several functions
are public proof functions; those of the whole engine are in `src/engine/laws.rs`,
`open_laws.rs`, `compact_laws.rs`, `scan_laws.rs` and `compact_scan_laws.rs`.

Believed, not proved, are the contracts of three outside crates: Zstandard
(`src/pax/codec.rs`), XXH3 (`src/hash.rs`) and the skip list
(`src/memtable/skiplist.rs`). So is that a `RowColumnSplitter` does what its
methods say (`src/columnar.rs`).

`app/` is ordinary Rust around the library: files, locks, metrics, and what is
computed with floating-point numbers.

`tests/` runs the library on concrete values.
