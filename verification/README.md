# lib: verified storage, indexing and query-processing components

The library in `src/` is written in Verus. Every function in it carries a
contract that Verus proves, except three small wrappers of std functions
(`RangeInclusive::start` and `end`, `String::from_utf8`), whose contracts
are trusted.

- `bufferpool`: page allocation (`disk_manager`) and a buffer manager with
  pin counts, dirty bits and LRU or CLOCK replacement (`buffer_manager`).
- `execution`: an external k-way merge sort over fixed-capacity pages
  (`kwaymerge`), a unique B+ tree over `i32` keys (`btree`), and pull-based
  table scan, sort and hash-join operators (`operator`).
- `distributed`: bitmap indexes (naive, range-encoded, decomposed), a row
  lock table and a multi-granularity lock tree, and the routing decisions of
  distributed operators (distributions, exchange dispatch, join plans).
- `columnar`: a columnar engine with versioned table metadata: the data file
  format, Min/Max statistics, manifests, snapshots, copy-on-write inserts,
  updates and deletes, and chunked scan, filter, join and aggregate
  operators.

`tests/` exercises the library on concrete values. `app/` holds what talks
to the outside world: a disk manager over a database file, a directory of
data files, reading data files from streams, an exchange operator over
channels, and the workload description of the optimizer.

The storage traits of the library (`DiskManagerTrait`, `StorageTrait`) state
their contracts over mathematical views, so only types of `src/` implement
them (`MemoryDiskManager`, `MemoryStorage`); the file-backed disk manager and
storage of `app/` are used on their own, around the verified validity checks
and data-file parsing.
