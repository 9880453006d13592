# kcm

A columnar knowledge store: facts of ten columns with row tombstones,
column encodings and compressors, a write-ahead log and crash recovery, a
checksummed database file format, bitmap and zone-map indexes, a Robin
Hood hash map and the string dictionaries built on it, transactions with
rollback, role-based access control, AES-256-GCM encryption with a sealed
key store, a hash-chained audit log, and the decisions of the HTTP
server's guards.

- `src/` is the library, written in Verus: every function carries a
  contract, and the laws of the store (round trips of every encoding and
  format, what a rollback undoes for transactions of updates, deletes and
  at most one insert, what a granted permission allows, what a replayed
  log rebuilds, up to its first malformed record) are proved as public
  proof functions. Hashes come
  from ahash with keys drawn when a map is made; each map gives a key one
  fixed hash, and its view maps (key, hash) pairs to values.
- The audit log keeps, once old events are dropped, the hash of the last
  one dropped as its anchor: the first event kept names it, so the chain
  still verifies after eviction.
- `tests/` exercises the library on concrete values.
- `app/` is the HTTP server and the file, clock, thread and network work
  around the library.
