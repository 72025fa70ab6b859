# sqlsync

The storage and replication core of SQLSync, verified with Verus: lsn
ranges, journals and their cursors, serialized page sets, the page
storage that SQLite reads and writes through (pending pages, committed
journal entries, root-page tracking for reactive queries), the
replication protocol, the choice of which timeline lsns to apply, the
SQLite WAL checksum, and a layered in-memory page store.

Layout:

- `src/` — the verified library. Each public function states its result in
  `ensures`; the laws that relate several functions are public proof
  functions (`lsn_laws.rs`, `storage_laws.rs`, and the `lemma_*` functions
  of `page.rs`, `journal/memory.rs`, `journal/journalid.rs`, `pagevfs.rs`,
  `replication.rs`, `timeline.rs`, `chksum.rs`).
- `tests/` — tests on concrete values.
- `app/` — what the library leaves to ordinary Rust: serde and thiserror
  forms of its types, the SQLite virtual file systems (sqlite-vfs), running
  reactive queries through rusqlite, applying timelines through a reducer
  callback, replication over a byte stream, and the wall clock.
