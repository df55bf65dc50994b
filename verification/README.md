# Wahlberg

An append-only write-ahead log and storage engine for offline-first,
multi-writer applications, written in Verus. Every mutation is an op: one
field-level fact about one entity. Ops replicate through a shared directory of
immutable files; readers merge them by last-write-wins on the transaction id.

- `src/` is the library, verified by Verus. It decides; it does no I/O.
  - `eavc`, `value`, `ulid`: ops, field values, transaction ids
  - `merge`, `state`: which op wins, and the merged state; `merge` holds the
    laws of convergence, purge and compaction
  - `lines`, `wal`, `writer`, `reader`, `compaction`: the file format, verified
    writes, reading each file once, merging files
  - `store`, `record`: a session's state and writes, typed records on top
  - `naming`, `derive`: what `#[derive(Record)]` decides
  - `text`, `sorted`, `seqs`: strings, sorted collections, sequences
- `tests/` runs the library over a directory in memory.
- `app/` puts it on a file system: files, clocks, JSON lines and records by
  serde, the derive's tokens.

Functions named `law_*` are proofs of what holds across functions: that any
order of ops gives the same state, that a write beats the state it was made
against, that compaction loses nothing, that reading gives back what was
written.
