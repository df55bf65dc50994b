//! An append-only write-ahead log and storage engine for offline-first,
//! multi-writer applications. Every mutation is an op: one field-level fact
//! about one entity. Ops replicate through a shared directory of immutable
//! files, and any set of ops merges to the same state in any order.
//!
//! File and directory access stays with the caller: the library decides what
//! to read, write, rename and delete, and takes in what came of it.

pub mod compaction;
pub mod derive;
pub mod eavc;
pub mod lines;
pub mod merge;
pub mod naming;
pub mod reader;
pub mod record;
pub mod seqs;
pub mod sorted;
pub mod state;
pub mod store;
pub mod text;
pub mod ulid;
pub mod value;
pub mod wal;
pub mod writer;

pub use record::Record;
pub use record::RecordError;
pub use record::Table;
