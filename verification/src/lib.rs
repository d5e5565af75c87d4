//! An embedded, ordered key-value storage core built on a log-structured
//! merge tree with multi-version concurrency control, together with a few
//! small verified utilities that share the repository.
//!
//! The storage core covers key/timestamp encoding, blocks, sorted tables,
//! the write-ahead log, the manifest, merge iteration, compaction and
//! snapshot-isolated transactions.

pub mod args;
pub mod calculator;
pub mod chunk_type;
pub mod compaction;
pub mod encoding;
pub mod grid;
pub mod hashes;
pub mod block;
pub mod bloom;
pub mod iterators;
pub mod key;
pub mod mvcc;
pub mod lsm_iterator;
pub mod openfile;
pub mod manifest;
pub mod lsm_storage;
pub mod table;
pub mod mem_table;
pub mod wal;

use vstd::prelude::*;

verus! {

} // verus!
