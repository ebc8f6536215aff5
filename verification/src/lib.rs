//! An embedded, ordered key-value storage engine built as a log-structured
//! merge tree with timestamp-ordered transactions.
//!
//! Writes go into a memtable, a B-tree in memory. A memtable that has grown
//! large is frozen and written out as a sorted run, an immutable byte string
//! with a sparse index and a Bloom filter. Runs are merged into larger runs,
//! in which the newer write wins. A read asks the levels from the newest to
//! the oldest.

pub mod bloom;
pub mod lsmt;
pub mod memtable;
pub mod order;
pub mod record;
pub mod sstable;
pub mod utils;
