//! Immutable sorted runs: their byte format, the writer and the reader.

pub mod cache;
pub mod format;
pub mod reader;
pub mod roundtrip;
pub mod writer;
