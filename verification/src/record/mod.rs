//! Byte strings and the records that the engine stores under them.

pub mod bytestream;
pub mod iterator;
pub mod kventry;
pub mod kvmerge;
