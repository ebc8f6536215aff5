//! Small codecs shared by the storage formats.

pub mod varint;
