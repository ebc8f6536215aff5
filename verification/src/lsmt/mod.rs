//! The engine: transactions with timestamps over a tree of levels.

pub mod mgr;
pub mod transimpl;
