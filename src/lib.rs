//! The read/write core of a log-structured merge storage engine: sorted
//! blocks with their binary encoding, sorted string tables built from
//! blocks, an in-memory table, and a k-way merge over sorted iterators.

pub mod block;
pub mod codec;
pub mod error;
pub mod iterators;
pub mod lsm_storage;
pub mod mem_table;
pub mod sstable;
