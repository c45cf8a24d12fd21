//! Storage core of a small relational database: a paged block store, a
//! buffer pool with pinning and eviction, heap tables of schema-typed tuples
//! and a catalog kept in heap tables of its own, with a small SQL tokenizer,
//! parser and statement executors on top.
//!
//! The data file is held as a sequence of blocks in memory; a program using
//! the library loads it from and stores it to the file system.

pub mod buffer;
pub mod catalog;
pub mod disk;
pub mod error;
pub mod execution;
pub mod parser;
pub mod storage;
pub mod value;
