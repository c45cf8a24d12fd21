//! Heap tables: the tuple codec, the page layout and chains of pages.

pub mod page;
pub mod table;
pub mod tuple;
