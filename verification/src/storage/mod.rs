//! Storage engine: file format, pages, records and the B+Tree.

pub mod codec;
pub mod file_format;
pub mod page;
pub mod varint;
pub mod record;
pub mod pager;
pub mod btree;
