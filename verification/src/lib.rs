//! A small relational storage engine: slotted pages, a buffer pool with
//! pluggable replacement policies, a write-ahead log, transactions with
//! snapshot visibility, B+ tree leaves and a hash index, a catalog, Volcano
//! style query executors and a SQL lexer/parser.

pub mod codec;
pub mod text;
pub mod storage;
pub mod page;
pub mod buffer;
pub mod tx;
pub mod wal;
pub mod btree;
pub mod catalog;
pub mod query;
pub mod parser;
pub mod repl;
