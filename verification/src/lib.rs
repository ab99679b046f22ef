//! A small document database: documents, their binary form, pages with a
//! write-ahead log, a heap file, a B+Tree index, queries, collections, JSON
//! text and the commands of a shell.

pub mod btree;
pub mod bytes;
pub mod chain;
pub mod collection;
pub mod disk;
pub mod document;
pub mod encoding;
pub mod float;
pub mod grammar;
pub mod heap;
pub mod journal;
pub mod json;
pub mod node;
pub mod pager;
pub mod query;
pub mod recovery;
pub mod repl;
pub mod text;
pub mod tree;
pub mod wal;
