//! Transaction ledger: append-only superblocks with an index.

pub mod answers;
pub mod appender;
pub mod boundary;
pub mod codec;
pub mod compress;
pub mod counts;
pub mod details;
pub mod error;
pub mod history;
pub mod index;
pub mod journal;
pub mod laws;
pub mod outcome;
pub mod reader;
pub mod request;
pub mod room;
pub mod schema;
pub mod service;
pub mod storage;
pub mod superblock;
pub mod trace;
