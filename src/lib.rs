//! The write path of a log-structured storage engine: an internal-key
//! codec, an arena-backed sorted memtable and a block-framed write-ahead log.

pub mod buffer;
pub mod key;
pub mod log;
pub mod log_laws;
pub mod memtable;
pub mod request;
