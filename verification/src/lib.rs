//! Core of a per-node container-log agent.
//!
//! The library holds the verified logic of the agent: line-oriented readers
//! over container log files (forward and reverse), per-line truncation with a
//! recoverable marker, a timestamp-indexed offset search, record emission,
//! directory-watch event translation and deduplication, an authorization
//! cache, and the shutdown bookkeeping of the streaming endpoints.  All file,
//! network and timer I/O lives outside the library and hands in plain values.

pub mod authorizer;
pub mod config;
pub mod file_format;
pub mod log_metadata;
pub mod log_metadata_watcher;
pub mod matcher;
pub mod offset;
pub mod reader;
pub mod scan;
pub mod status;
pub mod stream_backward;
pub mod stream_forward;
pub mod stream_util;
pub mod timestamp;
pub mod trimmer;
pub mod writer;
