//! AtlasKV: an embedded key-value store built on the log-structured merge
//! pattern (write-ahead log, sorted memtable, immutable sorted tables).
//!
//! The components work on values and byte buffers: the host program
//! performs the file and socket I/O and hands the bytes in and out. The
//! wire codec's stream helpers alone read and write through `std::io`.
use vstd::prelude::*;

pub mod bytes;
pub mod config;
pub mod engine;
pub mod error;
pub mod memtable;
pub mod protocol;
pub mod storage;
pub mod wal;

pub use config::Config;
pub use engine::Engine;
pub use error::{AtlasError, Result};
