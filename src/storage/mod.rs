//! Persistent storage: the SSTable file format and the manager that owns
//! the open tables, newest first.
use vstd::prelude::*;

pub mod manager;
pub mod sstable;

pub use manager::StorageManager;
pub use sstable::{SSTable, SSTableBuilder, SSTableReader};
