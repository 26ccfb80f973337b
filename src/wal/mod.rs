//! The write-ahead log: the record codec, the sequential reader, crash
//! recovery and the append-side writer state.
use vstd::prelude::*;

pub mod entry;
pub mod reader;
pub mod recovery;
pub mod writer;

pub use entry::{Operation, WalEntry, HEADER_SIZE};
pub use reader::WalReader;
pub use recovery::{RecoveryResult, WalRecovery};
pub use writer::{WalAppend, WalWriter};
