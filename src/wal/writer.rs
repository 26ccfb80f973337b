//! The append side of the log: LSN allocation, record encoding and the
//! sync policy. The host writes the returned bytes to the log file and
//! performs the durable flush when asked.
use vstd::prelude::*;
use crate::config::WalSyncStrategy;
use crate::error::{msg, AtlasError, Result};
use super::entry::{entry_record, lemma_entry_data_len, now_millis, op_data_len, Operation, WalEntry};

verus! {

/// State of the log writer.
pub struct WalWriter {
    /// Next LSN to assign.
    current_lsn: u64,
    /// How often to force the log to stable storage.
    sync_strategy: WalSyncStrategy,
    /// Appends since the last durable flush.
    uncommitted_count: usize,
}

/// What an append produced: the entry, its record, and whether the log
/// must now be durably flushed.
#[derive(Debug)]
pub struct WalAppend {
    pub entry: WalEntry,
    pub bytes: Vec<u8>,
    pub sync: bool,
}

/// Whether a log with `pending` unflushed appends must be flushed now.
pub open spec fn sync_due(strategy: WalSyncStrategy, pending: usize) -> bool {
    match strategy {
        WalSyncStrategy::EveryWrite => true,
        WalSyncStrategy::EveryNEntries { count } => pending >= count,
    }
}

/// The unflushed count after one more append (it saturates).
pub open spec fn pending_after(pending: usize) -> usize {
    if pending < usize::MAX {
        (pending + 1) as usize
    } else {
        pending
    }
}

impl WalWriter {
    pub closed spec fn spec_current_lsn(&self) -> u64 {
        self.current_lsn
    }

    pub closed spec fn spec_uncommitted(&self) -> usize {
        self.uncommitted_count
    }

    pub closed spec fn spec_strategy(&self) -> WalSyncStrategy {
        self.sync_strategy
    }

    /// A writer for a freshly truncated log: LSNs start at 1.
    pub fn open(sync_strategy: WalSyncStrategy) -> (r: Self)
        ensures
            r.spec_current_lsn() == 1,
            r.spec_uncommitted() == 0,
            r.spec_strategy() == sync_strategy,
    {
        WalWriter { current_lsn: 1, sync_strategy, uncommitted_count: 0 }
    }

    /// A writer that continues an existing log at `next_lsn`.
    pub fn open_append(sync_strategy: WalSyncStrategy, next_lsn: u64) -> (r: Self)
        ensures
            r.spec_current_lsn() == next_lsn,
            r.spec_uncommitted() == 0,
            r.spec_strategy() == sync_strategy,
    {
        WalWriter { current_lsn: next_lsn, sync_strategy, uncommitted_count: 0 }
    }

    /// Allocates the next LSN and encodes `operation` as a record stamped
    /// with the current time. When the sync policy calls for a durable flush
    /// (`sync` in the result, which the host then performs) the unflushed
    /// count restarts at zero. Fails with `WalWrite` once the LSN space is
    /// spent, and with `Serialization` when the record cannot be encoded;
    /// a failed append changes nothing.
    pub fn append(&mut self, operation: Operation) -> (r: Result<WalAppend>)
        ensures
            final(self).spec_strategy() == old(self).spec_strategy(),
            r matches Ok(a) ==> {
                &&& a.entry.lsn == old(self).spec_current_lsn()
                &&& a.entry.operation == operation
                &&& a.bytes@ == entry_record(a.entry@)
                &&& final(self).spec_current_lsn() == old(self).spec_current_lsn() + 1
                &&& a.sync == sync_due(old(self).spec_strategy(), pending_after(old(self).spec_uncommitted()))
                &&& final(self).spec_uncommitted() == (if a.sync {
                    0
                } else {
                    pending_after(old(self).spec_uncommitted())
                })
            },
            r matches Err(e) ==> *final(self) == *old(self) && (e is WalWrite || e is Serialization),
            old(self).spec_current_lsn() == u64::MAX ==> (r matches Err(e) && e is WalWrite),
            old(self).spec_current_lsn() < u64::MAX && op_data_len(operation@) <= u32::MAX ==> r is Ok,
    {
        if self.current_lsn == u64::MAX {
            return Err(AtlasError::WalWrite(msg("LSN space exhausted")));
        }
        let lsn = self.current_lsn;
        let entry = WalEntry::with_timestamp(lsn, operation, now_millis());
        proof {
            lemma_entry_data_len(entry@);
        }
        let bytes = entry.serialize()?;
        self.current_lsn = lsn + 1;
        if self.uncommitted_count < usize::MAX {
            self.uncommitted_count = self.uncommitted_count + 1;
        }
        let sync = match self.sync_strategy {
            WalSyncStrategy::EveryWrite => true,
            WalSyncStrategy::EveryNEntries { count } => self.uncommitted_count >= count,
        };
        if sync {
            self.uncommitted_count = 0;
        }
        Ok(WalAppend { entry, bytes, sync })
    }

    /// Records that the log was durably flushed.
    pub fn sync(&mut self)
        ensures
            final(self).spec_uncommitted() == 0,
            final(self).spec_current_lsn() == old(self).spec_current_lsn(),
            final(self).spec_strategy() == old(self).spec_strategy(),
    {
        self.uncommitted_count = 0;
    }

    /// The next LSN to assign.
    pub fn current_lsn(&self) -> (r: u64)
        ensures
            r == self.spec_current_lsn(),
    {
        self.current_lsn
    }

    /// Appends since the last durable flush.
    pub fn uncommitted_count(&self) -> (r: usize)
        ensures
            r == self.spec_uncommitted(),
    {
        self.uncommitted_count
    }

    /// Records that the log was emptied: LSNs restart at 1.
    pub fn truncate(&mut self)
        ensures
            final(self).spec_current_lsn() == 1,
            final(self).spec_uncommitted() == 0,
            final(self).spec_strategy() == old(self).spec_strategy(),
    {
        self.current_lsn = 1;
        self.uncommitted_count = 0;
    }
}

} // verus!
