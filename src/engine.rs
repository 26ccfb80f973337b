//! The engine: sequences each write as log, then memtable, then a flush
//! when the memtable is over its budget, and answers reads from the
//! memtable first and the tables after, newest first.
//!
//! The engine decides; the host performs the file I/O between the steps:
//! it writes the record that `log_put` or `log_delete` returns before
//! calling `apply_put` or `apply_delete`, syncs the log when asked, and
//! writes a pending table's file before `complete_flush`, then truncates
//! the log file.
use vstd::prelude::*;
use crate::bytes::copy_range;
use crate::config::Config;
use crate::error::{msg, AtlasError, Result};
use crate::protocol::command::{Command, CommandView};
use crate::memtable::{
    holds_key, lemma_lookup_at, lemma_upsert_lookup, lookup, sorted_keys, total_size, upsert, EntryView, MemTable,
    MemTableEntry,
};
use crate::storage::manager::{layered, mem_items, PendingTable, Probe, StorageManager};
use crate::storage::sstable::{
    data_section, item_fits, items_sorted, lemma_reader_of_image, lemma_reader_of_image_absent,
    table_image, SSTable, SSTableReader, HEADER_SIZE,
};
use crate::wal::entry::{Operation, OperationView, WalEntryView};
use crate::wal::reader::scan;
use crate::wal::recovery::{
    all_fit, entries_view, lemma_recovery_clean, log_of, recovery_stats, RecoveryResult, WalRecovery,
};
use crate::wal::writer::{pending_after, sync_due, WalAppend, WalWriter};

verus! {

/// The reply to a PING: the bytes of "PONG".
pub open spec fn pong() -> Seq<u8> {
    seq![80u8, 79u8, 78u8, 71u8]
}

/// What a read answers, given the memtable and the tables (newest first).
pub open spec fn engine_lookup(
    mem: Seq<(Seq<u8>, EntryView)>,
    tables: Seq<SSTableReader>,
    key: Seq<u8>,
) -> Probe {
    match lookup(mem, key) {
        Some(EntryView::Value(v)) => Probe::Found(Some(v)),
        Some(EntryView::Tombstone) => Probe::Found(None),
        None => layered(tables, key),
    }
}

/// The memtable after one logged operation.
pub open spec fn apply_op(mem: Seq<(Seq<u8>, EntryView)>, op: OperationView) -> Seq<
    (Seq<u8>, EntryView),
> {
    match op {
        OperationView::Put { key, value } => upsert(mem, key, EntryView::Value(value)),
        OperationView::Delete { key } => upsert(mem, key, EntryView::Tombstone),
    }
}

/// The memtable after replaying entries in order.
pub open spec fn replay(mem: Seq<(Seq<u8>, EntryView)>, es: Seq<WalEntryView>) -> Seq<
    (Seq<u8>, EntryView),
>
    decreases es.len(),
{
    if es.len() == 0 {
        mem
    } else {
        apply_op(replay(mem, es.drop_last()), es.last().op)
    }
}

/// A copy of a byte vector.
fn copy_vec(v: &Vec<u8>) -> (r: Vec<u8>)
    ensures
        r@ == v@,
{
    let r = copy_range(v.as_slice(), 0, v.len());
    assert(r@ =~= v@);
    r
}

/// The storage engine's state.
pub struct Engine {
    config: Config,
    wal: WalWriter,
    memtable: MemTable,
    storage: StorageManager,
}

impl Engine {
    pub closed spec fn spec_config(&self) -> Config {
        self.config
    }

    /// The memtable's entries.
    pub closed spec fn mem(&self) -> Seq<(Seq<u8>, EntryView)> {
        self.memtable@
    }

    pub closed spec fn spec_memtable_size(&self) -> usize {
        self.memtable.spec_size()
    }

    /// The open tables, newest first.
    pub closed spec fn tables(&self) -> Seq<SSTableReader> {
        self.storage.tables()
    }

    pub closed spec fn spec_next_table_id(&self) -> u64 {
        self.storage.spec_next_id()
    }

    pub closed spec fn spec_wal(&self) -> WalWriter {
        self.wal
    }

    pub closed spec fn wf(&self) -> bool {
        &&& self.memtable.wf()
        &&& self.storage.wf()
        &&& self.wal.spec_strategy() == self.config.wal_sync_strategy
    }

    /// Starts an engine on opened storage. When the previous log image is
    /// given, its entries are recovered and replayed into the memtable; if
    /// that leaves the memtable non-empty, a table of it is prepared, to be
    /// written and installed with `complete_flush` before the log file is
    /// truncated. The log writer starts over at LSN 1.
    pub fn open(config: Config, storage: StorageManager, wal_image: Option<&[u8]>) -> (r: Result<
        (Engine, Option<RecoveryResult>, Option<PendingTable>),
    >)
        requires
            storage.wf(),
        ensures
            r matches Ok((e, stats, pending)) ==> {
                &&& e.wf()
                &&& e.spec_config() == config
                &&& e.spec_wal().spec_current_lsn() == 1
                &&& e.tables() == storage.tables()
                &&& (wal_image is None ==> e.mem().len() == 0 && stats is None && pending is None)
                &&& (wal_image matches Some(w) ==> {
                    &&& e.mem() == replay(Seq::empty(), scan(w@).0)
                    &&& stats == Some(recovery_stats(w@))
                    &&& (pending is Some <==> e.mem().len() > 0)
                    &&& (pending matches Some(p) ==> p.bytes@ == table_image(mem_items(e.mem()))
                        && p.id == storage.spec_next_id() && flushable(e.mem())
                        && crate::storage::sstable::open_failure(p.bytes@) is None)
                })
                &&& (pending is Some ==> e.spec_next_table_id() == storage.spec_next_id() + 1)
                &&& (pending is None ==> e.spec_next_table_id() == storage.spec_next_id())
                &&& e.spec_memtable_size() == total_size(e.mem())
            },
            wal_image is None ==> r is Ok,
            wal_image is Some && storage.spec_next_id() < u64::MAX ==> r is Ok,
    {
        let mut memtable = MemTable::new();
        let mut storage = storage;
        let wal = WalWriter::open(config.wal_sync_strategy);
        match wal_image {
            None => {
                assert(memtable@.len() == 0);
                Ok((Engine { config, wal, memtable, storage }, None, None))
            },
            Some(image) => {
                let (entries, stats) = WalRecovery::recover(image);
                let ghost es = entries_view(entries@);
                let _image_len = image.len(); // a slice length is a usize: this bounds the replay
                proof {
                    lemma_scan_bounds(image@);
                }
                let mut i: usize = 0;
                assert(es.take(0) =~= Seq::<WalEntryView>::empty());
                while i < entries.len()
                    invariant
                        i <= entries@.len(),
                        wal_image is Some,
                        es == entries_view(entries@),
                        es.len() == entries@.len(),
                        ops_bytes(es) <= usize::MAX,
                        memtable.wf(),
                        memtable@ == replay(Seq::empty(), es.take(i as int)),
                    decreases entries@.len() - i,
                {
                    assert(es[i as int] == entries@[i as int]@);
                    proof {
                        lemma_replay_bounds(es.take(i as int));
                        assert(es =~= es.take(i + 1) + es.skip(i + 1));
                        lemma_ops_bytes_concat(es.take(i + 1), es.skip(i + 1));
                        assert(es.take(i + 1).drop_last() =~= es.take(i as int));
                        assert(es.take(i + 1).last() == es[i as int]);
                    }
                    match &entries[i].operation {
                        Operation::Put { key, value } => {
                            if key.len() > usize::MAX - value.len() || memtable.size() > usize::MAX
                                - key.len() - value.len() {
                                return Err(AtlasError::Storage(msg("memtable size overflow")));
                            }
                            memtable.put(copy_vec(key), copy_vec(value));
                        },
                        Operation::Delete { key } => {
                            if memtable.size() > usize::MAX - key.len() {
                                return Err(AtlasError::Storage(msg("memtable size overflow")));
                            }
                            memtable.delete(copy_vec(key));
                        },
                    }
                    assert(es.take(i + 1).drop_last() =~= es.take(i as int));
                    i = i + 1;
                }
                assert(es.take(i as int) =~= es);
                proof {
                    lemma_replay_bounds(es);
                }
                if memtable.is_empty() {
                    Ok((Engine { config, wal, memtable, storage }, Some(stats), None))
                } else {
                    let pending = storage.prepare_flush(&memtable)?;
                    let _len = pending.bytes.len(); // a vector's length is a usize: this bounds the data section
                    proof {
                        lemma_flushable_items(memtable@);
                        crate::storage::sstable::lemma_sstable_round_trip(mem_items(memtable@));
                    }
                    Ok((Engine { config, wal, memtable, storage }, Some(stats), Some(pending)))
                }
            },
        }
    }

    /// Logs a put: allocates its LSN and returns the record to append to
    /// the log file, and whether the log must then be synced.
    pub fn log_put(&mut self, key: &[u8], value: &[u8]) -> (r: Result<WalAppend>)
        requires
            old(self).wf(),
        ensures
            final(self).wf(),
            final(self).mem() == old(self).mem(),
            final(self).tables() == old(self).tables(),
            final(self).spec_config() == old(self).spec_config(),
            final(self).spec_next_table_id() == old(self).spec_next_table_id(),
            r matches Ok(a) ==> a.entry.operation@ == (OperationView::Put { key: key@, value: value@ })
                && a.entry.lsn == old(self).spec_wal().spec_current_lsn()
                && a.bytes@ == crate::wal::entry::entry_record(a.entry@),
            r matches Ok(a) ==> final(self).spec_wal().spec_current_lsn() == old(
                self,
            ).spec_wal().spec_current_lsn() + 1 && a.sync == sync_due(
                old(self).spec_config().wal_sync_strategy,
                pending_after(old(self).spec_wal().spec_uncommitted()),
            ),
            r is Err ==> final(self).spec_wal() == old(self).spec_wal(),
            old(self).spec_wal().spec_current_lsn() < u64::MAX && 36 + key@.len() + value@.len()
                <= u32::MAX ==> r is Ok,
    {
        let k = copy_range(key, 0, key.len());
        let v = copy_range(value, 0, value.len());
        assert(k@ =~= key@ && v@ =~= value@);
        self.wal.append(Operation::Put { key: k, value: v })
    }

    /// Logs a delete, as `log_put` does a put.
    pub fn log_delete(&mut self, key: &[u8]) -> (r: Result<WalAppend>)
        requires
            old(self).wf(),
        ensures
            final(self).wf(),
            final(self).mem() == old(self).mem(),
            final(self).tables() == old(self).tables(),
            final(self).spec_config() == old(self).spec_config(),
            final(self).spec_next_table_id() == old(self).spec_next_table_id(),
            r matches Ok(a) ==> a.entry.operation@ == (OperationView::Delete { key: key@ })
                && a.entry.lsn == old(self).spec_wal().spec_current_lsn()
                && a.bytes@ == crate::wal::entry::entry_record(a.entry@),
            r matches Ok(a) ==> final(self).spec_wal().spec_current_lsn() == old(
                self,
            ).spec_wal().spec_current_lsn() + 1 && a.sync == sync_due(
                old(self).spec_config().wal_sync_strategy,
                pending_after(old(self).spec_wal().spec_uncommitted()),
            ),
            r is Err ==> final(self).spec_wal() == old(self).spec_wal(),
            old(self).spec_wal().spec_current_lsn() < u64::MAX && 28 + key@.len() <= u32::MAX
                ==> r is Ok,
    {
        let k = copy_range(key, 0, key.len());
        assert(k@ =~= key@);
        self.wal.append(Operation::Delete { key: k })
    }

    /// Records that the log file was durably flushed.
    pub fn wal_synced(&mut self)
        requires
            old(self).wf(),
        ensures
            final(self).wf(),
            final(self).mem() == old(self).mem(),
            final(self).tables() == old(self).tables(),
            final(self).spec_config() == old(self).spec_config(),
            final(self).spec_next_table_id() == old(self).spec_next_table_id(),
            final(self).spec_wal().spec_uncommitted() == 0,
    {
        self.wal.sync();
    }

    /// Applies a logged put to the memtable; returns whether the memtable
    /// has reached its size limit and must be flushed. Fails with `Storage`,
    /// changing nothing, when the size counter would overflow.
    pub fn apply_put(&mut self, key: Vec<u8>, value: Vec<u8>) -> (r: Result<bool>)
        requires
            old(self).wf(),
        ensures
            final(self).wf(),
            final(self).tables() == old(self).tables(),
            final(self).spec_config() == old(self).spec_config(),
            final(self).spec_next_table_id() == old(self).spec_next_table_id(),
            r matches Ok(due) ==> final(self).mem() == upsert(old(self).mem(), key@, EntryView::Value(value@))
                && due == (final(self).spec_memtable_size() >= old(self).spec_config().memtable_size_limit),
            r matches Err(e) ==> e is Storage && final(self).mem() == old(self).mem(),
            old(self).spec_memtable_size() + key@.len() + value@.len() <= usize::MAX ==> r is Ok,
    {
        if key.len() > usize::MAX - value.len() || self.memtable.size() > usize::MAX - key.len()
            - value.len() {
            return Err(AtlasError::Storage(msg("memtable size overflow")));
        }
        let new_size = self.memtable.put(key, value);
        Ok(new_size >= self.config.memtable_size_limit)
    }

    /// Applies a logged delete to the memtable, as `apply_put` does a put.
    pub fn apply_delete(&mut self, key: Vec<u8>) -> (r: Result<bool>)
        requires
            old(self).wf(),
        ensures
            final(self).wf(),
            final(self).tables() == old(self).tables(),
            final(self).spec_config() == old(self).spec_config(),
            final(self).spec_next_table_id() == old(self).spec_next_table_id(),
            r matches Ok(due) ==> final(self).mem() == upsert(old(self).mem(), key@, EntryView::Tombstone)
                && due == (final(self).spec_memtable_size() >= old(self).spec_config().memtable_size_limit),
            r matches Err(e) ==> e is Storage && final(self).mem() == old(self).mem(),
            old(self).spec_memtable_size() + key@.len() <= usize::MAX ==> r is Ok,
    {
        if self.memtable.size() > usize::MAX - key.len() {
            return Err(AtlasError::Storage(msg("memtable size overflow")));
        }
        let new_size = self.memtable.delete(key);
        Ok(new_size >= self.config.memtable_size_limit)
    }

    /// Prepares a flush: `None` for an empty memtable, which changes
    /// nothing; otherwise a table of the memtable under the next id.
    pub fn prepare_flush(&mut self) -> (r: Result<Option<PendingTable>>)
        requires
            old(self).wf(),
        ensures
            final(self).wf(),
            final(self).mem() == old(self).mem(),
            final(self).tables() == old(self).tables(),
            final(self).spec_config() == old(self).spec_config(),
            old(self).mem().len() == 0 ==> (r matches Ok(None)) && final(self).spec_next_table_id()
                == old(self).spec_next_table_id(),
            r matches Ok(Some(p)) ==> p.bytes@ == table_image(mem_items(old(self).mem())) && p.id
                == old(self).spec_next_table_id(),
            r matches Err(e) ==> e is Storage,
            r matches Ok(Some(p)) ==> flushable(old(self).mem()) && final(self).spec_next_table_id()
                == old(self).spec_next_table_id() + 1 && crate::storage::sstable::open_failure(
                p.bytes@,
            ) is None,
            r matches Ok(None) ==> final(self).spec_next_table_id() == old(self).spec_next_table_id(),
            old(self).mem().len() > 0 && old(self).spec_next_table_id() < u64::MAX && (forall|i: int|
                0 <= i < old(self).mem().len() ==> item_fits(#[trigger] mem_items(old(self).mem())[i]))
                ==> (r matches Ok(Some(_))),
    {
        if self.memtable.is_empty() {
            return Ok(None);
        }
        let p = self.storage.prepare_flush(&self.memtable)?;
        let _len = p.bytes.len(); // a vector's length is a usize: this bounds the data section
        proof {
            lemma_flushable_items(self.memtable@);
            crate::storage::sstable::lemma_sstable_round_trip(mem_items(self.memtable@));
        }
        Ok(Some(p))
    }

    /// Completes a flush whose table file was written: installs the table
    /// in front of the others, clears the memtable, and restarts the log
    /// writer at LSN 1 (the host truncates the log file). On failure to
    /// open the table nothing changes.
    pub fn complete_flush(&mut self, pending: PendingTable) -> (r: Result<SSTable>)
        requires
            old(self).wf(),
        ensures
            final(self).wf(),
            final(self).spec_config() == old(self).spec_config(),
            final(self).spec_next_table_id() == old(self).spec_next_table_id(),
            r is Ok <==> crate::storage::sstable::open_failure(pending.bytes@) is None,
            r is Ok ==> {
                &&& final(self).mem().len() == 0
                &&& final(self).tables().drop_first() == old(self).tables()
                &&& final(self).tables().len() == old(self).tables().len() + 1
                &&& final(self).tables()[0].spec_data() == pending.bytes@
                &&& final(self).tables()[0].wf()
                &&& final(self).spec_wal().spec_current_lsn() == 1
            },
            r is Err ==> final(self).mem() == old(self).mem() && final(self).tables() == old(
                self,
            ).tables(),
    {
        let meta = self.storage.install(pending)?;
        self.memtable.clear();
        self.wal.truncate();
        Ok(meta)
    }

    /// Reads `key`: the memtable answers first (a tombstone as `None`),
    /// then the tables, newest first.
    pub fn get(&self, key: &[u8]) -> (r: Result<Option<Vec<u8>>>)
        requires
            self.wf(),
        ensures
            match engine_lookup(self.mem(), self.tables(), key@) {
                Probe::Absent => r matches Ok(None),
                Probe::Found(None) => r matches Ok(None),
                Probe::Found(Some(v)) => r matches Ok(Some(x)) && x@ == v,
                Probe::Failed => r matches Err(e) && e is Io,
            },
    {
        match self.memtable.get(key) {
            Some(MemTableEntry::Value(v)) => Ok(Some(v)),
            Some(MemTableEntry::Tombstone) => Ok(None),
            None => self.storage.get(key),
        }
    }

    /// Answers the commands that change nothing: GET as `get` does, PING with
    /// the payload `PONG`. PUT and DELETE give `None`: they are carried out
    /// by the log and apply steps.
    pub fn execute_read(&self, command: &Command) -> (r: Option<Result<Option<Vec<u8>>>>)
        requires
            self.wf(),
        ensures
            command@ matches CommandView::Get { key } ==> (r matches Some(g) && match engine_lookup(
                self.mem(),
                self.tables(),
                key,
            ) {
                Probe::Absent => g matches Ok(None),
                Probe::Found(None) => g matches Ok(None),
                Probe::Found(Some(v)) => g matches Ok(Some(x)) && x@ == v,
                Probe::Failed => g matches Err(e) && e is Io,
            }),
            command@ is Ping ==> (r matches Some(Ok(Some(x))) && x@ == pong()),
            command@ is Put || command@ is Delete ==> r is None,
    {
        match command {
            Command::Get { key } => Some(self.get(key.as_slice())),
            Command::Ping => Some(Ok(Some(vec![80u8, 79u8, 78u8, 71u8]))),
            Command::Put { .. } => None,
            Command::Delete { .. } => None,
        }
    }

    /// What a well-formed engine holds: a sorted memtable whose size counter
    /// is the sum of its entries' sizes, well-formed tables, and a log
    /// writer with the configured sync strategy.
    pub proof fn lemma_wf(&self)
        requires
            self.wf(),
        ensures
            sorted_keys(self.mem()),
            self.spec_memtable_size() == total_size(self.mem()),
            forall|i: int| 0 <= i < self.tables().len() ==> (#[trigger] self.tables()[i]).wf(),
            self.spec_wal().spec_strategy() == self.spec_config().wal_sync_strategy,
    {
        self.storage.lemma_tables_wf();
    }

    /// The configuration.
    pub fn config(&self) -> (r: &Config)
        ensures
            *r == self.spec_config(),
    {
        &self.config
    }

    /// The memtable's size in bytes.
    pub fn memtable_size(&self) -> (r: usize)
        ensures
            r == self.spec_memtable_size(),
    {
        self.memtable.size()
    }

    /// The number of memtable entries, tombstones included.
    pub fn memtable_entry_count(&self) -> (r: usize)
        ensures
            r == self.mem().len(),
    {
        self.memtable.entry_count()
    }

    /// The number of open tables.
    pub fn sstable_count(&self) -> (r: usize)
        ensures
            r == self.tables().len(),
    {
        self.storage.sstable_count()
    }

    /// The next LSN the log writer assigns.
    pub fn current_lsn(&self) -> (r: u64)
        ensures
            r == self.spec_wal().spec_current_lsn(),
    {
        self.wal.current_lsn()
    }
}

/// What a read answers for a memtable entry.
pub open spec fn entry_answer(e: EntryView) -> Probe {
    match e {
        EntryView::Value(v) => Probe::Found(Some(v)),
        EntryView::Tombstone => Probe::Found(None),
    }
}

/// A memtable can be written as a table: every entry fits the format and
/// the data section fits the 64-bit offsets.
pub open spec fn flushable(mem: Seq<(Seq<u8>, EntryView)>) -> bool {
    &&& sorted_keys(mem)
    &&& forall|i: int| 0 <= i < mem.len() ==> item_fits(#[trigger] mem_items(mem)[i])
    &&& HEADER_SIZE + data_section(mem_items(mem)).len() <= u64::MAX
}

/// Read-your-writes: after a put (`e` a value) or a delete (`e` a
/// tombstone) of `key`, a read of `key` answers that value, or none for
/// the delete, whatever the tables hold; a read of any other key answers
/// as before.
pub proof fn lemma_read_your_writes(
    mem: Seq<(Seq<u8>, EntryView)>,
    tables: Seq<SSTableReader>,
    key: Seq<u8>,
    e: EntryView,
    other: Seq<u8>,
)
    requires
        sorted_keys(mem),
    ensures
        engine_lookup(upsert(mem, key, e), tables, key) == entry_answer(e),
        other != key ==> engine_lookup(upsert(mem, key, e), tables, other) == engine_lookup(
            mem,
            tables,
            other,
        ),
{
    lemma_upsert_lookup(mem, key, e, other);
}

/// The items of a flushable memtable are sorted and fit the format.
pub proof fn lemma_flushable_items(mem: Seq<(Seq<u8>, EntryView)>)
    requires
        flushable(mem),
    ensures
        items_sorted(mem_items(mem)),
        forall|i: int| 0 <= i < mem_items(mem).len() ==> item_fits(#[trigger] mem_items(mem)[i]),
{
    let items = mem_items(mem);
    assert forall|a: int, b: int| 0 <= a < b < items.len() implies crate::bytes::lex_lt(
        #[trigger] items[a].0,
        #[trigger] items[b].0,
    ) by {
        assert(items[a].0 == mem[a].0 && items[b].0 == mem[b].0);
    }
}

/// The table of a flushable memtable answers a key it holds with its entry.
#[verifier::spinoff_prover]
proof fn lemma_table_probe_present(mem: Seq<(Seq<u8>, EntryView)>, rd: SSTableReader, i: int)
    requires
        flushable(mem),
        rd.wf(),
        rd.spec_data() == table_image(mem_items(mem)),
        0 <= i < mem.len(),
    ensures
        crate::storage::manager::probe(rd, mem[i].0) == entry_answer(mem[i].1),
{
    let items = mem_items(mem);
    lemma_flushable_items(mem);
    lemma_reader_of_image(rd, items, i);
    let ix = rd.spec_index();
    assert(items[i].0 == mem[i].0);
    assert(ix[i].0 == mem[i].0);
    let n = items.len() as int;
    if i > 0 {
        assert(crate::bytes::lex_lt(items[0].0, items[i].0));
    }
    if i < n - 1 {
        assert(crate::bytes::lex_lt(items[i].0, items[n - 1].0));
    }
    assert(ix.len() > 0);
}

/// The table of a flushable memtable says absent for a key it does not hold.
#[verifier::spinoff_prover]
proof fn lemma_table_probe_absent(mem: Seq<(Seq<u8>, EntryView)>, rd: SSTableReader, key: Seq<u8>)
    requires
        flushable(mem),
        rd.wf(),
        rd.spec_data() == table_image(mem_items(mem)),
        forall|i: int| !holds_key(mem, key, i),
    ensures
        crate::storage::manager::probe(rd, key) == Probe::Absent,
{
    let items = mem_items(mem);
    lemma_flushable_items(mem);
    assert forall|j: int| 0 <= j < items.len() implies (#[trigger] items[j]).0 != key by {
        assert(items[j].0 == mem[j].0);
        assert(!holds_key(mem, key, j));
    }
    lemma_reader_of_image_absent(rd, items, key);
}

/// A flush changes no read: with the memtable's table installed in front
/// and the memtable empty, every key reads as it did before.
pub proof fn lemma_flush_preserves_reads(
    mem: Seq<(Seq<u8>, EntryView)>,
    rd: SSTableReader,
    tables: Seq<SSTableReader>,
    key: Seq<u8>,
)
    requires
        flushable(mem),
        rd.wf(),
        rd.spec_data() == table_image(mem_items(mem)),
    ensures
        engine_lookup(Seq::empty(), seq![rd] + tables, key) == engine_lookup(mem, tables, key),
{
    let all = seq![rd] + tables;
    assert(all[0] == rd);
    assert(all.drop_first() =~= tables);
    assert(lookup(Seq::<(Seq<u8>, EntryView)>::empty(), key) is None);
    if exists|i: int| holds_key(mem, key, i) {
        let i = choose|i: int| holds_key(mem, key, i);
        lemma_lookup_at(mem, key, i);
        lemma_table_probe_present(mem, rd, i);
    } else {
        lemma_table_probe_absent(mem, rd, key);
    }
}

/// Overwrite wins across tables: when the newest table was flushed from a
/// memtable holding `key`, a read of `key` with an empty memtable answers
/// that memtable's entry, whatever the older tables hold.
pub proof fn lemma_newest_table_wins(
    mem: Seq<(Seq<u8>, EntryView)>,
    rd: SSTableReader,
    older: Seq<SSTableReader>,
    key: Seq<u8>,
    e: EntryView,
)
    requires
        flushable(mem),
        lookup(mem, key) == Some(e),
        rd.wf(),
        rd.spec_data() == table_image(mem_items(mem)),
    ensures
        engine_lookup(Seq::empty(), seq![rd] + older, key) == entry_answer(e),
{
    lemma_flush_preserves_reads(mem, rd, older, key);
}

/// Crash safety: replaying the recovery of a log that holds the records of
/// `es` rebuilds the memtable that applying `es` in order builds.
pub proof fn lemma_crash_recovery(es: Seq<WalEntryView>)
    requires
        all_fit(es),
    ensures
        replay(Seq::empty(), scan(log_of(es)).0) == replay(Seq::empty(), es),
{
    lemma_recovery_clean(es);
}

/// Crash safety: when the log holds the records of every operation since
/// the last flush (as it does when each append is synced), reopening
/// replays them into a memtable, installs its table in front, and then
/// every key reads as it did before the crash.
pub proof fn lemma_reopen_reads_as_before(
    es: Seq<WalEntryView>,
    rd: SSTableReader,
    tables: Seq<SSTableReader>,
    key: Seq<u8>,
)
    requires
        all_fit(es),
        flushable(replay(Seq::empty(), es)),
        rd.wf(),
        rd.spec_data() == table_image(mem_items(replay(Seq::empty(), scan(log_of(es)).0))),
    ensures
        engine_lookup(Seq::empty(), seq![rd] + tables, key) == engine_lookup(
            replay(Seq::empty(), es),
            tables,
            key,
        ),
{
    lemma_crash_recovery(es);
    lemma_flush_preserves_reads(replay(Seq::empty(), es), rd, tables, key);
}

/// The bytes an operation sets in the memtable: key and value, or key alone.
pub open spec fn op_bytes(op: OperationView) -> nat {
    match op {
        OperationView::Put { key, value } => key.len() + value.len(),
        OperationView::Delete { key } => key.len(),
    }
}

/// The memtable entry an operation sets.
pub open spec fn op_entry(op: OperationView) -> (Seq<u8>, EntryView) {
    match op {
        OperationView::Put { key, value } => (key, EntryView::Value(value)),
        OperationView::Delete { key } => (key, EntryView::Tombstone),
    }
}

/// Sum of `op_bytes` over entries.
pub open spec fn ops_bytes(es: Seq<WalEntryView>) -> nat
    decreases es.len(),
{
    if es.len() == 0 {
        0
    } else {
        ops_bytes(es.drop_last()) + op_bytes(es.last().op)
    }
}

proof fn lemma_ops_bytes_concat(a: Seq<WalEntryView>, b: Seq<WalEntryView>)
    ensures
        ops_bytes(a + b) == ops_bytes(a) + ops_bytes(b),
    decreases b.len(),
{
    if b.len() == 0 {
        assert(a + b =~= a);
    } else {
        lemma_ops_bytes_concat(a, b.drop_last());
        assert((a + b).drop_last() =~= a + b.drop_last());
    }
}

/// Every entry of a list fits the table format.
pub open spec fn mem_fits(mem: Seq<(Seq<u8>, EntryView)>) -> bool {
    forall|i: int| 0 <= i < mem.len() ==> item_fits(#[trigger] mem_items(mem)[i])
}

/// An operation whose entry fits the table format.
pub open spec fn op_fits(op: OperationView) -> bool {
    item_fits(mem_items(seq![op_entry(op)])[0])
}

/// Applying an operation whose entry fits the table format keeps every
/// memtable entry within the format.
pub proof fn lemma_apply_op_fits(mem: Seq<(Seq<u8>, EntryView)>, op: OperationView)
    requires
        mem_fits(mem),
        op_fits(op),
    ensures
        mem_fits(apply_op(mem, op)),
{
    let (k, e) = op_entry(op);
    assert(apply_op(mem, op) == upsert(mem, k, e));
    let u = upsert(mem, k, e);
    assert forall|j: int| 0 <= j < u.len() implies item_fits(#[trigger] mem_items(u)[j]) by {
        crate::memtable::lemma_upsert_member(mem, k, e, j);
        if u[j] != (k, e) {
            let x = choose|x: int| 0 <= x < mem.len() && mem[x] == u[j];
            assert(item_fits(mem_items(mem)[x]));
        }
    }
}

/// Replaying entries gives a sorted memtable no larger than the bytes they
/// set, whose entries fit the table format when theirs do.
proof fn lemma_replay_bounds(es: Seq<WalEntryView>)
    ensures
        sorted_keys(replay(Seq::empty(), es)),
        total_size(replay(Seq::empty(), es)) <= ops_bytes(es),
        (forall|i: int| 0 <= i < es.len() ==> op_fits(#[trigger] es[i].op)) ==> mem_fits(
            replay(Seq::empty(), es),
        ),
    decreases es.len(),
{
    if es.len() > 0 {
        let d = es.drop_last();
        let m = replay(Seq::empty(), d);
        let op = es.last().op;
        let (k, e) = op_entry(op);
        lemma_replay_bounds(d);
        crate::memtable::lemma_upsert_sorted(m, k, e);
        crate::memtable::lemma_upsert_size(m, k, e);
        assert(apply_op(m, op) == upsert(m, k, e));
        if forall|i: int| 0 <= i < es.len() ==> op_fits(#[trigger] es[i].op) {
            assert forall|i: int| 0 <= i < d.len() implies op_fits(#[trigger] d[i].op) by {
                assert(d[i] == es[i]);
            }
            assert(op_fits(es[es.len() - 1].op));
            lemma_apply_op_fits(m, op);
        }
    } else {
        assert(replay(Seq::<(Seq<u8>, EntryView)>::empty(), es) =~= Seq::empty());
    }
}

/// The entries a scan recovers set no more bytes than the image holds, and
/// each fits the table format.
proof fn lemma_scan_bounds(b: Seq<u8>)
    ensures
        ops_bytes(scan(b).0) <= b.len(),
        forall|i: int| 0 <= i < scan(b).0.len() ==> op_fits(#[trigger] scan(b).0[i].op),
    decreases b.len(),
{
    if b.len() > 0 && !crate::wal::reader::is_partial(b) {
        let l = crate::wal::entry::announced_len(b);
        let r = b.subrange(0, 16 + l);
        match crate::wal::entry::decode_record(r) {
            None => {},
            Some(e) => {
                let rest = b.skip(16 + l);
                lemma_scan_bounds(rest);
                let data = r.subrange(16, 16 + crate::wal::entry::announced_len(r));
                assert(r.subrange(12, 16) =~= b.subrange(12, 16));
                assert(data.len() == l);
                assert(l <= u32::MAX);
                assert(op_bytes(e.op) + 28 <= l);
                lemma_ops_bytes_concat(seq![e], scan(rest).0);
                assert(ops_bytes(seq![e]) == op_bytes(e.op)) by {
                    assert(seq![e].drop_last() =~= Seq::<WalEntryView>::empty());
                    assert(ops_bytes(Seq::<WalEntryView>::empty()) == 0);
                    assert(seq![e].last() == e);
                    assert(ops_bytes(seq![e]) == ops_bytes(seq![e].drop_last()) + op_bytes(seq![e].last().op));
                }
                assert(op_fits(e.op));
                let all = scan(b).0;
                assert(all == seq![e] + scan(rest).0);
                assert forall|i: int| 0 <= i < all.len() implies op_fits(#[trigger] all[i].op) by {
                    if i > 0 {
                        assert(all[i] == scan(rest).0[i - 1]);
                    }
                }
            },
        }
    }
}

} // verus!
