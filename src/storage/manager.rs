//! The storage manager: the open tables, newest first, and the counter of
//! table ids. The host lists and reads the table files; the manager orders
//! them, answers lookups, and builds new tables from a memtable.
use vstd::prelude::*;
use vstd::multiset::Multiset;
use crate::bytes::lex_le;
use crate::error::{msg, AtlasError, Result};
use crate::memtable::{pairs_view, EntryView, MemTable, MemTableEntry};
use super::sstable::{
    data_section, index_find, index_max, index_min, item_fits, open_failure, table_image, HEADER_SIZE, value_at, Item, SSTable, SSTableBuilder, SSTableReader,
};

verus! {

/// What one table says about a key.
pub enum Probe {
    /// The table does not hold the key.
    Absent,
    /// The table holds a value (`Some`) or a tombstone (`None`).
    Found(Option<Seq<u8>>),
    /// The table's entry runs past its file.
    Failed,
}

/// What a reader says about `key`: absent outside its key range or index.
pub open spec fn probe(rd: SSTableReader, key: Seq<u8>) -> Probe {
    let ix = rd.spec_index();
    if !(ix.len() > 0 && lex_le(index_min(ix), key) && lex_le(key, index_max(ix))) {
        Probe::Absent
    } else {
        match index_find(ix, key) {
            None => Probe::Absent,
            Some(i) => match value_at(rd.spec_data(), ix[i].1 as int) {
                None => Probe::Failed,
                Some(v) => Probe::Found(v),
            },
        }
    }
}

/// The answer of the first table, newest first, that does not say absent.
pub open spec fn layered(tables: Seq<SSTableReader>, key: Seq<u8>) -> Probe
    decreases tables.len(),
{
    if tables.len() == 0 {
        Probe::Absent
    } else {
        match probe(tables[0], key) {
            Probe::Absent => layered(tables.drop_first(), key),
            p => p,
        }
    }
}

/// The table items of a memtable's entries.
pub open spec fn mem_items(s: Seq<(Seq<u8>, EntryView)>) -> Seq<Item> {
    s.map_values(
        |p: (Seq<u8>, EntryView)|
            (
                p.0,
                match p.1 {
                    EntryView::Value(v) => Some(v),
                    EntryView::Tombstone => None,
                },
            ),
    )
}

/// The decimal digit for `d < 10`.
pub open spec fn digit_char(d: nat) -> char {
    if d == 0 { '0' } else if d == 1 { '1' } else if d == 2 { '2' } else if d == 3 { '3' }
    else if d == 4 { '4' } else if d == 5 { '5' } else if d == 6 { '6' } else if d == 7 { '7' }
    else if d == 8 { '8' } else { '9' }
}

/// The decimal digits of `n`, without leading zeros.
pub open spec fn decimal(n: nat) -> Seq<char>
    decreases n,
{
    if n < 10 {
        seq![digit_char(n)]
    } else {
        decimal(n / 10).push(digit_char(n % 10))
    }
}

/// `s` with zeros in front, to at least `width` characters.
pub open spec fn zero_pad(s: Seq<char>, width: nat) -> Seq<char> {
    if s.len() >= width {
        s
    } else {
        Seq::new((width - s.len()) as nat, |i: int| '0') + s
    }
}

/// The path of the table file with the given id in `dir`:
/// `{dir}/sstable_{id:06}.sst`.
pub open spec fn table_path_of(dir: Seq<char>, id: u64) -> Seq<char> {
    dir + "/sstable_"@ + zero_pad(decimal(id as nat), 6) + ".sst"@
}

/// Relies on `std::format!` with `{}` and `{:06}`: the directory, then the
/// decimal id zero-padded to six digits.
#[verifier::external_body]
fn table_path(dir: &String, id: u64) -> (r: String)
    ensures
        r@ == table_path_of(dir@, id),
{
    format!("{}/sstable_{:06}.sst", dir, id)
}

/// A table built from a memtable, to be written to its file and installed.
#[derive(Debug)]
pub struct PendingTable {
    /// The table's id.
    pub id: u64,
    /// Its metadata.
    pub meta: SSTable,
    /// The complete file bytes.
    pub bytes: Vec<u8>,
}

/// Owns the open tables, newest first.
pub struct StorageManager {
    data_dir: String,
    sstables: Vec<SSTableReader>,
    next_sstable_id: u64,
}

/// Ids in non-increasing order.
pub open spec fn ids_descending(s: Seq<(u64, Vec<u8>)>) -> bool {
    forall|i: int, j: int| 0 <= i < j < s.len() ==> (#[trigger] s[i]).0 >= (#[trigger] s[j]).0
}

/// Orders tables by id, highest first.
fn sort_by_id_desc(tables: Vec<(u64, Vec<u8>)>) -> (r: Vec<(u64, Vec<u8>)>)
    ensures
        ids_descending(r@),
        r@.to_multiset() == tables@.to_multiset(),
{
    let mut input = tables;
    let mut out: Vec<(u64, Vec<u8>)> = Vec::new();
    let ghost whole = input@.to_multiset();
    proof {
        vstd::seq_lib::to_multiset_len(out@);
        assert(out@.to_multiset() =~= Multiset::empty());
    }
    while input.len() > 0
        invariant
            ids_descending(out@),
            out@.to_multiset().add(input@.to_multiset()) == whole,
        decreases input@.len(),
    {
        let ghost before = input@;
        let item = input.pop().unwrap();
        proof {
            assert(before =~= input@.push(item));
            vstd::seq_lib::to_multiset_build(input@, item);
        }
        let mut i: usize = 0;
        while i < out.len() && out[i].0 >= item.0
            invariant
                i <= out@.len(),
                forall|j: int| 0 <= j < i ==> (#[trigger] out@[j]).0 >= item.0,
            decreases out@.len() - i,
        {
            i = i + 1;
        }
        let ghost prev = out@;
        out.insert(i, item);
        proof {
            vstd::seq_lib::to_multiset_insert(prev, i as int, item);
            assert(out@.to_multiset().add(input@.to_multiset()) =~= whole);
            assert forall|a: int, b: int| 0 <= a < b < out@.len() implies (#[trigger] out@[a]).0
                >= (#[trigger] out@[b]).0 by {
                if a < i && b == i {
                } else if a == i {
                    if b > i + 1 {
                        assert(prev[i as int].0 >= prev[b - 1].0);
                    }
                } else {
                    let a0 = if a < i { a } else { a - 1 };
                    let b0 = if b < i { b } else { b - 1 };
                    assert(prev[a0].0 >= prev[b0].0);
                }
            }
        }
    }
    proof {
        vstd::seq_lib::to_multiset_len(input@);
        assert(input@.to_multiset() =~= Multiset::empty());
        assert(out@.to_multiset().add(Multiset::empty()) =~= out@.to_multiset());
    }
    out
}

impl StorageManager {
    /// The open tables, newest first.
    pub closed spec fn tables(&self) -> Seq<SSTableReader> {
        self.sstables@
    }

    pub closed spec fn spec_next_id(&self) -> u64 {
        self.next_sstable_id
    }

    pub closed spec fn spec_data_dir(&self) -> Seq<char> {
        self.data_dir@
    }

    pub closed spec fn wf(&self) -> bool {
        forall|i: int| 0 <= i < self.sstables@.len() ==> (#[trigger] self.sstables@[i]).wf()
    }

    /// Opens the tables found in `data_dir`, given as `(id, file bytes)`:
    /// they are ordered by id, highest first, and the next id is one more
    /// than the highest, or 1 when there is none. Fails as the first table
    /// that cannot be opened fails, or with `Storage` when the highest id
    /// leaves no next one.
    #[verifier::spinoff_prover]
    #[verifier::rlimit(60)]
    pub fn open(data_dir: &str, tables: Vec<(u64, Vec<u8>)>) -> (r: Result<Self>)
        ensures
            r matches Ok(m) ==> {
                &&& m.wf()
                &&& m.spec_data_dir() == data_dir@
                &&& m.tables().len() == tables@.len()
                &&& exists|order: Seq<(u64, Vec<u8>)>|
                    {
                        &&& ids_descending(order)
                        &&& #[trigger] order.to_multiset() == tables@.to_multiset()
                        &&& order.len() == m.tables().len()
                        &&& forall|i: int| 0 <= i < order.len() && i < m.tables().len() ==> (#[trigger] m.tables()[i]).spec_data() == order[i].1@
                    }
                &&& (tables@.len() > 0 ==> exists|i: int| 0 <= i < tables@.len() && (#[trigger] tables@[i]).0 + 1 == m.spec_next_id())
                &&& (forall|i: int| 0 <= i < tables@.len() ==> open_failure(#[trigger] tables@[i].1@) is None)
                &&& (tables@.len() == 0 ==> m.spec_next_id() == 1)
                &&& (forall|i: int| 0 <= i < tables@.len() ==> (#[trigger] tables@[i]).0 < m.spec_next_id())
            },
            (exists|i: int| 0 <= i < tables@.len() && open_failure(#[trigger] tables@[i].1@) is Some) ==> r is Err,
            (forall|i: int| 0 <= i < tables@.len() ==> open_failure(#[trigger] tables@[i].1@) is None
                && tables@[i].0 < u64::MAX) ==> r is Ok,
    {
        let sorted = sort_by_id_desc(tables);
        proof {
            assert forall|i: int| 0 <= i < tables@.len() implies sorted@.contains(#[trigger] tables@[i]) by {
                vstd::seq_lib::to_multiset_contains(tables@, tables@[i]);
                vstd::seq_lib::to_multiset_contains(sorted@, tables@[i]);
                assert(tables@.contains(tables@[i]));
            }
            vstd::seq_lib::to_multiset_len(tables@);
            vstd::seq_lib::to_multiset_len(sorted@);
        }
        let n = sorted.len();
        let ghost all_open = forall|i: int| 0 <= i < tables@.len() ==> open_failure(#[trigger] tables@[i].1@) is None
            && tables@[i].0 < u64::MAX;
        proof {
            assert forall|j: int| 0 <= j < n implies tables@.contains(#[trigger] sorted@[j]) by {
                vstd::seq_lib::to_multiset_contains(sorted@, sorted@[j]);
                vstd::seq_lib::to_multiset_contains(tables@, sorted@[j]);
                assert(sorted@.contains(sorted@[j]));
            }
            if all_open {
                assert forall|j: int| 0 <= j < n implies open_failure(#[trigger] sorted@[j].1@) is None && sorted@[j].0 < u64::MAX by {
                    assert(tables@.contains(sorted@[j]));
                    let i = choose|i: int| 0 <= i < tables@.len() && tables@[i] == sorted@[j];
                }
            }
        }
        let next_id: u64 = if n == 0 {
            1
        } else {
            let top = sorted[0].0;
            proof {
                if all_open {
                    assert(open_failure(sorted@[0].1@) is None);
                }
            }
            if top == u64::MAX {
                return Err(AtlasError::Storage(msg("SSTable id space exhausted")));
            }
            top + 1
        };
        let mut readers: Vec<SSTableReader> = Vec::new();
        let mut rest = sorted;
        let ghost all = rest@;
        assert(all.take(n as int) =~= all);
        while rest.len() > 0
            invariant
                n == all.len(),
                rest@.len() <= n,
                rest@ == all.take(rest@.len() as int),
                readers@.len() == n - rest@.len(),
                forall|j: int| 0 <= j < readers@.len() ==> (#[trigger] readers@[j]).wf(),
                forall|j: int| 0 <= j < readers@.len() ==> (#[trigger] readers@[j]).spec_data() == all[rest@.len() + j].1@,
                forall|j: int| rest@.len() <= j < n ==> open_failure(#[trigger] all[j].1@) is None,
                all_open ==> forall|j: int| 0 <= j < n ==> open_failure(#[trigger] all[j].1@) is None,
                all_open == (forall|i: int| 0 <= i < tables@.len() ==> open_failure(#[trigger] tables@[i].1@) is None
                    && tables@[i].0 < u64::MAX),
            decreases rest@.len(),
        {
            let ghost m = rest@.len();
            let item = rest.pop().unwrap();
            assert(item == all[m - 1]);
            assert(all_open ==> open_failure(all[m - 1].1@) is None);
            assert(rest@ =~= all.take(m - 1));
            let reader = SSTableReader::open(item.1)?;
            let ghost prev = readers@;
            readers.insert(0, reader);
            assert forall|j: int| 0 <= j < readers@.len() implies (#[trigger] readers@[j]).spec_data() == all[rest@.len() + j].1@ by {
                if j > 0 {
                    assert(readers@[j] == prev[j - 1]);
                }
            }
        }
        proof {
            assert forall|i: int| 0 <= i < tables@.len() implies open_failure(#[trigger] tables@[i].1@) is None by {
                let j = choose|j: int| 0 <= j < all.len() && all[j] == tables@[i];
            }
            assert(all.to_multiset() == tables@.to_multiset());
            assert(forall|i: int| 0 <= i < all.len() ==> (#[trigger] readers@[i]).spec_data() == all[i].1@);
            if n > 0 {
                vstd::seq_lib::to_multiset_contains(all, all[0]);
                vstd::seq_lib::to_multiset_contains(tables@, all[0]);
                assert(all.contains(all[0]));
                let i0 = choose|i: int| 0 <= i < tables@.len() && tables@[i] == all[0];
                assert(tables@[i0].0 + 1 == next_id);
            }
            assert forall|i: int| 0 <= i < tables@.len() implies (#[trigger] tables@[i]).0 < next_id by {
                let j = choose|j: int| 0 <= j < all.len() && all[j] == tables@[i];
                if j > 0 {
                    assert(all[0].0 >= all[j].0);
                }
            }
        }
        Ok(StorageManager { data_dir: data_dir.to_owned(), sstables: readers, next_sstable_id: next_id })
    }

    /// Looks `key` up in the tables, newest first: the first that holds it
    /// answers, a tombstone as `None`; `None` when no table holds it.
    pub fn get(&self, key: &[u8]) -> (r: Result<Option<Vec<u8>>>)
        requires
            self.wf(),
        ensures
            match layered(self.tables(), key@) {
                Probe::Absent => r matches Ok(None),
                Probe::Found(None) => r matches Ok(None),
                Probe::Found(Some(v)) => r matches Ok(Some(x)) && x@ == v,
                Probe::Failed => r matches Err(e) && e is Io,
            },
    {
        let mut i: usize = 0;
        assert(self.tables().skip(0) =~= self.tables());
        while i < self.sstables.len()
            invariant
                i <= self.sstables@.len(),
                self.wf(),
                layered(self.tables(), key@) == layered(self.tables().skip(i as int), key@),
            decreases self.sstables@.len() - i,
        {
            let ghost t = self.tables().skip(i as int);
            assert(t.drop_first() =~= self.tables().skip(i + 1));
            assert(t[0] == self.sstables@[i as int]);
            let reader = &self.sstables[i];
            if reader.might_contain(key) {
                match reader.get(key) {
                    Ok(Some(v)) => return Ok(Some(v)),
                    Ok(None) => return Ok(None),
                    Err(AtlasError::KeyNotFound) => {},
                    Err(e) => return Err(e),
                }
            }
            i = i + 1;
        }
        Ok(None)
    }

    /// Builds a new table from the memtable's entries under the next id,
    /// which it takes. Fails with `Storage` on an empty memtable, when the
    /// ids are spent, or when an entry does not fit the format.
    #[verifier::spinoff_prover]
    #[verifier::rlimit(60)]
    pub fn prepare_flush(&mut self, memtable: &MemTable) -> (r: Result<PendingTable>)
        requires
            memtable.wf(),
        ensures
            final(self).tables() == old(self).tables(),
            old(self).wf() ==> final(self).wf(),
            final(self).spec_data_dir() == old(self).spec_data_dir(),
            r matches Ok(p) ==> {
                &&& p.id == old(self).spec_next_id()
                &&& p.bytes@ == table_image(mem_items(memtable@))
                &&& p.meta.path@ == table_path_of(old(self).spec_data_dir(), p.id)
                &&& forall|i: int| 0 <= i < memtable@.len() ==> item_fits(#[trigger] mem_items(memtable@)[i])
                &&& HEADER_SIZE + data_section(mem_items(memtable@)).len() <= p.bytes@.len()
                &&& final(self).spec_next_id() == old(self).spec_next_id() + 1
            },
            r is Err ==> final(self).spec_next_id() == old(self).spec_next_id(),
            r matches Err(e) ==> e is Storage,
            memtable@.len() == 0 ==> r is Err,
            memtable@.len() > 0 && old(self).spec_next_id() < u64::MAX && (forall|i: int|
                0 <= i < memtable@.len() ==> item_fits(#[trigger] mem_items(memtable@)[i])) ==> r is Ok,
    {
        if memtable.is_empty() {
            return Err(AtlasError::Storage(msg("Cannot flush empty MemTable")));
        }
        let id = self.next_sstable_id;
        if id == u64::MAX {
            return Err(AtlasError::Storage(msg("SSTable id space exhausted")));
        }
        let path = table_path(&self.data_dir, id);
        let mut builder = SSTableBuilder::new(path.as_str());
        let entries = memtable.iter();
        let mut i: usize = 0;
        while i < entries.len()
            invariant
                i <= entries@.len(),
                pairs_view(entries@) == memtable@,
                builder.wf(),
                builder.spec_path() == table_path_of(old(self).spec_data_dir(), id),
                builder.items() == mem_items(memtable@).take(i as int),
                id == old(self).spec_next_id(),
                id < u64::MAX,
            decreases entries@.len() - i,
        {
            let key = &entries[i].0;
            let ghost item = mem_items(memtable@)[i as int];
            assert(item.0 == key@);
            let res = match &entries[i].1 {
                MemTableEntry::Value(v) => {
                    assert(item.1 == Some(v@));
                    builder.add(key.as_slice(), v.as_slice())
                },
                MemTableEntry::Tombstone => {
                    assert(item.1 is None);
                    builder.add_tombstone(key.as_slice())
                },
            };
            match res {
                Ok(()) => {},
                Err(e) => return Err(e),
            }
            assert(mem_items(memtable@).take(i + 1) =~= mem_items(memtable@).take(i as int).push(item));
            i = i + 1;
        }
        assert(mem_items(memtable@).take(i as int) =~= mem_items(memtable@));
        let (meta, bytes) = builder.finish();
        self.next_sstable_id = id + 1;
        Ok(PendingTable { id, meta, bytes })
    }

    /// Opens a written table and puts it in front of the others.
    pub fn install(&mut self, pending: PendingTable) -> (r: Result<SSTable>)
        requires
            old(self).wf(),
        ensures
            final(self).wf(),
            final(self).spec_next_id() == old(self).spec_next_id(),
            final(self).spec_data_dir() == old(self).spec_data_dir(),
            r is Ok <==> open_failure(pending.bytes@) is None,
            r is Ok ==> final(self).tables()[0].wf(),
            r is Ok ==> final(self).tables().len() == old(self).tables().len() + 1
                && final(self).tables().drop_first() == old(self).tables()
                && final(self).tables()[0].spec_data() == pending.bytes@,
            r is Err ==> final(self).tables() == old(self).tables(),
    {
        let PendingTable { id: _, meta, bytes } = pending;
        let reader = SSTableReader::open(bytes)?;
        self.sstables.insert(0, reader);
        assert(self.tables().drop_first() =~= old(self).tables());
        Ok(meta)
    }

    /// Every open table of a well-formed manager is well formed.
    pub proof fn lemma_tables_wf(&self)
        requires
            self.wf(),
        ensures
            forall|i: int| 0 <= i < self.tables().len() ==> (#[trigger] self.tables()[i]).wf(),
    {
    }

    /// The number of open tables.
    pub fn sstable_count(&self) -> (r: usize)
        ensures
            r == self.tables().len(),
    {
        self.sstables.len()
    }

    /// The directory of the table files.
    pub fn data_dir(&self) -> (r: &str)
        ensures
            r@ == self.spec_data_dir(),
    {
        self.data_dir.as_str()
    }

    /// The id that the next table will take.
    pub fn next_sstable_id(&self) -> (r: u64)
        ensures
            r == self.spec_next_id(),
    {
        self.next_sstable_id
    }
}

} // verus!
