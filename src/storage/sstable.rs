//! The SSTable file format.
//!
//! ```text
//! Header (14) : "ATKV" | Version u16 LE | EntryCount u64 LE
//! Data        : [KeyLen u32 LE | ValLen u32 LE | Key | Value?]*   (ValLen = u32::MAX: tombstone)
//! Index       : [KeyLen u32 LE | EntryOffset u64 LE | Key]*
//! Footer (16) : IndexOffset u64 LE | DataCRC u32 LE | 4 zero bytes
//! ```
use vstd::prelude::*;
use vstd::bytes::*;
use crate::bytes::{
    bytes_eq, bytes_lt, copy_range, lemma_lex_transitive, lemma_lex_trichotomy, lex_le, lex_lt,
    push_all,
};
use crate::error::{msg, AtlasError, Result};
use crate::wal::entry::{crc32, crc32_of, le32_at, le64_at, read_u32, read_u64};

verus! {

/// Header size: magic (4) + version (2) + entry count (8).
pub const HEADER_SIZE: usize = 14;

/// Footer size: index offset (8) + data CRC (4) + padding (4).
pub const FOOTER_SIZE: usize = 16;

/// Format version.
pub const VERSION: u16 = 1;

/// Value length that marks a tombstone.
pub const TOMBSTONE_MARKER: u32 = 4294967295;

/// The magic bytes "ATKV".
pub open spec fn magic() -> Seq<u8> {
    seq![65u8, 84u8, 75u8, 86u8]
}

/// An item of a table: a key and its value, or none for a tombstone.
pub type Item = (Seq<u8>, Option<Seq<u8>>);

/// The data-section bytes of one item.
pub open spec fn data_entry(it: Item) -> Seq<u8> {
    match it.1 {
        Some(v) => spec_u32_to_le_bytes(it.0.len() as u32) + spec_u32_to_le_bytes(v.len() as u32)
            + it.0 + v,
        None => spec_u32_to_le_bytes(it.0.len() as u32) + spec_u32_to_le_bytes(TOMBSTONE_MARKER)
            + it.0,
    }
}

/// The data section of a list of items.
pub open spec fn data_section(items: Seq<Item>) -> Seq<u8>
    decreases items.len(),
{
    if items.len() == 0 {
        Seq::empty()
    } else {
        data_section(items.drop_last()) + data_entry(items.last())
    }
}

/// The index-section bytes of one key at a file offset.
pub open spec fn index_entry(key: Seq<u8>, off: u64) -> Seq<u8> {
    spec_u32_to_le_bytes(key.len() as u32) + spec_u64_to_le_bytes(off) + key
}

/// The index section: each item's key with the offset of its data entry.
pub open spec fn index_section(items: Seq<Item>) -> Seq<u8>
    decreases items.len(),
{
    if items.len() == 0 {
        Seq::empty()
    } else {
        index_section(items.drop_last()) + index_entry(
            items.last().0,
            (HEADER_SIZE + data_section(items.drop_last()).len()) as u64,
        )
    }
}

/// The header bytes.
pub open spec fn header(count: u64) -> Seq<u8> {
    magic() + spec_u16_to_le_bytes(VERSION) + spec_u64_to_le_bytes(count)
}

/// The footer bytes.
pub open spec fn footer(index_offset: u64, crc: u32) -> Seq<u8> {
    spec_u64_to_le_bytes(index_offset) + spec_u32_to_le_bytes(crc) + seq![0u8, 0u8, 0u8, 0u8]
}

/// The complete file of a list of items.
pub open spec fn table_image(items: Seq<Item>) -> Seq<u8> {
    header(items.len() as u64) + data_section(items) + index_section(items) + footer(
        (HEADER_SIZE + data_section(items).len()) as u64,
        crc32_of(data_section(items)),
    )
}

/// Every key and value fits its 32-bit length field, and no value length
/// is the tombstone marker.
pub open spec fn item_fits(it: Item) -> bool {
    &&& it.0.len() <= u32::MAX
    &&& (it.1 matches Some(v) ==> v.len() < u32::MAX)
}

/// The index entries read from the index block `b`; reading stops at an
/// entry that runs past the block.
pub open spec fn parse_index(b: Seq<u8>) -> Seq<(Seq<u8>, u64)>
    decreases b.len(),
{
    if b.len() < 12 || b.len() < 12 + le32_at(b, 0) {
        Seq::empty()
    } else {
        let kl = le32_at(b, 0) as int;
        seq![(b.subrange(12, 12 + kl), le64_at(b, 4))] + parse_index(b.skip(12 + kl))
    }
}

/// Keys in non-decreasing order.
pub open spec fn index_ordered(ix: Seq<(Seq<u8>, u64)>) -> bool {
    forall|i: int| 0 <= i < ix.len() - 1 ==> lex_le(#[trigger] ix[i].0, ix[i + 1].0)
}

/// The smallest key of a non-empty index.
pub open spec fn index_min(ix: Seq<(Seq<u8>, u64)>) -> Seq<u8>
    decreases ix.len(),
{
    if ix.len() <= 1 {
        ix[0].0
    } else if lex_lt(ix.last().0, index_min(ix.drop_last())) {
        ix.last().0
    } else {
        index_min(ix.drop_last())
    }
}

/// The largest key of a non-empty index.
pub open spec fn index_max(ix: Seq<(Seq<u8>, u64)>) -> Seq<u8>
    decreases ix.len(),
{
    if ix.len() <= 1 {
        ix[0].0
    } else if lex_lt(index_max(ix.drop_last()), ix.last().0) {
        ix.last().0
    } else {
        index_max(ix.drop_last())
    }
}

/// The index offset stored in a file's footer.
pub open spec fn footer_index_offset(b: Seq<u8>) -> int {
    le64_at(b, b.len() - 16) as int
}

/// Why a file cannot be opened, if it cannot.
pub enum OpenFailure {
    Io,
    Storage,
}

/// Whether the bytes can be opened as a table, and if not, which error.
pub open spec fn open_failure(b: Seq<u8>) -> Option<OpenFailure> {
    if b.len() < 14 {
        Some(OpenFailure::Io)
    } else if b.subrange(0, 4) != magic() {
        Some(OpenFailure::Storage)
    } else if spec_u16_from_le_bytes(b.subrange(4, 6)) != VERSION {
        Some(OpenFailure::Storage)
    } else if b.len() < 16 {
        Some(OpenFailure::Io)
    } else if footer_index_offset(b) > b.len() - 16 {
        Some(OpenFailure::Storage)
    } else {
        None
    }
}

/// The index that an openable file holds.
pub open spec fn file_index(b: Seq<u8>) -> Seq<(Seq<u8>, u64)> {
    parse_index(b.subrange(footer_index_offset(b), b.len() - 16))
}

/// What the data entry at `off` holds: `Some(None)` for a tombstone,
/// `Some(Some(v))` for a value, `None` when the entry runs past the file.
pub open spec fn value_at(b: Seq<u8>, off: int) -> Option<Option<Seq<u8>>> {
    if off + 8 > b.len() {
        None
    } else if le32_at(b, off + 4) == TOMBSTONE_MARKER {
        Some(None)
    } else {
        let kl = le32_at(b, off) as int;
        let vl = le32_at(b, off + 4) as int;
        if off + 8 + kl + vl > b.len() {
            None
        } else {
            Some(Some(b.subrange(off + 8 + kl, off + 8 + kl + vl)))
        }
    }
}

/// Index of the last entry that holds `key`, if any.
pub open spec fn index_find(ix: Seq<(Seq<u8>, u64)>, key: Seq<u8>) -> Option<int>
    decreases ix.len(),
{
    if ix.len() == 0 {
        None
    } else if ix.last().0 == key {
        Some(ix.len() - 1)
    } else {
        index_find(ix.drop_last(), key)
    }
}

/// Metadata of a finished table.
#[derive(Debug, Clone)]
pub struct SSTable {
    /// Path of the table file.
    pub path: String,
    /// Number of entries.
    pub entry_count: u64,
    /// Smallest key.
    pub min_key: Vec<u8>,
    /// Largest key.
    pub max_key: Vec<u8>,
    /// File size in bytes.
    pub file_size: u64,
}

impl SSTable {
    /// The number of entries.
    pub fn entry_count(&self) -> (r: u64)
        ensures
            r == self.entry_count,
    {
        self.entry_count
    }

    /// Whether `key` lies in `[min_key, max_key]`.
    pub fn might_contain(&self, key: &[u8]) -> (r: bool)
        ensures
            r == (lex_le(self.min_key@, key@) && lex_le(key@, self.max_key@)),
    {
        let lo = bytes_eq(self.min_key.as_slice(), key) || bytes_lt(self.min_key.as_slice(), key);
        let hi = bytes_eq(key, self.max_key.as_slice()) || bytes_lt(key, self.max_key.as_slice());
        lo && hi
    }
}

/// Writes sorted items into the bytes of a new table.
pub struct SSTableBuilder {
    path: String,
    buf: Vec<u8>,
    items: Ghost<Seq<Item>>,
    index: Vec<(Vec<u8>, u64)>,
    min_key: Option<Vec<u8>>,
    max_key: Option<Vec<u8>>,
}

/// Appends the little-endian bytes of `x`.
fn push_u64(out: &mut Vec<u8>, x: u64)
    ensures
        final(out)@ == old(out)@ + spec_u64_to_le_bytes(x),
{
    let b = u64_to_le_bytes(x);
    push_all(out, b.as_slice());
}

/// Appends the little-endian bytes of `x`.
fn push_u32(out: &mut Vec<u8>, x: u32)
    ensures
        final(out)@ == old(out)@ + spec_u32_to_le_bytes(x),
{
    let b = u32_to_le_bytes(x);
    push_all(out, b.as_slice());
}

impl SSTableBuilder {
    /// The items added so far.
    pub closed spec fn items(&self) -> Seq<Item> {
        self.items@
    }

    /// The path recorded for the table.
    pub closed spec fn spec_path(&self) -> Seq<char> {
        self.path@
    }

    pub closed spec fn wf(&self) -> bool {
        &&& self.buf@ == header(0) + data_section(self.items@)
        &&& self.index@.len() == self.items@.len()
        &&& forall|i: int| 0 <= i < self.items@.len() ==> item_fits(#[trigger] self.items@[i])
        &&& forall|i: int|
            0 <= i < self.items@.len() ==> (#[trigger] self.index@[i]).0@ == self.items@[i].0
                && self.index@[i].1 == HEADER_SIZE + data_section(self.items@.take(i)).len()
        &&& (self.items@.len() == 0 ==> self.min_key is None && self.max_key is None)
        &&& (self.items@.len() > 0 ==> (self.min_key matches Some(k) && k@ == self.items@[0].0)
            && (self.max_key matches Some(k) && k@ == self.items@.last().0))
    }

    /// A builder for the table at `path`, with the header written.
    pub fn new(path: &str) -> (r: Self)
        ensures
            r.wf(),
            r.items().len() == 0,
            r.spec_path() == path@,
    {
        let mut buf: Vec<u8> = Vec::new();
        buf.push(65u8);
        buf.push(84u8);
        buf.push(75u8);
        buf.push(86u8);
        let v = u16_to_le_bytes(VERSION);
        push_all(&mut buf, v.as_slice());
        push_u64(&mut buf, 0);
        assert(buf@ =~= header(0) + data_section(Seq::empty()));
        SSTableBuilder {
            path: path.to_owned(),
            buf,
            items: Ghost(Seq::empty()),
            index: Vec::new(),
            min_key: None,
            max_key: None,
        }
    }

    /// Adds a key with its value.
    pub fn add(&mut self, key: &[u8], value: &[u8]) -> (r: Result<()>)
        requires
            old(self).wf(),
        ensures
            final(self).wf(),
            final(self).spec_path() == old(self).spec_path(),
            r is Ok <==> item_fits((key@, Some(value@))),
            r is Ok ==> final(self).items() == old(self).items().push((key@, Some(value@))),
            r matches Err(e) ==> e is Storage && final(self).items() == old(self).items(),
    {
        self.write_entry(key, Some(value))
    }

    /// Adds a tombstone for a key.
    pub fn add_tombstone(&mut self, key: &[u8]) -> (r: Result<()>)
        requires
            old(self).wf(),
        ensures
            final(self).wf(),
            final(self).spec_path() == old(self).spec_path(),
            r is Ok <==> item_fits((key@, None)),
            r is Ok ==> final(self).items() == old(self).items().push((key@, None)),
            r matches Err(e) ==> e is Storage && final(self).items() == old(self).items(),
    {
        self.write_entry(key, None)
    }

    /// Appends one data entry and remembers its key and offset.
    #[verifier::spinoff_prover]
    #[verifier::rlimit(60)]
    fn write_entry(&mut self, key: &[u8], value: Option<&[u8]>) -> (r: Result<()>)
        requires
            old(self).wf(),
        ensures
            final(self).wf(),
            final(self).spec_path() == old(self).spec_path(),
            r is Ok <==> item_fits(
                (
                    key@,
                    match value {
                        Some(v) => Some(v@),
                        None => None,
                    },
                ),
            ),
            r is Ok ==> final(self).items() == old(self).items().push(
                (
                    key@,
                    match value {
                        Some(v) => Some(v@),
                        None => None,
                    },
                ),
            ),
            r matches Err(e) ==> e is Storage && final(self).items() == old(self).items(),
    {
        let ghost it: Item = (
            key@,
            match value {
                Some(v) => Some(v@),
                None => None,
            },
        );
        if key.len() > u32::MAX as usize {
            return Err(AtlasError::Storage(msg("key too long")));
        }
        let val_len: u32 = match value {
            Some(v) => {
                if v.len() >= TOMBSTONE_MARKER as usize {
                    return Err(AtlasError::Storage(msg("value too long")));
                }
                v.len() as u32
            },
            None => TOMBSTONE_MARKER,
        };
        let ghost items0 = self.items@;
        let offset = self.buf.len() as u64;
        proof {
            lemma_auto_spec_u16_to_from_le_bytes();
            lemma_auto_spec_u64_to_from_le_bytes();
        }
        assert(offset == HEADER_SIZE + data_section(items0).len());
        push_u32(&mut self.buf, key.len() as u32);
        push_u32(&mut self.buf, val_len);
        push_all(&mut self.buf, key);
        match value {
            Some(v) => push_all(&mut self.buf, v),
            None => {},
        }
        let k = copy_range(key, 0, key.len());
        assert(k@ =~= key@);
        if self.min_key.is_none() {
            self.min_key = Some(copy_range(key, 0, key.len()));
        }
        self.max_key = Some(copy_range(key, 0, key.len()));
        self.index.push((k, offset));
        self.items = Ghost(items0.push(it));
        proof {
            let items1 = items0.push(it);
            assert(items1.drop_last() =~= items0);
            assert(items1.take(items0.len() as int) =~= items0);
            assert(self.buf@ =~= header(0) + data_section(items1));
            assert forall|i: int| 0 <= i < items1.len() implies (#[trigger] self.index@[i]).0@
                == items1[i].0 && self.index@[i].1 == HEADER_SIZE + data_section(items1.take(i)).len() by {
                if i < items0.len() {
                    assert(items1.take(i) =~= items0.take(i));
                }
            }
            assert(self.min_key matches Some(m) && m@ == items1[0].0);
        }
        Ok(())
    }

    /// Writes the index and the footer, patches the entry count, and
    /// returns the table's metadata with the complete file bytes.
    #[verifier::spinoff_prover]
    #[verifier::rlimit(60)]
    pub fn finish(self) -> (r: (SSTable, Vec<u8>))
        requires
            self.wf(),
        ensures
            r.1@ == table_image(self.items()),
            r.0.entry_count == self.items().len(),
            r.0.file_size == r.1@.len(),
            r.0.path@ == self.spec_path(),
            self.items().len() > 0 ==> r.0.min_key@ == self.items()[0].0 && r.0.max_key@
                == self.items().last().0,
            self.items().len() == 0 ==> r.0.min_key@.len() == 0 && r.0.max_key@.len() == 0,
            forall|i: int| 0 <= i < self.items().len() ==> item_fits(#[trigger] self.items()[i]),
            HEADER_SIZE + data_section(self.items()).len() <= r.1@.len(),
    {
        let ghost items = self.items@;
        let SSTableBuilder { path, buf, items: _, index, min_key, max_key } = self;
        let mut buf = buf;
        let index_offset = buf.len() as u64;
        let data_end = buf.len();
        proof {
            lemma_auto_spec_u16_to_from_le_bytes();
            lemma_auto_spec_u64_to_from_le_bytes();
            lemma_auto_spec_u32_to_from_le_bytes();
            assert(buf@.subrange(14, data_end as int) =~= data_section(items));
        }
        let data_crc = crc32(vstd::slice::slice_subrange(buf.as_slice(), HEADER_SIZE, data_end));
        let mut i: usize = 0;
        while i < index.len()
            invariant
                i <= index@.len() == items.len(),
                buf@ == header(0) + data_section(items) + index_section(items.take(i as int)),
                forall|j: int|
                    0 <= j < items.len() ==> (#[trigger] index@[j]).0@ == items[j].0 && index@[j].1
                        == HEADER_SIZE + data_section(items.take(j)).len(),
                forall|j: int| 0 <= j < items.len() ==> item_fits(#[trigger] items[j]),
            decreases index@.len() - i,
        {
            let (k, off) = (&index[i].0, index[i].1);
            assert(item_fits(items[i as int]));
            push_u32(&mut buf, k.len() as u32);
            push_u64(&mut buf, off);
            push_all(&mut buf, k.as_slice());
            proof {
                let t = items.take(i + 1);
                assert(t.drop_last() =~= items.take(i as int));
                assert(buf@ =~= header(0) + data_section(items) + index_section(t));
            }
            i = i + 1;
        }
        assert(items.take(i as int) =~= items);
        push_u64(&mut buf, index_offset);
        push_u32(&mut buf, data_crc);
        buf.push(0u8);
        buf.push(0u8);
        buf.push(0u8);
        buf.push(0u8);
        let entry_count = index.len() as u64;
        let count_bytes = u64_to_le_bytes(entry_count);
        let mut j: usize = 0;
        let ghost before = buf@;
        while j < 8
            invariant
                j <= 8,
                count_bytes@ == spec_u64_to_le_bytes(entry_count),
                count_bytes@.len() == 8,
                before.len() >= 14,
                buf@.len() == before.len(),
                forall|p: int| 0 <= p < before.len() && !(6 <= p < 6 + j) ==> buf@[p] == before[p],
                forall|p: int| 6 <= p < 6 + j ==> buf@[p] == count_bytes@[p - 6],
            decreases 8 - j,
        {
            buf.set(6 + j, count_bytes[j]);
            j = j + 1;
        }
        proof {
            let rest = data_section(items) + index_section(items) + footer(
                (HEADER_SIZE + data_section(items).len()) as u64,
                crc32_of(data_section(items)),
            );
            assert(before =~= header(0) + rest);
            assert(header(0).len() == 14);
            assert(header(entry_count).len() == 14);
            assert(before.skip(14) =~= rest);
            assert(buf@.skip(14) =~= before.skip(14));
            assert forall|p: int| 0 <= p < 14 implies buf@[p] == #[trigger] header(entry_count)[p] by {
                if p < 6 {
                    assert(header(entry_count)[p] == header(0)[p]);
                    assert(before[p] == header(0)[p]);
                } else {
                    assert(header(entry_count)[p] == spec_u64_to_le_bytes(entry_count)[p - 6]);
                }
            }
            assert(buf@.subrange(0, 14) =~= header(entry_count));
            assert(buf@.skip(14) =~= rest);
            assert(buf@ =~= buf@.subrange(0, 14) + buf@.skip(14));
        }
        assert(buf@ =~= table_image(items));
        let file_size = buf.len() as u64;
        let meta = SSTable {
            path,
            entry_count,
            min_key: match min_key {
                Some(k) => k,
                None => Vec::new(),
            },
            max_key: match max_key {
                Some(k) => k,
                None => Vec::new(),
            },
            file_size,
        };
        (meta, buf)
    }
}

/// The views of stored index entries.
pub open spec fn index_view(v: Seq<(Vec<u8>, u64)>) -> Seq<(Seq<u8>, u64)> {
    v.map_values(|p: (Vec<u8>, u64)| (p.0@, p.1))
}

/// The items of the data entries from `pos` up to `end`, or none when an
/// entry runs past the file.
pub open spec fn scan_data(b: Seq<u8>, pos: int, end: int) -> Option<Seq<Item>>
    decreases b.len() - pos,
{
    if pos >= end {
        Some(Seq::empty())
    } else if pos < 0 || pos + 8 > b.len() {
        None
    } else {
        let kl = le32_at(b, pos) as int;
        let vl = le32_at(b, pos + 4);
        if vl == TOMBSTONE_MARKER {
            if pos + 8 + kl > b.len() {
                None
            } else {
                match scan_data(b, pos + 8 + kl, end) {
                    Some(rest) => Some(seq![(b.subrange(pos + 8, pos + 8 + kl), None::<Seq<u8>>)] + rest),
                    None => None,
                }
            }
        } else {
            if pos + 8 + kl + vl > b.len() {
                None
            } else {
                match scan_data(b, pos + 8 + kl + vl, end) {
                    Some(rest) => Some(
                        seq![(b.subrange(pos + 8, pos + 8 + kl), Some(b.subrange(pos + 8 + kl, pos + 8 + kl + vl)))]
                            + rest,
                    ),
                    None => None,
                }
            }
        }
    }
}

/// Reads a table held in memory; the index is parsed once, at open.
pub struct SSTableReader {
    data: Vec<u8>,
    index: Vec<(Vec<u8>, u64)>,
    entry_count: u64,
    index_offset: u64,
    /// Whether the index keys are in non-decreasing order, which allows a
    /// binary search.
    ordered: bool,
}

impl SSTableReader {
    /// The file bytes.
    pub closed spec fn spec_data(&self) -> Seq<u8> {
        self.data@
    }

    /// The parsed index.
    pub closed spec fn spec_index(&self) -> Seq<(Seq<u8>, u64)> {
        index_view(self.index@)
    }

    pub closed spec fn spec_entry_count(&self) -> u64 {
        self.entry_count
    }

    pub closed spec fn wf(&self) -> bool {
        &&& open_failure(self.data@) is None
        &&& index_view(self.index@) == file_index(self.data@)
        &&& self.index_offset == footer_index_offset(self.data@)
        &&& self.ordered == index_ordered(index_view(self.index@))
    }

    /// A well-formed reader's index is the one its file holds.
    pub proof fn lemma_wf_index(&self)
        requires
            self.wf(),
        ensures
            open_failure(self.spec_data()) is None,
            self.spec_index() == file_index(self.spec_data()),
    {
    }

    /// Opens the table in `data`: checks the magic and version, reads the
    /// footer and loads the index. A key that the index holds more than once
    /// is answered by its last entry, as an ordered map built from the index
    /// would answer it.
    #[verifier::spinoff_prover]
    #[verifier::rlimit(60)]
    pub fn open(data: Vec<u8>) -> (r: Result<Self>)
        ensures
            r is Ok <==> open_failure(data@) is None,
            r matches Ok(rd) ==> rd.wf() && rd.spec_data() == data@ && rd.spec_entry_count()
                == le64_at(data@, 6),
            r matches Err(e) ==> (open_failure(data@) == Some(OpenFailure::Io) ==> e is Io),
            r matches Err(e) ==> (open_failure(data@) == Some(OpenFailure::Storage) ==> e is Storage),
    {
        let len = data.len();
        if len < HEADER_SIZE {
            return Err(AtlasError::Io(msg("failed to fill whole buffer")));
        }
        let magic_ok = data[0] == 65u8 && data[1] == 84u8 && data[2] == 75u8 && data[3] == 86u8;
        assert(magic_ok == (data@.subrange(0, 4) =~= magic()));
        if !magic_ok {
            return Err(AtlasError::Storage(msg("invalid SSTable magic")));
        }
        let version = u16_from_le_bytes(vstd::slice::slice_subrange(data.as_slice(), 4, 6));
        if version != VERSION {
            return Err(AtlasError::Storage(msg("unsupported SSTable version")));
        }
        if len < FOOTER_SIZE {
            return Err(AtlasError::Io(msg("failed to fill whole buffer")));
        }
        let entry_count = read_u64(data.as_slice(), 6);
        let index_offset = read_u64(data.as_slice(), len - FOOTER_SIZE);
        if index_offset > (len - FOOTER_SIZE) as u64 {
            return Err(AtlasError::Storage(msg("index offset out of range")));
        }
        let block = vstd::slice::slice_subrange(data.as_slice(), index_offset as usize, len - FOOTER_SIZE);
        let index = parse_index_block(block);
        let ordered = index_is_ordered(&index);
        Ok(SSTableReader { data, index, entry_count, index_offset, ordered })
    }

    /// Looks `key` up: `KeyNotFound` when the index does not hold it,
    /// `Ok(None)` for a tombstone, `Ok(Some(value))` for a value, `Io` when
    /// the entry runs past the file.
    pub fn get(&self, key: &[u8]) -> (r: Result<Option<Vec<u8>>>)
        requires
            self.wf(),
        ensures
            index_find(self.spec_index(), key@) is None ==> (r matches Err(e) && e is KeyNotFound),
            index_find(self.spec_index(), key@) matches Some(i) ==> (match value_at(
                self.spec_data(),
                self.spec_index()[i].1 as int,
            ) {
                None => r matches Err(e) && e is Io,
                Some(None) => r matches Ok(None),
                Some(Some(v)) => r matches Ok(Some(x)) && x@ == v,
            }),
    {
        let found = if self.ordered {
            self.search_ordered(key)
        } else {
            self.search_linear(key)
        };
        match found {
            Some(i) => read_value_at(self.data.as_slice(), self.index[i].1),
            None => Err(AtlasError::KeyNotFound),
        }
    }

    /// Binary search of an ordered index for the last entry holding `key`.
    fn search_ordered(&self, key: &[u8]) -> (r: Option<usize>)
        requires
            self.wf(),
            self.ordered,
        ensures
            r is None ==> index_find(self.spec_index(), key@) is None,
            r matches Some(i) ==> index_find(self.spec_index(), key@) == Some(i as int) && i
                < self.index@.len(),
    {
        let ghost ix = self.spec_index();
        proof {
            lemma_index_ordered_pairs(ix);
        }
        // first position whose key comes after `key`
        let mut lo: usize = 0;
        let mut hi: usize = self.index.len();
        while lo < hi
            invariant
                0 <= lo <= hi <= self.index@.len(),
                ix == self.spec_index(),
                ix.len() == self.index@.len(),
                forall|j: int| 0 <= j < lo ==> !lex_lt(key@, #[trigger] ix[j].0),
                forall|j: int| hi <= j < ix.len() ==> lex_lt(key@, #[trigger] ix[j].0),
                forall|a: int, b: int| 0 <= a <= b < ix.len() ==> lex_le(#[trigger] ix[a].0, #[trigger] ix[b].0),
            decreases hi - lo,
        {
            let mid = lo + (hi - lo) / 2;
            assert(ix[mid as int].0 == self.index@[mid as int].0@);
            if bytes_lt(key, self.index[mid].0.as_slice()) {
                assert forall|j: int| mid <= j < ix.len() implies lex_lt(key@, #[trigger] ix[j].0) by {
                    if j > mid {
                        assert(lex_le(ix[mid as int].0, ix[j].0));
                        if ix[mid as int].0 != ix[j].0 {
                            lemma_lex_transitive(key@, ix[mid as int].0, ix[j].0);
                        }
                    }
                }
                hi = mid;
            } else {
                assert forall|j: int| 0 <= j < mid + 1 implies !lex_lt(key@, #[trigger] ix[j].0) by {
                    if j < mid && lex_lt(key@, ix[j].0) {
                        assert(lex_le(ix[j].0, ix[mid as int].0));
                        if ix[j].0 != ix[mid as int].0 {
                            lemma_lex_transitive(key@, ix[j].0, ix[mid as int].0);
                        }
                    }
                }
                lo = mid + 1;
            }
        }
        proof {
            lemma_index_find_bound(ix, key@, lo as int);
        }
        if lo > 0 && bytes_eq(self.index[lo - 1].0.as_slice(), key) {
            return Some(lo - 1);
        }
        None
    }

    /// Scan of the index from its end for the last entry holding `key`.
    fn search_linear(&self, key: &[u8]) -> (r: Option<usize>)
        requires
            self.wf(),
        ensures
            r is None ==> index_find(self.spec_index(), key@) is None,
            r matches Some(i) ==> index_find(self.spec_index(), key@) == Some(i as int) && i
                < self.index@.len(),
    {
        let mut i: usize = self.index.len();
        assert(self.spec_index().take(i as int) =~= self.spec_index());
        while i > 0
            invariant
                i <= self.index@.len(),
                index_find(self.spec_index(), key@) == index_find(self.spec_index().take(i as int), key@),
            decreases i,
        {
            let ghost t = self.spec_index().take(i as int);
            assert(t.drop_last() =~= self.spec_index().take(i - 1));
            if bytes_eq(self.index[i - 1].0.as_slice(), key) {
                return Some(i - 1);
            }
            i = i - 1;
        }
        None
    }


    /// Whether the data section matches the checksum in the footer. Opening
    /// a table does not check it; this recomputes it over the data section.
    pub fn verify_data_crc(&self) -> (r: bool)
        requires
            self.wf(),
        ensures
            r == (footer_index_offset(self.spec_data()) >= 14 && crc32_of(
                self.spec_data().subrange(14, footer_index_offset(self.spec_data())),
            ) == le32_at(self.spec_data(), self.spec_data().len() - 8)),
    {
        let len = self.data.len();
        let end = self.index_offset as usize;
        if end < HEADER_SIZE {
            return false;
        }
        let computed = crc32(vstd::slice::slice_subrange(self.data.as_slice(), HEADER_SIZE, end));
        let stored = read_u32(self.data.as_slice(), len - 8);
        computed == stored
    }

    /// The entry count recorded in the header.
    pub fn entry_count(&self) -> (r: u64)
        ensures
            r == self.spec_entry_count(),
    {
        self.entry_count
    }

    /// The smallest key, if the index holds any.
    pub fn min_key(&self) -> (r: Option<&[u8]>)
        requires
            self.wf(),
        ensures
            self.spec_index().len() == 0 ==> r is None,
            self.spec_index().len() > 0 ==> (r matches Some(k) && k@ == index_min(self.spec_index())),
    {
        let n = self.index.len();
        if n == 0 {
            return None;
        }
        let ghost ix = self.spec_index();
        if self.ordered {
            proof {
                lemma_min_max_ordered(ix);
            }
            return Some(self.index[0].0.as_slice());
        }
        let mut cur: &[u8] = self.index[0].0.as_slice();
        let mut i: usize = 1;
        assert(ix.take(1).len() == 1);
        while i < n
            invariant
                1 <= i <= n == self.index@.len() == ix.len(),
                ix == self.spec_index(),
                cur@ == index_min(ix.take(i as int)),
            decreases n - i,
        {
            let k = self.index[i].0.as_slice();
            assert(ix.take(i + 1).drop_last() =~= ix.take(i as int));
            assert(ix.take(i + 1).last() == ix[i as int]);
            if bytes_lt(k, cur) {
                cur = k;
            }
            i = i + 1;
        }
        assert(ix.take(n as int) =~= ix);
        Some(cur)
    }

    /// The largest key, if the index holds any.
    pub fn max_key(&self) -> (r: Option<&[u8]>)
        requires
            self.wf(),
        ensures
            self.spec_index().len() == 0 ==> r is None,
            self.spec_index().len() > 0 ==> (r matches Some(k) && k@ == index_max(self.spec_index())),
    {
        let n = self.index.len();
        if n == 0 {
            return None;
        }
        let ghost ix = self.spec_index();
        if self.ordered {
            proof {
                lemma_min_max_ordered(ix);
            }
            return Some(self.index[n - 1].0.as_slice());
        }
        let mut cur: &[u8] = self.index[0].0.as_slice();
        let mut i: usize = 1;
        assert(ix.take(1).len() == 1);
        while i < n
            invariant
                1 <= i <= n == self.index@.len() == ix.len(),
                ix == self.spec_index(),
                cur@ == index_max(ix.take(i as int)),
            decreases n - i,
        {
            let k = self.index[i].0.as_slice();
            assert(ix.take(i + 1).drop_last() =~= ix.take(i as int));
            assert(ix.take(i + 1).last() == ix[i as int]);
            if bytes_lt(cur, k) {
                cur = k;
            }
            i = i + 1;
        }
        assert(ix.take(n as int) =~= ix);
        Some(cur)
    }

    /// Whether `key` lies in `[min_key, max_key]`; false for an empty table.
    pub fn might_contain(&self, key: &[u8]) -> (r: bool)
        requires
            self.wf(),
        ensures
            r == (self.spec_index().len() > 0 && lex_le(index_min(self.spec_index()), key@) && lex_le(
                key@,
                index_max(self.spec_index()),
            )),
    {
        match (self.min_key(), self.max_key()) {
            (Some(min), Some(max)) => {
                let lo = bytes_eq(min, key) || bytes_lt(min, key);
                let hi = bytes_eq(key, max) || bytes_lt(key, max);
                lo && hi
            },
            _ => false,
        }
    }

    /// Every data entry in file order, tombstones as `None`; `Io` when an
    /// entry runs past the file.
    #[verifier::spinoff_prover]
    #[verifier::rlimit(60)]
    pub fn iter(&self) -> (r: Result<Vec<(Vec<u8>, Option<Vec<u8>>)>>)
        requires
            self.wf(),
        ensures
            scan_data(self.spec_data(), 14, footer_index_offset(self.spec_data())) is None ==> (
            r matches Err(e) && e is Io),
            scan_data(self.spec_data(), 14, footer_index_offset(self.spec_data())) matches Some(
                items,
            ) ==> (r matches Ok(v) && items_view(v@) == items),
    {
        let b = self.data.as_slice();
        let end = self.index_offset;
        let mut pos: u64 = HEADER_SIZE as u64;
        let mut out: Vec<(Vec<u8>, Option<Vec<u8>>)> = Vec::new();
        let len = b.len();
        while pos < end
            invariant
                b@ == self.spec_data(),
                len == b@.len(),
                pos <= len,
                end == footer_index_offset(self.spec_data()),
                end <= len,
                scan_data(b@, 14, end as int) == (match scan_data(b@, pos as int, end as int) {
                    Some(rest) => Some(items_view(out@) + rest),
                    None => None::<Seq<Item>>,
                }),
            decreases len - pos,
        {
            let p = pos as usize;
            if len - p < 8 {
                return Err(AtlasError::Io(msg("failed to fill whole buffer")));
            }
            let kl = read_u32(b, p) as usize;
            let vl = read_u32(b, p + 4);
            if len - p - 8 < kl {
                return Err(AtlasError::Io(msg("failed to fill whole buffer")));
            }
            let key = copy_range(b, p + 8, p + 8 + kl);
            let ghost prev = out@;
            if vl == TOMBSTONE_MARKER {
                out.push((key, None));
                pos = (p + 8 + kl) as u64;
                assert(items_view(out@) =~= items_view(prev).push((key@, None)));
            } else {
                if len - p - 8 - kl < vl as usize {
                    return Err(AtlasError::Io(msg("failed to fill whole buffer")));
                }
                let value = copy_range(b, p + 8 + kl, p + 8 + kl + vl as usize);
                out.push((key, Some(value)));
                pos = (p + 8 + kl + vl as usize) as u64;
                assert(items_view(out@) =~= items_view(prev).push((key@, Some(value@))));
            }
            proof {
                match scan_data(b@, pos as int, end as int) {
                    Some(rest) => {
                        assert(items_view(out@) + rest =~= items_view(prev) + (seq![items_view(out@).last()] + rest));
                    },
                    None => {},
                }
            }
        }
        Ok(out)
    }
}

/// In an ordered index the smallest key is the first and the largest the last.
proof fn lemma_min_max_ordered(ix: Seq<(Seq<u8>, u64)>)
    requires
        ix.len() > 0,
        index_ordered(ix),
    ensures
        index_min(ix) == ix[0].0,
        index_max(ix) == ix.last().0,
    decreases ix.len(),
{
    if ix.len() > 1 {
        let d = ix.drop_last();
        assert(index_ordered(d)) by {
            assert forall|i: int| 0 <= i < d.len() - 1 implies lex_le(#[trigger] d[i].0, d[i + 1].0) by {
                assert(d[i] == ix[i] && d[i + 1] == ix[i + 1]);
            }
        }
        lemma_min_max_ordered(d);
        lemma_index_ordered_pairs(ix);
        let n = ix.len() as int;
        assert(lex_le(ix[0].0, ix[n - 1].0));
        assert(lex_le(ix[n - 2].0, ix[n - 1].0));
        lemma_lex_trichotomy(ix[0].0, ix[n - 1].0);
        lemma_lex_trichotomy(ix[n - 2].0, ix[n - 1].0);
        assert(d[0] == ix[0]);
        assert(d.last() == ix[n - 2]);
    }
}

/// Non-decreasing adjacent keys are non-decreasing between any two entries.
proof fn lemma_index_ordered_pairs(ix: Seq<(Seq<u8>, u64)>)
    requires
        index_ordered(ix),
    ensures
        forall|a: int, b: int| 0 <= a <= b < ix.len() ==> lex_le(#[trigger] ix[a].0, #[trigger] ix[b].0),
{
    assert forall|a: int, b: int| 0 <= a <= b < ix.len() implies lex_le(#[trigger] ix[a].0, #[trigger] ix[b].0) by {
        lemma_index_ordered_span(ix, a, b);
    }
}

proof fn lemma_index_ordered_span(ix: Seq<(Seq<u8>, u64)>, a: int, b: int)
    requires
        index_ordered(ix),
        0 <= a <= b < ix.len(),
    ensures
        lex_le(ix[a].0, ix[b].0),
    decreases b - a,
{
    if a < b {
        lemma_index_ordered_span(ix, a + 1, b);
        assert(lex_le(ix[a].0, ix[a + 1].0));
        if ix[a].0 != ix[a + 1].0 && ix[a + 1].0 != ix[b].0 {
            lemma_lex_transitive(ix[a].0, ix[a + 1].0, ix[b].0);
        }
    }
}

/// With every key before position `p` not after `key` and every key from
/// `p` on after it, the last entry holding `key` is at `p - 1` if any.
#[verifier::spinoff_prover]
#[verifier::rlimit(60)]
proof fn lemma_index_find_bound(ix: Seq<(Seq<u8>, u64)>, key: Seq<u8>, p: int)
    requires
        0 <= p <= ix.len(),
        forall|j: int| 0 <= j < p ==> !lex_lt(key, #[trigger] ix[j].0),
        forall|j: int| p <= j < ix.len() ==> lex_lt(key, #[trigger] ix[j].0),
        forall|a: int, b: int| 0 <= a <= b < ix.len() ==> lex_le(#[trigger] ix[a].0, #[trigger] ix[b].0),
    ensures
        (p > 0 && ix[p - 1].0 == key) ==> index_find(ix, key) == Some(p - 1),
        !(p > 0 && ix[p - 1].0 == key) ==> index_find(ix, key) is None,
    decreases ix.len(),
{
    crate::bytes::lemma_lex_irreflexive(key);
    if ix.len() > 0 {
        let d = ix.drop_last();
        if p == ix.len() {
            if ix.last().0 != key {
                assert forall|j: int| 0 <= j < d.len() implies (#[trigger] d[j]).0 != key by {
                    assert(d[j] == ix[j]);
                    assert(lex_le(ix[j].0, ix[ix.len() - 1].0));
                    lemma_lex_trichotomy(ix.last().0, key);
                    if ix[j].0 == key {
                        if lex_lt(key, ix.last().0) {
                        } else {
                            assert(lex_lt(ix.last().0, key));
                            crate::bytes::lemma_lex_trichotomy(key, ix.last().0);
                        }
                    }
                }
                lemma_index_find_absent(d, key);
            }
        } else {
            assert(ix.last().0 != key);
            assert forall|j: int| p <= j < d.len() implies lex_lt(key, #[trigger] d[j].0) by {
                assert(d[j] == ix[j]);
            }
            assert forall|j: int| 0 <= j < p implies !lex_lt(key, #[trigger] d[j].0) by {
                assert(d[j] == ix[j]);
            }
            assert forall|a: int, b: int| 0 <= a <= b < d.len() implies lex_le(#[trigger] d[a].0, #[trigger] d[b].0) by {
                assert(d[a] == ix[a] && d[b] == ix[b]);
            }
            lemma_index_find_bound(d, key, p);
            if p > 0 {
                assert(d[p - 1] == ix[p - 1]);
            }
        }
    }
}

/// The views of stored items.
pub open spec fn items_view(v: Seq<(Vec<u8>, Option<Vec<u8>>)>) -> Seq<Item> {
    v.map_values(
        |p: (Vec<u8>, Option<Vec<u8>>)|
            (
                p.0@,
                match p.1 {
                    Some(x) => Some(x@),
                    None => None,
                },
            ),
    )
}

/// Reads the data entry at `off`.
fn read_value_at(b: &[u8], off: u64) -> (r: Result<Option<Vec<u8>>>)
    ensures
        match value_at(b@, off as int) {
            None => r matches Err(e) && e is Io,
            Some(None) => r matches Ok(None),
            Some(Some(v)) => r matches Ok(Some(x)) && x@ == v,
        },
{
    let len = b.len();
    if off > len as u64 || len - (off as usize) < 8 {
        return Err(AtlasError::Io(msg("failed to fill whole buffer")));
    }
    let p = off as usize;
    let kl = read_u32(b, p) as usize;
    let vl = read_u32(b, p + 4);
    if vl == TOMBSTONE_MARKER {
        return Ok(None);
    }
    if len - p - 8 < kl || len - p - 8 - kl < vl as usize {
        return Err(AtlasError::Io(msg("failed to fill whole buffer")));
    }
    Ok(Some(copy_range(b, p + 8 + kl, p + 8 + kl + vl as usize)))
}

/// Parses an index block.
fn parse_index_block(block: &[u8]) -> (r: Vec<(Vec<u8>, u64)>)
    ensures
        index_view(r@) == parse_index(block@),
{
    let len = block.len();
    let mut pos: usize = 0;
    let mut out: Vec<(Vec<u8>, u64)> = Vec::new();
    assert(block@.skip(0) =~= block@);
    loop
        invariant
            pos <= len == block@.len(),
            parse_index(block@) == index_view(out@) + parse_index(block@.skip(pos as int)),
        ensures
            index_view(out@) == parse_index(block@),
        decreases len - pos,
    {
        let ghost rest = block@.skip(pos as int);
        if len - pos < 12 {
            assert(parse_index(rest) =~= Seq::empty());
            assert(index_view(out@) + parse_index(rest) =~= index_view(out@));
            break;
        }
        let kl = read_u32(block, pos) as usize;
        assert(block@.subrange(pos as int, pos + 4) =~= rest.subrange(0, 4));
        if len - pos - 12 < kl {
            assert(parse_index(rest) =~= Seq::empty());
            assert(index_view(out@) + parse_index(rest) =~= index_view(out@));
            break;
        }
        let off = read_u64(block, pos + 4);
        assert(block@.subrange(pos + 4, pos + 12) =~= rest.subrange(4, 12));
        let key = copy_range(block, pos + 12, pos + 12 + kl);
        assert(key@ =~= rest.subrange(12, 12 + kl as int));
        let ghost prev = out@;
        out.push((key, off));
        assert(index_view(out@) =~= index_view(prev).push((key@, off)));
        pos = pos + 12 + kl;
        assert(rest.skip(12 + kl as int) =~= block@.skip(pos as int));
        assert(index_view(out@) + parse_index(block@.skip(pos as int)) =~= index_view(prev) + (
        seq![(key@, off)] + parse_index(block@.skip(pos as int))));
    }
    out
}

/// Checks that the index keys are in non-decreasing order.
fn index_is_ordered(index: &Vec<(Vec<u8>, u64)>) -> (r: bool)
    ensures
        r == index_ordered(index_view(index@)),
{
    let n = index.len();
    if n == 0 {
        return true;
    }
    let mut i: usize = 0;
    while i + 1 < n
        invariant
            n == index@.len(),
            n > 0,
            i + 1 <= n,
            forall|j: int| 0 <= j < i ==> lex_le(#[trigger] index_view(index@)[j].0, index_view(index@)[j + 1].0),
        decreases n - i,
    {
        let a = index[i].0.as_slice();
        let b = index[i + 1].0.as_slice();
        if !(bytes_eq(a, b) || bytes_lt(a, b)) {
            assert(!lex_le(index_view(index@)[i as int].0, index_view(index@)[i + 1].0));
            return false;
        }
        i = i + 1;
    }
    true
}

/// Keys strictly ascending.
pub open spec fn items_sorted(items: Seq<Item>) -> bool {
    forall|i: int, j: int| 0 <= i < j < items.len() ==> lex_lt(#[trigger] items[i].0, #[trigger] items[j].0)
}

/// File offset of item `i`'s data entry.
pub open spec fn item_offset(items: Seq<Item>, i: int) -> u64 {
    (HEADER_SIZE + data_section(items.take(i)).len()) as u64
}

/// The index that a table of `items` holds.
pub open spec fn expected_index(items: Seq<Item>) -> Seq<(Seq<u8>, u64)> {
    Seq::new(items.len(), |i: int| (items[i].0, item_offset(items, i)))
}

proof fn lemma_data_prefix(items: Seq<Item>, j: int)
    requires
        0 <= j <= items.len(),
    ensures
        data_section(items.take(j)).len() <= data_section(items).len(),
        data_section(items).subrange(0, data_section(items.take(j)).len() as int) == data_section(
            items.take(j),
        ),
    decreases items.len(),
{
    if j == items.len() {
        assert(items.take(j) =~= items);
    } else {
        let d = items.drop_last();
        lemma_data_prefix(d, j);
        assert(d.take(j) =~= items.take(j));
        assert(data_section(items).subrange(0, data_section(items.take(j)).len() as int)
            =~= data_section(d).subrange(0, data_section(d.take(j)).len() as int));
    }
}

proof fn lemma_data_entry_at(items: Seq<Item>, i: int)
    requires
        0 <= i < items.len(),
    ensures
        data_section(items.take(i)).len() + data_entry(items[i]).len() <= data_section(items).len(),
        data_section(items).subrange(
            data_section(items.take(i)).len() as int,
            (data_section(items.take(i)).len() + data_entry(items[i]).len()) as int,
        ) == data_entry(items[i]),
{
    lemma_data_prefix(items, i + 1);
    let t = items.take(i + 1);
    assert(t.drop_last() =~= items.take(i));
    assert(t.last() == items[i]);
    let a = data_section(items.take(i)).len() as int;
    let e = data_entry(items[i]);
    assert(data_section(items).subrange(a, a + e.len()) =~= data_section(t).subrange(a, a + e.len()));
}

proof fn lemma_parse_index_entry(k: Seq<u8>, off: u64, tail: Seq<u8>)
    requires
        k.len() <= u32::MAX,
    ensures
        parse_index(index_entry(k, off) + tail) == seq![(k, off)] + parse_index(tail),
{
    lemma_auto_spec_u32_to_from_le_bytes();
    lemma_auto_spec_u64_to_from_le_bytes();
    let b = index_entry(k, off) + tail;
    assert(b.subrange(0, 4) =~= spec_u32_to_le_bytes(k.len() as u32));
    assert(b.subrange(4, 12) =~= spec_u64_to_le_bytes(off));
    assert(b.subrange(12, 12 + k.len() as int) =~= k);
    assert(b.skip(12 + k.len() as int) =~= tail);
}

#[verifier::spinoff_prover]
#[verifier::rlimit(60)]
proof fn lemma_parse_index_section(items: Seq<Item>, j: int, tail: Seq<u8>)
    requires
        0 <= j <= items.len(),
        forall|i: int| 0 <= i < items.len() ==> item_fits(#[trigger] items[i]),
    ensures
        parse_index(index_section(items.take(j)) + tail) == expected_index(items).take(j)
            + parse_index(tail),
    decreases j,
{
    if j == 0 {
        assert(index_section(items.take(0)) + tail =~= tail);
        assert(expected_index(items).take(0) + parse_index(tail) =~= parse_index(tail));
    } else {
        let t = items.take(j);
        assert(t.drop_last() =~= items.take(j - 1));
        assert(t.last() == items[j - 1]);
        assert(item_fits(items[j - 1]));
        let e = index_entry(items[j - 1].0, item_offset(items, j - 1));
        assert(index_section(t) == index_section(items.take(j - 1)) + e);
        lemma_parse_index_section(items, j - 1, e + tail);
        lemma_parse_index_entry(items[j - 1].0, item_offset(items, j - 1), tail);
        assert(index_section(t) + tail =~= index_section(items.take(j - 1)) + (e + tail));
        assert(expected_index(items).take(j) =~= expected_index(items).take(j - 1).push(
            (items[j - 1].0, item_offset(items, j - 1)),
        ));
        assert(expected_index(items).take(j - 1) + (seq![(items[j - 1].0, item_offset(items, j - 1))]
            + parse_index(tail)) =~= expected_index(items).take(j) + parse_index(tail));
    }
}

pub proof fn lemma_index_find_unique(ix: Seq<(Seq<u8>, u64)>, i: int)
    requires
        0 <= i < ix.len(),
        forall|a: int, b: int| 0 <= a < b < ix.len() ==> lex_lt(#[trigger] ix[a].0, #[trigger] ix[b].0),
    ensures
        index_find(ix, ix[i].0) == Some(i),
    decreases ix.len(),
{
    if i < ix.len() - 1 {
        let d = ix.drop_last();
        assert(lex_lt(ix[i].0, ix.last().0));
        crate::bytes::lemma_lex_irreflexive(ix[i].0);
        assert(ix.last().0 != ix[i].0);
        assert forall|a: int, b: int| 0 <= a < b < d.len() implies lex_lt(#[trigger] d[a].0, #[trigger] d[b].0) by {
            assert(d[a] == ix[a] && d[b] == ix[b]);
        }
        lemma_index_find_unique(d, i);
    }
}

/// A key held by no index entry is not found.
pub proof fn lemma_index_find_absent(ix: Seq<(Seq<u8>, u64)>, key: Seq<u8>)
    requires
        forall|i: int| 0 <= i < ix.len() ==> (#[trigger] ix[i]).0 != key,
    ensures
        index_find(ix, key) is None,
    decreases ix.len(),
{
    if ix.len() > 0 {
        let d = ix.drop_last();
        assert forall|i: int| 0 <= i < d.len() implies (#[trigger] d[i]).0 != key by {
            assert(d[i] == ix[i]);
        }
        lemma_index_find_absent(d, key);
    }
}

#[verifier::spinoff_prover]
#[verifier::rlimit(60)]
pub proof fn lemma_image_index(items: Seq<Item>)
    requires
        items_sorted(items),
        forall|i: int| 0 <= i < items.len() ==> item_fits(#[trigger] items[i]),
        HEADER_SIZE + data_section(items).len() <= u64::MAX,
    ensures
        open_failure(table_image(items)) is None,
        file_index(table_image(items)) == expected_index(items),
        footer_index_offset(table_image(items)) == HEADER_SIZE + data_section(items).len(),
        table_image(items).subrange(14, 14 + data_section(items).len() as int) == data_section(items),
{
    lemma_auto_spec_u16_to_from_le_bytes();
    lemma_auto_spec_u32_to_from_le_bytes();
    lemma_auto_spec_u64_to_from_le_bytes();
    let img = table_image(items);
    let data = data_section(items);
    let index = index_section(items);
    let io = (HEADER_SIZE + data.len()) as u64;
    let hdr = header(items.len() as u64);
    let ftr = footer(io, crc32_of(data));
    assert(img == hdr + data + index + ftr);
    assert(hdr.len() == 14);
    assert(ftr.len() == 16);
    assert(img.subrange(0, 4) =~= magic());
    assert(img.subrange(4, 6) =~= spec_u16_to_le_bytes(VERSION));
    assert(img.subrange(img.len() - 16, img.len() - 8) =~= spec_u64_to_le_bytes(io));
    assert(footer_index_offset(img) == io);
    assert(img.subrange(io as int, img.len() - 16) =~= index);
    assert(img.subrange(14, 14 + data.len() as int) =~= data);
    lemma_parse_index_section(items, items.len() as int, Seq::empty());
    assert(items.take(items.len() as int) =~= items);
    assert(index + Seq::<u8>::empty() =~= index);
    assert(expected_index(items).take(items.len() as int) =~= expected_index(items));
    assert(parse_index(Seq::<u8>::empty()) =~= Seq::<(Seq<u8>, u64)>::empty());
    assert(file_index(img) =~= expected_index(items));
    let ix = expected_index(items);
    assert(index_ordered(ix)) by {
        assert forall|i: int| 0 <= i < ix.len() - 1 implies lex_le(#[trigger] ix[i].0, ix[i + 1].0) by {
            assert(lex_lt(items[i].0, items[i + 1].0));
        }
    }
}

#[verifier::spinoff_prover]
#[verifier::rlimit(60)]
pub proof fn lemma_image_value(items: Seq<Item>, i: int)
    requires
        0 <= i < items.len(),
        items_sorted(items),
        forall|j: int| 0 <= j < items.len() ==> item_fits(#[trigger] items[j]),
        HEADER_SIZE + data_section(items).len() <= u64::MAX,
        table_image(items).subrange(14, 14 + data_section(items).len() as int) == data_section(items),
    ensures
        value_at(table_image(items), item_offset(items, i) as int) == Some(items[i].1),
{
    lemma_auto_spec_u32_to_from_le_bytes();
    let img = table_image(items);
    let data = data_section(items);
    lemma_data_entry_at(items, i);
    let a = data_section(items.take(i)).len() as int;
    let e = data_entry(items[i]);
    let off = 14 + a;
    assert(item_offset(items, i) == off);
    assert(img.subrange(off, off + e.len()) =~= data.subrange(a, a + e.len()));
    assert(item_fits(items[i]));
    let k = items[i].0;
    assert(img.subrange(off, off + 4) =~= e.subrange(0, 4));
    assert(img.subrange(off + 4, off + 8) =~= e.subrange(4, 8));
    assert(e.subrange(0, 4) =~= spec_u32_to_le_bytes(k.len() as u32));
    match items[i].1 {
        Some(v) => {
            assert(e.subrange(4, 8) =~= spec_u32_to_le_bytes(v.len() as u32));
            let kl = k.len() as int;
            let vl = v.len() as int;
            assert(img.subrange(off + 8 + kl, off + 8 + kl + vl) =~= e.subrange(8 + kl, 8 + kl + vl));
            assert(e.subrange(8 + kl, 8 + kl + vl) =~= v);
        },
        None => {
            assert(e.subrange(4, 8) =~= spec_u32_to_le_bytes(TOMBSTONE_MARKER));
        },
    }
}

/// The per-item part of the table round trip.
#[verifier::spinoff_prover]
proof fn lemma_round_trip_at(items: Seq<Item>, i: int)
    requires
        items_sorted(items),
        forall|j: int| 0 <= j < items.len() ==> item_fits(#[trigger] items[j]),
        HEADER_SIZE + data_section(items).len() <= u64::MAX,
        0 <= i < items.len(),
        file_index(table_image(items)) == expected_index(items),
        table_image(items).subrange(14, 14 + data_section(items).len() as int) == data_section(items),
    ensures
        index_find(file_index(table_image(items)), items[i].0) == Some(i),
        value_at(table_image(items), file_index(table_image(items))[i].1 as int) == Some(items[i].1),
        lex_le(items[0].0, items[i].0),
        lex_le(items[i].0, items.last().0),
{
    let ix = expected_index(items);
    assert forall|a: int, b: int| 0 <= a < b < ix.len() implies lex_lt(#[trigger] ix[a].0, #[trigger] ix[b].0) by {
        assert(lex_lt(items[a].0, items[b].0));
    }
    lemma_index_find_unique(ix, i);
    lemma_image_value(items, i);
    assert(ix[i].1 == item_offset(items, i));
    if i > 0 {
        assert(lex_lt(items[0].0, items[i].0));
    }
    if i < items.len() - 1 {
        assert(lex_lt(items[i].0, items[items.len() - 1].0));
    }
}

/// Round trip of the table format: the file of sorted items opens, its
/// index holds each item's key at its entry, a lookup of each key finds
/// that entry, the entry holds the item's value or tombstone, and every
/// key lies between the smallest and the largest.
#[verifier::spinoff_prover]
pub proof fn lemma_sstable_round_trip(items: Seq<Item>)
    requires
        items_sorted(items),
        forall|i: int| 0 <= i < items.len() ==> item_fits(#[trigger] items[i]),
        HEADER_SIZE + data_section(items).len() <= u64::MAX,
    ensures
        open_failure(table_image(items)) is None,
        file_index(table_image(items)) == expected_index(items),
        forall|i: int|
            0 <= i < items.len() ==> index_find(file_index(table_image(items)), #[trigger] items[i].0)
                == Some(i),
        forall|i: int|
            0 <= i < items.len() ==> value_at(
                table_image(items),
                file_index(table_image(items))[i].1 as int,
            ) == Some(#[trigger] items[i].1),
        forall|i: int|
            0 <= i < items.len() ==> lex_le(items[0].0, #[trigger] items[i].0) && lex_le(
                items[i].0,
                items.last().0,
            ),
{
    lemma_image_index(items);
    assert forall|i: int| 0 <= i < items.len() implies index_find(file_index(table_image(items)), #[trigger] items[i].0)
        == Some(i) by {
        lemma_round_trip_at(items, i);
    }
    assert forall|i: int| 0 <= i < items.len() implies value_at(table_image(items), file_index(table_image(items))[i].1 as int)
        == Some(#[trigger] items[i].1) by {
        lemma_round_trip_at(items, i);
    }
    assert forall|i: int| 0 <= i < items.len() implies lex_le(items[0].0, #[trigger] items[i].0)
        && lex_le(items[i].0, items.last().0) by {
        lemma_round_trip_at(items, i);
    }
}

/// A reader of the file of sorted items finds each item's key at its
/// index and the item's value or tombstone in its entry.
#[verifier::spinoff_prover]
pub proof fn lemma_reader_of_image(rd: SSTableReader, items: Seq<Item>, i: int)
    requires
        rd.wf(),
        rd.spec_data() == table_image(items),
        items_sorted(items),
        forall|j: int| 0 <= j < items.len() ==> item_fits(#[trigger] items[j]),
        HEADER_SIZE + data_section(items).len() <= u64::MAX,
        0 <= i < items.len(),
    ensures
        rd.spec_index().len() == items.len(),
        forall|j: int| 0 <= j < items.len() ==> (#[trigger] rd.spec_index()[j]).0 == items[j].0,
        index_find(rd.spec_index(), items[i].0) == Some(i),
        value_at(rd.spec_data(), rd.spec_index()[i].1 as int) == Some(items[i].1),
        index_min(rd.spec_index()) == items[0].0,
        index_max(rd.spec_index()) == items.last().0,
{
    lemma_image_index(items);
    rd.lemma_wf_index();
    let ix = rd.spec_index();
    assert(ix == expected_index(items));
    assert forall|a: int, b: int| 0 <= a < b < ix.len() implies lex_lt(#[trigger] ix[a].0, #[trigger] ix[b].0) by {
        assert(ix[a].0 == items[a].0 && ix[b].0 == items[b].0);
    }
    lemma_index_find_unique(ix, i);
    lemma_image_value(items, i);
    assert(ix[i].1 == item_offset(items, i));
    assert(index_ordered(ix)) by {
        assert forall|j: int| 0 <= j < ix.len() - 1 implies lex_le(#[trigger] ix[j].0, ix[j + 1].0) by {
            assert(lex_lt(ix[j].0, ix[j + 1].0));
        }
    }
    lemma_min_max_ordered(ix);
}

/// A reader of the file of items finds no key that no item holds.
#[verifier::spinoff_prover]
pub proof fn lemma_reader_of_image_absent(rd: SSTableReader, items: Seq<Item>, key: Seq<u8>)
    requires
        rd.wf(),
        rd.spec_data() == table_image(items),
        items_sorted(items),
        forall|j: int| 0 <= j < items.len() ==> item_fits(#[trigger] items[j]),
        HEADER_SIZE + data_section(items).len() <= u64::MAX,
        forall|j: int| 0 <= j < items.len() ==> (#[trigger] items[j]).0 != key,
    ensures
        index_find(rd.spec_index(), key) is None,
{
    lemma_image_index(items);
    rd.lemma_wf_index();
    let ix = rd.spec_index();
    assert(ix == expected_index(items));
    assert forall|j: int| 0 <= j < ix.len() implies (#[trigger] ix[j]).0 != key by {
        assert(ix[j].0 == items[j].0);
    }
    lemma_index_find_absent(ix, key);
}

} // verus!
