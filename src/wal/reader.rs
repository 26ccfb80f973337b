//! Sequential scan of a log image, tolerant of a partial record at the tail.
use vstd::prelude::*;
use crate::error::{AtlasError, Result};
use super::entry::{announced_len, decode_record, read_u32, WalEntry, WalEntryView, HEADER_SIZE};

verus! {

/// How a scan of the log ends.
#[derive(Debug, Clone, Copy, PartialEq, Eq, Structural)]
pub enum ScanEnd {
    /// Every byte belonged to a valid record.
    Clean,
    /// The tail is shorter than a header, or than the record its header announces.
    Partial,
    /// A complete record failed its checks.
    Corrupt,
}

/// The bytes hold no complete record at their front: they are shorter than
/// a header, or than the record that the header announces.
pub open spec fn is_partial(b: Seq<u8>) -> bool {
    b.len() > 0 && (b.len() < 16 || b.len() < 16 + announced_len(b))
}

/// The entries that a forward scan of `b` yields, and how it stops.
pub open spec fn scan(b: Seq<u8>) -> (Seq<WalEntryView>, ScanEnd)
    decreases b.len(),
{
    if b.len() == 0 {
        (Seq::empty(), ScanEnd::Clean)
    } else if is_partial(b) {
        (Seq::empty(), ScanEnd::Partial)
    } else {
        match decode_record(b.subrange(0, 16 + announced_len(b))) {
            None => (Seq::empty(), ScanEnd::Corrupt),
            Some(e) => {
                let rest = scan(b.skip(16 + announced_len(b)));
                (seq![e] + rest.0, rest.1)
            },
        }
    }
}

/// Reads records one after another from a log image.
pub struct WalReader<'a> {
    data: &'a [u8],
    position: usize,
}

impl<'a> WalReader<'a> {
    /// The bytes not read yet.
    pub closed spec fn rest(&self) -> Seq<u8> {
        self.data@.skip(self.position as int)
    }

    pub closed spec fn wf(&self) -> bool {
        self.position <= self.data@.len()
    }

    pub closed spec fn spec_position(&self) -> usize {
        self.position
    }

    /// A reader at the start of `data`.
    pub fn open(data: &'a [u8]) -> (r: Self)
        ensures
            r.wf(),
            r.rest() == data@,
            r.spec_position() == 0,
    {
        let r = WalReader { data, position: 0 };
        assert(r.rest() =~= data@);
        r
    }

    /// Whether every byte has been read.
    pub fn is_at_eof(&self) -> (r: bool)
        requires
            self.wf(),
        ensures
            r == (self.rest().len() == 0),
    {
        self.position >= self.data.len()
    }

    /// Reads the next record. `Ok(None)` at the end of the data and before a
    /// partial record (the position then stays); `WalCorruption` for a
    /// complete record that fails its checks.
    pub fn next_entry(&mut self) -> (r: Result<Option<WalEntry>>)
        requires
            old(self).wf(),
        ensures
            final(self).wf(),
            scan(old(self).rest()).0.len() > 0 ==> {
                &&& (r matches Ok(Some(e)) && e@ == scan(old(self).rest()).0[0])
                &&& scan(final(self).rest()).0 == scan(old(self).rest()).0.drop_first()
                &&& scan(final(self).rest()).1 == scan(old(self).rest()).1
                &&& final(self).spec_position() > old(self).spec_position()
                &&& final(self).rest().len() < old(self).rest().len()
            },
            scan(old(self).rest()).0.len() == 0 && scan(old(self).rest()).1 == ScanEnd::Corrupt
                ==> (r matches Err(e) && e is WalCorruption),
            scan(old(self).rest()).0.len() == 0 && scan(old(self).rest()).1 != ScanEnd::Corrupt
                ==> (r matches Ok(None) && *final(self) == *old(self)),
    {
        let ghost b = self.rest();
        let len = self.data.len();
        if self.position >= len {
            return Ok(None);
        }
        if len - self.position < HEADER_SIZE {
            return Ok(None);
        }
        let data_len = read_u32(self.data, self.position + 12);
        assert(self.data@.subrange(self.position + 12, self.position + 16) =~= b.subrange(12, 16));
        if len - self.position - HEADER_SIZE < data_len as usize {
            return Ok(None);
        }
        let end = self.position + HEADER_SIZE + data_len as usize;
        let record = vstd::slice::slice_subrange(self.data, self.position, end);
        assert(record@ =~= b.subrange(0, 16 + announced_len(b)));
        let entry = WalEntry::deserialize(record)?;
        self.position = end;
        assert(self.rest() =~= b.skip(16 + announced_len(b)));
        Ok(Some(entry))
    }

    /// Every remaining record in order, as `next_entry` reads them; a
    /// corrupted record ends the list with its error.
    pub fn entries(self) -> (r: Vec<Result<WalEntry>>)
        requires
            self.wf(),
        ensures
            r@.len() == scan(self.rest()).0.len() + (if scan(self.rest()).1 == ScanEnd::Corrupt {
                1int
            } else {
                0int
            }),
            forall|i: int|
                0 <= i < scan(self.rest()).0.len() ==> (#[trigger] r@[i] matches Ok(e) && e@ == scan(
                    self.rest(),
                ).0[i]),
            scan(self.rest()).1 == ScanEnd::Corrupt ==> (r@.last() matches Err(e) && e is WalCorruption),
    {
        let ghost all = scan(self.rest());
        let mut reader = self;
        let mut out: Vec<Result<WalEntry>> = Vec::new();
        loop
            invariant_except_break
                reader.wf(),
                out@.len() <= all.0.len(),
                all.0 == all.0.subrange(0, out@.len() as int) + scan(reader.rest()).0,
                all.1 == scan(reader.rest()).1,
            invariant
                out@.len() <= all.0.len() + 1,
                forall|i: int| 0 <= i < out@.len() && i < all.0.len() ==> (#[trigger] out@[i] matches Ok(e) && e@ == all.0[i]),
            ensures
                out@.len() == all.0.len() + (if all.1 == ScanEnd::Corrupt { 1int } else { 0int }),
                all.1 == ScanEnd::Corrupt ==> (out@.last() matches Err(e) && e is WalCorruption),
            decreases reader.rest().len(),
        {
            let ghost before = reader.rest();
            let ghost n = out@.len();
            match reader.next_entry() {
                Ok(Some(entry)) => {
                    out.push(Ok(entry));
                    assert(all.0.subrange(0, n + 1int) =~= all.0.subrange(0, n as int).push(scan(before).0[0]));
                    assert(scan(before).0 =~= seq![scan(before).0[0]] + scan(before).0.drop_first());
                    assert(all.0 =~= all.0.subrange(0, out@.len() as int) + scan(reader.rest()).0);
                },
                Ok(None) => {
                    assert(all.0 =~= all.0.subrange(0, n as int));
                    break;
                },
                Err(e) => {
                    assert(all.0 =~= all.0.subrange(0, n as int));
                    out.push(Err(e));
                    break;
                },
            }
        }
        out
    }
}

} // verus!
