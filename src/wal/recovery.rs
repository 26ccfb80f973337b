//! Crash recovery: replays a log image and reports how it ended.
use vstd::prelude::*;
use vstd::bytes::*;
use super::entry::{
    announced_len, decode_record, entry_data, entry_record, flip_bit, lemma_record_frame,
    lemma_wal_round_trip, WalEntry, WalEntryView,
};
use super::reader::{is_partial, scan, ScanEnd, WalReader};

verus! {

/// Recovery over a log image.
pub struct WalRecovery {}

/// Statistics of a recovery.
#[derive(Debug, Clone, Copy, PartialEq, Eq, Structural)]
pub struct RecoveryResult {
    /// Number of entries recovered.
    pub entries_recovered: u64,
    /// Number of corrupted records met (the scan stops at the first).
    pub entries_corrupted: u64,
    /// LSN of the last recovered entry, or 0.
    pub last_lsn: u64,
    /// Whether the scan stopped before the end of the data.
    pub was_truncated: bool,
}

/// The views of a list of entries.
pub open spec fn entries_view(v: Seq<WalEntry>) -> Seq<WalEntryView> {
    v.map_values(|e: WalEntry| e@)
}

/// The statistics that a recovery of `b` reports.
pub open spec fn recovery_stats(b: Seq<u8>) -> RecoveryResult {
    let (es, end) = scan(b);
    RecoveryResult {
        entries_recovered: es.len() as u64,
        entries_corrupted: if end == ScanEnd::Corrupt {
            1
        } else {
            0
        },
        last_lsn: if es.len() == 0 {
            0
        } else {
            es.last().lsn
        },
        was_truncated: end != ScanEnd::Clean,
    }
}

impl WalRecovery {
    /// Recovers the entries of a log image, in order, stopping at the end of
    /// the data, at a partial tail record, or at the first corrupted record.
    pub fn recover(data: &[u8]) -> (r: (Vec<WalEntry>, RecoveryResult))
        ensures
            entries_view(r.0@) == scan(data@).0,
            r.1 == recovery_stats(data@),
    {
        let mut reader = WalReader::open(data);
        let mut entries: Vec<WalEntry> = Vec::new();
        let mut last_lsn: u64 = 0;
        let mut entries_corrupted: u64 = 0;
        let mut was_truncated = false;
        loop
            invariant_except_break
                reader.wf(),
                entries_corrupted == 0,
                scan(data@).0 == entries_view(entries@) + scan(reader.rest()).0,
                scan(data@).1 == scan(reader.rest()).1,
            invariant
                last_lsn == (if entries@.len() == 0 {
                    0
                } else {
                    entries@.last().lsn
                }),
            ensures
                scan(data@).0 == entries_view(entries@),
                entries_corrupted == (if scan(data@).1 == ScanEnd::Corrupt {
                    1u64
                } else {
                    0u64
                }),
                was_truncated == (scan(data@).1 != ScanEnd::Clean),
                last_lsn == (if entries@.len() == 0 {
                    0
                } else {
                    entries@.last().lsn
                }),
            decreases reader.rest().len(),
        {
            let ghost before = reader.rest();
            let ghost ev = entries_view(entries@);
            match reader.next_entry() {
                Ok(Some(entry)) => {
                    last_lsn = entry.lsn;
                    entries.push(entry);
                    assert(entries_view(entries@) =~= ev.push(entry@));
                    assert(scan(before).0 =~= seq![scan(before).0[0]] + scan(before).0.drop_first());
                    assert(scan(data@).0 =~= entries_view(entries@) + scan(reader.rest()).0);
                },
                Ok(None) => {
                    was_truncated = !reader.is_at_eof();
                    proof { lemma_scan_empty_end(before); }
                    assert(scan(data@).0 =~= entries_view(entries@));
                    break;
                },
                Err(_) => {
                    entries_corrupted = 1;
                    was_truncated = true;
                    assert(scan(data@).0 =~= entries_view(entries@));
                    break;
                },
            }
        }
        let stats = RecoveryResult {
            entries_recovered: entries.len() as u64,
            entries_corrupted,
            last_lsn,
            was_truncated,
        };
        assert(entries_view(entries@).len() == entries@.len());
        (entries, stats)
    }

    /// The statistics of a recovery, without the entries.
    pub fn verify(data: &[u8]) -> (r: RecoveryResult)
        ensures
            r == recovery_stats(data@),
    {
        let mut reader = WalReader::open(data);
        let mut count: usize = 0;
        let ghost mut seen: Seq<WalEntryView> = Seq::empty();
        let mut last_lsn: u64 = 0;
        let mut entries_corrupted: u64 = 0;
        let mut was_truncated = false;
        loop
            invariant_except_break
                reader.wf(),
                entries_corrupted == 0,
                scan(data@).0 == seen + scan(reader.rest()).0,
                scan(data@).1 == scan(reader.rest()).1,
                count <= reader.spec_position(),
            invariant
                count == seen.len(),
                last_lsn == (if seen.len() == 0 {
                    0
                } else {
                    seen.last().lsn
                }),
            ensures
                scan(data@).0 == seen,
                count == seen.len(),
                entries_corrupted == (if scan(data@).1 == ScanEnd::Corrupt {
                    1u64
                } else {
                    0u64
                }),
                was_truncated == (scan(data@).1 != ScanEnd::Clean),
                last_lsn == (if seen.len() == 0 {
                    0
                } else {
                    seen.last().lsn
                }),
            decreases reader.rest().len(),
        {
            let ghost before = reader.rest();
            match reader.next_entry() {
                Ok(Some(entry)) => {
                    last_lsn = entry.lsn;
                    count = count + 1;
                    proof {
                        seen = seen.push(entry@);
                        assert(scan(before).0 =~= seq![scan(before).0[0]] + scan(before).0.drop_first());
                        assert(scan(data@).0 =~= seen + scan(reader.rest()).0);
                    }
                },
                Ok(None) => {
                    was_truncated = !reader.is_at_eof();
                    proof { lemma_scan_empty_end(before); }
                    assert(scan(data@).0 =~= seen);
                    break;
                },
                Err(_) => {
                    entries_corrupted = 1;
                    was_truncated = true;
                    assert(scan(data@).0 =~= seen);
                    break;
                },
            }
        }
        RecoveryResult { entries_recovered: count as u64, entries_corrupted, last_lsn, was_truncated }
    }
}

/// A scan that yields nothing ends clean exactly on empty data.
proof fn lemma_scan_empty_end(b: Seq<u8>)
    requires
        scan(b).0.len() == 0,
        scan(b).1 != ScanEnd::Corrupt,
    ensures
        (scan(b).1 == ScanEnd::Clean) == (b.len() == 0),
{
}

/// The log image made of the records of `es`, in order.
pub open spec fn log_of(es: Seq<WalEntryView>) -> Seq<u8>
    decreases es.len(),
{
    if es.len() == 0 {
        Seq::empty()
    } else {
        entry_record(es[0]) + log_of(es.drop_first())
    }
}

/// Every entry's data fits the 32-bit length field of its record.
pub open spec fn all_fit(es: Seq<WalEntryView>) -> bool {
    forall|i: int| 0 <= i < es.len() ==> entry_data(#[trigger] es[i]).len() <= u32::MAX
}

/// The log of two lists is the log of the first followed by the log of the second.
pub proof fn lemma_log_concat(a: Seq<WalEntryView>, b: Seq<WalEntryView>)
    ensures
        log_of(a + b) == log_of(a) + log_of(b),
    decreases a.len(),
{
    if a.len() == 0 {
        assert(a + b =~= b);
        assert(log_of(a) + log_of(b) =~= log_of(b));
    } else {
        lemma_log_concat(a.drop_first(), b);
        assert((a + b).drop_first() =~= a.drop_first() + b);
        assert(log_of(a + b) =~= log_of(a) + log_of(b));
    }
}

/// Scanning well-formed records followed by anything yields their entries,
/// then whatever the scan of the rest yields.
#[verifier::spinoff_prover]
#[verifier::rlimit(60)]
pub proof fn lemma_scan_log_prefix(es: Seq<WalEntryView>, rest: Seq<u8>)
    requires
        all_fit(es),
    ensures
        scan(log_of(es) + rest) == (es + scan(rest).0, scan(rest).1),
    decreases es.len(),
{
    if es.len() == 0 {
        assert(log_of(es) + rest =~= rest);
        assert(es + scan(rest).0 =~= scan(rest).0);
    } else {
        let e = es[0];
        let d = entry_data(e);
        let r = entry_record(e);
        let tail = log_of(es.drop_first()) + rest;
        let b = log_of(es) + rest;
        lemma_wal_round_trip(e);
        lemma_record_frame(e.lsn, d);
        assert(b =~= r + tail);
        assert(b.subrange(12, 16) =~= r.subrange(12, 16));
        assert(announced_len(b) == d.len());
        assert(b.subrange(0, 16 + announced_len(b)) =~= r);
        assert(b.skip(16 + announced_len(b)) =~= tail);
        assert(all_fit(es.drop_first())) by {
            assert forall|i: int| 0 <= i < es.drop_first().len() implies entry_data(
                #[trigger] es.drop_first()[i],
            ).len() <= u32::MAX by {
                assert(es.drop_first()[i] == es[i + 1]);
            }
        }
        lemma_scan_log_prefix(es.drop_first(), rest);
        assert(es + scan(rest).0 =~= seq![e] + (es.drop_first() + scan(rest).0));
    }
}

/// Tail tolerance: a well-formed log followed by a partial record (shorter
/// than a header, or than the record its header announces) recovers
/// exactly the log's entries, with no corruption and `was_truncated` set.
pub proof fn lemma_recovery_partial_tail(es: Seq<WalEntryView>, tail: Seq<u8>)
    requires
        all_fit(es),
        is_partial(tail),
    ensures
        scan(log_of(es) + tail).0 == es,
        recovery_stats(log_of(es) + tail).was_truncated,
        recovery_stats(log_of(es) + tail).entries_corrupted == 0,
{
    lemma_scan_log_prefix(es, tail);
    assert(es + Seq::<WalEntryView>::empty() =~= es);
}

/// A clean log recovers all of its entries and is not truncated.
pub proof fn lemma_recovery_clean(es: Seq<WalEntryView>)
    requires
        all_fit(es),
    ensures
        scan(log_of(es)) == (es, ScanEnd::Clean),
        !recovery_stats(log_of(es)).was_truncated,
{
    lemma_scan_log_prefix(es, Seq::empty());
    assert(log_of(es) + Seq::<u8>::empty() =~= log_of(es));
    assert(es + Seq::<WalEntryView>::empty() =~= es);
}

/// Corruption halt, for a bit flipped in the LSN or the stored checksum of
/// the record at index `k`: the scan yields the `k` records before it, then
/// stops on a corrupted record, whatever follows.
#[verifier::spinoff_prover]
#[verifier::rlimit(60)]
pub proof fn lemma_recovery_corrupt_header(es: Seq<WalEntryView>, k: int, j: int, bit: u8)
    requires
        all_fit(es),
        0 <= k < es.len(),
        0 <= j < 12,
        bit < 8,
    ensures
        scan(flip_bit(log_of(es), log_of(es.take(k)).len() + j, bit)) == (
            es.take(k),
            ScanEnd::Corrupt,
        ),
        recovery_stats(flip_bit(log_of(es), log_of(es.take(k)).len() + j, bit)).entries_corrupted
            == 1,
        recovery_stats(flip_bit(log_of(es), log_of(es.take(k)).len() + j, bit)).entries_recovered
            == k as u64,
{
    let pre = es.take(k);
    let post = es.skip(k + 1);
    let e = es[k];
    let d = entry_data(e);
    let r = entry_record(e);
    assert(es =~= pre + (seq![e] + post));
    lemma_log_concat(pre, seq![e] + post);
    assert((seq![e] + post).drop_first() =~= post);
    assert(log_of(seq![e] + post) == r + log_of(post));
    lemma_record_frame(e.lsn, d);
    lemma_auto_spec_u32_to_from_le_bytes();
    let p = log_of(pre).len() as int;
    let rf = flip_bit(r, j, bit);
    let x = rf + log_of(post);
    assert(flip_bit(log_of(es), p + j, bit) =~= log_of(pre) + x);
    assert(all_fit(pre)) by {
        assert forall|i: int| 0 <= i < pre.len() implies entry_data(#[trigger] pre[i]).len()
            <= u32::MAX by {
            assert(pre[i] == es[i]);
        }
    }
    assert(d.len() <= u32::MAX);
    lemma_scan_log_prefix(pre, x);
    assert(x.subrange(12, 16) =~= r.subrange(12, 16));
    assert(announced_len(x) == d.len());
    assert(x.subrange(0, 16 + announced_len(x)) =~= rf);
    super::entry::lemma_header_bit_flip_detected(e, j, bit);
    assert(decode_record(rf) is None);
    assert(scan(x) == (Seq::<WalEntryView>::empty(), ScanEnd::Corrupt));
    assert(pre + Seq::<WalEntryView>::empty() =~= pre);
}

} // verus!
