//! A single WAL record.
//!
//! On disk: `[LSN u64 LE][CRC32 u32 LE][DataLen u32 LE][Data]`, where the
//! CRC covers `LSN ‖ DataLen ‖ Data` and `Data` is the bincode encoding of
//! `(lsn, operation, timestamp)`.
use vstd::prelude::*;
use vstd::bytes::*;
use crate::bytes::{copy_range, push_all};
use crate::error::{msg, AtlasError, Result};

verus! {

/// Header size: LSN (8) + CRC (4) + DataLen (4).
pub const HEADER_SIZE: usize = 16;

/// Tag of the `Put` variant in the data section.
pub const PUT_TAG: u32 = 0;

/// Tag of the `Delete` variant in the data section.
pub const DELETE_TAG: u32 = 1;

/// An operation recorded in the log.
#[derive(Debug, Clone, PartialEq, Eq)]
pub enum Operation {
    /// Put a key-value pair.
    Put { key: Vec<u8>, value: Vec<u8> },
    /// Delete a key.
    Delete { key: Vec<u8> },
}

/// The mathematical value of an operation.
pub enum OperationView {
    Put { key: Seq<u8>, value: Seq<u8> },
    Delete { key: Seq<u8> },
}

impl View for Operation {
    type V = OperationView;

    open spec fn view(&self) -> OperationView {
        match self {
            Operation::Put { key, value } => OperationView::Put { key: key@, value: value@ },
            Operation::Delete { key } => OperationView::Delete { key: key@ },
        }
    }
}

/// One entry of the log.
#[derive(Debug, Clone, PartialEq, Eq)]
pub struct WalEntry {
    /// Log sequence number.
    pub lsn: u64,
    /// The logged operation.
    pub operation: Operation,
    /// Wall-clock time of creation, in unix milliseconds.
    pub timestamp: u64,
}

/// The mathematical value of a log entry.
pub struct WalEntryView {
    pub lsn: u64,
    pub op: OperationView,
    pub timestamp: u64,
}

impl View for WalEntry {
    type V = WalEntryView;

    open spec fn view(&self) -> WalEntryView {
        WalEntryView { lsn: self.lsn, op: self.operation@, timestamp: self.timestamp }
    }
}

/// The CRC-32 (IEEE) checksum of a byte string.
pub uninterp spec fn crc32_of(data: Seq<u8>) -> u32;

/// Relies on `crc32fast::hash`: the CRC-32 checksum of the bytes, a
/// function of the bytes alone.
#[verifier::external_body]
pub(crate) fn crc32(data: &[u8]) -> (r: u32)
    ensures
        r == crc32_of(data@),
{
    crc32fast::hash(data)
}

/// The eight little-endian bytes of `s` at `at`, read as an integer.
pub open spec fn le64_at(s: Seq<u8>, at: int) -> u64 {
    spec_u64_from_le_bytes(s.subrange(at, at + 8))
}

/// The four little-endian bytes of `s` at `at`, read as an integer.
pub open spec fn le32_at(s: Seq<u8>, at: int) -> u32 {
    spec_u32_from_le_bytes(s.subrange(at, at + 4))
}

/// bincode's layout of `(u64, u32, bytes, bytes, u64)`: fixed-width
/// little-endian integers, a `u64` length before each byte string.
pub open spec fn fields5(a: u64, t: u32, k: Seq<u8>, v: Seq<u8>, b: u64) -> Seq<u8> {
    spec_u64_to_le_bytes(a) + spec_u32_to_le_bytes(t) + spec_u64_to_le_bytes(k.len() as u64) + k
        + spec_u64_to_le_bytes(v.len() as u64) + v + spec_u64_to_le_bytes(b)
}

/// bincode's layout of `(u64, u32, bytes, u64)`.
pub open spec fn fields4(a: u64, t: u32, k: Seq<u8>, b: u64) -> Seq<u8> {
    spec_u64_to_le_bytes(a) + spec_u32_to_le_bytes(t) + spec_u64_to_le_bytes(k.len() as u64) + k
        + spec_u64_to_le_bytes(b)
}

/// What bincode reads as `(u64, u32, bytes, bytes, u64)` from the front of
/// `d` (trailing bytes are allowed), or none when `d` ends too early.
pub open spec fn parse_fields5(d: Seq<u8>) -> Option<(u64, u32, Seq<u8>, Seq<u8>, u64)> {
    if d.len() < 20 {
        None
    } else {
        let kl = le64_at(d, 12) as int;
        if d.len() < 28 + kl {
            None
        } else {
            let vl = le64_at(d, 20 + kl) as int;
            if d.len() < 36 + kl + vl {
                None
            } else {
                Some(
                    (
                        le64_at(d, 0),
                        le32_at(d, 8),
                        d.subrange(20, 20 + kl),
                        d.subrange(28 + kl, 28 + kl + vl),
                        le64_at(d, 28 + kl + vl),
                    ),
                )
            }
        }
    }
}

/// What bincode reads as `(u64, u32, bytes, u64)` from the front of `d`.
pub open spec fn parse_fields4(d: Seq<u8>) -> Option<(u64, u32, Seq<u8>, u64)> {
    if d.len() < 20 {
        None
    } else {
        let kl = le64_at(d, 12) as int;
        if d.len() < 28 + kl {
            None
        } else {
            Some((le64_at(d, 0), le32_at(d, 8), d.subrange(20, 20 + kl), le64_at(d, 20 + kl)))
        }
    }
}

/// Relies on `bincode::serialize` (default options: fixed-width
/// little-endian integers, `u64` sequence lengths, no size limit) of a tuple
/// of plain values; the byte vectors have known lengths, so it succeeds.
#[verifier::external_body]
fn bincode_encode5(a: u64, t: u32, k: &Vec<u8>, v: &Vec<u8>, b: u64) -> (r: Option<Vec<u8>>)
    ensures
        r is Some,
        r matches Some(out) ==> out@ == fields5(a, t, k@, v@, b),
{
    bincode::serialize(&(a, t, k, v, b)).ok()
}

/// Relies on `bincode::serialize` of a tuple of plain values, as above; it
/// succeeds.
#[verifier::external_body]
fn bincode_encode4(a: u64, t: u32, k: &Vec<u8>, b: u64) -> (r: Option<Vec<u8>>)
    ensures
        r is Some,
        r matches Some(out) ==> out@ == fields4(a, t, k@, b),
{
    bincode::serialize(&(a, t, k, b)).ok()
}

/// Relies on `bincode::deserialize` (default options, trailing bytes
/// allowed): it fails exactly when the input ends before the tuple does.
#[verifier::external_body]
fn bincode_decode5(d: &[u8]) -> (r: Option<(u64, u32, Vec<u8>, Vec<u8>, u64)>)
    ensures
        r is Some <==> parse_fields5(d@) is Some,
        r matches Some(t) ==> parse_fields5(d@) == Some((t.0, t.1, t.2@, t.3@, t.4)),
{
    bincode::deserialize::<(u64, u32, Vec<u8>, Vec<u8>, u64)>(d).ok()
}

/// Relies on `bincode::deserialize` of a tuple of plain values.
#[verifier::external_body]
fn bincode_decode4(d: &[u8]) -> (r: Option<(u64, u32, Vec<u8>, u64)>)
    ensures
        r is Some <==> parse_fields4(d@) is Some,
        r matches Some(t) ==> parse_fields4(d@) == Some((t.0, t.1, t.2@, t.3)),
{
    bincode::deserialize::<(u64, u32, Vec<u8>, u64)>(d).ok()
}

/// Relies on `std::time::SystemTime::now`: the wall-clock time in unix
/// milliseconds (0 for a clock set before 1970); nothing is known of the
/// value.
#[verifier::external_body]
pub(crate) fn now_millis() -> (r: u64) {
    match std::time::SystemTime::now().duration_since(std::time::UNIX_EPOCH) {
        Ok(d) => d.as_millis() as u64,
        Err(_) => 0,
    }
}

/// The data section of an entry.
pub open spec fn entry_data(e: WalEntryView) -> Seq<u8> {
    match e.op {
        OperationView::Put { key, value } => fields5(e.lsn, PUT_TAG, key, value, e.timestamp),
        OperationView::Delete { key } => fields4(e.lsn, DELETE_TAG, key, e.timestamp),
    }
}

/// The length of an operation's data section, whatever the LSN and timestamp.
pub open spec fn op_data_len(op: OperationView) -> int {
    match op {
        OperationView::Put { key, value } => 36 + key.len() as int + value.len() as int,
        OperationView::Delete { key } => 28 + key.len() as int,
    }
}

/// An entry's data section is as long as its operation says.
pub proof fn lemma_entry_data_len(e: WalEntryView)
    ensures
        entry_data(e).len() == op_data_len(e.op),
{
    lemma_auto_spec_u64_to_from_le_bytes();
    lemma_auto_spec_u32_to_from_le_bytes();
}

/// The entry that a data section holds, if any.
pub open spec fn decode_data(d: Seq<u8>) -> Option<WalEntryView> {
    if parse_fields5(d) is Some && parse_fields5(d)->Some_0.1 == PUT_TAG {
        let t = parse_fields5(d)->Some_0;
        Some(WalEntryView { lsn: t.0, op: OperationView::Put { key: t.2, value: t.3 }, timestamp: t.4 })
    } else if parse_fields4(d) is Some && parse_fields4(d)->Some_0.1 == DELETE_TAG {
        let t = parse_fields4(d)->Some_0;
        Some(WalEntryView { lsn: t.0, op: OperationView::Delete { key: t.2 }, timestamp: t.3 })
    } else {
        None
    }
}

/// The bytes that the checksum covers: `LSN ‖ DataLen ‖ Data`.
pub open spec fn crc_input(lsn: u64, data: Seq<u8>) -> Seq<u8> {
    spec_u64_to_le_bytes(lsn) + spec_u32_to_le_bytes(data.len() as u32) + data
}

/// A full record around a data section.
pub open spec fn record(lsn: u64, data: Seq<u8>) -> Seq<u8> {
    spec_u64_to_le_bytes(lsn) + spec_u32_to_le_bytes(crc32_of(crc_input(lsn, data)))
        + spec_u32_to_le_bytes(data.len() as u32) + data
}

/// The record of an entry.
pub open spec fn entry_record(e: WalEntryView) -> Seq<u8> {
    record(e.lsn, entry_data(e))
}

/// The data length that a record header announces.
pub open spec fn announced_len(b: Seq<u8>) -> int {
    le32_at(b, 12) as int
}

/// The entry that a record holds, if the bytes pass every check: long
/// enough for the header and the announced data, matching checksum,
/// decodable data, and the same LSN inside and outside.
pub open spec fn decode_record(b: Seq<u8>) -> Option<WalEntryView> {
    if b.len() < 16 || b.len() < 16 + announced_len(b) {
        None
    } else {
        let lsn = le64_at(b, 0);
        let data = b.subrange(16, 16 + announced_len(b));
        if crc32_of(b.subrange(0, 8) + b.subrange(12, 16) + data) != le32_at(b, 8) {
            None
        } else {
            match decode_data(data) {
                Some(e) => if e.lsn == lsn {
                    Some(e)
                } else {
                    None
                },
                None => None,
            }
        }
    }
}

/// Appends the little-endian bytes of `x`.
fn push_u64(out: &mut Vec<u8>, x: u64)
    ensures
        final(out)@ == old(out)@ + spec_u64_to_le_bytes(x),
{
    let b = u64_to_le_bytes(x);
    push_all(out, b.as_slice());
}

/// Appends the little-endian bytes of `x`.
fn push_u32(out: &mut Vec<u8>, x: u32)
    ensures
        final(out)@ == old(out)@ + spec_u32_to_le_bytes(x),
{
    let b = u32_to_le_bytes(x);
    push_all(out, b.as_slice());
}

/// Reads the little-endian `u64` at `b[at..at + 8]`.
pub fn read_u64(b: &[u8], at: usize) -> (r: u64)
    requires
        at + 8 <= b@.len(),
    ensures
        r == le64_at(b@, at as int),
{
    let _len = b.len(); // a slice length is a usize: this bounds the end index
    u64_from_le_bytes(vstd::slice::slice_subrange(b, at, at + 8))
}

/// Reads the little-endian `u32` at `b[at..at + 4]`.
pub fn read_u32(b: &[u8], at: usize) -> (r: u32)
    requires
        at + 4 <= b@.len(),
    ensures
        r == le32_at(b@, at as int),
{
    let _len = b.len(); // a slice length is a usize: this bounds the end index
    u32_from_le_bytes(vstd::slice::slice_subrange(b, at, at + 4))
}

impl WalEntry {
    /// An entry stamped with the current wall-clock time.
    pub fn new(lsn: u64, operation: Operation) -> (r: Self)
        ensures
            r.lsn == lsn,
            r.operation == operation,
    {
        WalEntry::with_timestamp(lsn, operation, now_millis())
    }

    /// An entry with the given timestamp.
    pub fn with_timestamp(lsn: u64, operation: Operation, timestamp: u64) -> (r: Self)
        ensures
            r.lsn == lsn,
            r.operation == operation,
            r.timestamp == timestamp,
    {
        WalEntry { lsn, operation, timestamp }
    }

    /// The data section of this entry, as bincode encodes it.
    fn encode_data(&self) -> (r: Result<Vec<u8>>)
        ensures
            r matches Ok(d) ==> d@ == entry_data(self@),
            r is Ok,
    {
        let out = match &self.operation {
            Operation::Put { key, value } => bincode_encode5(
                self.lsn,
                PUT_TAG,
                key,
                value,
                self.timestamp,
            ),
            Operation::Delete { key } => bincode_encode4(
                self.lsn,
                DELETE_TAG,
                key,
                self.timestamp,
            ),
        };
        match out {
            Some(d) => Ok(d),
            None => Err(AtlasError::Serialization(msg("failed to encode WAL entry"))),
        }
    }

    /// The record of this entry: header, then data. Fails with
    /// `Serialization` when the data does not fit the 32-bit length field.
    pub fn serialize(&self) -> (r: Result<Vec<u8>>)
        ensures
            r matches Ok(b) ==> b@ == entry_record(self@),
            r matches Err(e) ==> e is Serialization,
            r is Err <==> entry_data(self@).len() > u32::MAX,
    {
        let data = match self.encode_data() {
            Ok(d) => d,
            Err(e) => return Err(e),
        };
        if data.len() > u32::MAX as usize {
            return Err(AtlasError::Serialization(msg("WAL entry too large")));
        }
        let data_len = data.len() as u32;
        let mut crc_buffer: Vec<u8> = Vec::new();
        push_u64(&mut crc_buffer, self.lsn);
        push_u32(&mut crc_buffer, data_len);
        push_all(&mut crc_buffer, data.as_slice());
        let crc = crc32(crc_buffer.as_slice());
        let mut output: Vec<u8> = Vec::new();
        push_u64(&mut output, self.lsn);
        push_u32(&mut output, crc);
        push_u32(&mut output, data_len);
        push_all(&mut output, data.as_slice());
        assert(output@ =~= entry_record(self@));
        Ok(output)
    }

    /// The entry that a data section holds.
    fn decode_data(data: &[u8]) -> (r: Option<WalEntry>)
        ensures
            r is Some <==> decode_data(data@) is Some,
            r matches Some(e) ==> decode_data(data@) == Some(e@),
    {
        match bincode_decode5(data) {
            Some((lsn, tag, key, value, timestamp)) => {
                if tag == PUT_TAG {
                    return Some(
                        WalEntry { lsn, operation: Operation::Put { key, value }, timestamp },
                    );
                }
            },
            None => {},
        }
        match bincode_decode4(data) {
            Some((lsn, tag, key, timestamp)) => {
                if tag == DELETE_TAG {
                    return Some(WalEntry { lsn, operation: Operation::Delete { key }, timestamp });
                }
                None
            },
            None => None,
        }
    }

    /// Reads the record at the front of `bytes`, checking its length,
    /// checksum, data and LSN; any failure is `WalCorruption`.
    pub fn deserialize(bytes: &[u8]) -> (r: Result<WalEntry>)
        ensures
            r is Ok <==> decode_record(bytes@) is Some,
            r matches Ok(e) ==> decode_record(bytes@) == Some(e@),
            r matches Err(e) ==> e is WalCorruption,
    {
        let blen = bytes.len();
        if blen < HEADER_SIZE {
            return Err(AtlasError::WalCorruption(msg("entry too small")));
        }
        let lsn = read_u64(bytes, 0);
        let stored_crc = read_u32(bytes, 8);
        let data_len = read_u32(bytes, 12);
        if blen - HEADER_SIZE < data_len as usize {
            return Err(AtlasError::WalCorruption(msg("entry truncated")));
        }
        let end = HEADER_SIZE + data_len as usize;
        let data = vstd::slice::slice_subrange(bytes, HEADER_SIZE, end);
        let mut crc_buffer = copy_range(bytes, 0, 8);
        push_all(&mut crc_buffer, vstd::slice::slice_subrange(bytes, 12, 16));
        push_all(&mut crc_buffer, data);
        let computed_crc = crc32(crc_buffer.as_slice());
        if computed_crc != stored_crc {
            return Err(AtlasError::WalCorruption(msg("CRC mismatch")));
        }
        match WalEntry::decode_data(data) {
            Some(entry) => {
                if entry.lsn != lsn {
                    Err(AtlasError::WalCorruption(msg("LSN mismatch")))
                } else {
                    Ok(entry)
                }
            },
            None => Err(AtlasError::WalCorruption(msg("failed to decode WAL entry"))),
        }
    }

    /// The length of this entry's record.
    pub fn serialized_size(&self) -> (r: Result<usize>)
        ensures
            r matches Ok(n) ==> n == entry_record(self@).len(),
            r matches Err(e) ==> e is Serialization,
            r is Err <==> entry_data(self@).len() + 16 > usize::MAX,
    {
        let data = match self.encode_data() {
            Ok(d) => d,
            Err(e) => return Err(e),
        };
        proof {
            lemma_auto_spec_u64_to_from_le_bytes();
            lemma_auto_spec_u32_to_from_le_bytes();
        }
        if data.len() > usize::MAX - HEADER_SIZE {
            return Err(AtlasError::Serialization(msg("WAL entry too large")));
        }
        Ok(HEADER_SIZE + data.len())
    }

    /// The checksum stored in this entry's record.
    pub fn compute_crc(&self) -> (r: Result<u32>)
        ensures
            r matches Ok(c) ==> c == crc32_of(crc_input(self.lsn, entry_data(self@))),
            r is Ok,
    {
        let data = match self.encode_data() {
            Ok(d) => d,
            Err(e) => return Err(e),
        };
        let mut crc_buffer: Vec<u8> = Vec::new();
        push_u64(&mut crc_buffer, self.lsn);
        push_u32(&mut crc_buffer, data.len() as u32);
        push_all(&mut crc_buffer, data.as_slice());
        Ok(crc32(crc_buffer.as_slice()))
    }
}

/// bincode reads back the five fields it wrote.
#[verifier::spinoff_prover]
#[verifier::rlimit(60)]
pub proof fn lemma_fields5_round_trip(a: u64, t: u32, k: Seq<u8>, v: Seq<u8>, b: u64)
    requires
        k.len() <= u64::MAX,
        v.len() <= u64::MAX,
    ensures
        parse_fields5(fields5(a, t, k, v, b)) == Some((a, t, k, v, b)),
{
    lemma_auto_spec_u64_to_from_le_bytes();
    lemma_auto_spec_u32_to_from_le_bytes();
    let d = fields5(a, t, k, v, b);
    let kl = k.len() as int;
    let vl = v.len() as int;
    assert(d.subrange(0, 8) =~= spec_u64_to_le_bytes(a));
    assert(d.subrange(8, 12) =~= spec_u32_to_le_bytes(t));
    assert(d.subrange(12, 20) =~= spec_u64_to_le_bytes(k.len() as u64));
    assert(d.subrange(20, 20 + kl) =~= k);
    assert(d.subrange(20 + kl, 28 + kl) =~= spec_u64_to_le_bytes(v.len() as u64));
    assert(d.subrange(28 + kl, 28 + kl + vl) =~= v);
    assert(d.subrange(28 + kl + vl, 36 + kl + vl) =~= spec_u64_to_le_bytes(b));
}

/// bincode reads back the four fields it wrote.
pub proof fn lemma_fields4_round_trip(a: u64, t: u32, k: Seq<u8>, b: u64)
    requires
        k.len() <= u64::MAX,
    ensures
        parse_fields4(fields4(a, t, k, b)) == Some((a, t, k, b)),
        parse_fields5(fields4(a, t, k, b)) matches Some(f) ==> f.1 == t,
{
    lemma_auto_spec_u64_to_from_le_bytes();
    lemma_auto_spec_u32_to_from_le_bytes();
    let d = fields4(a, t, k, b);
    let kl = k.len() as int;
    assert(d.subrange(0, 8) =~= spec_u64_to_le_bytes(a));
    assert(d.subrange(8, 12) =~= spec_u32_to_le_bytes(t));
    assert(d.subrange(12, 20) =~= spec_u64_to_le_bytes(k.len() as u64));
    assert(d.subrange(20, 20 + kl) =~= k);
    assert(d.subrange(20 + kl, 28 + kl) =~= spec_u64_to_le_bytes(b));
}

/// An entry's data section decodes to the entry.
pub proof fn lemma_data_round_trip(e: WalEntryView)
    requires
        entry_data(e).len() <= u32::MAX,
    ensures
        decode_data(entry_data(e)) == Some(e),
{
    lemma_auto_spec_u64_to_from_le_bytes();
    lemma_auto_spec_u32_to_from_le_bytes();
    match e.op {
        OperationView::Put { key, value } => {
            lemma_fields5_round_trip(e.lsn, PUT_TAG, key, value, e.timestamp);
        },
        OperationView::Delete { key } => {
            lemma_fields4_round_trip(e.lsn, DELETE_TAG, key, e.timestamp);
        },
    }
}

/// A record is read back as the data it was built around, whenever that
/// data decodes and carries the record's LSN.
pub proof fn lemma_record_frame(lsn: u64, data: Seq<u8>)
    requires
        data.len() <= u32::MAX,
    ensures
        record(lsn, data).len() == 16 + data.len(),
        announced_len(record(lsn, data)) == data.len(),
        decode_record(record(lsn, data)) == (match decode_data(data) {
            Some(e) => if e.lsn == lsn {
                Some(e)
            } else {
                None
            },
            None => None,
        }),
{
    lemma_auto_spec_u64_to_from_le_bytes();
    lemma_auto_spec_u32_to_from_le_bytes();
    let b = record(lsn, data);
    assert(b.subrange(0, 8) =~= spec_u64_to_le_bytes(lsn));
    assert(b.subrange(8, 12) =~= spec_u32_to_le_bytes(crc32_of(crc_input(lsn, data))));
    assert(b.subrange(12, 16) =~= spec_u32_to_le_bytes(data.len() as u32));
    assert(b.subrange(16, 16 + data.len() as int) =~= data);
    assert(b.subrange(0, 8) + b.subrange(12, 16) + data =~= crc_input(lsn, data));
}

/// Round trip of the record codec: decoding the record of any entry whose
/// data fits the 32-bit length field gives back that entry.
pub proof fn lemma_wal_round_trip(e: WalEntryView)
    requires
        entry_data(e).len() <= u32::MAX,
    ensures
        decode_record(entry_record(e)) == Some(e),
{
    lemma_data_round_trip(e);
    lemma_record_frame(e.lsn, entry_data(e));
    assert(decode_data(entry_data(e)) == Some(e));
}

/// `b` with bit `bit` of byte `i` inverted.
pub open spec fn flip_bit(b: Seq<u8>, i: int, bit: u8) -> Seq<u8> {
    b.update(i, b[i] ^ (1u8 << bit))
}

proof fn lemma_flip_changes(x: u8, bit: u8)
    requires
        bit < 8,
    ensures
        x ^ (1u8 << bit) != x,
{
    assert(x ^ (1u8 << bit) != x) by (bit_vector)
        requires
            bit < 8,
    ;
}

/// Decoding a strict prefix of a data section fails.
#[verifier::spinoff_prover]
#[verifier::rlimit(60)]
proof fn lemma_data_prefix_fails(e: WalEntryView, m: int)
    requires
        entry_data(e).len() <= u32::MAX,
        0 <= m < entry_data(e).len(),
    ensures
        decode_data(entry_data(e).take(m)) is None,
{
    lemma_auto_spec_u64_to_from_le_bytes();
    lemma_auto_spec_u32_to_from_le_bytes();
    let d = entry_data(e);
    let p = d.take(m);
    match e.op {
        OperationView::Put { key, value } => {
            lemma_fields5_round_trip(e.lsn, PUT_TAG, key, value, e.timestamp);
            let kl = key.len() as int;
            let vl = value.len() as int;
            if m >= 12 {
                assert(p.subrange(8, 12) =~= d.subrange(8, 12));
            }
            if m >= 20 {
                assert(p.subrange(12, 20) =~= d.subrange(12, 20));
                if m >= 28 + kl {
                    assert(p.subrange(20 + kl, 28 + kl) =~= d.subrange(20 + kl, 28 + kl));
                }
            }
        },
        OperationView::Delete { key } => {
            lemma_fields4_round_trip(e.lsn, DELETE_TAG, key, e.timestamp);
            if m >= 12 {
                assert(p.subrange(8, 12) =~= d.subrange(8, 12));
            }
            if m >= 20 {
                assert(p.subrange(12, 20) =~= d.subrange(12, 20));
            }
        },
    }
}

/// Checksum detection in the header: inverting any one bit of the 16-byte
/// header (LSN, checksum or data length) of an entry's record makes the
/// record fail to decode.
#[verifier::spinoff_prover]
#[verifier::rlimit(60)]
pub proof fn lemma_header_bit_flip_detected(e: WalEntryView, i: int, bit: u8)
    requires
        entry_data(e).len() <= u32::MAX,
        0 <= i < 16,
        bit < 8,
    ensures
        decode_record(flip_bit(entry_record(e), i, bit)) is None,
{
    lemma_auto_spec_u64_to_from_le_bytes();
    lemma_auto_spec_u32_to_from_le_bytes();
    let d = entry_data(e);
    let r = entry_record(e);
    let f = flip_bit(r, i, bit);
    lemma_record_frame(e.lsn, d);
    lemma_data_round_trip(e);
    lemma_flip_changes(r[i], bit);
    assert(f.len() == r.len());
    assert(r.subrange(0, 8) =~= spec_u64_to_le_bytes(e.lsn));
    assert(r.subrange(12, 16) =~= spec_u32_to_le_bytes(d.len() as u32));
    assert(r.subrange(16, 16 + d.len() as int) =~= d);
    assert(f.subrange(16, 16 + d.len() as int) =~= d);
    if 8 <= i < 12 {
        assert(f.subrange(0, 8) =~= r.subrange(0, 8));
        assert(f.subrange(12, 16) =~= r.subrange(12, 16));
        let c = crc32_of(crc_input(e.lsn, d));
        assert(f.subrange(0, 8) + f.subrange(12, 16) + d =~= crc_input(e.lsn, d));
        assert(r.subrange(8, 12) =~= spec_u32_to_le_bytes(c));
        assert(f.subrange(8, 12)[i - 8] != r.subrange(8, 12)[i - 8]);
        if le32_at(f, 8) == c {
            assert(spec_u32_to_le_bytes(spec_u32_from_le_bytes(f.subrange(8, 12))) == f.subrange(8, 12));
        }
    } else if i < 8 {
        assert(f.subrange(12, 16) =~= r.subrange(12, 16));
        assert(f.subrange(0, 8)[i] != r.subrange(0, 8)[i]);
        if le64_at(f, 0) == e.lsn {
            assert(spec_u64_to_le_bytes(spec_u64_from_le_bytes(f.subrange(0, 8))) == f.subrange(0, 8));
        }
    } else {
        assert(f.subrange(12, 16)[i - 12] != r.subrange(12, 16)[i - 12]);
        if announced_len(f) == d.len() {
            assert(spec_u32_to_le_bytes(spec_u32_from_le_bytes(f.subrange(12, 16))) == f.subrange(12, 16));
        }
        if announced_len(f) < d.len() {
            lemma_data_prefix_fails(e, announced_len(f));
            assert(f.subrange(16, 16 + announced_len(f)) =~= d.take(announced_len(f)));
        }
    }
}

} // verus!
