//! Tests of recovery over a log image.

use atlaskv::config::WalSyncStrategy;
use atlaskv::wal::{Operation, WalEntry, WalRecovery, WalWriter};

/// Appends `count` records made by a writer (a well-formed log).
fn write_entries_via_writer(wal: &mut Vec<u8>, count: usize) {
    let mut writer = WalWriter::open(WalSyncStrategy::EveryWrite);
    for i in 0..count {
        let a = writer
            .append(Operation::Put {
                key: format!("key{}", i).into_bytes(),
                value: format!("value{}", i).into_bytes(),
            })
            .unwrap();
        wal.extend_from_slice(&a.bytes);
    }
}

// =============================================================================
// Recover: Clean WAL Tests
// =============================================================================

#[test]
fn test_recover_empty_file() {
    let mut wal: Vec<u8> = Vec::new();

    let (entries, result) = WalRecovery::recover(&wal);

    assert_eq!(entries.len(), 0);
    assert_eq!(result.entries_recovered, 0);
    assert_eq!(result.entries_corrupted, 0);
    assert_eq!(result.last_lsn, 0);
    assert!(!result.was_truncated);
}

#[test]
fn test_recover_single_entry() {
    let mut wal: Vec<u8> = Vec::new();
    write_entries_via_writer(&mut wal, 1);

    let (entries, result) = WalRecovery::recover(&wal);

    assert_eq!(entries.len(), 1);
    assert_eq!(result.entries_recovered, 1);
    assert_eq!(result.entries_corrupted, 0);
    assert_eq!(result.last_lsn, 1);
    assert!(!result.was_truncated);
}

#[test]
fn test_recover_multiple_entries() {
    let mut wal: Vec<u8> = Vec::new();
    write_entries_via_writer(&mut wal, 10);

    let (entries, result) = WalRecovery::recover(&wal);

    assert_eq!(entries.len(), 10);
    assert_eq!(result.entries_recovered, 10);
    assert_eq!(result.entries_corrupted, 0);
    assert_eq!(result.last_lsn, 10);
    assert!(!result.was_truncated);

    // Verify entries are in order
    for (i, entry) in entries.iter().enumerate() {
        assert_eq!(entry.lsn, (i + 1) as u64);
    }
}

#[test]
fn test_recover_preserves_operations() {
    let mut wal: Vec<u8> = Vec::new();

    {
        let mut writer = WalWriter::open(WalSyncStrategy::EveryWrite);
        wal.extend_from_slice(&writer.append(Operation::Put { key: b"k1".to_vec(), value: b"v1".to_vec() }).unwrap().bytes);
        wal.extend_from_slice(&writer.append(Operation::Delete { key: b"k1".to_vec() }).unwrap().bytes);
        wal.extend_from_slice(&writer.append(Operation::Put { key: b"k2".to_vec(), value: b"v2".to_vec() }).unwrap().bytes);
    }

    let (entries, result) = WalRecovery::recover(&wal);

    assert_eq!(result.entries_recovered, 3);
    assert!(matches!(entries[0].operation, Operation::Put { .. }));
    assert!(matches!(entries[1].operation, Operation::Delete { .. }));
    assert!(matches!(entries[2].operation, Operation::Put { .. }));
}

// =============================================================================
// Recover: Partial Write Tests (was_truncated = true)
// =============================================================================

#[test]
fn test_recover_partial_header_at_tail() {
    let mut wal: Vec<u8> = Vec::new();

    // Write one good entry, then an incomplete header
    let entry = WalEntry::new(1, Operation::Put { key: b"k".to_vec(), value: b"v".to_vec() });
    let bytes = entry.serialize().unwrap();
    wal.extend_from_slice(&bytes);
    wal.extend_from_slice(&[0u8; 8]); // Partial header (8 bytes < HEADER_SIZE)

    let (entries, result) = WalRecovery::recover(&wal);

    assert_eq!(entries.len(), 1);
    assert_eq!(result.entries_recovered, 1);
    assert_eq!(result.last_lsn, 1);
    // Trailing garbage means truncation
    assert!(result.was_truncated);
}

#[test]
fn test_recover_partial_data_at_tail() {
    let mut wal: Vec<u8> = Vec::new();

    let entry = WalEntry::new(1, Operation::Put { key: b"k".to_vec(), value: b"v".to_vec() });
    let good_bytes = entry.serialize().unwrap();

    // Write good entry + a second entry with complete header but truncated data
    let entry2 = WalEntry::new(2, Operation::Put { key: b"k2".to_vec(), value: b"v2".to_vec() });
    let mut bad_bytes = entry2.serialize().unwrap();
    bad_bytes.truncate(20); // Header is 16 bytes, only 4 bytes of data
    wal.extend_from_slice(&good_bytes);
    wal.extend_from_slice(&bad_bytes);

    let (entries, result) = WalRecovery::recover(&wal);

    // Only the first entry should be recovered
    assert_eq!(entries.len(), 1);
    assert_eq!(result.entries_recovered, 1);
    assert!(result.was_truncated);
}

// =============================================================================
// Recover: Corruption Tests (CRC mismatch)
// =============================================================================

#[test]
fn test_recover_corrupted_entry() {
    let mut wal: Vec<u8> = Vec::new();

    let entry1 = WalEntry::new(1, Operation::Put { key: b"k1".to_vec(), value: b"v1".to_vec() });
    let entry2 = WalEntry::new(2, Operation::Put { key: b"k2".to_vec(), value: b"v2".to_vec() });

    let good_bytes = entry1.serialize().unwrap();
    let mut bad_bytes = entry2.serialize().unwrap();

    // Corrupt a data byte in the second entry (flip last byte)
    if let Some(byte) = bad_bytes.last_mut() {
        *byte ^= 0xFF;
    }
    wal.extend_from_slice(&good_bytes);
    wal.extend_from_slice(&bad_bytes);

    let (entries, result) = WalRecovery::recover(&wal);

    // Only the first entry survives
    assert_eq!(entries.len(), 1);
    assert_eq!(result.entries_recovered, 1);
    assert_eq!(result.entries_corrupted, 1);
    assert_eq!(result.last_lsn, 1);
    assert!(result.was_truncated);
}

#[test]
fn test_recover_corruption_at_first_entry() {
    let mut wal: Vec<u8> = Vec::new();

    let entry = WalEntry::new(1, Operation::Put { key: b"k".to_vec(), value: b"v".to_vec() });
    let mut bytes = entry.serialize().unwrap();

    // Corrupt the first entry
    bytes[20] ^= 0xFF;
    wal.extend_from_slice(&bytes);

    let (entries, result) = WalRecovery::recover(&wal);

    // Nothing recovered
    assert_eq!(entries.len(), 0);
    assert_eq!(result.entries_recovered, 0);
    assert_eq!(result.entries_corrupted, 1);
    assert_eq!(result.last_lsn, 0);
    assert!(result.was_truncated);
}

// =============================================================================
// Verify Tests (stats only, same logic as recover)
// =============================================================================

#[test]
fn test_verify_clean_wal() {
    let mut wal: Vec<u8> = Vec::new();
    write_entries_via_writer(&mut wal, 5);

    let result = WalRecovery::verify(&wal);

    assert_eq!(result.entries_recovered, 5);
    assert_eq!(result.entries_corrupted, 0);
    assert_eq!(result.last_lsn, 5);
    assert!(!result.was_truncated);
}

#[test]
fn test_verify_empty_wal() {
    let mut wal: Vec<u8> = Vec::new();

    let result = WalRecovery::verify(&wal);

    assert_eq!(result.entries_recovered, 0);
    assert!(!result.was_truncated);
}

#[test]
fn test_verify_with_corruption() {
    let mut wal: Vec<u8> = Vec::new();

    let entry1 = WalEntry::new(1, Operation::Put { key: b"k".to_vec(), value: b"v".to_vec() });
    let entry2 = WalEntry::new(2, Operation::Put { key: b"k2".to_vec(), value: b"v2".to_vec() });

    let good_bytes = entry1.serialize().unwrap();
    let mut bad_bytes = entry2.serialize().unwrap();
    if let Some(byte) = bad_bytes.last_mut() {
        *byte ^= 0xFF;
    }
    wal.extend_from_slice(&good_bytes);
    wal.extend_from_slice(&bad_bytes);

    let result = WalRecovery::verify(&wal);

    assert_eq!(result.entries_recovered, 1);
    assert_eq!(result.entries_corrupted, 1);
    assert!(result.was_truncated);
}

#[test]
fn test_verify_with_partial_write() {
    let mut wal: Vec<u8> = Vec::new();

    let entry = WalEntry::new(1, Operation::Put { key: b"k".to_vec(), value: b"v".to_vec() });
    let bytes = entry.serialize().unwrap();
    wal.extend_from_slice(&bytes);
    wal.extend_from_slice(&[0u8; 5]); // Trailing junk

    let result = WalRecovery::verify(&wal);

    assert_eq!(result.entries_recovered, 1);
    assert_eq!(result.entries_corrupted, 0);
    assert!(result.was_truncated);
}

// =============================================================================
// Recover + Verify Consistency Test
// =============================================================================

#[test]
fn test_recover_and_verify_agree() {
    let mut wal: Vec<u8> = Vec::new();
    write_entries_via_writer(&mut wal, 20);

    let (entries, recover_result) = WalRecovery::recover(&wal);
    let verify_result = WalRecovery::verify(&wal);

    // Both should report identical stats
    assert_eq!(entries.len(), recover_result.entries_recovered as usize);
    assert_eq!(recover_result.entries_recovered, verify_result.entries_recovered);
    assert_eq!(recover_result.entries_corrupted, verify_result.entries_corrupted);
    assert_eq!(recover_result.last_lsn, verify_result.last_lsn);
    assert_eq!(recover_result.was_truncated, verify_result.was_truncated);
}

// =============================================================================
// Tail tolerance and corruption halt
// =============================================================================

#[test]
fn any_short_tail_is_tolerated() {
    let mut wal: Vec<u8> = Vec::new();
    write_entries_via_writer(&mut wal, 3);
    let extra = WalEntry::new(4, Operation::Put { key: b"x".to_vec(), value: b"y".to_vec() })
        .serialize()
        .unwrap();
    for cut in 1..extra.len() {
        let mut image = wal.clone();
        image.extend_from_slice(&extra[..cut]);
        let (entries, result) = WalRecovery::recover(&image);
        assert_eq!(entries.len(), 3, "cut {}", cut);
        assert_eq!(result.entries_recovered, 3);
        assert_eq!(result.entries_corrupted, 0);
        assert_eq!(result.last_lsn, 3);
        assert!(result.was_truncated);
    }
}

#[test]
fn corruption_halts_at_the_kth_record() {
    let mut records: Vec<Vec<u8>> = Vec::new();
    let mut writer = WalWriter::open(WalSyncStrategy::EveryWrite);
    for i in 0..5u8 {
        records.push(writer.append(Operation::Put { key: vec![i], value: vec![i, i] }).unwrap().bytes);
    }
    for k in 0..5 {
        let mut image = Vec::new();
        for (j, r) in records.iter().enumerate() {
            let mut r = r.clone();
            if j == k {
                r[9] ^= 0x10;
                r[3] ^= 0x01;
            }
            image.extend_from_slice(&r);
        }
        let (entries, result) = WalRecovery::recover(&image);
        assert_eq!(entries.len(), k);
        assert_eq!(result.entries_recovered, k as u64);
        assert_eq!(result.entries_corrupted, 1);
        assert!(result.was_truncated);
        assert_eq!(WalRecovery::verify(&image), result);
    }
}

#[test]
fn recovered_entries_equal_the_written_ones() {
    let mut writer = WalWriter::open(WalSyncStrategy::EveryNEntries { count: 2 });
    let mut wal = Vec::new();
    let mut written = Vec::new();
    for op in [
        Operation::Put { key: b"a".to_vec(), value: b"1".to_vec() },
        Operation::Delete { key: b"a".to_vec() },
        Operation::Put { key: vec![], value: vec![] },
    ] {
        let a = writer.append(op).unwrap();
        wal.extend_from_slice(&a.bytes);
        written.push(a.entry);
    }
    let (entries, result) = WalRecovery::recover(&wal);
    assert_eq!(entries, written);
    assert_eq!(result.last_lsn, 3);
    assert!(!result.was_truncated);
}
