//! Tests of the WAL record codec: round trips, checksum and length checks.

use atlaskv::wal::{Operation, WalEntry, HEADER_SIZE};
use atlaskv::AtlasError;

// =============================================================================
// Serialization Round-Trip Tests
// =============================================================================

#[test]
fn test_serialize_deserialize_put() {
    let entry = WalEntry::new(
        1,
        Operation::Put {
            key: b"hello".to_vec(),
            value: b"world".to_vec(),
        },
    );

    let bytes = entry.serialize().unwrap();
    let recovered = WalEntry::deserialize(&bytes).unwrap();

    assert_eq!(entry.lsn, recovered.lsn);
    assert_eq!(entry.operation, recovered.operation);
    assert_eq!(entry.timestamp, recovered.timestamp);
}

#[test]
fn test_serialize_deserialize_delete() {
    let entry = WalEntry::new(42, Operation::Delete { key: b"mykey".to_vec() });

    let bytes = entry.serialize().unwrap();
    let recovered = WalEntry::deserialize(&bytes).unwrap();

    assert_eq!(entry, recovered);
}

#[test]
fn test_serialize_deserialize_empty_key() {
    let entry = WalEntry::new(
        100,
        Operation::Put {
            key: vec![],
            value: b"empty_key_value".to_vec(),
        },
    );

    let bytes = entry.serialize().unwrap();
    let recovered = WalEntry::deserialize(&bytes).unwrap();

    assert_eq!(entry, recovered);
}

#[test]
fn test_serialize_deserialize_empty_value() {
    let entry = WalEntry::new(
        101,
        Operation::Put {
            key: b"key_with_empty_value".to_vec(),
            value: vec![],
        },
    );

    let bytes = entry.serialize().unwrap();
    let recovered = WalEntry::deserialize(&bytes).unwrap();

    assert_eq!(entry, recovered);
}

// =============================================================================
// CRC Corruption Detection Tests
// =============================================================================

#[test]
fn test_crc_corruption_detected() {
    let entry = WalEntry::new(
        1,
        Operation::Put {
            key: b"key".to_vec(),
            value: b"value".to_vec(),
        },
    );

    let mut bytes = entry.serialize().unwrap();

    // Corrupt a byte in the data section
    if let Some(byte) = bytes.last_mut() {
        *byte ^= 0xFF;
    }

    let result = WalEntry::deserialize(&bytes);
    assert!(result.is_err());
    assert!(matches!(result.unwrap_err(), AtlasError::WalCorruption(_)));
}

#[test]
fn test_crc_corruption_in_header_detected() {
    let entry = WalEntry::new(
        1,
        Operation::Put {
            key: b"key".to_vec(),
            value: b"value".to_vec(),
        },
    );

    let mut bytes = entry.serialize().unwrap();

    // Corrupt the CRC bytes (bytes 8-11)
    bytes[8] ^= 0xFF;

    let result = WalEntry::deserialize(&bytes);
    assert!(result.is_err());
}

// =============================================================================
// Edge Case Tests
// =============================================================================

#[test]
fn test_truncated_entry() {
    let entry = WalEntry::new(1, Operation::Delete { key: b"key".to_vec() });
    let bytes = entry.serialize().unwrap();

    // Truncate the buffer
    let truncated = &bytes[..HEADER_SIZE + 2];
    let result = WalEntry::deserialize(truncated);

    assert!(result.is_err());
}

#[test]
fn test_header_too_small() {
    let bytes = [0u8; 10]; // Less than HEADER_SIZE
    let result = WalEntry::deserialize(&bytes);

    assert!(result.is_err());
}

#[test]
fn test_empty_buffer() {
    let bytes: [u8; 0] = [];
    let result = WalEntry::deserialize(&bytes);

    assert!(result.is_err());
}

#[test]
fn entry_tests_test_large_value() {
    let large_value = vec![0xAB; 1024 * 1024]; // 1 MB value
    let entry = WalEntry::new(
        999,
        Operation::Put {
            key: b"big_key".to_vec(),
            value: large_value.clone(),
        },
    );

    let bytes = entry.serialize().unwrap();
    let recovered = WalEntry::deserialize(&bytes).unwrap();

    if let Operation::Put { key, value } = recovered.operation {
        assert_eq!(key, b"big_key");
        assert_eq!(value, large_value);
    } else {
        panic!("Expected Put operation");
    }
}

// =============================================================================
// LSN Tests
// =============================================================================

#[test]
fn test_lsn_preserved() {
    for lsn in [0, 1, u64::MAX, 12345678901234] {
        let entry = WalEntry::new(lsn, Operation::Delete { key: b"key".to_vec() });
        let bytes = entry.serialize().unwrap();
        let recovered = WalEntry::deserialize(&bytes).unwrap();

        assert_eq!(recovered.lsn, lsn);
    }
}

// =============================================================================
// Serialized Size Tests
// =============================================================================

#[test]
fn test_serialized_size_matches() {
    let entry = WalEntry::new(
        1,
        Operation::Put {
            key: b"test_key".to_vec(),
            value: b"test_value".to_vec(),
        },
    );

    let expected_size = entry.serialized_size().unwrap();
    let actual_bytes = entry.serialize().unwrap();

    assert_eq!(actual_bytes.len(), expected_size);
}

#[test]
fn test_compute_crc_consistency() {
    let entry = WalEntry::new(
        42,
        Operation::Put {
            key: b"key".to_vec(),
            value: b"value".to_vec(),
        },
    );

    // CRC should be deterministic
    let crc1 = entry.compute_crc().unwrap();
    let crc2 = entry.compute_crc().unwrap();

    assert_eq!(crc1, crc2);
}

// =============================================================================
// Layout of a record
// =============================================================================

#[test]
fn record_layout_of_put() {
    let entry = WalEntry { lsn: 7, operation: Operation::Put { key: b"ab".to_vec(), value: b"c".to_vec() }, timestamp: 9 };
    let bytes = entry.serialize().unwrap();
    // data: lsn u64 | tag u32 | keylen u64 | key | vallen u64 | value | timestamp u64
    let mut data = Vec::new();
    data.extend_from_slice(&7u64.to_le_bytes());
    data.extend_from_slice(&0u32.to_le_bytes());
    data.extend_from_slice(&2u64.to_le_bytes());
    data.extend_from_slice(b"ab");
    data.extend_from_slice(&1u64.to_le_bytes());
    data.extend_from_slice(b"c");
    data.extend_from_slice(&9u64.to_le_bytes());
    assert_eq!(&bytes[0..8], &7u64.to_le_bytes());
    assert_eq!(&bytes[12..16], &(data.len() as u32).to_le_bytes());
    assert_eq!(&bytes[16..], &data[..]);
    let mut covered = Vec::new();
    covered.extend_from_slice(&bytes[0..8]);
    covered.extend_from_slice(&bytes[12..16]);
    covered.extend_from_slice(&data);
    assert_eq!(&bytes[8..12], &crc32fast::hash(&covered).to_le_bytes());
    assert_eq!(entry.compute_crc().unwrap(), crc32fast::hash(&covered));
    assert_eq!(entry.serialized_size().unwrap(), 16 + 8 + 4 + 8 + 2 + 8 + 1 + 8);
}

#[test]
fn record_layout_of_delete() {
    let entry = WalEntry { lsn: 1, operation: Operation::Delete { key: b"k".to_vec() }, timestamp: 2 };
    let bytes = entry.serialize().unwrap();
    let mut data = Vec::new();
    data.extend_from_slice(&1u64.to_le_bytes());
    data.extend_from_slice(&1u32.to_le_bytes());
    data.extend_from_slice(&1u64.to_le_bytes());
    data.extend_from_slice(b"k");
    data.extend_from_slice(&2u64.to_le_bytes());
    assert_eq!(&bytes[16..], &data[..]);
    assert_eq!(WalEntry::deserialize(&bytes).unwrap(), entry);
}

#[test]
fn lsn_mismatch_is_corruption() {
    let entry = WalEntry { lsn: 5, operation: Operation::Delete { key: b"k".to_vec() }, timestamp: 2 };
    let mut bytes = entry.serialize().unwrap();
    // rewrite the header LSN and its checksum so only the inner LSN disagrees
    bytes[0..8].copy_from_slice(&6u64.to_le_bytes());
    let mut covered = Vec::new();
    covered.extend_from_slice(&bytes[0..8]);
    covered.extend_from_slice(&bytes[12..16]);
    covered.extend_from_slice(&bytes[16..]);
    let crc = crc32fast::hash(&covered);
    bytes[8..12].copy_from_slice(&crc.to_le_bytes());
    let err = WalEntry::deserialize(&bytes).unwrap_err();
    assert!(matches!(err, AtlasError::WalCorruption(_)));
    assert!(err.to_string().contains("LSN mismatch"));
}

#[test]
fn every_single_bit_flip_in_header_is_detected() {
    let entry = WalEntry { lsn: 3, operation: Operation::Put { key: b"key".to_vec(), value: b"v".to_vec() }, timestamp: 4 };
    let bytes = entry.serialize().unwrap();
    for i in 0..HEADER_SIZE {
        for bit in 0..8 {
            let mut b = bytes.clone();
            b[i] ^= 1 << bit;
            assert!(WalEntry::deserialize(&b).is_err(), "byte {} bit {}", i, bit);
        }
    }
}

#[test]
fn every_single_bit_flip_in_data_is_detected() {
    let entry = WalEntry { lsn: 3, operation: Operation::Put { key: b"key".to_vec(), value: b"v".to_vec() }, timestamp: 4 };
    let bytes = entry.serialize().unwrap();
    for i in HEADER_SIZE..bytes.len() {
        for bit in 0..8 {
            let mut b = bytes.clone();
            b[i] ^= 1 << bit;
            assert!(WalEntry::deserialize(&b).is_err(), "byte {} bit {}", i, bit);
        }
    }
}

#[test]
fn unknown_operation_tag_is_corruption() {
    let entry = WalEntry { lsn: 1, operation: Operation::Delete { key: b"k".to_vec() }, timestamp: 2 };
    let mut bytes = entry.serialize().unwrap();
    bytes[16 + 8..16 + 12].copy_from_slice(&7u32.to_le_bytes());
    let mut covered = Vec::new();
    covered.extend_from_slice(&bytes[0..8]);
    covered.extend_from_slice(&bytes[12..16]);
    covered.extend_from_slice(&bytes[16..]);
    let crc = crc32fast::hash(&covered);
    bytes[8..12].copy_from_slice(&crc.to_le_bytes());
    assert!(matches!(WalEntry::deserialize(&bytes), Err(AtlasError::WalCorruption(_))));
}

#[test]
fn entry_with_given_timestamp() {
    let entry = WalEntry::with_timestamp(9, Operation::Delete { key: b"k".to_vec() }, 1234);
    assert_eq!(entry.timestamp, 1234);
    let bytes = entry.serialize().unwrap();
    assert_eq!(WalEntry::deserialize(&bytes).unwrap().timestamp, 1234);
}
