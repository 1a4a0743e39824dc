use kuzu_storage::wal::{WALRecord, WAL};
use std::path::PathBuf;

#[test]
fn test_wal_append_clear() {
    let mut wal = WAL::new(PathBuf::from("wal.log"));
    assert!(wal.is_empty());
    wal.append(WALRecord::Insert { table_id: 1, data: vec![1, 2, 3] });
    assert_eq!(wal.len(), 1);
    assert!(wal.is_dirty());
    wal.append(WALRecord::Commit { transaction_id: 42 });
    assert_eq!(wal.len(), 2);
    wal.clear();
    assert!(wal.is_empty());
    assert!(!wal.is_dirty());
}

#[test]
fn test_wal_replay() {
    let mut wal = WAL::new(PathBuf::from("wal.log"));
    wal.append(WALRecord::Insert { table_id: 1, data: vec![10, 20] });
    wal.append(WALRecord::Commit { transaction_id: 1 });
    let mut count = 0;
    wal.replay(|record| {
        count += 1;
        match record {
            WALRecord::Insert { table_id, data } => {
                assert_eq!(*table_id, 1);
                assert_eq!(data, &[10, 20]);
            }
            _ => {}
        }
        Ok(())
    })
    .unwrap();
    assert_eq!(count, 2);
}

#[test]
fn replay_stops_at_first_error() {
    let mut wal = WAL::new(PathBuf::from("wal.log"));
    wal.append(WALRecord::Checkpoint);
    wal.append(WALRecord::Rollback { transaction_id: 3 });
    wal.append(WALRecord::Checkpoint);
    let mut seen = 0;
    let r = wal.replay(|record| {
        seen += 1;
        match record {
            WALRecord::Rollback { .. } => Err(std::io::Error::new(std::io::ErrorKind::Other, "stop")),
            _ => Ok(()),
        }
    });
    assert!(r.is_err());
    assert_eq!(seen, 2);
}

#[test]
fn total_size_counts_payloads_and_eight_otherwise() {
    let mut wal = WAL::new(PathBuf::from("x"));
    wal.append(WALRecord::Insert { table_id: 1, data: vec![1, 2, 3] });
    wal.append(WALRecord::Delete { table_id: 1, row_id: 9 });
    wal.log_column_write(1, 2, 3, &[7, 7]);
    assert_eq!(wal.total_size(), 3 + 8 + 2);
    assert_eq!(wal.path(), &PathBuf::from("x"));
    match &wal.records()[2] {
        WALRecord::ColumnWrite { table_id, col_id, page_id, data } => {
            assert_eq!((*table_id, *col_id, *page_id), (1, 2, 3));
            assert_eq!(data, &vec![7, 7]);
        }
        _ => panic!("expected a column write"),
    }
    wal.clear();
    assert_eq!(wal.total_size(), 0);
}

#[test]
fn encoding_is_tagged_little_endian() {
    let mut wal = WAL::new(PathBuf::from("x"));
    wal.append(WALRecord::Insert { table_id: 1, data: vec![0xAA] });
    wal.append(WALRecord::Checkpoint);
    wal.append(WALRecord::Commit { transaction_id: 2 });
    let bytes = wal.encode();
    let mut expected = vec![b'I'];
    expected.extend_from_slice(&1u64.to_le_bytes());
    expected.extend_from_slice(&1u32.to_le_bytes());
    expected.push(0xAA);
    expected.push(b'K');
    expected.push(b'C');
    expected.extend_from_slice(&2u64.to_le_bytes());
    assert_eq!(bytes, expected);
}

#[test]
fn update_and_column_write_encodings() {
    let mut wal = WAL::new(PathBuf::from("x"));
    wal.append(WALRecord::Update { table_id: 5, row_id: 6, column: 7, data: vec![1, 2] });
    wal.append(WALRecord::ColumnWrite { table_id: 8, col_id: 9, page_id: 10, data: vec![] });
    wal.append(WALRecord::Delete { table_id: 11, row_id: 12 });
    wal.append(WALRecord::Rollback { transaction_id: 13 });
    let mut expected = vec![b'U'];
    expected.extend_from_slice(&5u64.to_le_bytes());
    expected.extend_from_slice(&6u64.to_le_bytes());
    expected.extend_from_slice(&7u32.to_le_bytes());
    expected.extend_from_slice(&2u32.to_le_bytes());
    expected.extend_from_slice(&[1, 2]);
    expected.push(b'W');
    expected.extend_from_slice(&8u64.to_le_bytes());
    expected.extend_from_slice(&9u32.to_le_bytes());
    expected.extend_from_slice(&10u64.to_le_bytes());
    expected.extend_from_slice(&0u32.to_le_bytes());
    expected.push(b'D');
    expected.extend_from_slice(&11u64.to_le_bytes());
    expected.extend_from_slice(&12u64.to_le_bytes());
    expected.push(b'R');
    expected.extend_from_slice(&13u64.to_le_bytes());
    assert_eq!(wal.encode(), expected);
}

#[test]
fn replay_hands_records_oldest_first() {
    let mut wal = WAL::new(PathBuf::from("wal.log"));
    for t in 1..=4u64 {
        wal.append(WALRecord::Commit { transaction_id: t });
    }
    let mut order = Vec::new();
    wal.replay(|record| {
        if let WALRecord::Commit { transaction_id } = record {
            order.push(*transaction_id);
        }
        Ok(())
    })
    .unwrap();
    assert_eq!(order, vec![1, 2, 3, 4]);
}
