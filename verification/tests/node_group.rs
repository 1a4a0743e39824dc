use kuzu_storage::node_group::{ColumnChunk, NodeGroup, NODE_GROUP_SIZE};

/// The serialized form of an INT64 value.
fn int64(v: i64) -> Vec<u8> {
    let mut out = vec![2u8];
    out.extend_from_slice(&v.to_le_bytes());
    out
}

#[test]
fn test_empty_group() {
    let group = NodeGroup::new(3, 0);
    assert_eq!(group.num_columns(), 3);
    assert_eq!(group.num_nodes, 0);
    assert!(group.is_empty());
    assert!(!group.is_full());
    assert_eq!(group.start_offset, 0);
}

#[test]
fn test_start_offset() {
    let group = NodeGroup::new(2, 12345);
    assert_eq!(group.start_offset, 12345);
}

#[test]
fn test_append_row() {
    let mut group = NodeGroup::new(2, 100);
    group.append_row(vec![int64(1), int64(2)]).unwrap();
    assert_eq!(group.num_nodes, 1);
    assert!(!group.is_empty());
    group.append_row(vec![int64(3), int64(4)]).unwrap();
    assert_eq!(group.num_nodes, 2);
}

#[test]
fn test_append_wrong_column_count() {
    let mut group = NodeGroup::new(2, 0);
    let result = group.append_row(vec![int64(1)]);
    assert!(result.is_err());
    let message = result.unwrap_err();
    assert!(message.contains("column count mismatch"));
    assert_eq!(message, "column count mismatch: expected 2 values, got 1");
    assert_eq!(group.num_nodes, 0);
}

#[test]
fn test_append_when_full() {
    let mut group = NodeGroup::with_capacity(1, 0, 5);
    for _ in 0..10 {
        group.append_row(vec![int64(1)]).unwrap();
    }
    assert!(!group.is_full());
    assert_eq!(group.num_nodes, 10);
}

#[test]
fn full_group_refuses_rows() {
    let mut group = NodeGroup::new(1, 0);
    group.num_nodes = NODE_GROUP_SIZE as u64;
    assert!(group.is_full());
    assert_eq!(group.remaining(), 0);
    assert_eq!(group.append_row(vec![int64(1)]), Err("node group is already full".to_string()));
}

#[test]
fn test_scan() {
    let mut group = NodeGroup::new(3, 0);
    group.append_row(vec![int64(10), int64(20), int64(30)]).unwrap();
    group.append_row(vec![int64(11), int64(21), int64(31)]).unwrap();
    let data = group.scan();
    assert_eq!(data.len(), 2);
    assert_eq!(data[0][0], int64(10));
    assert_eq!(data[0][1], int64(20));
    assert_eq!(data[1][2], int64(31));
}

#[test]
fn test_scan_range() {
    let mut group = NodeGroup::new(2, 0);
    for i in 0..10 {
        group.append_row(vec![int64(i), int64(i * 10)]).unwrap();
    }
    let slice = group.scan_range(3, 4);
    assert_eq!(slice.len(), 4);
    assert_eq!(slice[0][0], int64(3));
    assert_eq!(slice[3][0], int64(6));
    assert!(group.scan_range(8, 5).len() == 2);
    assert!(group.scan_range(12, 1).is_empty());
}

#[test]
fn test_get_value() {
    let mut group = NodeGroup::new(2, 50);
    group.append_row(vec![int64(100), int64(200)]).unwrap();
    assert_eq!(group.get_value(0, 0), Some(&int64(100)));
    assert_eq!(group.get_value(0, 1), Some(&int64(200)));
    assert_eq!(group.get_value(1, 0), None);
    assert_eq!(group.get_value(0, 2), None);
}

#[test]
fn test_clear() {
    let mut group = NodeGroup::new(2, 0);
    group.append_row(vec![int64(1), int64(2)]).unwrap();
    group.clear();
    assert_eq!(group.num_nodes, 0);
    assert!(group.is_empty());
    assert!(group.columns.iter().all(|c| c.is_empty()));
}

#[test]
fn test_remaining() {
    let mut group = NodeGroup::with_capacity(3, 0, 10);
    assert_eq!(group.remaining(), NODE_GROUP_SIZE);
    group.append_row(vec![int64(1), int64(2), int64(3)]).unwrap();
    assert_eq!(group.remaining(), NODE_GROUP_SIZE - 1);
    group.append_row(vec![int64(4), int64(5), int64(6)]).unwrap();
    assert_eq!(group.remaining(), NODE_GROUP_SIZE - 2);
}

#[test]
fn short_columns_read_as_null() {
    let mut group = NodeGroup::new(2, 0);
    group.columns[0].append(int64(7));
    group.num_nodes = 1;
    let data = group.scan();
    assert_eq!(data[0][0], int64(7));
    assert_eq!(data[0][1], vec![0u8]);
    let chunk = ColumnChunk::new();
    assert_eq!(chunk.num_values(), 0);
}
