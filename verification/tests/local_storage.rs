use kuzu_storage::local_storage::{LocalStorage, LocalTableData};

#[test]
fn table_buffer_counts_mutations() {
    let mut t = LocalTableData::new();
    assert!(t.is_empty());
    t.insert(vec![1, 2]);
    t.insert(vec![3]);
    t.delete(7);
    t.update(9, vec![4]);
    t.update(9, vec![5]);
    assert_eq!(t.len(), 4);
    assert!(!t.is_empty());
    assert_eq!(t.inserted_rows(), &[vec![1, 2], vec![3]]);
    assert_eq!(t.deleted_row_ids(), &[7]);
    assert_eq!(t.updated_rows().get(&9), Some(&vec![5]));
    t.clear();
    assert!(t.is_empty());
    assert_eq!(t.len(), 0);
}

#[test]
fn storage_creates_tables_on_demand() {
    let mut s = LocalStorage::new();
    assert!(s.is_empty());
    s.get_or_create_table(3).insert(vec![1]);
    s.get_or_create_table(3).delete(2);
    s.get_or_create_table(4);
    assert_eq!(s.len(), 2);
    let t = s.get_table(3).unwrap();
    assert_eq!(t.inserted_rows().len(), 1);
    assert_eq!(t.deleted_row_ids(), &[2]);
    assert!(s.get_table(4).unwrap().is_empty());
    assert!(s.get_table(5).is_none());
    s.clear();
    assert!(s.is_empty());
}
