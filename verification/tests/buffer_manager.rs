use kuzu_storage::buffer_manager::BufferManager;
use kuzu_storage::checkpoint::complete_checkpoint;
use kuzu_storage::wal::{WALRecord, WAL};
use std::path::PathBuf;

#[test]
fn buffer_pin_get_unpin() {
    let mut bm = BufferManager::new(u64::MAX);
    assert_eq!(bm.page_size(), 8192);
    assert_eq!(bm.num_pages(), 0);
    bm.pin_page(3, vec![1, 2, 3]);
    bm.pin_page(4, vec![9]);
    assert_eq!(bm.num_pages(), 2);
    let h = bm.get_page(3).unwrap();
    assert_eq!(h.page_id, 3);
    assert_eq!(h.data, vec![1, 2, 3]);
    bm.pin_page(3, vec![7]);
    assert_eq!(bm.get_page(3).unwrap().data, vec![7]);
    assert_eq!(bm.num_pages(), 2);
    assert!(bm.unpin_page(3));
    assert!(!bm.unpin_page(3));
    assert!(bm.get_page(3).is_none());
    assert_eq!(bm.num_pages(), 1);
}

#[test]
fn checkpoint_leaves_marker() {
    let mut wal = WAL::new(PathBuf::from("wal.log"));
    wal.append(WALRecord::Insert { table_id: 1, data: vec![1, 2, 3] });
    wal.append(WALRecord::Commit { transaction_id: 42 });
    let n = wal.len();
    let r = complete_checkpoint(&mut wal, n, 10, 13);
    assert!(r.success);
    assert_eq!(r.wal_entries_processed, 2);
    assert_eq!(r.pages_flushed, 3);
    assert_eq!(wal.len(), 1);
    assert!(matches!(wal.records()[0], WALRecord::Checkpoint));
}
