use kuzu_storage::ice_format::{IceDiskRelTable, IceDiskRelTableLayout, IceDiskRelTableScanState};
use kuzu_storage::value_codec::Value;
use std::path::Path;

#[test]
fn test_ice_disk_paths() {
    let base = Path::new("/tmp/kuzu");

    let flat_table = IceDiskRelTable::new("knows".into(), base, IceDiskRelTableLayout::Flat);
    assert_eq!(flat_table.indices_file_path.to_str().unwrap(), "/tmp/kuzu\\knows.flat.parquet");
    assert!(flat_table.indptr_file_path.is_none());

    let csr_table = IceDiskRelTable::new("study_at".into(), base, IceDiskRelTableLayout::Csr);
    assert_eq!(csr_table.indices_file_path.to_str().unwrap(), "/tmp/kuzu\\study_at.indices.parquet");
    assert_eq!(csr_table.indptr_file_path.unwrap().to_str().unwrap(), "/tmp/kuzu\\study_at.indptr.parquet");
}

#[test]
fn base_ending_in_separator_gets_no_extra_one() {
    let t = IceDiskRelTable::new("e".into(), Path::new("dir/"), IceDiskRelTableLayout::Flat);
    assert_eq!(t.indices_file_path.to_str().unwrap(), "dir/e.flat.parquet");
    let t = IceDiskRelTable::new("e".into(), Path::new(""), IceDiskRelTableLayout::Csr);
    assert_eq!(t.indices_file_path.to_str().unwrap(), "e.indices.parquet");
    assert_eq!(t.name, "e");
    assert_eq!(t.layout, IceDiskRelTableLayout::Csr);
}

#[test]
fn ice_scan_state_next_row() {
    let mut st = IceDiskRelTableScanState {
        cached_batch_data: vec![vec![Value::Int64(1)], vec![Value::Int64(2), Value::Null]],
        current_row: 0,
    };
    assert_eq!(st.next_row(), Some(&vec![Value::Int64(1)]));
    assert_eq!(st.next_row().map(|r| r.len()), Some(2));
    assert_eq!(st.next_row(), None);
    assert_eq!(st.current_row, 2);
}
