use kuzu_storage::version_info::{is_txn_committed_before, VectorVersionInfo, VersionInfo};

const NODE_GROUP_SIZE: usize = 131072;

#[test]
fn test_version_info_basic() {
    let mut vi = VersionInfo::new(NODE_GROUP_SIZE);
    let history = vec![(1u64, 10u64), (2u64, 20u64)];

    vi.insert(1, 5);
    vi.delete(2, 10);

    assert!(vi.is_visible(5, 10, &history));
    assert!(!vi.is_visible(10, 20, &history));
    assert!(vi.is_visible(10, 15, &history));
    assert!(vi.is_visible(0, 10, &history));
}

#[test]
fn test_vector_version_info_insert() {
    let mut vvi = VectorVersionInfo::new();
    vvi.insert(1, 42);
    let history = vec![(1u64, 5u64)];

    assert!(vvi.is_visible(42, 5, &history));
    assert!(!vvi.is_visible(42, 3, &history));
}

#[test]
fn test_vector_version_info_delete() {
    let mut vvi = VectorVersionInfo::new();
    vvi.delete(1, 7);
    let history = vec![(1u64, 10u64)];

    assert!(!vvi.is_visible(7, 10, &history));
    assert!(vvi.is_visible(7, 5, &history));
}

#[test]
fn uncommitted_inserter_hides_row() {
    let mut vvi = VectorVersionInfo::new();
    vvi.insert(9, 3);
    // Transaction 9 never committed.
    assert!(!vvi.is_visible(3, 100, &[(1, 1)]));
    assert!(vvi.is_visible(4, 100, &[(1, 1)]));
}

#[test]
fn inserters_and_deleters_are_counted_per_transaction() {
    let mut vvi = VectorVersionInfo::new();
    assert_eq!(vvi.num_inserters(), 0);
    vvi.insert(1, 1);
    vvi.insert(1, 2);
    vvi.insert(2, 3);
    vvi.delete(3, 1);
    assert_eq!(vvi.num_inserters(), 2);
    assert_eq!(vvi.num_deleters(), 1);
}

#[test]
fn rows_beyond_tracked_vectors_are_visible_and_unrecorded() {
    let mut vi = VersionInfo::new(1024);
    vi.delete(1, 5000);
    assert!(vi.is_visible(5000, 100, &[(1, 1)]));
    vi.delete(1, 1023);
    assert!(!vi.is_visible(1023, 100, &[(1, 1)]));
}

#[test]
fn first_history_entry_decides_commit() {
    assert!(is_txn_committed_before(1, 10, &[(1, 10), (1, 50)]));
    assert!(!is_txn_committed_before(1, 10, &[(1, 50), (1, 10)]));
    assert!(!is_txn_committed_before(2, 10, &[(1, 1)]));
    assert!(!is_txn_committed_before(2, 10, &[]));
}
