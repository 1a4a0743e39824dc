use kuzu_storage::update_info::{UpdateInfo, VectorUpdateInfo};

#[test]
fn test_update_info_append_and_get() {
    let mut ui = UpdateInfo::new(4096);

    ui.append_update(5, 10, vec![0xAA]);

    assert_eq!(ui.get_version(5, 10), Some(vec![0xAA]));
    assert_eq!(ui.get_version(5, 20), Some(vec![0xAA]));

    assert_eq!(ui.get_version(5, 5), None);
}

#[test]
fn test_update_info_version_chain() {
    let mut ui = UpdateInfo::new(4096);

    ui.append_update(5, 10, vec![0xAA]);
    ui.append_update(5, 20, vec![0xBB]);

    assert_eq!(ui.get_version(5, 15), Some(vec![0xAA]));
    assert_eq!(ui.get_version(5, 25), Some(vec![0xBB]));
    assert_eq!(ui.get_version(5, 5), None);
}

#[test]
fn test_update_info_no_update() {
    let ui = UpdateInfo::new(4096);
    assert_eq!(ui.get_version(0, 100), None);
    assert_eq!(ui.latest(0), None);
}

#[test]
fn test_update_info_latest() {
    let mut ui = UpdateInfo::new(4096);
    ui.append_update(5, 10, vec![0xAA]);
    ui.append_update(5, 20, vec![0xBB]);
    assert_eq!(ui.latest(5), Some(vec![0xBB]));
}

#[test]
fn update_info_rows_beyond_capacity_grow_the_chains() {
    let mut ui = UpdateInfo::new(1024);
    assert_eq!(ui.num_dirty_vectors(), 0);
    ui.append_update(5000, 7, vec![1, 2, 3]);
    assert_eq!(ui.get_version(5000, 7), Some(vec![1, 2, 3]));
    assert_eq!(ui.get_version(5000, 6), None);
    assert_eq!(ui.num_dirty_vectors(), 1);
    ui.append_update(3, 1, vec![9]);
    assert_eq!(ui.num_dirty_vectors(), 2);
}

#[test]
fn update_info_rows_of_one_vector_share_a_chain() {
    let mut ui = UpdateInfo::new(2048);
    ui.append_update(1, 10, vec![1]);
    ui.append_update(2, 20, vec![2]);
    // Row 1 and row 2 live in the same vector: the newest record wins.
    assert_eq!(ui.get_version(1, 30), Some(vec![2]));
    assert_eq!(ui.get_version(1, 15), Some(vec![1]));
    // Row 1500 lives in the next vector, which has no updates.
    assert_eq!(ui.get_version(1500, 30), None);
    assert_eq!(ui.latest(1500), None);
}

#[test]
fn update_info_new_counts_started_vectors() {
    let ui = UpdateInfo::new(0);
    assert_eq!(ui.num_dirty_vectors(), 0);
    assert_eq!(ui.get_version(0, 0), None);
}

#[test]
fn vector_update_info_new_keeps_fields() {
    let older = VectorUpdateInfo::new(1, vec![1], None);
    let v = VectorUpdateInfo::new(2, vec![2, 3], Some(Box::new(older)));
    assert_eq!(v.version, 2);
    assert_eq!(v.data, vec![2, 3]);
    assert_eq!(v.prev.as_ref().map(|p| p.version), Some(1));
}

#[test]
fn latest_is_per_row() {
    let mut ui = UpdateInfo::new(4096);
    ui.append_update(5, 10, vec![0xAA]);
    ui.append_update(5, 20, vec![0xBB]);
    assert_eq!(ui.latest(5), Some(vec![0xBB]));
    assert_eq!(ui.latest(6), None);
    ui.append_update(6, 30, vec![0xCC]);
    assert_eq!(ui.latest(5), Some(vec![0xBB]));
    assert_eq!(ui.latest(6), Some(vec![0xCC]));
}
