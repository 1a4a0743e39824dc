use kuzu_storage::shadow_file::ShadowFile;

#[test]
fn shadows_are_created_replaced_and_listed() {
    let mut f = ShadowFile::new();
    assert!(!f.has_shadow(1));
    f.create_shadow(1, vec![1]);
    f.create_shadow(2, vec![2]);
    f.create_shadow(1, vec![9]);
    assert!(f.has_shadow(1));
    let e = f.get_shadow(1).unwrap();
    assert_eq!(e.original_page_id, 1);
    assert_eq!(e.shadow_data, vec![9]);
    assert!(e.is_dirty);
    let mut dirty: Vec<u64> = f.dirty_pages().iter().map(|e| e.original_page_id).collect();
    dirty.sort();
    assert_eq!(dirty, vec![1, 2]);
    f.clear();
    assert!(f.get_shadow(2).is_none());
    assert!(f.dirty_pages().is_empty());
}
