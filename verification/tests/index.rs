use kuzu_storage::index::{check_primary_key, HashIndex};

#[test]
fn hash_index_insert_lookup_delete() {
    let mut idx = HashIndex::new();
    assert!(idx.is_empty());
    idx.insert("alice".to_string(), 0);
    idx.insert("bob".to_string(), 1);
    assert_eq!(idx.len(), 2);
    assert_eq!(idx.lookup(&"alice".to_string()), Some(0));
    assert_eq!(idx.lookup(&"carol".to_string()), None);
    idx.insert("alice".to_string(), 7);
    assert_eq!(idx.lookup(&"alice".to_string()), Some(7));
    assert_eq!(idx.len(), 2);
    idx.delete(&"alice".to_string());
    assert_eq!(idx.lookup(&"alice".to_string()), None);
    assert_eq!(idx.len(), 1);
    assert!(!idx.is_empty());
    let d = HashIndex::default();
    assert_eq!(d.len(), 0);
}

#[test]
fn hash_index_duplicate_key() {
    let mut idx = HashIndex::new();
    assert!(check_primary_key(&idx, &"42".to_string(), "person").is_ok());
    idx.insert("42".to_string(), 0);
    assert_eq!(
        check_primary_key(&idx, &"42".to_string(), "person"),
        Err("Duplicate primary key value: '42' in table 'person'".to_string())
    );
}
