use kuzu_storage::roaring_bitmap::{RoaringBitmap, ARRAY_MAX_SIZE};

fn collect_iter(rb: &RoaringBitmap) -> Vec<u32> {
    let mut it = rb.iter();
    let mut vals = Vec::new();
    while let Some(v) = it.next() {
        vals.push(v);
    }
    vals
}

#[test]
fn test_empty() {
    let rb = RoaringBitmap::new();
    assert!(rb.is_empty());
    assert_eq!(rb.len(), 0);
    assert!(!rb.contains(0));
}

#[test]
fn test_add_and_contains() {
    let mut rb = RoaringBitmap::new();
    assert!(rb.add(42));
    assert!(rb.contains(42));
    assert!(!rb.contains(0));
    assert_eq!(rb.len(), 1);
}

#[test]
fn test_add_duplicate() {
    let mut rb = RoaringBitmap::new();
    assert!(rb.add(100));
    assert!(!rb.add(100)); // duplicate
    assert_eq!(rb.len(), 1);
}

#[test]
fn test_remove() {
    let mut rb = RoaringBitmap::new();
    rb.add(42);
    assert!(rb.remove(42));
    assert!(!rb.contains(42));
    assert!(rb.is_empty());
}

#[test]
fn test_remove_nonexistent() {
    let mut rb = RoaringBitmap::new();
    assert!(!rb.remove(999));
}

#[test]
fn test_multi_containers() {
    let mut rb = RoaringBitmap::new();
    // Values across different high 16-bit keys
    rb.add(0);
    rb.add(70000); // key 1
    rb.add(200000); // key 3
    assert_eq!(rb.len(), 3);
    assert!(rb.contains(0));
    assert!(rb.contains(70000));
    assert!(rb.contains(200000));
}

#[test]
fn test_auto_upgrade_to_bitmap() {
    let mut rb = RoaringBitmap::new();
    // Add values in a single container to force Array→Bitmap upgrade
    for i in 0..ARRAY_MAX_SIZE as u32 + 100 {
        rb.add(i);
    }
    assert_eq!(rb.len(), ARRAY_MAX_SIZE + 100);
    assert!(rb.contains(0));
    assert!(rb.contains(4096));
    assert!(rb.contains(4195));
}

#[test]
fn test_union() {
    let mut a = RoaringBitmap::new();
    a.add(1);
    a.add(2);
    a.add(3);

    let mut b = RoaringBitmap::new();
    b.add(3);
    b.add(4);
    b.add(5);

    let c = a.union(&b);
    assert_eq!(c.len(), 5);
    assert!(c.contains(1));
    assert!(c.contains(5));
}

#[test]
fn test_union_empty() {
    let a = RoaringBitmap::new();
    let mut b = RoaringBitmap::new();
    b.add(10);

    let c = a.union(&b);
    assert_eq!(c.len(), 1);
    assert!(c.contains(10));
}

#[test]
fn test_intersection() {
    let mut a = RoaringBitmap::new();
    a.add(1);
    a.add(2);
    a.add(3);

    let mut b = RoaringBitmap::new();
    b.add(2);
    b.add(3);
    b.add(4);

    let c = a.intersection(&b);
    assert_eq!(c.len(), 2);
    assert!(c.contains(2));
    assert!(c.contains(3));
    assert!(!c.contains(1));
    assert!(!c.contains(4));
}

#[test]
fn test_intersection_disjoint() {
    let mut a = RoaringBitmap::new();
    a.add(1);
    a.add(2);
    let mut b = RoaringBitmap::new();
    b.add(3);
    b.add(4);
    let c = a.intersection(&b);
    assert!(c.is_empty());
}

#[test]
fn test_difference() {
    let mut a = RoaringBitmap::new();
    a.add(1);
    a.add(2);
    a.add(3);
    a.add(4);

    let mut b = RoaringBitmap::new();
    b.add(2);
    b.add(4);

    let c = a.difference(&b);
    assert_eq!(c.len(), 2);
    assert!(c.contains(1));
    assert!(c.contains(3));
}

#[test]
fn test_difference_all() {
    let mut a = RoaringBitmap::new();
    a.add(5);
    a.add(6);
    let mut b = RoaringBitmap::new();
    b.add(5);
    b.add(6);
    let c = a.difference(&b);
    assert!(c.is_empty());
}

#[test]
fn test_iter() {
    let mut rb = RoaringBitmap::new();
    rb.add(3);
    rb.add(1);
    rb.add(2);
    let vals: Vec<u32> = collect_iter(&rb);
    assert_eq!(vals, vec![1, 2, 3]);
}

#[test]
fn test_iter_multi_container() {
    let mut rb = RoaringBitmap::new();
    rb.add(0);
    rb.add(100000);
    rb.add(50000);
    let vals: Vec<u32> = collect_iter(&rb);
    // Keys: 0, 0, 1 (sorted by key, then by low index)
    assert_eq!(vals, vec![0, 50000, 100000]);
}

#[test]
fn test_from_sorted() {
    let values = vec![10u32, 20, 30, 100000, 200000];
    let rb = RoaringBitmap::from_sorted(&values);
    assert_eq!(rb.len(), 5);
    for v in &values {
        assert!(rb.contains(*v));
    }
    let collected: Vec<u32> = collect_iter(&rb);
    assert_eq!(collected, values);
}

#[test]
fn test_from_sorted_empty() {
    let rb = RoaringBitmap::from_sorted(&[]);
    assert!(rb.is_empty());
}

#[test]
fn test_to_vec() {
    let mut rb = RoaringBitmap::new();
    rb.add(3);
    rb.add(1);
    rb.add(2);
    assert_eq!(rb.to_vec(), vec![1, 2, 3]);
}

#[test]
fn test_union_dense_chunks() {
    let mut a = RoaringBitmap::new();
    let mut b = RoaringBitmap::new();
    // Fill container 0 densely in both
    for i in 0..5000u32 {
        a.add(i);
    }
    for i in 3000..8000u32 {
        b.add(i);
    }
    let c = a.union(&b);
    assert_eq!(c.len(), 8000);
    assert!(c.contains(0));
    assert!(c.contains(7999));
}

#[test]
fn test_intersection_dense_chunks() {
    let mut a = RoaringBitmap::new();
    let mut b = RoaringBitmap::new();
    for i in 0..5000u32 {
        a.add(i);
    }
    for i in 3000..8000u32 {
        b.add(i);
    }
    let c = a.intersection(&b);
    assert_eq!(c.len(), 2000); // 3000..5000
    assert!(c.contains(3000));
    assert!(c.contains(4999));
    assert!(!c.contains(2999));
    assert!(!c.contains(5000));
}

#[test]
fn test_remove_after_upgrade() {
    let mut rb = RoaringBitmap::new();
    for i in 0..5000u32 {
        rb.add(i);
    }
    // Remove some elements from the bitmap container
    for i in 0..1000u32 {
        rb.remove(i);
    }
    assert_eq!(rb.len(), 4000);
    assert!(!rb.contains(0));
    assert!(rb.contains(1000));
}

#[test]
fn test_union_with() {
    let mut a = RoaringBitmap::new();
    a.add(1);
    a.add(2);
    let mut b = RoaringBitmap::new();
    b.add(2);
    b.add(3);
    a.union_with(&b);
    assert_eq!(a.len(), 3);
    assert!(a.contains(1));
    assert!(a.contains(2));
    assert!(a.contains(3));
}

#[test]
fn test_intersect_with() {
    let mut a = RoaringBitmap::new();
    a.add(1);
    a.add(2);
    a.add(3);
    let mut b = RoaringBitmap::new();
    b.add(2);
    b.add(3);
    b.add(4);
    a.intersect_with(&b);
    assert_eq!(a.len(), 2);
    assert!(a.contains(2));
    assert!(a.contains(3));
    assert!(!a.contains(1));
}

#[test]
fn test_intersect_with_disjoint_containers() {
    let mut a = RoaringBitmap::new();
    a.add(1);
    a.add(100000); // key 1
    let mut b = RoaringBitmap::new();
    b.add(2);
    b.add(3);
    a.intersect_with(&b);
    assert!(a.is_empty());
}

#[test]
fn test_difference_with() {
    let mut a = RoaringBitmap::new();
    a.add(1);
    a.add(2);
    a.add(3);
    let mut b = RoaringBitmap::new();
    b.add(2);
    a.difference_with(&b);
    assert_eq!(a.len(), 2);
    assert!(a.contains(1));
    assert!(a.contains(3));
    assert!(!a.contains(2));
}

#[test]
fn from_sorted_holds_repeats_once() {
    let rb = RoaringBitmap::from_sorted(&[5, 5, 7]);
    assert_eq!(rb.len(), 2);
    assert_eq!(rb.to_vec(), vec![5, 7]);
}

#[test]
fn to_vec_and_iter_list_alike() {
    let mut rb = RoaringBitmap::new();
    for v in [7u32, 3, 100_000, 65_536, 3, 1] {
        rb.add(v);
    }
    assert_eq!(rb.to_vec(), collect_iter(&rb));
    assert_eq!(rb.to_vec(), vec![1, 3, 7, 65_536, 100_000]);
}
