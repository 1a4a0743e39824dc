use kuzu_storage::hyperloglog::HyperLogLog;

#[test]
fn new_sketch_has_no_nonzero_register() {
    let hll = HyperLogLog::new();
    assert_eq!(hll.non_zero_registers(), 0);
    assert_eq!(hll.registers().len(), 64);
    assert!(hll.registers().iter().all(|&r| r == 0));
}

#[test]
fn insert_hash_sets_rank_of_register() {
    let mut hll = HyperLogLog::new();
    // Low 6 bits choose the register; the rank is one plus the trailing
    // zeros of the remaining bits (with a sentinel at bit 58).
    hll.insert_hash(64); // register 0, remaining bits ...0001 -> rank 1
    assert_eq!(hll.registers()[0], 1);
    hll.insert_hash(128); // register 0, remaining bits ...0010 -> rank 2
    assert_eq!(hll.registers()[0], 2);
    hll.insert_hash(64); // smaller rank: register unchanged
    assert_eq!(hll.registers()[0], 2);
    hll.insert_hash(1); // register 1, remaining bits all zero -> rank 59
    assert_eq!(hll.registers()[1], 59);
    assert_eq!(hll.non_zero_registers(), 2);
}

#[test]
fn merge_keeps_register_maxima() {
    let mut a = HyperLogLog::new();
    let mut b = HyperLogLog::new();
    a.insert_hash(64 + 3); // register 3 rank 1
    b.insert_hash(256 + 3); // register 3 rank 3
    b.insert_hash(5 + 64); // register 5 rank 1
    a.merge(&b);
    assert_eq!(a.registers()[3], 3);
    assert_eq!(a.registers()[5], 1);
    assert_eq!(a.non_zero_registers(), 2);
}

#[test]
fn insertion_order_does_not_matter() {
    let mut a = HyperLogLog::new();
    let mut b = HyperLogLog::new();
    for h in [7u64, 1 << 20, 12345, 99, 7] {
        a.insert_hash(h);
    }
    for h in [99u64, 12345, 7, 1 << 20] {
        b.insert_hash(h);
    }
    assert_eq!(a.registers(), b.registers());
}

#[test]
fn clear_resets_and_values_are_hashed() {
    let mut hll = HyperLogLog::default();
    for i in 0..1_000i64 {
        hll.insert(&i);
    }
    assert!(hll.non_zero_registers() > 0);
    hll.clear();
    assert_eq!(hll.non_zero_registers(), 0);
}

#[test]
fn merged_sketches_equal_the_sketch_of_both_inputs() {
    let xs: Vec<u64> = (0..500u64).map(|x| x.wrapping_mul(0x9E37_79B9_7F4A_7C15)).collect();
    let ys: Vec<u64> = (250..750u64).map(|x| x.wrapping_mul(0x9E37_79B9_7F4A_7C15)).collect();
    let mut a = HyperLogLog::new();
    let mut b = HyperLogLog::new();
    let mut c = HyperLogLog::new();
    for &h in &xs {
        a.insert_hash(h);
        c.insert_hash(h);
    }
    for &h in &ys {
        b.insert_hash(h);
        c.insert_hash(h);
    }
    a.merge(&b);
    assert_eq!(a.registers(), c.registers());
}
