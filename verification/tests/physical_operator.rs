use kuzu_storage::physical_operator::{NodeSemiMask, PhysicalHashJoin};
use kuzu_storage::chunk::{value_hash, values_equal, DataChunk};
use kuzu_storage::physical_operator::{
    unwind_chunks, merge_optional_chunks, merge_union_chunks, PhysicalAntiJoin, PhysicalCrossProduct, PhysicalIntersect, PhysicalLimit, PhysicalSemiJoin,
    PhysicalSemiMasker,
};
use kuzu_storage::physical_operator::PhysicalOrderBy;
use kuzu_storage::sorting::compare_values;
use kuzu_storage::value_codec::Value;

#[test]
fn test_semi_mask_uninitialized_passes_all() {
    let mask = NodeSemiMask::new(0);
    assert!(mask.is_masked(999), "Uninitialized mask should pass all offsets");
}

/// Whether the shared set of `mask` holds `x`.
fn collected(mask: &NodeSemiMask, x: u64) -> bool {
    let mut m = mask.clone();
    m.finalize();
    m.is_masked(x)
}

#[test]
fn clones_of_a_mask_share_its_offsets() {
    let mut m = NodeSemiMask::new(0);
    let m2 = m.clone();
    m2.mask(1);
    m2.mask(3);
    assert!(m.is_masked(999));
    m.finalize();
    assert!(m.is_masked(1));
    assert!(m.is_masked(3));
    assert!(!m.is_masked(2));
}

#[test]
fn finalized_mask_passes_only_masked_offsets() {
    let mut mask = NodeSemiMask::new(7);
    mask.mask(3);
    mask.mask(5);
    assert!(mask.is_masked(4));
    mask.finalize();
    assert!(mask.is_masked(3));
    assert!(mask.is_masked(5));
    assert!(!mask.is_masked(4));
    assert_eq!(mask.table_id, 7);
    let copy = mask.clone();
    assert!(copy.initialized);
    assert!(copy.is_masked(5));
    assert!(!copy.is_masked(6));
}

#[test]
fn hash_join_carries_its_semi_mask() {
    let join = PhysicalHashJoin::new(vec![0], vec![1]);
    assert!(join.semi_mask.is_none());
    let join = join.with_semi_mask(NodeSemiMask::new(2));
    assert_eq!(join.build_columns, vec![0]);
    assert_eq!(join.probe_columns, vec![1]);
    assert_eq!(join.semi_mask.as_ref().map(|m| m.table_id), Some(2));
}


fn make_i64_chunk(values: &[i64]) -> DataChunk {
    DataChunk::new(vec![values.iter().map(|v| Value::Int64(*v)).collect()])
}

fn column_i64(chunk: &DataChunk, col: usize) -> Vec<Option<i64>> {
    chunk.fields[col]
        .iter()
        .map(|v| match v {
            Value::Int64(x) => Some(*x),
            _ => None,
        })
        .collect()
}

#[test]
fn test_hash_join_basic() {
    let join = PhysicalHashJoin { build_columns: vec![0], probe_columns: vec![0], semi_mask: None };
    // Build side: keys [1, 2, 3]; probe side: keys [2, 3, 4]
    let result = join.execute(vec![make_i64_chunk(&[1, 2, 3]), make_i64_chunk(&[2, 3, 4])]).unwrap();
    // Should match 2 and 3 (2 rows)
    assert!(!result.is_empty());
    assert_eq!(result[0].size, 2);
    assert_eq!(column_i64(&result[0], 0), vec![Some(2), Some(3)]);
    assert_eq!(column_i64(&result[0], 1), vec![Some(2), Some(3)]);
}

#[test]
fn test_hash_join_no_match() {
    let join = PhysicalHashJoin { build_columns: vec![0], probe_columns: vec![0], semi_mask: None };
    let result = join.execute(vec![make_i64_chunk(&[1, 2]), make_i64_chunk(&[3, 4])]).unwrap();
    assert!(result.is_empty()); // No matches
}

#[test]
fn test_hash_join_empty_build() {
    let join = PhysicalHashJoin { build_columns: vec![0], probe_columns: vec![0], semi_mask: None };
    let result = join.execute(vec![make_i64_chunk(&[]), make_i64_chunk(&[1, 2, 3])]).unwrap();
    assert!(result.is_empty()); // Empty build → no matches
}

#[test]
fn test_hash_join_null_keys_no_match() {
    // SQL semantics: NULL keys never match in a join
    let join = PhysicalHashJoin { build_columns: vec![0], probe_columns: vec![0], semi_mask: None };
    let build = DataChunk::new(vec![vec![Value::Int64(1), Value::Null, Value::Int64(3)]]);
    let probe = DataChunk::new(vec![vec![Value::Int64(1), Value::Int64(3), Value::Null]]);
    let result = join.execute(vec![build, probe]).unwrap();
    // Should match 1→1 and 3→3; NULLs do not match each other
    assert!(!result.is_empty(), "Expected at least one matching row");
    assert_eq!(result[0].size, 2);
}

#[test]
fn test_hash_join_all_null_keys() {
    let join = PhysicalHashJoin { build_columns: vec![0], probe_columns: vec![0], semi_mask: None };
    let build = DataChunk::new(vec![vec![Value::Null, Value::Null, Value::Null]]);
    let probe = DataChunk::new(vec![vec![Value::Null, Value::Null, Value::Null]]);
    let result = join.execute(vec![build, probe]).unwrap();
    // NULL = NULL is unknown in SQL, so no matches
    assert!(result.is_empty());
}

#[test]
fn test_hash_join_with_semi_mask_collects_build_keys() {
    let mask = NodeSemiMask::new(0);
    let join = PhysicalHashJoin {
        build_columns: vec![0],
        probe_columns: vec![0],
        semi_mask: Some(mask.clone()),
    };
    let result = join.execute(vec![make_i64_chunk(&[5, 15, 25]), make_i64_chunk(&[5, 15, 35])]).unwrap();
    // Should match 5→5 and 15→15 (2 rows). 35 has no build match.
    assert!(!result.is_empty(), "Expected 2 matching rows");
    // The mask collected the build-side keys, seen through the original handle.
    assert!(collected(&mask, 5), "Offset 5 should be in mask");
    assert!(collected(&mask, 15), "Offset 15 should be in mask");
    assert!(collected(&mask, 25), "Offset 25 should be in mask");
}

#[test]
fn test_hash_join_non_overlapping_ids_returns_zero_rows() {
    let join = PhysicalHashJoin { build_columns: vec![0], probe_columns: vec![0], semi_mask: None };
    let result = join.execute(vec![make_i64_chunk(&[1, 2]), make_i64_chunk(&[3, 4])]).unwrap();
    assert!(
        result.is_empty() || result.iter().all(|c| c.size == 0),
        "HashJoin on non-overlapping IDs must produce 0 rows"
    );
}

#[test]
fn hash_join_emits_every_build_match_in_order() {
    let join = PhysicalHashJoin { build_columns: vec![0], probe_columns: vec![1], semi_mask: None };
    let build = DataChunk::new(vec![
        vec![Value::Int64(7), Value::Int64(8), Value::Int64(7)],
        vec![Value::Int64(100), Value::Int64(200), Value::Int64(300)],
    ]);
    let probe = DataChunk::new(vec![
        vec![Value::String("a".into()), Value::String("b".into())],
        vec![Value::Int64(7), Value::Int64(9)],
    ]);
    let result = join.execute(vec![build, probe]).unwrap();
    assert_eq!(result.len(), 1);
    let out = &result[0];
    assert_eq!(out.size, 2);
    assert_eq!(out.fields.len(), 4);
    assert_eq!(column_i64(out, 1), vec![Some(100), Some(300)]);
    assert_eq!(out.fields[2], vec![Value::String("a".into()), Value::String("a".into())]);
}

#[test]
fn hash_join_passes_a_single_chunk_through() {
    let join = PhysicalHashJoin::new(vec![0], vec![0]);
    let result = join.execute(vec![make_i64_chunk(&[1, 2])]).unwrap();
    assert_eq!(result.len(), 1);
    assert_eq!(result[0].size, 2);
}

#[test]
fn test_semi_masker_basic() {
    let mask = NodeSemiMask::new(0);
    let masker = PhysicalSemiMasker { key_column: 0, mask: mask.clone() };
    let input = vec![make_i64_chunk(&[10, 20, 30])];
    let result = masker.execute(input).unwrap();
    assert_eq!(result.len(), 1, "SemiMasker should pass through input");
    assert!(collected(&mask, 10), "Offset 10 should be masked");
    assert!(collected(&mask, 20), "Offset 20 should be masked");
    assert!(collected(&mask, 30), "Offset 30 should be masked");
    assert!(!collected(&mask, 40), "Offset 40 should NOT be masked");
}

#[test]
fn semi_masker_rejects_a_missing_key_column() {
    let masker = PhysicalSemiMasker { key_column: 2, mask: NodeSemiMask::new(0) };
    let err = masker.execute(vec![make_i64_chunk(&[1])]).unwrap_err();
    assert_eq!(err, "SemiMasker: key_column 2 out of bounds (1 fields)");
}

#[test]
fn semi_masker_takes_node_id_offsets() {
    let masker = PhysicalSemiMasker { key_column: 0, mask: NodeSemiMask::new(0) };
    let chunk = DataChunk::new(vec![vec![
        Value::InternalID { table_id: 3, offset: 42 },
        Value::Null,
        Value::String("x".into()),
    ]]);
    masker.execute(vec![chunk]).unwrap();
    assert!(collected(&masker.mask, 42));
    assert!(!collected(&masker.mask, 3));
    assert!(!collected(&masker.mask, 0));
}

#[test]
fn test_limit() {
    let limit = PhysicalLimit { limit: 3, offset: 0 };
    let input = vec![make_i64_chunk(&[0, 1, 2, 3, 4, 5, 6, 7, 8, 9])];
    let result = limit.execute(input).unwrap();
    assert_eq!(result[0].size, 3);
}

#[test]
fn test_limit_with_offset() {
    let limit = PhysicalLimit { limit: 2, offset: 5 };
    let input = vec![make_i64_chunk(&[0, 1, 2, 3, 4, 5, 6, 7, 8, 9])];
    let result = limit.execute(input).unwrap();
    assert!(!result.is_empty());
    assert_eq!(column_i64(&result[0], 0), vec![Some(5), Some(6)]);
}

#[test]
fn test_limit_zero() {
    // LIMIT 0 should return empty result
    let limit = PhysicalLimit { limit: 0, offset: 0 };
    let result = limit.execute(vec![make_i64_chunk(&[0, 1, 2, 3, 4])]).unwrap();
    assert!(result.is_empty());
}

#[test]
fn test_limit_offset_exceeds_total() {
    // OFFSET larger than total rows → empty result
    let limit = PhysicalLimit { limit: 5, offset: 100 };
    let result = limit.execute(vec![make_i64_chunk(&[0, 1, 2, 3, 4])]).unwrap();
    assert!(result.is_empty());
}

#[test]
fn limit_spans_chunks() {
    let limit = PhysicalLimit { limit: 4, offset: 2 };
    let input = vec![make_i64_chunk(&[0, 1]), make_i64_chunk(&[2, 3]), make_i64_chunk(&[4, 5, 6])];
    let result = limit.execute(input).unwrap();
    // The first chunk is skipped, the second passes whole, the third in part.
    assert_eq!(result.len(), 2);
    assert_eq!(column_i64(&result[0], 0), vec![Some(2), Some(3)]);
    assert_eq!(column_i64(&result[1], 0), vec![Some(4), Some(5)]);
}

#[test]
fn test_cross_product_basic() {
    let cross = PhysicalCrossProduct;
    // Left: [1, 2, 3], Right: [4, 5]
    let result = cross.execute(vec![make_i64_chunk(&[1, 2, 3]), make_i64_chunk(&[4, 5])]).unwrap();
    assert_eq!(result.len(), 1);
    assert_eq!(result[0].size, 6); // 3 × 2 = 6
    assert_eq!(
        column_i64(&result[0], 0),
        vec![Some(1), Some(1), Some(2), Some(2), Some(3), Some(3)]
    );
}

#[test]
fn test_cross_product_multi_column() {
    let cross = PhysicalCrossProduct;
    // Left: [{1, "a"}, {2, "b"}], Right: [{10}, {20}]
    let left = DataChunk::new(vec![
        vec![Value::Int64(1), Value::Int64(2)],
        vec![Value::String("a".into()), Value::String("b".into())],
    ]);
    let right = make_i64_chunk(&[10, 20]);
    let result = cross.execute(vec![left, right]).unwrap();
    assert_eq!(result.len(), 1);
    assert_eq!(result[0].size, 4); // 2 × 2 = 4
    assert_eq!(column_i64(&result[0], 0), vec![Some(1), Some(1), Some(2), Some(2)]);
    assert_eq!(column_i64(&result[0], 2), vec![Some(10), Some(20), Some(10), Some(20)]);
}

#[test]
fn test_cross_product_empty_left() {
    let cross = PhysicalCrossProduct;
    let result = cross.execute(vec![make_i64_chunk(&[]), make_i64_chunk(&[1, 2])]).unwrap();
    assert_eq!(result.len(), 0);
}

#[test]
fn test_cross_product_empty_right() {
    let cross = PhysicalCrossProduct;
    let result = cross.execute(vec![make_i64_chunk(&[1, 2, 3]), make_i64_chunk(&[])]).unwrap();
    assert!(result.is_empty() || result[0].size == 0);
}

#[test]
fn test_cross_product_multi_chunk() {
    let cross = PhysicalCrossProduct;
    let result = cross
        .execute(vec![make_i64_chunk(&[1, 2]), make_i64_chunk(&[3]), make_i64_chunk(&[4, 5])])
        .unwrap();
    assert_eq!(result[0].size, 6);
}

#[test]
fn test_semi_join_basic() {
    let semi = PhysicalSemiJoin { build_columns: vec![0], probe_columns: vec![0] };
    let result = semi.execute(vec![make_i64_chunk(&[2, 3]), make_i64_chunk(&[1, 2, 3])]).unwrap();
    assert_eq!(result[0].size, 2); // [2, 3] match
    assert_eq!(column_i64(&result[0], 0), vec![Some(2), Some(3)]);
}

#[test]
fn test_semi_join_no_match() {
    let semi = PhysicalSemiJoin { build_columns: vec![0], probe_columns: vec![0] };
    let result = semi.execute(vec![make_i64_chunk(&[4, 5]), make_i64_chunk(&[1, 2, 3])]).unwrap();
    assert!(result.is_empty() || result[0].size == 0);
}

#[test]
fn test_anti_join_basic() {
    let anti = PhysicalAntiJoin { build_columns: vec![0], probe_columns: vec![0] };
    let result = anti.execute(vec![make_i64_chunk(&[2, 3]), make_i64_chunk(&[1, 2, 3])]).unwrap();
    assert_eq!(result[0].size, 1); // Only [1] has no match
    assert_eq!(column_i64(&result[0], 0), vec![Some(1)]);
}

#[test]
fn test_anti_join_all_match() {
    let anti = PhysicalAntiJoin { build_columns: vec![0], probe_columns: vec![0] };
    let result = anti.execute(vec![make_i64_chunk(&[1, 2, 3]), make_i64_chunk(&[1, 2, 3])]).unwrap();
    assert!(result.is_empty() || result[0].size == 0);
}

#[test]
fn test_semi_join_empty_build() {
    let semi = PhysicalSemiJoin { build_columns: vec![0], probe_columns: vec![0] };
    let result = semi.execute(vec![make_i64_chunk(&[]), make_i64_chunk(&[1, 2, 3])]).unwrap();
    assert!(result.is_empty() || result[0].size == 0);
}

#[test]
fn anti_join_drops_null_probe_keys() {
    let anti = PhysicalAntiJoin { build_columns: vec![0], probe_columns: vec![0] };
    let probe = DataChunk::new(vec![vec![Value::Null, Value::Int64(9)]]);
    let result = anti.execute(vec![make_i64_chunk(&[1]), probe]).unwrap();
    assert_eq!(column_i64(&result[0], 0), vec![Some(9)]);
}

#[test]
fn test_intersect_basic() {
    let intersect = PhysicalIntersect { num_build_sides: 2, probe_key_col: 0, build_key_col: 0 };
    let input = vec![make_i64_chunk(&[1, 2, 3]), make_i64_chunk(&[2, 3, 4]), make_i64_chunk(&[2, 3])];
    let result = intersect.execute(input).unwrap();
    // Keys 2 and 3 exist in both build sides → both should produce output
    assert!(!result.is_empty(), "Expected non-empty result");
    assert!(result[0].size > 0, "Expected at least one output row");
    assert_eq!(result[0].size, 2);
}

#[test]
fn test_intersect_no_common() {
    let intersect = PhysicalIntersect { num_build_sides: 2, probe_key_col: 0, build_key_col: 0 };
    let input = vec![
        make_i64_chunk(&[1, 2, 3]),
        make_i64_chunk(&[4, 5, 6]),
        make_i64_chunk(&[1, 2, 3, 4, 5, 6]),
    ];
    let result = intersect.execute(input).unwrap();
    assert!(result.is_empty() || result[0].size == 0);
}

#[test]
fn test_intersect_probe_key_missing() {
    let intersect = PhysicalIntersect { num_build_sides: 2, probe_key_col: 0, build_key_col: 0 };
    let input = vec![make_i64_chunk(&[1, 3]), make_i64_chunk(&[3, 5]), make_i64_chunk(&[1, 5])];
    let result = intersect.execute(input).unwrap();
    assert!(result.is_empty() || result[0].size == 0);
}

#[test]
fn test_intersect_single_build_side() {
    let intersect = PhysicalIntersect { num_build_sides: 1, probe_key_col: 0, build_key_col: 0 };
    let input = vec![make_i64_chunk(&[2, 3]), make_i64_chunk(&[1, 2, 3, 4])];
    let result = intersect.execute(input).unwrap();
    assert!(!result.is_empty(), "Expected non-empty result for single build side");
    assert!(result[0].size > 0, "Expected matching rows");
}

#[test]
fn test_intersect_empty_build() {
    let intersect = PhysicalIntersect { num_build_sides: 2, probe_key_col: 0, build_key_col: 0 };
    let input = vec![make_i64_chunk(&[]), make_i64_chunk(&[1, 2, 3]), make_i64_chunk(&[1, 2, 3])];
    let result = intersect.execute(input).unwrap();
    assert!(result.is_empty() || result[0].size == 0);
}

#[test]
fn test_intersect_no_probe() {
    let intersect = PhysicalIntersect { num_build_sides: 2, probe_key_col: 0, build_key_col: 0 };
    let input = vec![make_i64_chunk(&[1, 2, 3]), make_i64_chunk(&[2, 3, 4]), make_i64_chunk(&[])];
    let result = intersect.execute(input).unwrap();
    assert!(result.is_empty() || result[0].size == 0);
}

#[test]
fn test_intersect_three_build_sides() {
    let intersect = PhysicalIntersect { num_build_sides: 3, probe_key_col: 0, build_key_col: 0 };
    let input = vec![
        make_i64_chunk(&[1, 3, 5]),
        make_i64_chunk(&[2, 3, 6]),
        make_i64_chunk(&[3, 4, 7]),
        make_i64_chunk(&[3]),
    ];
    let result = intersect.execute(input).unwrap();
    assert!(!result.is_empty(), "Expected match for key 3 in all three build sides");
    assert!(result[0].size > 0);
}

#[test]
fn intersect_rows_carry_the_probe_row_and_one_payload_per_side() {
    let intersect = PhysicalIntersect { num_build_sides: 2, probe_key_col: 0, build_key_col: 0 };
    let input = vec![make_i64_chunk(&[1, 2, 3]), make_i64_chunk(&[3, 2]), make_i64_chunk(&[3])];
    let result = intersect.execute(input).unwrap();
    let out = &result[0];
    assert_eq!(out.size, 1);
    assert_eq!(out.fields.len(), 3);
    assert_eq!(column_i64(out, 0), vec![Some(3)]);
    // Each side's first hit is at row 2 and row 0 of its first chunk; the
    // payload is read from the input chunk at that position.
    assert_eq!(column_i64(out, 1), vec![Some(3)]);
    assert_eq!(column_i64(out, 2), vec![Some(1)]);
}

#[test]
fn equal_values_hash_alike() {
    let a = Value::List(vec![Value::Int64(1), Value::String("x".into())]);
    let b = Value::List(vec![Value::Int64(1), Value::String("x".into())]);
    let c = Value::List(vec![Value::Int64(2), Value::String("x".into())]);
    assert!(values_equal(&a, &b));
    assert!(!values_equal(&a, &c));
    assert_eq!(value_hash(&a), value_hash(&b));
    assert_ne!(value_hash(&Value::Int64(1)), value_hash(&Value::Int32(1)));
}

#[test]
fn float_equality_follows_ieee() {
    let zero = Value::Double(0.0f64.to_bits());
    let neg_zero = Value::Double((-0.0f64).to_bits());
    let nan = Value::Double(f64::NAN.to_bits());
    assert!(values_equal(&zero, &neg_zero));
    assert!(!values_equal(&nan, &nan));
    assert!(values_equal(&Value::Float(1.5f32.to_bits()), &Value::Float(1.5f32.to_bits())));
}

#[test]
fn test_union_all_basic() {
    let result = merge_union_chunks(vec![make_i64_chunk(&[1, 2, 3])], vec![make_i64_chunk(&[4, 5])], true).unwrap();
    assert_eq!(result.len(), 1);
    assert_eq!(result[0].size, 5);
    assert_eq!(column_i64(&result[0], 0), vec![Some(1), Some(2), Some(3), Some(4), Some(5)]);
}

#[test]
fn test_union_all_multiple_chunks() {
    let left = vec![make_i64_chunk(&[1, 2]), make_i64_chunk(&[3])];
    let right = vec![make_i64_chunk(&[4, 5])];
    let result = merge_union_chunks(left, right, true).unwrap();
    assert_eq!(result.len(), 1);
    assert_eq!(result[0].size, 5);
    assert_eq!(result[0].fields[0][0], Value::Int64(1));
    assert_eq!(result[0].fields[0][4], Value::Int64(5));
}

#[test]
fn test_union_distinct_dedup() {
    let result = merge_union_chunks(vec![make_i64_chunk(&[1, 2, 3])], vec![make_i64_chunk(&[2, 3, 4])], false).unwrap();
    assert_eq!(result.len(), 1);
    // Distinct values: {1, 2, 3, 4} → 4 rows
    assert_eq!(result[0].size, 4);
    assert_eq!(column_i64(&result[0], 0), vec![Some(1), Some(2), Some(3), Some(4)]);
}

#[test]
fn test_union_column_mismatch() {
    let left = vec![DataChunk::new(vec![vec![], vec![]])];
    let right = vec![DataChunk::new(vec![vec![]])];
    let result = merge_union_chunks(left, right, true);
    assert!(result.is_err());
    assert!(result.unwrap_err().contains("column count mismatch"));
}

#[test]
fn test_union_empty_left() {
    let result = merge_union_chunks(vec![], vec![make_i64_chunk(&[42, 43])], true).unwrap();
    assert_eq!(result.len(), 1);
    assert_eq!(result[0].size, 2);
    assert_eq!(result[0].fields[0][0], Value::Int64(42));
}

#[test]
fn test_union_empty_right() {
    let result = merge_union_chunks(vec![make_i64_chunk(&[99, 100])], vec![], true).unwrap();
    assert_eq!(result.len(), 1);
    assert_eq!(result[0].size, 2);
}

#[test]
fn test_union_all_multi_column() {
    let left = vec![DataChunk::new(vec![
        vec![Value::Int64(1), Value::Int64(2)],
        vec![Value::String("hello".into()), Value::String("world".into())],
    ])];
    let right = vec![DataChunk::new(vec![vec![Value::Int64(3)], vec![Value::String("foo".into())]])];
    let result = merge_union_chunks(left, right, true).unwrap();
    assert_eq!(result.len(), 1);
    assert_eq!(result[0].size, 3);
    assert_eq!(column_i64(&result[0], 0), vec![Some(1), Some(2), Some(3)]);
}

#[test]
fn test_union_distinct_all_duplicates() {
    let result = merge_union_chunks(vec![make_i64_chunk(&[1, 1])], vec![make_i64_chunk(&[1, 1])], false).unwrap();
    assert_eq!(result[0].size, 1);
    assert_eq!(result[0].fields[0][0], Value::Int64(1));
}

#[test]
fn test_union_all_empty_chunks() {
    let result = merge_union_chunks(vec![make_i64_chunk(&[])], vec![make_i64_chunk(&[42])], true).unwrap();
    assert_eq!(result[0].size, 1);
    assert_eq!(result[0].fields[0][0], Value::Int64(42));
}

#[test]
fn union_mismatch_names_both_counts() {
    let left = vec![make_i64_chunk(&[1])];
    let right = vec![make_i64_chunk(&[2]), DataChunk::new(vec![vec![], vec![], vec![]])];
    let err = merge_union_chunks(left, right, false).unwrap_err();
    assert_eq!(err, "UNION column count mismatch: left has 1 columns, right has 3 columns");
}

#[test]
fn test_order_by_ascending() {
    let order = PhysicalOrderBy { sort_keys: vec![(0, true)] };
    let result = order.execute(vec![make_i64_chunk(&[5, 3, 1, 4, 2])]).unwrap();
    assert!(!result.is_empty());
    assert_eq!(result[0].fields[0][0], Value::Int64(1)); // Min should be first
    assert_eq!(column_i64(&result[0], 0), vec![Some(1), Some(2), Some(3), Some(4), Some(5)]);
}

#[test]
fn test_order_by_descending() {
    let order = PhysicalOrderBy { sort_keys: vec![(0, false)] };
    let result = order.execute(vec![make_i64_chunk(&[5, 3, 1, 4, 2])]).unwrap();
    assert!(!result.is_empty());
    assert_eq!(result[0].fields[0][0], Value::Int64(5)); // Max should be first
}

#[test]
fn test_order_by_empty_input() {
    let order = PhysicalOrderBy { sort_keys: vec![(0, true)] };
    let result = order.execute(vec![]).unwrap();
    assert!(result.is_empty());
}

#[test]
fn test_order_by_with_nulls() {
    // NULLs should sort last (ASC)
    let order = PhysicalOrderBy { sort_keys: vec![(0, true)] };
    let chunk = DataChunk::new(vec![vec![
        Value::Int64(3),
        Value::Null,
        Value::Int64(1),
        Value::Int64(2),
        Value::Null,
    ]]);
    let result = order.execute(vec![chunk]).unwrap();
    assert!(!result.is_empty());
    assert_eq!(result[0].fields[0][0], Value::Int64(1));
    assert_eq!(result[0].fields[0][1], Value::Int64(2));
    assert_eq!(result[0].fields[0][2], Value::Int64(3));
    assert_eq!(result[0].fields[0][3], Value::Null);
    assert_eq!(result[0].fields[0][4], Value::Null);
}

#[test]
fn order_by_is_stable_and_uses_later_keys_for_ties() {
    let order = PhysicalOrderBy { sort_keys: vec![(0, true), (1, false)] };
    let chunk = DataChunk::new(vec![
        vec![Value::Int64(2), Value::Int64(1), Value::Int64(2), Value::Int64(1)],
        vec![Value::Int64(10), Value::Int64(20), Value::Int64(30), Value::Int64(20)],
        vec![Value::Int64(0), Value::Int64(1), Value::Int64(2), Value::Int64(3)],
    ]);
    let result = order.execute(vec![chunk]).unwrap();
    assert_eq!(column_i64(&result[0], 0), vec![Some(1), Some(1), Some(2), Some(2)]);
    assert_eq!(column_i64(&result[0], 1), vec![Some(20), Some(20), Some(30), Some(10)]);
    // The two equal rows keep their input order.
    assert_eq!(column_i64(&result[0], 2), vec![Some(1), Some(3), Some(2), Some(0)]);
}

#[test]
fn order_by_cuts_output_into_runs_of_a_hundred_rows() {
    let order = PhysicalOrderBy { sort_keys: vec![(0, false)] };
    let values: Vec<i64> = (0..250).collect();
    let result = order.execute(vec![make_i64_chunk(&values)]).unwrap();
    assert_eq!(result.len(), 3);
    assert_eq!(result[0].size, 100);
    assert_eq!(result[2].size, 50);
    assert_eq!(result[0].fields[0][0], Value::Int64(249));
    assert_eq!(result[2].fields[0][49], Value::Int64(0));
}

#[test]
fn order_by_passes_input_without_rows_through() {
    let order = PhysicalOrderBy { sort_keys: vec![(0, true)] };
    let result = order.execute(vec![make_i64_chunk(&[])]).unwrap();
    assert_eq!(result.len(), 1);
    assert_eq!(result[0].size, 0);
}

#[test]
fn value_comparison_orders_text_and_floats() {
    assert_eq!(compare_values(&Value::String("abc".into()), &Value::String("abd".into())), -1);
    assert_eq!(compare_values(&Value::String("ab".into()), &Value::String("a".into())), 1);
    assert_eq!(compare_values(&Value::Double((-1.5f64).to_bits()), &Value::Double(0.5f64.to_bits())), -1);
    assert_eq!(compare_values(&Value::Double(0.0f64.to_bits()), &Value::Double((-0.0f64).to_bits())), 0);
    assert_eq!(compare_values(&Value::Double(f64::NAN.to_bits()), &Value::Double(1.0f64.to_bits())), 0);
    assert_eq!(compare_values(&Value::Null, &Value::Int64(1)), 1);
    assert_eq!(compare_values(&Value::Int64(1), &Value::String("a".into())), 0);
}

#[test]
fn optional_merge_pads_missing_right_rows_with_nulls() {
    let left = vec![make_i64_chunk(&[1, 2, 3])];
    let right = vec![DataChunk::new(vec![
        vec![Value::String("a".into())],
        vec![Value::Int64(10)],
    ])];
    let result = merge_optional_chunks(left, right).unwrap();
    assert_eq!(result.len(), 1);
    let out = &result[0];
    assert_eq!(out.size, 3);
    assert_eq!(out.fields.len(), 3);
    assert_eq!(column_i64(out, 0), vec![Some(1), Some(2), Some(3)]);
    assert_eq!(out.fields[1], vec![Value::String("a".into()), Value::Null, Value::Null]);
    assert_eq!(out.fields[2], vec![Value::Int64(10), Value::Null, Value::Null]);
}

#[test]
fn optional_merge_with_an_empty_side_keeps_the_left_side() {
    let result = merge_optional_chunks(vec![make_i64_chunk(&[7])], vec![]).unwrap();
    assert_eq!(result.len(), 1);
    assert_eq!(result[0].fields[0], vec![Value::Int64(7)]);
    let result = merge_optional_chunks(vec![], vec![make_i64_chunk(&[7])]).unwrap();
    assert!(result.is_empty());
}

#[test]
fn unwind_repeats_each_input_row_per_item() {
    let input = vec![DataChunk::new(vec![vec![Value::Int64(1), Value::Int64(2)]])];
    let list = Value::List(vec![Value::String("x".into()), Value::String("y".into())]);
    let result = unwind_chunks(&input, &list).unwrap();
    assert_eq!(result.len(), 2);
    assert_eq!(result[1].size, 2);
    assert_eq!(result[1].fields[0], vec![Value::Int64(2), Value::Int64(2)]);
    assert_eq!(result[1].fields[1], vec![Value::String("x".into()), Value::String("y".into())]);
}

#[test]
fn unwind_without_input_lists_the_items() {
    let list = Value::List(vec![Value::Int64(4), Value::Int64(5), Value::Int64(6)]);
    let result = unwind_chunks(&vec![], &list).unwrap();
    assert_eq!(result.len(), 1);
    assert_eq!(column_i64(&result[0], 0), vec![Some(4), Some(5), Some(6)]);
    assert!(unwind_chunks(&vec![], &Value::List(vec![])).unwrap().is_empty());
    assert_eq!(
        unwind_chunks(&vec![], &Value::Int64(1)).unwrap_err(),
        "UNWIND expression must evaluate to a list"
    );
}
