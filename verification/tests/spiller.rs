use kuzu_storage::node_group::ColumnChunk;
use kuzu_storage::spiller::{find_smallest, sort_key, Dedup, InMemoryRun, MergeSource, Spiller};
use kuzu_storage::value_codec::{serialize_value, Value};
use std::path::PathBuf;

#[test]
fn test_should_spill() {
    let spiller = Spiller::new(PathBuf::from("spill_tmp"), 128);
    let mut chunk = ColumnChunk::new();
    for i in 0..100 {
        chunk.append(serialize_value(&Value::Int64(i)));
    }
    assert!(spiller.should_spill(&chunk));
    let spiller_disabled = Spiller::new(PathBuf::from("spill_tmp"), 0);
    assert!(!spiller_disabled.should_spill(&chunk));
}

#[test]
fn spiller_estimate_and_threshold_edge() {
    let mut chunk = ColumnChunk::new();
    chunk.append(vec![0]);
    chunk.append(vec![0]);
    assert_eq!(Spiller::estimated_chunk_size(&chunk), 128);
    assert!(!Spiller::new(PathBuf::from("d"), 128).should_spill(&chunk));
    assert!(Spiller::new(PathBuf::from("d"), 127).should_spill(&chunk));
    assert_eq!(Spiller::estimated_chunk_size(&ColumnChunk::new()), 0);
}

#[test]
fn spiller_file_names_and_counter() {
    let mut s = Spiller::new(PathBuf::from("/tmp/x"), 10);
    assert_eq!(s.tmp_dir(), &PathBuf::from("/tmp/x"));
    assert_eq!(s.next_spill_number(), 1);
    assert_eq!(s.next_spill_number(), 2);
    assert_eq!(Spiller::spill_file_name(1), "spill_00001.jsonl");
    assert_eq!(Spiller::spill_file_name(0), "spill_00000.jsonl");
    assert_eq!(Spiller::spill_file_name(98765), "spill_98765.jsonl");
    assert_eq!(Spiller::spill_file_name(123456), "spill_123456.jsonl");
}

#[test]
fn merge_sort_key_kinds() {
    let row = vec![Value::String("a".to_string()), Value::UInt64(u64::MAX), Value::Int8(-3)];
    assert_eq!(sort_key(&row, 0), None);
    assert_eq!(sort_key(&row, 1), Some(-1));
    assert_eq!(sort_key(&row, 2), Some(-3));
    assert_eq!(sort_key(&row, 3), None);
}

#[test]
fn merge_find_smallest() {
    assert_eq!(find_smallest(&[Some(4), Some(2), Some(2)], Some(3)), MergeSource::Cursor(1));
    assert_eq!(find_smallest(&[Some(4), None], Some(3)), MergeSource::InMemory);
    assert_eq!(find_smallest(&[Some(3)], Some(3)), MergeSource::Cursor(0));
    assert_eq!(find_smallest(&[None, None], None), MergeSource::Exhausted);
    assert_eq!(find_smallest(&[], Some(-9)), MergeSource::InMemory);
}

fn merge(runs: Vec<Vec<i64>>, dedup: bool) -> Vec<i64> {
    let mut pos = vec![0usize; runs.len()];
    let mut d = Dedup::new(dedup);
    let mut out = Vec::new();
    loop {
        let keys: Vec<Option<i64>> =
            runs.iter().zip(pos.iter()).map(|(r, &p)| r.get(p).copied()).collect();
        match find_smallest(&keys, None) {
            MergeSource::Cursor(i) => {
                let k = runs[i][pos[i]];
                pos[i] += 1;
                if d.accept(Some(k)) {
                    out.push(k);
                }
            }
            _ => break,
        }
    }
    out
}

#[test]
fn merge_three_sorted_runs() {
    assert_eq!(merge(vec![vec![1, 4, 7], vec![2, 5, 8], vec![3, 6, 9]], false), (1..=9).collect::<Vec<i64>>());
}

#[test]
fn merge_with_dedup() {
    assert_eq!(merge(vec![vec![1, 2, 3], vec![2, 3, 4]], true), vec![1, 2, 3, 4]);
    assert_eq!(merge(vec![vec![1, 2, 3], vec![2, 3, 4]], false), vec![1, 2, 2, 3, 3, 4]);
}

#[test]
fn merge_in_memory_run() {
    let rows = vec![vec![Value::Int64(5)], vec![Value::String("x".to_string())]];
    let mut run = InMemoryRun::new(Some(rows), 0);
    assert_eq!(run.current_key(), Some(5));
    assert_eq!(run.take(), Some(vec![Value::Int64(5)]));
    assert_eq!(run.current_key(), None);
    assert_eq!(run.take(), Some(vec![Value::String("x".to_string())]));
    assert_eq!(run.take(), None);
    let mut empty = InMemoryRun::new(None, 0);
    assert_eq!(empty.take(), None);
    let mut d = Dedup::new(true);
    assert!(d.accept(None));
    assert!(d.accept(Some(1)));
    assert!(!d.accept(Some(1)));
    assert!(d.accept(None));
    assert!(!d.accept(Some(1)));
}
