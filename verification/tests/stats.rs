use kuzu_storage::stats::{ColumnStats, StatsStore, TableStats};
use std::collections::HashMap;

#[test]
fn stats_are_stored_and_looked_up() {
    let mut store = StatsStore::new();
    assert!(store.get_table_stats(1).is_none());
    let mut columns = HashMap::new();
    columns.insert(
        0u32,
        ColumnStats {
            table_id: 1,
            column_id: 0,
            num_distinct_values: 10,
            num_null_values: 2,
            min_value: Some(vec![0]),
            max_value: None,
        },
    );
    store.update_table_stats(1, TableStats { num_rows: 100, columns });
    assert_eq!(store.get_table_stats(1).unwrap().num_rows, 100);
    assert_eq!(store.get_column_stats(1, 0).unwrap().num_distinct_values, 10);
    assert!(store.get_column_stats(1, 1).is_none());
    assert!(store.get_column_stats(2, 0).is_none());
    store.update_table_stats(1, TableStats::default());
    assert_eq!(store.get_table_stats(1).unwrap().num_rows, 0);
    assert!(StatsStore::default().get_table_stats(1).is_none());
}
