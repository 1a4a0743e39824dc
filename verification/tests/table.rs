use kuzu_storage::csv_values::LogicalTypeID;
use kuzu_storage::table::{ColumnDefinition, RelTable};
use kuzu_storage::value_codec::Value;

fn d(x: f64) -> Value {
    Value::Double(x.to_bits())
}

fn make_rel_table() -> RelTable {
    RelTable::new(
        1,
        "Knows".into(),
        0,
        1,
        vec![
            ColumnDefinition { name: "since".into(), logical_type: LogicalTypeID::Int64, is_primary_key: false },
            ColumnDefinition { name: "weight".into(), logical_type: LogicalTypeID::Double, is_primary_key: false },
        ],
    )
}

#[test]
fn test_rel_table_empty() {
    let rel = make_rel_table();
    assert_eq!(rel.num_rows, 0);
    assert!(rel.edges.is_empty());
    assert!(rel.fwd_adj.is_empty());
    assert!(rel.rev_adj.is_empty());
}

#[test]
fn test_rel_insert_basic() {
    let mut rel = make_rel_table();
    rel.insert_rel(0, 1, vec![Value::Int64(2020), d(0.5)]).unwrap();
    rel.insert_rel(0, 2, vec![Value::Int64(2021), d(0.8)]).unwrap();
    rel.insert_rel(1, 0, vec![Value::Int64(2020), d(0.3)]).unwrap();
    assert_eq!(rel.num_rows, 3);
    assert_eq!(rel.edges.len(), 3);
    let fwd = rel.scan_adj_list(0);
    assert_eq!(fwd.len(), 2);
    assert_eq!(fwd[0], (1, 0));
    assert_eq!(fwd[1], (2, 1));
    let fwd1 = rel.scan_adj_list(1);
    assert_eq!(fwd1.len(), 1);
    assert_eq!(fwd1[0], (0, 2));
}

#[test]
fn test_rel_reverse_adjacency() {
    let mut rel = make_rel_table();
    rel.insert_rel(0, 5, vec![Value::Int64(2022), d(1.0)]).unwrap();
    rel.insert_rel(3, 5, vec![Value::Int64(2023), d(1.5)]).unwrap();
    let rev = rel.scan_rev_adj_list(5);
    assert_eq!(rev.len(), 2);
    assert_eq!(rev[0], (0, 0));
    assert_eq!(rev[1], (3, 1));
}

#[test]
fn test_rel_get_edge_properties() {
    let mut rel = make_rel_table();
    rel.insert_rel(0, 1, vec![Value::Int64(2020), d(0.5)]).unwrap();
    rel.insert_rel(2, 3, vec![Value::Int64(2021), d(0.9)]).unwrap();
    let props0 = rel.get_edge_properties(0);
    assert_eq!(props0, vec![Value::Int64(2020), d(0.5)]);
    let props1 = rel.get_edge_properties(1);
    assert_eq!(props1, vec![Value::Int64(2021), d(0.9)]);
}

#[test]
fn test_rel_get_outgoing_edges() {
    let mut rel = make_rel_table();
    rel.insert_rel(0, 10, vec![Value::Int64(2020), d(1.0)]).unwrap();
    rel.insert_rel(0, 20, vec![Value::Int64(2021), d(2.0)]).unwrap();
    let outgoing = rel.get_outgoing_edges(0);
    assert_eq!(outgoing.len(), 2);
    assert_eq!(outgoing[0].0, 10);
    assert_eq!(outgoing[0].1, vec![Value::Int64(2020), d(1.0)]);
    assert_eq!(outgoing[1].0, 20);
}

#[test]
fn test_rel_get_incoming_edges() {
    let mut rel = make_rel_table();
    rel.insert_rel(10, 5, vec![Value::Int64(2020), d(1.0)]).unwrap();
    rel.insert_rel(20, 5, vec![Value::Int64(2021), d(2.0)]).unwrap();
    let incoming = rel.get_incoming_edges(5);
    assert_eq!(incoming.len(), 2);
    assert_eq!(incoming[0].0, 10);
    assert_eq!(incoming[1].0, 20);
}

#[test]
fn test_rel_no_edges() {
    let rel = make_rel_table();
    assert!(rel.scan_adj_list(0).is_empty());
    assert!(rel.scan_rev_adj_list(0).is_empty());
    assert!(rel.get_outgoing_edges(0).is_empty());
    assert!(rel.get_incoming_edges(0).is_empty());
}

#[test]
fn test_rel_insert_row_legacy() {
    let mut rel = make_rel_table();
    rel.insert_row(vec![Value::Int64(2022), d(3.0)]).unwrap();
    assert_eq!(rel.num_rows, 1);
    assert_eq!(rel.edges[0], (0, 0));
    assert_eq!(rel.get_edge_properties(0), vec![Value::Int64(2022), d(3.0)]);
}

#[test]
fn test_rel_wrong_column_count() {
    let mut rel = make_rel_table();
    let result = rel.insert_rel(0, 1, vec![Value::Int64(42)]);
    assert!(result.is_err());
}

#[test]
fn test_rel_get_column() {
    let mut rel = make_rel_table();
    rel.insert_rel(0, 1, vec![Value::Int64(2020), d(1.5)]).unwrap();
    rel.insert_rel(1, 2, vec![Value::Int64(2021), d(2.5)]).unwrap();
    let since_col = rel.get_column(0).unwrap();
    assert_eq!(since_col, &[Value::Int64(2020), Value::Int64(2021)]);
    let weight_col = rel.get_column(1).unwrap();
    assert_eq!(weight_col, &[d(1.5), d(2.5)]);
}

#[test]
fn test_rel_to_column_major() {
    let mut rel = make_rel_table();
    rel.insert_rel(0, 1, vec![Value::Int64(2020), d(0.5)]).unwrap();
    rel.insert_rel(2, 3, vec![Value::Int64(2021), d(0.9)]).unwrap();
    let data = rel.to_column_major_data();
    assert_eq!(data.len(), 2);
    assert_eq!(data[0], vec![Value::Int64(2020), Value::Int64(2021)]);
    assert_eq!(data[1], vec![d(0.5), d(0.9)]);
}

#[test]
fn rel_count_mismatch_message_and_state() {
    let mut rel = make_rel_table();
    rel.insert_rel(4, 4, vec![Value::Null, Value::Null]).unwrap();
    assert_eq!(
        rel.insert_rel(0, 1, vec![Value::Int64(42)]),
        Err("Column count mismatch: expected 2 values, got 1".to_string())
    );
    assert_eq!(rel.num_rows, 1);
    assert_eq!(rel.get_column(0).unwrap().len(), 1);
    assert_eq!(rel.get_edge_properties(7), vec![Value::Null, Value::Null]);
    assert!(rel.get_column(2).is_none());
    assert_eq!(rel.scan_adj_list(4), &[(4, 0)]);
    assert_eq!(rel.scan_rev_adj_list(4), &[(4, 0)]);
}
