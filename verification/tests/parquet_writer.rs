use kuzu_storage::parquet_writer::{infer_column_type, ParquetColumnType};
use kuzu_storage::value_codec::Value;

#[test]
fn parquet_column_types() {
    let rows = vec![
        vec![Value::Null, Value::Int32(1)],
        vec![Value::String("a".into())],
        vec![Value::Int64(5), Value::Timestamp(9)],
    ];
    assert_eq!(infer_column_type(&rows, 0), ParquetColumnType::Utf8);
    assert_eq!(infer_column_type(&rows, 1), ParquetColumnType::Int32);
    assert_eq!(infer_column_type(&rows, 2), ParquetColumnType::Utf8);
    let ts = vec![vec![Value::List(vec![])], vec![Value::Timestamp(3)]];
    assert_eq!(infer_column_type(&ts, 0), ParquetColumnType::Int64);
    let all_null: Vec<Vec<Value>> = vec![vec![Value::Null], vec![Value::Null]];
    assert_eq!(infer_column_type(&all_null, 0), ParquetColumnType::Utf8);
    assert_eq!(infer_column_type(&[], 0), ParquetColumnType::Utf8);
    let mixed = vec![vec![Value::Double(0), Value::Blob(vec![1])], vec![Value::Bool(true), Value::Date(1)]];
    assert_eq!(infer_column_type(&mixed, 0), ParquetColumnType::Float64);
    assert_eq!(infer_column_type(&mixed, 1), ParquetColumnType::Binary);
}
