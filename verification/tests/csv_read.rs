use kuzu_storage::csv_reader::{read_csv_bytes, CsvColumn, CsvReaderConfig, CsvReaderError};
use kuzu_storage::csv_values::LogicalTypeID;
use kuzu_storage::value_codec::Value;

fn float_value(t: String, ty: LogicalTypeID) -> Option<Value> {
    match ty {
        LogicalTypeID::Double => t.parse::<f64>().ok().map(|x| Value::Double(x.to_bits())),
        _ => t.parse::<f32>().ok().map(|x| Value::Float(x.to_bits())),
    }
}

fn col(name: &str, logical_type: LogicalTypeID) -> CsvColumn {
    CsvColumn { name: name.to_string(), logical_type }
}

fn test_schema() -> Vec<CsvColumn> {
    vec![
        col("name", LogicalTypeID::String),
        col("age", LogicalTypeID::Int64),
        col("score", LogicalTypeID::Double),
        col("active", LogicalTypeID::Bool),
    ]
}

fn read(text: &[u8], schema: &[CsvColumn], config: &CsvReaderConfig) -> Result<Vec<Vec<Value>>, CsvReaderError> {
    read_csv_bytes(text, schema, config, float_value)
}

#[test]
fn test_read_csv_basic() {
    let config = CsvReaderConfig::default();
    let rows = read(b"name,age,score,active\nAlice,30,95.5,true\nBob,25,87.3,false\n", &test_schema(), &config)
        .unwrap();
    assert_eq!(rows.len(), 2);
    assert_eq!(rows[0][0], Value::String("Alice".into()));
    assert_eq!(rows[0][1], Value::Int64(30));
    assert_eq!(rows[0][2], Value::Double(95.5f64.to_bits()));
    assert_eq!(rows[0][3], Value::Bool(true));
}

#[test]
fn test_read_csv_no_header() {
    let config = CsvReaderConfig { has_header: false, ..Default::default() };
    let rows = read(b"Charlie,40,91.2,true\nDiana,22,88.1,false\n", &test_schema(), &config).unwrap();
    assert_eq!(rows.len(), 2);
    assert_eq!(rows[1][0], Value::String("Diana".into()));
    assert_eq!(rows[1][1], Value::Int64(22));
}

#[test]
fn test_read_csv_custom_delimiter() {
    let config = CsvReaderConfig { delimiter: b'|', ..Default::default() };
    let rows = read(b"name|age|score|active\nEve|35|77.5|true\n", &test_schema(), &config).unwrap();
    assert_eq!(rows.len(), 1);
    assert_eq!(rows[0][0], Value::String("Eve".into()));
    assert_eq!(rows[0][1], Value::Int64(35));
}

#[test]
fn test_read_csv_quoted_fields() {
    let config = CsvReaderConfig::default();
    let rows = read(b"name,age,score,active\n\"Frank, Jr.\",28,99.9,true\n", &test_schema(), &config).unwrap();
    assert_eq!(rows.len(), 1);
    assert_eq!(rows[0][0], Value::String("Frank, Jr.".into()));
}

#[test]
fn test_read_csv_null_values() {
    let config = CsvReaderConfig::default();
    let rows = read(b"name,age,score,active\nGrace,,,\n", &test_schema(), &config).unwrap();
    assert_eq!(rows.len(), 1);
    assert_eq!(rows[0][0], Value::String("Grace".into()));
    assert_eq!(rows[0][1], Value::Null);
    assert_eq!(rows[0][2], Value::Null);
    assert_eq!(rows[0][3], Value::Null);
}

#[test]
fn test_read_csv_column_count_mismatch() {
    let config = CsvReaderConfig::default();
    let result = read(b"name,age,score,active\nAlice,30\n", &test_schema(), &config);
    assert!(result.is_err());
    match result.unwrap_err() {
        CsvReaderError::ColumnCountMismatch { line, expected, actual } => {
            assert_eq!(line, 2);
            assert_eq!(expected, 4);
            assert_eq!(actual, 2);
        }
        _ => panic!("Expected ColumnCountMismatch"),
    }
}

#[test]
fn test_read_csv_type_coercion_error() {
    let config = CsvReaderConfig::default();
    let result = read(b"name,age,score,active\nAlice,not_a_number,95.5,true\n", &test_schema(), &config);
    assert!(result.is_err());
    match result.unwrap_err() {
        CsvReaderError::TypeCoercion { line, column, .. } => {
            assert_eq!(line, 2);
            assert_eq!(column, 1);
        }
        _ => panic!("Expected TypeCoercion"),
    }
}

#[test]
fn test_read_csv_dates_and_timestamps() {
    let schema = vec![
        col("name", LogicalTypeID::String),
        col("birth", LogicalTypeID::Date),
        col("updated", LogicalTypeID::Timestamp),
    ];
    let config = CsvReaderConfig::default();
    let rows = read(b"name,birth,updated\nAlice,1990-05-15,2024-01-20 14:30:00.123456\n", &schema, &config).unwrap();
    assert_eq!(rows.len(), 1);
    assert_eq!(rows[0][0], Value::String("Alice".into()));
    if let Value::Date(d) = &rows[0][1] {
        assert_eq!(*d, 7439);
    } else {
        panic!("Expected Date");
    }
    if let Value::Timestamp(ts) = &rows[0][2] {
        assert!(*ts > 0);
    } else {
        panic!("Expected Timestamp");
    }
}

#[test]
fn test_read_csv_interval() {
    let schema = vec![col("name", LogicalTypeID::String), col("duration", LogicalTypeID::Interval)];
    let config = CsvReaderConfig::default();
    let rows = read(b"name,duration\nTask1,1 year 2 months 3 days 4 hours 5 minutes 6 seconds\n", &schema, &config)
        .unwrap();
    assert_eq!(rows.len(), 1);
    if let Value::Interval { months, days, micros } = &rows[0][1] {
        assert_eq!(*months, 14);
        assert_eq!(*days, 3);
        assert_eq!(*micros, 14_706_000_000);
    } else {
        panic!("Expected Interval");
    }
}

#[test]
fn test_read_csv_list_and_struct() {
    let schema = vec![
        col("name", LogicalTypeID::String),
        col("tags", LogicalTypeID::List),
        col("metadata", LogicalTypeID::Struct),
    ];
    let config = CsvReaderConfig::default();
    let rows = read(b"name,tags,metadata\nItem1,\"[a,b,c]\",\"{key1: val1, key2: val2}\"\n", &schema, &config)
        .unwrap();
    assert_eq!(rows.len(), 1);
    assert_eq!(rows[0][0], Value::String("Item1".into()));
    if let Value::List(items) = &rows[0][1] {
        assert_eq!(items.len(), 3);
    } else {
        panic!("Expected List");
    }
    if let Value::Struct(fields) = &rows[0][2] {
        assert_eq!(fields.len(), 2);
        assert_eq!(fields[0].0, "key1");
    } else {
        panic!("Expected Struct");
    }
}

#[test]
fn test_read_csv_blob() {
    let schema = vec![col("name", LogicalTypeID::String), col("data", LogicalTypeID::Blob)];
    let config = CsvReaderConfig::default();
    let rows = read(b"name,data\nBlob1,\\xAA\\xBB\\xCC\\xDD\n", &schema, &config).unwrap();
    assert_eq!(rows.len(), 1);
    if let Value::Blob(bytes) = &rows[0][1] {
        assert_eq!(bytes, &[0xAA, 0xBB, 0xCC, 0xDD]);
    } else {
        panic!("Expected Blob");
    }
}

#[test]
fn test_read_csv_uint_types() {
    let schema = vec![
        col("small", LogicalTypeID::UInt8),
        col("medium", LogicalTypeID::UInt32),
        col("large", LogicalTypeID::UInt64),
    ];
    let config = CsvReaderConfig::default();
    let rows = read(b"small,medium,large\n100,1000,100000\n", &schema, &config).unwrap();
    assert_eq!(rows[0][0], Value::UInt8(100));
    assert_eq!(rows[0][1], Value::UInt32(1000));
    assert_eq!(rows[0][2], Value::UInt64(100000));
}

#[test]
fn header_of_another_width_is_refused_at_line_one() {
    let config = CsvReaderConfig::default();
    match read(b"name,age\nAlice,30\n", &test_schema(), &config).unwrap_err() {
        CsvReaderError::ColumnCountMismatch { line, expected, actual } => {
            assert_eq!((line, expected, actual), (1, 4, 2));
        }
        _ => panic!("Expected ColumnCountMismatch"),
    }
}

#[test]
fn unparsable_double_names_its_column() {
    let config = CsvReaderConfig::default();
    match read(b"name,age,score,active\nAl,1,high,true\n", &test_schema(), &config).unwrap_err() {
        CsvReaderError::TypeCoercion { line, column, column_name, value, expected_type, message } => {
            assert_eq!((line, column), (2, 2));
            assert_eq!(column_name, "score");
            assert_eq!(value, "high");
            assert_eq!(expected_type, "DOUBLE");
            assert_eq!(message, "cannot parse 'high' as DOUBLE");
        }
        _ => panic!("Expected TypeCoercion"),
    }
}

#[test]
fn invalid_utf8_record_is_a_csv_error_with_its_line() {
    let config = CsvReaderConfig::default();
    let data: &[u8] = b"name,age,score,active\nAl,1,2.0,true\n\xff\xfe,1,2.0,true\n";
    match read(data, &test_schema(), &config).unwrap_err() {
        CsvReaderError::CsvError(m) => assert!(m.starts_with("Line 3: "), "{m}"),
        _ => panic!("Expected CsvError"),
    }
}

#[test]
fn first_failing_record_decides_the_error() {
    let config = CsvReaderConfig::default();
    let data: &[u8] = b"name,age,score,active\nAl,x,2.0,true\nBo,1\n";
    match read(data, &test_schema(), &config).unwrap_err() {
        CsvReaderError::TypeCoercion { line, column, .. } => assert_eq!((line, column), (2, 1)),
        _ => panic!("Expected TypeCoercion"),
    }
}

#[test]
fn empty_text_without_header_has_no_rows() {
    let config = CsvReaderConfig { has_header: false, ..Default::default() };
    assert!(read(b"", &test_schema(), &config).unwrap().is_empty());
}
