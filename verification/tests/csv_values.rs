use kuzu_storage::csv_reader::CsvReaderError;
use kuzu_storage::csv_values::{
    check_field_count, coerce_bool, coerce_date, coerce_string_to_value, field_text,
    parse_interval_str, parse_list, parse_map, parse_struct, parse_timestamp_micros, Interval,
    LogicalTypeID,
};
use kuzu_storage::value_codec::Value;

fn coerce(field: &str, t: LogicalTypeID) -> Result<Value, CsvReaderError> {
    coerce_string_to_value(field, t, 2, 1, "col")
}

fn coercion_parts(e: CsvReaderError) -> (usize, usize, String, String, String, String) {
    match e {
        CsvReaderError::TypeCoercion { line, column, column_name, value, expected_type, message } => {
            (line, column, column_name, value, expected_type, message)
        }
        other => panic!("unexpected {:?}", other),
    }
}

#[test]
fn csv_dates_and_timestamps() {
    assert_eq!(coerce("1990-05-15", LogicalTypeID::Date).unwrap(), Value::Date(7439));
    assert_eq!(coerce(" 1970-01-01 ", LogicalTypeID::Date).unwrap(), Value::Date(0));
    assert_eq!(
        coerce("2024-01-20 14:30:00.123456", LogicalTypeID::Timestamp).unwrap(),
        Value::Timestamp(1705761000123456)
    );
    assert_eq!(parse_timestamp_micros("1969-12-31 23:59:59.5"), Some(-500000));
    assert_eq!(parse_timestamp_micros("1970-01-02"), Some(86_400_000_000));
    assert_eq!(parse_timestamp_micros("1970-01-01 00:01"), Some(60_000_000));
    assert_eq!(parse_timestamp_micros("1970-01-01 00:00:00.1234567x"), Some(123456));
    assert_eq!(parse_timestamp_micros("1970-01-01 00:00:00.12a"), None);
    assert_eq!(parse_timestamp_micros("1970-01-01 00"), None);
    assert_eq!(parse_timestamp_micros("1970-13-01"), None);
    assert_eq!(
        coerce("1970-01-01 00:00:01.9", LogicalTypeID::TimestampSec).unwrap(),
        Value::TimestampSec(1)
    );
    assert_eq!(
        coerce("1969-12-31 23:59:59.5", LogicalTypeID::TimestampSec).unwrap(),
        Value::TimestampSec(0)
    );
    assert_eq!(
        coerce("1970-01-01 00:00:00.000002", LogicalTypeID::TimestampNs).unwrap(),
        Value::TimestampNs(2000)
    );
    assert_eq!(coerce("1970-01-01", LogicalTypeID::TimestampTz).unwrap(), Value::TimestampTz(0));
}

#[test]
fn csv_date_errors() {
    let msg = |s: &str| coercion_parts(coerce_date(s, 3, 4, "d").unwrap_err()).5;
    assert_eq!(msg("1990/05/15"), "expected YYYY-MM-DD format");
    assert_eq!(msg("x-05-15"), "invalid year");
    assert_eq!(msg("1990--15"), "invalid month");
    assert_eq!(msg("1990-05-"), "invalid day");
    assert_eq!(msg("1990-00-15"), "invalid calendar date");
    let (line, column, name, value, ty, _) = coercion_parts(coerce_date("bad", 3, 4, "d").unwrap_err());
    assert_eq!((line, column, name.as_str(), value.as_str(), ty.as_str()), (3, 4, "d", "bad", "DATE"));
    let (_, _, _, _, ty, m) = coercion_parts(coerce("2024-01-20 25", LogicalTypeID::Timestamp).unwrap_err());
    assert_eq!(ty, "TIMESTAMP");
    assert_eq!(m, "expected YYYY-MM-DD HH:MM:SS[.ffffff] format");
}

#[test]
fn csv_interval() {
    assert_eq!(
        parse_interval_str("1 year 2 months 3 days 4 hours 5 minutes 6 seconds"),
        Some(Interval { months: 14, days: 3, micros: 14_706_000_000 })
    );
    assert_eq!(
        parse_interval_str("  2 Milliseconds 7 us 1 microsecond 9 weeks 5"),
        Some(Interval { months: 0, days: 0, micros: 2008 })
    );
    assert_eq!(parse_interval_str("x days"), None);
    assert_eq!(parse_interval_str(""), Some(Interval { months: 0, days: 0, micros: 0 }));
    assert_eq!(parse_interval_str("9223372036854775807 hours"), None);
    assert_eq!(
        coerce("1 year 2 months 3 days 4 hours 5 minutes 6 seconds", LogicalTypeID::Interval).unwrap(),
        Value::Interval { months: 14, days: 3, micros: 14_706_000_000 }
    );
    let (_, _, _, _, ty, _) = coercion_parts(coerce("two days", LogicalTypeID::Interval).unwrap_err());
    assert_eq!(ty, "INTERVAL");
}

#[test]
fn csv_integers_and_bools() {
    assert_eq!(coerce(" 42 ", LogicalTypeID::Int64).unwrap(), Value::Int64(42));
    assert_eq!(coerce("-7", LogicalTypeID::Serial).unwrap(), Value::Int64(-7));
    assert_eq!(coerce("+5", LogicalTypeID::UInt8).unwrap(), Value::UInt8(5));
    assert_eq!(coerce("255", LogicalTypeID::UInt8).unwrap(), Value::UInt8(255));
    assert_eq!(coerce("-128", LogicalTypeID::Int8).unwrap(), Value::Int8(-128));
    assert_eq!(coerce("18446744073709551615", LogicalTypeID::UInt64).unwrap(), Value::UInt64(u64::MAX));
    assert_eq!(coerce("65535", LogicalTypeID::UInt16).unwrap(), Value::UInt16(65535));
    assert_eq!(coerce("4294967295", LogicalTypeID::UInt32).unwrap(), Value::UInt32(u32::MAX));
    assert_eq!(coerce("-32768", LogicalTypeID::Int16).unwrap(), Value::Int16(-32768));
    assert_eq!(coerce("2147483647", LogicalTypeID::Int32).unwrap(), Value::Int32(i32::MAX));
    let (line, column, name, value, ty, m) = coercion_parts(coerce("256", LogicalTypeID::UInt8).unwrap_err());
    assert_eq!((line, column, name.as_str()), (2, 1, "col"));
    assert_eq!((value.as_str(), ty.as_str(), m.as_str()), ("256", "UINT8", "cannot parse '256' as UINT8"));
    let (_, _, _, value, ty, m) = coercion_parts(coerce("abc", LogicalTypeID::Int64).unwrap_err());
    assert_eq!((value.as_str(), ty.as_str(), m.as_str()), ("abc", "INT64", "cannot parse 'abc' as INT64"));
    assert!(coerce("-1", LogicalTypeID::UInt32).is_err());
    assert!(coerce("+", LogicalTypeID::Int32).is_err());
    assert_eq!(coerce("YES", LogicalTypeID::Bool).unwrap(), Value::Bool(true));
    assert_eq!(coerce("f", LogicalTypeID::Bool).unwrap(), Value::Bool(false));
    let (_, _, _, value, ty, m) = coercion_parts(coerce_bool("MAYBE", 1, 0, "b").unwrap_err());
    assert_eq!(value, "maybe");
    assert_eq!(ty, "BOOL");
    assert_eq!(m, "expected true/false, 1/0, yes/no, or t/f");
}

#[test]
fn csv_null_and_text() {
    assert_eq!(coerce("", LogicalTypeID::Int64).unwrap(), Value::Null);
    assert_eq!(coerce("  NuLl ", LogicalTypeID::Date).unwrap(), Value::Null);
    assert_eq!(coerce(" hi there ", LogicalTypeID::String).unwrap(), Value::String("hi there".to_string()));
    assert_eq!(coerce("x", LogicalTypeID::Other).unwrap(), Value::String("x".to_string()));
    assert_eq!(field_text(" a "), Some("a".to_string()));
    assert_eq!(field_text(" NULL"), None);
    assert_eq!(coerce("\\xAA\\xBB", LogicalTypeID::Blob).unwrap(), Value::Blob(vec![0xAA, 0xBB]));
}

#[test]
fn csv_list_struct_map() {
    assert_eq!(
        parse_list("[a,b,c]"),
        vec![Value::String("a".into()), Value::String("b".into()), Value::String("c".into())]
    );
    assert_eq!(parse_list("[]"), vec![]);
    assert_eq!(parse_list("[ ]"), vec![]);
    assert_eq!(parse_list("[\"x,y\", null, ]"), vec![Value::String("x,y".into()), Value::Null, Value::Null]);
    let fields = parse_struct("{key1: val1, key2: val2}");
    assert_eq!(fields.len(), 2);
    assert_eq!(fields[0].0, "key1");
    assert_eq!(fields[0].1, Value::String("val1".into()));
    assert_eq!(fields[1], ("key2".to_string(), Value::String("val2".into())));
    assert_eq!(
        parse_struct("{a: {b: 1, c: 2}, d, e: null}"),
        vec![
            ("a".to_string(), Value::String("{b: 1, c: 2}".into())),
            ("d".to_string(), Value::Null),
            ("e".to_string(), Value::Null),
        ]
    );
    assert_eq!(
        parse_map("{k=v, null=x, lone}"),
        vec![
            (Value::String("k".into()), Value::String("v".into())),
            (Value::Null, Value::String("x".into())),
            (Value::String("lone".into()), Value::Null),
        ]
    );
    assert_eq!(parse_map("{}"), vec![]);
    match coerce("[a,b,c]", LogicalTypeID::List).unwrap() {
        Value::List(items) => assert_eq!(items.len(), 3),
        other => panic!("unexpected {:?}", other),
    }
    match coerce("{key1: val1, key2: val2}", LogicalTypeID::Node).unwrap() {
        Value::Struct(f) => assert_eq!(f[0].0, "key1"),
        other => panic!("unexpected {:?}", other),
    }
    match coerce("{a=1}", LogicalTypeID::MapType).unwrap() {
        Value::MapValue(m) => assert_eq!(m.len(), 1),
        other => panic!("unexpected {:?}", other),
    }
}

#[test]
fn csv_field_count() {
    assert!(check_field_count(3, 2, 2).is_ok());
    assert!(matches!(
        check_field_count(3, 2, 5),
        Err(CsvReaderError::ColumnCountMismatch { line: 3, expected: 2, actual: 5 })
    ));
}
