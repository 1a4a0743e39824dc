use kuzu_storage::value_codec::{
    deserialize_value, encodable_value, roundtrip_value, serialize_value, text_reads_back, DecodeError, Value,
};

fn roundtrip(v: &Value) -> Value {
    let buf = serialize_value(v);
    let mut pos = 0;
    let out = deserialize_value(&buf, &mut pos).unwrap();
    assert_eq!(pos, buf.len());
    out
}

#[test]
fn test_serialize_deserialize_primitives() {
    let values = vec![
        Value::Null,
        Value::Bool(true),
        Value::Bool(false),
        Value::Int64(42),
        Value::Int64(-1),
        Value::Int32(12345),
        Value::Int16(-32768),
        Value::Int8(127),
        Value::UInt64(u64::MAX),
        Value::UInt32(99999),
        Value::UInt16(65535),
        Value::UInt8(255),
        Value::Int128(i128::MAX),
        Value::Double(3.15f64.to_bits()),
        Value::Float(std::f32::consts::E.to_bits()),
    ];
    for v in &values {
        let buf = serialize_value(v);
        let mut pos = 0;
        let deserialized = deserialize_value(&buf, &mut pos).unwrap();
        assert_eq!(&deserialized, v, "roundtrip failed for value: {:?}", v);
    }
}

#[test]
fn test_serialize_deserialize_string() {
    let v = Value::String("hello world!".to_string());
    let buf = serialize_value(&v);
    let mut pos = 0;
    let deserialized = deserialize_value(&buf, &mut pos).unwrap();
    assert_eq!(deserialized, v);
}

#[test]
fn test_serialize_deserialize_blob() {
    let v = Value::Blob(vec![0xDE, 0xAD, 0xBE, 0xEF]);
    let buf = serialize_value(&v);
    let mut pos = 0;
    let deserialized = deserialize_value(&buf, &mut pos).unwrap();
    assert_eq!(deserialized, v);
}

#[test]
fn test_serialize_deserialize_date_time() {
    let vals = vec![
        Value::Date(12345),
        Value::Timestamp(1_700_000_000_000_000),
        Value::TimestampTz(1_700_000_000_000_000),
        Value::Interval { months: 12, days: 30, micros: 1_000_000 },
        Value::InternalID { table_id: 10, offset: 42 },
    ];
    for v in &vals {
        let buf = serialize_value(v);
        let mut pos = 0;
        let deserialized = deserialize_value(&buf, &mut pos).unwrap();
        assert_eq!(&deserialized, v, "failed for {:?}", v);
    }
}

#[test]
fn test_serialize_deserialize_list() {
    let v = Value::List(vec![Value::Int64(1), Value::Int64(2), Value::Int64(3)]);
    let buf = serialize_value(&v);
    let mut pos = 0;
    let deserialized = deserialize_value(&buf, &mut pos).unwrap();
    assert_eq!(deserialized, v);
}

#[test]
fn test_serialize_deserialize_struct() {
    let v = Value::Struct(vec![
        ("name".to_string(), Value::String("Alice".to_string())),
        ("age".to_string(), Value::Int64(30)),
    ]);
    let buf = serialize_value(&v);
    let mut pos = 0;
    let deserialized = deserialize_value(&buf, &mut pos).unwrap();
    assert_eq!(deserialized, v);
}

#[test]
fn value_codec_int32_bytes_exact() {
    assert_eq!(serialize_value(&Value::Int32(-2)), vec![3, 0xFE, 0xFF, 0xFF, 0xFF]);
    assert_eq!(serialize_value(&Value::Null), vec![0]);
    assert_eq!(serialize_value(&Value::Bool(true)), vec![1, 1]);
}

#[test]
fn value_codec_string_is_length_prefixed() {
    assert_eq!(
        serialize_value(&Value::String("hé".to_string())),
        vec![13, 3, 0, 0, 0, b'h', 0xC3, 0xA9]
    );
}

#[test]
fn value_codec_map_union_json_roundtrip() {
    let m = Value::MapValue(vec![
        (Value::String("k".to_string()), Value::UInt128(u128::MAX)),
        (Value::Int8(-5), Value::List(vec![])),
    ]);
    assert_eq!(roundtrip(&m), m);
    let u = Value::Union("tag".to_string(), Box::new(Value::DTime(-7)));
    assert_eq!(roundtrip(&u), u);
    let j = Value::Json("{\"a\": [1, 2]}".to_string());
    assert_eq!(roundtrip(&j), j);
    let ts = Value::TimestampSec(-1);
    assert_eq!(roundtrip(&ts), ts);
}

#[test]
fn value_codec_reads_consecutive_values() {
    let mut buf = serialize_value(&Value::UInt16(7));
    buf.extend(serialize_value(&Value::String("x".to_string())));
    let mut pos = 0;
    assert_eq!(deserialize_value(&buf, &mut pos).unwrap(), Value::UInt16(7));
    assert_eq!(pos, 3);
    assert_eq!(deserialize_value(&buf, &mut pos).unwrap(), Value::String("x".to_string()));
    assert_eq!(pos, buf.len());
}

#[test]
fn value_codec_errors() {
    let mut pos = 0;
    assert_eq!(deserialize_value(&[], &mut pos), Err(DecodeError::UnexpectedEof));
    let mut pos = 0;
    assert_eq!(deserialize_value(&[2, 1, 2], &mut pos), Err(DecodeError::UnexpectedEof));
    let mut pos = 0;
    assert_eq!(deserialize_value(&[13, 5, 0, 0, 0, b'a'], &mut pos), Err(DecodeError::UnexpectedEof));
    let mut pos = 0;
    assert_eq!(deserialize_value(&[200], &mut pos), Err(DecodeError::UnknownTag(200)));
    let bad = serialize_value(&Value::Json("not json".to_string()));
    let mut pos = 0;
    assert_eq!(deserialize_value(&bad, &mut pos), Err(DecodeError::InvalidJson));
}

#[test]
fn value_codec_invalid_utf8_is_replaced() {
    let mut pos = 0;
    assert_eq!(
        deserialize_value(&[13, 1, 0, 0, 0, 0xFF], &mut pos),
        Ok(Value::String("\u{FFFD}".to_string()))
    );
}

#[test]
fn roundtrip_value_gives_back_encodable_values() {
    let v = Value::List(vec![Value::String("héllo".into()), Value::Int64(-3), Value::Blob(vec![1, 2])]);
    assert!(encodable_value(&v));
    assert_eq!(roundtrip_value(&v), Some(Value::List(vec![
        Value::String("héllo".into()),
        Value::Int64(-3),
        Value::Blob(vec![1, 2]),
    ])));
    assert!(text_reads_back("ünïcödé"));
    let s = Value::Struct(vec![("k".into(), Value::Json("{\"a\": 1}".into()))]);
    assert!(roundtrip_value(&s).is_some());
}

#[test]
fn roundtrip_value_refuses_invalid_json() {
    let v = Value::Json("{not json".into());
    assert!(!encodable_value(&v));
    assert_eq!(roundtrip_value(&v), None);
}
