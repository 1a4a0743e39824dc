use kuzu_storage::npy_reader::{
    element_count, extract_py_bool, extract_py_str, extract_py_tuple, parse_header, read_npy_bytes,
    read_values, NpyDtype, NpyReaderError,
};
use kuzu_storage::value_codec::Value;

fn npy_bytes(header: &str, data: &[u8]) -> Vec<u8> {
    let mut header_bytes = header.as_bytes().to_vec();
    while (10 + header_bytes.len()) % 16 != 0 {
        header_bytes.push(b' ');
    }
    header_bytes.push(b'\n');
    let header_len = header_bytes.len() as u16;
    let mut buf = vec![];
    buf.extend_from_slice(b"\x93NUMPY\x01\x00");
    buf.extend_from_slice(&header_len.to_le_bytes());
    buf.extend_from_slice(&header_bytes);
    buf.extend_from_slice(data);
    buf
}

#[test]
fn test_parse_simple_header() {
    let header_str = "{'descr': '<f8', 'fortran_order': False, 'shape': (3,), }";
    let mut header_bytes = header_str.as_bytes().to_vec();
    while (10 + header_bytes.len()) % 16 != 0 {
        header_bytes.push(b' ');
    }
    header_bytes.push(b'\n');
    let header_len = header_bytes.len() as u16;
    let data_offset: usize = 10 + header_len as usize;

    let mut buf = vec![];
    buf.extend_from_slice(b"\x93NUMPY\x01\x00");
    buf.extend_from_slice(&header_len.to_le_bytes());
    buf.extend_from_slice(&header_bytes);
    buf.resize(data_offset + 3 * 8, 0);
    buf[data_offset..data_offset + 8].copy_from_slice(&1.0f64.to_le_bytes());
    buf[data_offset + 8..data_offset + 16].copy_from_slice(&2.0f64.to_le_bytes());
    buf[data_offset + 16..data_offset + 24].copy_from_slice(&3.0f64.to_le_bytes());

    let header = parse_header(&buf).unwrap();
    assert_eq!(header.shape, vec![3]);
    assert_eq!(header.dtype, NpyDtype::Float64);

    let vals = read_values(&buf[header.data_offset..], &header.dtype, 3).unwrap();
    assert_eq!(vals.len(), 3);
    assert_eq!(vals[0], Value::Double(1.0f64.to_bits()));
    assert_eq!(vals[1], Value::Double(2.0f64.to_bits()));
    assert_eq!(vals[2], Value::Double(3.0f64.to_bits()));
}

#[test]
fn test_npy_int32() {
    let header_str = "{'descr': '<i4', 'fortran_order': False, 'shape': (2,), }";
    let mut header_bytes = header_str.as_bytes().to_vec();
    while (10 + header_bytes.len()) % 16 != 0 {
        header_bytes.push(b' ');
    }
    header_bytes.push(b'\n');
    let header_len = header_bytes.len() as u16;
    let data_offset: usize = 10 + header_len as usize;

    let mut buf = vec![];
    buf.extend_from_slice(b"\x93NUMPY\x01\x00");
    buf.extend_from_slice(&header_len.to_le_bytes());
    buf.extend_from_slice(&header_bytes);
    buf.resize(data_offset + 2 * 4, 0);
    buf[data_offset..data_offset + 4].copy_from_slice(&42i32.to_le_bytes());
    buf[data_offset + 4..data_offset + 8].copy_from_slice(&(-7i32).to_le_bytes());

    let header = parse_header(&buf).unwrap();
    let vals = read_values(&buf[header.data_offset..], &header.dtype, 2).unwrap();
    assert_eq!(vals[0], Value::Int32(42));
    assert_eq!(vals[1], Value::Int32(-7));
}

#[test]
fn npy_header_errors() {
    assert!(matches!(parse_header(b"\x93NUMPY"), Err(NpyReaderError::InvalidMagic)));
    assert!(matches!(parse_header(b"\x93NUMPX\x01\x00\x00\x00"), Err(NpyReaderError::InvalidMagic)));
    assert!(matches!(parse_header(b"\x93NUMPY\x04\x00\x00\x00"), Err(NpyReaderError::InvalidVersion)));
    assert!(matches!(parse_header(b"\x93NUMPY\x01\x00\x05\x00{}"), Err(NpyReaderError::InvalidHeader)));
    assert!(matches!(parse_header(b"\x93NUMPY\x02\x00\x01\x00\xff"), Err(NpyReaderError::InvalidHeader)));
    let fortran = npy_bytes("{'descr': '<f8', 'fortran_order': True, 'shape': (1,), }", &[]);
    match parse_header(&fortran) {
        Err(NpyReaderError::TypeNotSupported(m)) => {
            assert_eq!(m, "Fortran-ordered arrays are not supported")
        }
        other => panic!("unexpected {:?}", other),
    }
    let complex = npy_bytes("{'descr': '<c16', 'fortran_order': False, 'shape': (1,), }", &[]);
    match parse_header(&complex) {
        Err(NpyReaderError::TypeNotSupported(m)) => assert_eq!(m, "c16"),
        other => panic!("unexpected {:?}", other),
    }
}

#[test]
fn npy_header_defaults_and_offset() {
    let buf = npy_bytes("{}", &[]);
    let h = parse_header(&buf).unwrap();
    assert_eq!(h.descr, "<f8");
    assert!(!h.fortran_order);
    assert_eq!(h.shape, vec![0]);
    assert_eq!(h.dtype, NpyDtype::Float64);
    assert_eq!(h.data_offset, buf.len());
}

#[test]
fn npy_dtype_names() {
    assert_eq!(NpyDtype::from_str(" |b1 ").unwrap(), NpyDtype::Bool);
    assert_eq!(NpyDtype::from_str(">u2").unwrap(), NpyDtype::UInt16);
    assert_eq!(NpyDtype::from_str("int8").unwrap(), NpyDtype::Int8);
    assert_eq!(NpyDtype::from_str("S10").unwrap(), NpyDtype::String);
    assert_eq!(NpyDtype::from_str("=float32").unwrap(), NpyDtype::Float32);
    assert!(matches!(NpyDtype::from_str("<x"), Err(NpyReaderError::TypeNotSupported(ref t)) if t == "x"));
    assert_eq!(NpyDtype::UInt64.size(), 8);
    assert_eq!(NpyDtype::Int16.size(), 2);
    assert_eq!(NpyDtype::String.size(), 1);
}

#[test]
fn npy_dict_values() {
    let h: Vec<char> = "{'descr': '|u1', 'fortran_order': True, 'shape': (2, +3, x, 4,,), }".chars().collect();
    assert_eq!(extract_py_str(&h, "descr"), Some("|u1".to_string()));
    assert_eq!(extract_py_bool(&h, "fortran_order"), Some(true));
    assert_eq!(extract_py_tuple(&h, "shape"), Some(vec![2, 3, 4]));
    assert_eq!(extract_py_str(&h, "missing"), None);
    let bare: Vec<char> = "{'shape': 17}".chars().collect();
    assert_eq!(extract_py_tuple(&bare, "shape"), Some(vec![17]));
    let empty: Vec<char> = "{'shape': (), 'fortran_order': False}".chars().collect();
    assert_eq!(extract_py_tuple(&empty, "shape"), Some(vec![]));
    assert_eq!(extract_py_bool(&empty, "fortran_order"), Some(false));
    let junk: Vec<char> = "{'shape': (a, b)}".chars().collect();
    assert_eq!(extract_py_tuple(&junk, "shape"), None);
    let huge: Vec<char> = "{'shape': 99999999999999999999999}".chars().collect();
    assert_eq!(extract_py_tuple(&huge, "shape"), None);
}

#[test]
fn npy_read_whole_file() {
    let mut data = Vec::new();
    data.extend_from_slice(&5u16.to_le_bytes());
    data.extend_from_slice(&65535u16.to_le_bytes());
    data.extend_from_slice(&1u16.to_le_bytes());
    data.extend_from_slice(&0u16.to_le_bytes());
    let buf = npy_bytes("{'descr': '<u2', 'fortran_order': False, 'shape': (2, 2), }", &data);
    let vals = read_npy_bytes(&buf).unwrap();
    assert_eq!(
        vals,
        vec![Value::UInt16(5), Value::UInt16(65535), Value::UInt16(1), Value::UInt16(0)]
    );
    let bools = npy_bytes("{'descr': '|b1', 'fortran_order': False, 'shape': (3,), }", &[0, 2, 1]);
    assert_eq!(
        read_npy_bytes(&bools).unwrap(),
        vec![Value::Bool(false), Value::Bool(true), Value::Bool(true)]
    );
}

#[test]
fn npy_shape_mismatch() {
    match read_values(&[1, 2, 3, 4, 5], &NpyDtype::Int32, 2) {
        Err(NpyReaderError::ShapeMismatch { expected_rows, actual }) => {
            assert_eq!(expected_rows, 2);
            assert_eq!(actual, 1);
        }
        other => panic!("unexpected {:?}", other),
    }
    let buf = npy_bytes("{'descr': '<i8', 'shape': (3,)}", &[0; 16]);
    assert!(matches!(
        read_npy_bytes(&buf),
        Err(NpyReaderError::ShapeMismatch { expected_rows: 3, actual: 2 })
    ));
    assert_eq!(element_count(&[usize::MAX, 2]), usize::MAX);
    assert_eq!(element_count(&[]), 1);
    assert_eq!(element_count(&[3, 0, 5]), 0);
}
