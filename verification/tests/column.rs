use kuzu_storage::column::{
    extract_value_bytes, metadata_bytes, needs_new_page, parse_page_header, write_value_to_page,
    ColumnError, ColumnPages, MAX_VALS_PER_PAGE, PAGE_HEADER_SIZE,
};
use kuzu_storage::value_codec::{deserialize_value, serialize_value, Value};

#[test]
fn column_page_append_and_read_back() {
    let mut page = vec![0u8; 8192];
    let vals = vec![
        Value::String("hello".to_string()),
        Value::Double(3.15f64.to_bits()),
        Value::Bool(true),
        Value::List(vec![Value::Int64(1), Value::Int64(2)]),
    ];
    for v in &vals {
        write_value_to_page(&mut page, 8192, &serialize_value(v)).unwrap();
    }
    let header = parse_page_header(&page).unwrap();
    assert_eq!(header.num_values, 4);
    assert_eq!(header.offsets.len(), 4);
    for (i, v) in vals.iter().enumerate() {
        let bytes = extract_value_bytes(&page, &header, i).unwrap();
        let mut pos = 0;
        assert_eq!(&deserialize_value(&bytes, &mut pos).unwrap(), v);
    }
    assert_eq!(extract_value_bytes(&page, &header, 4), Err(ColumnError::LocalRowOutOfRange));
    assert_eq!(u32::from_le_bytes(page[0..4].try_into().unwrap()), 4);
    assert_eq!(header.offsets[0], 10);
    assert_eq!(&page[PAGE_HEADER_SIZE..PAGE_HEADER_SIZE + 10], &[13, 5, 0, 0, 0, b'h', b'e', b'l', b'l', b'o']);
}

#[test]
fn column_page_full_and_too_small() {
    let mut page = vec![0u8; 1040];
    write_value_to_page(&mut page, 1040, &[1; 8]).unwrap();
    assert!(!needs_new_page(&page, 1040, 4));
    assert!(needs_new_page(&page, 1040, 5));
    let before = page.clone();
    assert_eq!(
        write_value_to_page(&mut page, 1040, &[2; 5]),
        Err(ColumnError::ValueDoesNotFit { len: 5, page_size: 1040, used: 1036 })
    );
    assert_eq!(page, before);
    assert_eq!(parse_page_header(&[0u8; 100]).err(), Some(ColumnError::PageTooSmall { len: 100 }));
    let mut counted = vec![0u8; 8192];
    counted[0..4].copy_from_slice(&(MAX_VALS_PER_PAGE as u32).to_le_bytes());
    assert!(needs_new_page(&counted, 8192, 1));
    let h = parse_page_header(&counted).unwrap();
    assert_eq!(h.offsets.len(), MAX_VALS_PER_PAGE);
}

#[test]
fn column_value_offset_out_of_bounds() {
    let mut page = vec![0u8; 8192];
    page[0..4].copy_from_slice(&1u32.to_le_bytes());
    page[4..8].copy_from_slice(&9000u32.to_le_bytes());
    let h = parse_page_header(&page).unwrap();
    assert_eq!(extract_value_bytes(&page, &h, 0), Err(ColumnError::OffsetOutOfBounds));
}

#[test]
fn column_pages_bookkeeping() {
    let mut c = ColumnPages::new();
    assert_eq!(c.write_target(), None);
    assert_eq!(c.add_page(), 0);
    for _ in 0..5 {
        c.value_written();
    }
    assert_eq!(c.add_page(), 1);
    assert_eq!(c.add_page(), 2);
    for _ in 0..4 {
        c.value_written();
    }
    assert_eq!(c.write_target(), Some(2));
    assert_eq!(c.page_row_offsets, vec![0, 5, 5]);
    assert_eq!(c.locate_row(3), (0, 3));
    assert_eq!(c.locate_row(5), (2, 0));
    assert_eq!(c.locate_row(8), (2, 3));
    assert_eq!(c.check_row(9), Err(ColumnError::RowOutOfRange { row: 9, num_values: 9 }));
    assert_eq!(c.check_row(8), Ok(()));
    assert_eq!(c.scan_bounds(7, 10), (7, 9));
    assert_eq!(c.scan_bounds(2, 3), (2, 5));
    let (a, b) = c.scan_bounds(9, 1);
    assert_eq!(a, b);
    let (a, b) = c.scan_bounds(0, 0);
    assert_eq!(a, b);
    assert_eq!(ColumnPages::new().locate_row(7), (0, 7));
}

#[test]
fn column_metadata_roundtrip() {
    let mut c = ColumnPages::new();
    c.add_page();
    for _ in 0..300 {
        c.value_written();
    }
    c.add_page();
    c.value_written();
    let bytes = metadata_bytes(3, 77, 2, &c);
    assert_eq!(bytes.len(), 40 + 16);
    assert_eq!(&bytes[0..4], b"CMET");
    assert_eq!(&bytes[4..8], &1u32.to_le_bytes());
    assert_eq!(&bytes[8..12], &3u32.to_le_bytes());
    let mut back = ColumnPages::new();
    back.load_metadata_bytes(&bytes).unwrap();
    assert_eq!(back.num_values, 301);
    assert_eq!(back.num_pages, 2);
    assert_eq!(back.page_row_offsets, vec![0, 300]);
}

#[test]
fn column_metadata_errors() {
    let mut c = ColumnPages::new();
    assert_eq!(c.load_metadata_bytes(&[0u8; 10]), Err(ColumnError::MetadataTooSmall));
    let mut bad = vec![0u8; 40];
    bad[0..4].copy_from_slice(b"XMET");
    assert_eq!(c.load_metadata_bytes(&bad), Err(ColumnError::MetadataBadMagic));
    let mut trunc = vec![0u8; 40];
    trunc[0..4].copy_from_slice(b"CMET");
    trunc[24..32].copy_from_slice(&12u64.to_le_bytes());
    trunc[32..40].copy_from_slice(&3u64.to_le_bytes());
    assert_eq!(c.load_metadata_bytes(&trunc), Err(ColumnError::MetadataTruncated));
    assert_eq!(c.num_values, 12);
    assert_eq!(c.num_pages, 3);
    assert!(c.page_row_offsets.is_empty());
}
