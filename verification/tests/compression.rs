use kuzu_storage::compression::{
    compress, compress_integer_impl, compress_serialized_value, decompress,
    decompress_integer_impl, decompress_serialized_value, serialized_value_size, CompressionType,
    PhysicalTypeID,
};

#[test]
fn test_constant_roundtrip() {
    let original = vec![42u8; 100];
    let chunk = compress(CompressionType::Constant, &original, 100);
    assert!(chunk.data.len() < original.len());
    let dec = decompress(&chunk, 100);
    assert_eq!(dec.len(), 100);
    assert_eq!(dec[0], 42);
    assert_eq!(dec[99], 42);
}

#[test]
fn test_boolean_roundtrip() {
    let mut original = vec![0u8; 16];
    original[0] = 1;
    original[7] = 1;
    original[15] = 1;
    let chunk = compress(CompressionType::Boolean, &original, 16);
    assert!(chunk.data.len() < original.len());
    let dec = decompress(&chunk, 16);
    assert_eq!(dec[0], 1);
    assert_eq!(dec[7], 1);
    assert_eq!(dec[15], 1);
    assert_eq!(dec[1], 0);
    assert_eq!(dec[8], 0);
}

#[test]
fn test_uncompressed_roundtrip() {
    let original = vec![1u8, 2, 3, 4, 5];
    let chunk = compress(CompressionType::Uncompressed, &original, 5);
    assert_eq!(chunk.data, original);
    let dec = decompress(&chunk, 5);
    assert_eq!(dec, original);
}

#[test]
fn test_compress_integer_small() {
    let val = 42i64.to_le_bytes();
    let packed = compress_integer_impl(&val);
    assert_eq!(packed[0], 1);
    assert_eq!(packed[1], 42);
}

#[test]
fn test_compress_integer_large() {
    let val = 0x12345678i64.to_le_bytes();
    let packed = compress_integer_impl(&val);
    assert_eq!(packed[0], 4);
    assert_eq!(&packed[1..5], &val[..4]);
}

#[test]
fn test_compress_integer_negative() {
    let val = (-1i64).to_le_bytes();
    let packed = compress_integer_impl(&val);
    assert_eq!(packed[0], 8);
}

#[test]
fn test_integer_roundtrip_batch() {
    let values: Vec<i64> = vec![0, 1, 42, 127, 255, 1000, 65535, 100000, -1, -128];
    let value_size = 8;
    let mut data = Vec::with_capacity(values.len() * value_size);
    for v in &values {
        data.extend_from_slice(&v.to_le_bytes());
    }
    let chunk = compress(CompressionType::IntegerBitpacking, &data, values.len());
    let dec = decompress(&chunk, values.len() * value_size);
    assert_eq!(dec.len(), values.len() * value_size);
    for (i, v) in values.iter().enumerate() {
        let val = i64::from_le_bytes(dec[i * value_size..(i + 1) * value_size].try_into().unwrap());
        assert_eq!(val, *v, "mismatch at index {}", i);
    }
}

#[test]
fn test_single_value_compress_decompress() {
    let mut raw = vec![0x02u8];
    raw.extend_from_slice(&42i64.to_le_bytes());
    assert_eq!(raw.len(), 9);

    let compressed = compress_serialized_value(CompressionType::IntegerBitpacking, &raw, 8);
    assert_eq!(compressed[0], 0x02);
    assert!(compressed.len() < raw.len(), "compression should reduce size");

    let decompressed = decompress_serialized_value(CompressionType::IntegerBitpacking, &compressed, 8);
    assert_eq!(decompressed, raw, "full roundtrip should match original");

    let restored = i64::from_le_bytes(decompressed[1..9].try_into().unwrap());
    assert_eq!(restored, 42);
}

#[test]
fn test_float_batch_roundtrip() {
    let values: Vec<f64> = vec![1.0, 3.15, -2.5, 0.0, 1e10];
    let value_size = 8;
    let mut data = Vec::with_capacity(values.len() * value_size);
    for v in &values {
        data.extend_from_slice(&v.to_le_bytes());
    }
    let chunk = compress(CompressionType::Float, &data, values.len());
    let dec = decompress(&chunk, values.len() * value_size);
    for (i, v) in values.iter().enumerate() {
        let val = f64::from_le_bytes(dec[i * value_size..(i + 1) * value_size].try_into().unwrap());
        assert!((val - v).abs() < 1e-10, "mismatch at index {}", i);
    }
}

#[test]
fn test_pass_through_roundtrip() {
    let mut raw = vec![0x0D];
    raw.extend_from_slice(b"hello world");
    let compressed = compress_serialized_value(CompressionType::IntegerBitpacking, &raw, 0);
    assert_eq!(compressed, raw);
    let decompressed = decompress_serialized_value(CompressionType::IntegerBitpacking, &compressed, 0);
    assert_eq!(decompressed, raw);
}

#[test]
fn test_compression_metadata() {
    let data = vec![42u8; 100];
    let chunk = compress(CompressionType::Constant, &data, 100);
    assert_eq!(chunk.compression, CompressionType::Constant);
    assert_eq!(chunk.num_values, 100);
    assert!(chunk.data.len() < data.len());
}

#[test]
fn integer_expand_pads_and_clamps() {
    assert_eq!(decompress_integer_impl(&[], 3), vec![0, 0, 0]);
    assert_eq!(decompress_integer_impl(&[2, 7, 9], 4), vec![7, 9, 0, 0]);
    // The count byte asks for more than is stored: only what is there is used.
    assert_eq!(decompress_integer_impl(&[5, 1], 3), vec![1, 0, 0]);
    // The count byte asks for more than the target size.
    assert_eq!(decompress_integer_impl(&[3, 1, 2, 3], 2), vec![1, 2]);
    assert_eq!(compress_integer_impl(&[0, 0, 0]), vec![1, 0]);
}

#[test]
fn list_delta_is_stored_as_integer_packing() {
    let data: Vec<u8> = vec![1, 0, 2, 0, 0, 1];
    let chunk = compress(CompressionType::ListDelta, &data, 3);
    assert_eq!(chunk.compression, CompressionType::IntegerBitpacking);
    assert_eq!(chunk.data, vec![2, 3, 0, 0, 0, 1, 1, 1, 2, 2, 0, 1]);
    assert_eq!(decompress(&chunk, 6), data);
}

#[test]
fn truncated_chunks_decompress_to_what_is_there() {
    let short = kuzu_storage::compression::CompressedChunk {
        compression: CompressionType::IntegerBitpacking,
        data: vec![8, 1, 0],
        num_values: 1,
    };
    assert_eq!(decompress(&short, 8), Vec::<u8>::new());
    let constant = kuzu_storage::compression::CompressedChunk {
        compression: CompressionType::Constant,
        data: vec![3, 0, 0, 0, 7, 8],
        num_values: 3,
    };
    assert_eq!(decompress(&constant, 6), vec![7, 8, 7, 8, 7, 8]);
}

#[test]
fn float_values_are_framed_by_length() {
    let raw = vec![0x0Bu8, 1, 2, 3, 4];
    let c = compress_serialized_value(CompressionType::Float, &raw, 4);
    assert_eq!(c, vec![0x0B, 4, 1, 2, 3, 4]);
    assert_eq!(decompress_serialized_value(CompressionType::Float, &c, 4), raw);
}

#[test]
fn serialized_sizes_by_type() {
    assert_eq!(serialized_value_size(PhysicalTypeID::Int64), 8);
    assert_eq!(serialized_value_size(PhysicalTypeID::Float), 4);
    assert_eq!(serialized_value_size(PhysicalTypeID::UInt16), 2);
    assert_eq!(serialized_value_size(PhysicalTypeID::Bool), 1);
    assert_eq!(serialized_value_size(PhysicalTypeID::Interval), 16);
    assert_eq!(serialized_value_size(PhysicalTypeID::String), 0);
}
