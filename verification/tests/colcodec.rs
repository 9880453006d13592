use kcm::colcodec::{
    decode_delta_i32, decode_delta_i64, decode_to_slice, decode_xor_u64, encode_delta_i32, encode_delta_i64,
    encode_identity, encode_xor_u64, ColumnValue,
};
use kcm::column::{Column, ColumnEncoding, CompressionCodec, Schema};
use kcm::types::{Fact, KcmError, ObjectID, PredicateID, SubjectID};

#[test]
fn delta_i64_bytes_wrap_and_roundtrip() {
    let v = vec![100i64, 105, 110, 120, 100, i64::MIN, i64::MAX];
    let enc = encode_delta_i64(&v);
    assert_eq!(enc.len(), 8 * v.len());
    assert_eq!(&enc[8..16], &5i64.to_le_bytes());
    assert_eq!(&enc[32..40], &(-20i64).to_le_bytes());
    assert_eq!(decode_delta_i64(&enc, v.len()).unwrap(), v);
    assert!(matches!(decode_delta_i64(&enc[..10], 2), Err(KcmError::Corrupted(_))));
    assert!(decode_delta_i64(&[], 0).unwrap().is_empty());
}

#[test]
fn delta_i32_roundtrip() {
    let v = vec![7i32, -3, i32::MAX, i32::MIN, 0];
    let enc = encode_delta_i32(&v);
    assert_eq!(enc.len(), 20);
    assert_eq!(&enc[4..8], &(-10i32).to_le_bytes());
    assert_eq!(decode_delta_i32(&enc, 5).unwrap(), v);
    assert!(decode_delta_i32(&enc, 6).is_err());
}

#[test]
fn xor_encoding_layout() {
    let a = 1.0f64.to_bits();
    let b = 1.5f64.to_bits();
    let enc = encode_xor_u64(&[a, a, b]);
    assert_eq!(&enc[..8], &a.to_le_bytes());
    assert_eq!(enc[8], 0);
    assert_eq!(enc[9], 1);
    let x = a ^ b;
    assert_eq!(enc[10], x.leading_zeros() as u8);
    assert_eq!(&enc[11..19], &(x >> x.trailing_zeros()).to_le_bytes());
    assert_eq!(enc[19], x.trailing_zeros() as u8);
    assert_eq!(enc.len(), 20);
    assert_eq!(decode_xor_u64(&enc, 3).unwrap(), vec![a, a, b]);
}

#[test]
fn xor_roundtrip_of_floats() {
    let data: Vec<u64> = [1.0f64, 1.5, 2.0, 2.5, 3.0, 3.0, -0.0, f64::MAX].iter().map(|x| x.to_bits()).collect();
    let enc = encode_xor_u64(&data);
    assert_eq!(decode_xor_u64(&enc, data.len()).unwrap(), data);
    assert!(matches!(decode_xor_u64(&enc[..4], 1), Err(KcmError::Corrupted(_))));
    assert!(matches!(decode_xor_u64(&enc[..12], 3), Err(KcmError::Corrupted(_))));
    assert!(decode_xor_u64(&[], 0).unwrap().is_empty());
}

#[test]
fn identity_encoding_per_type() {
    let v: Vec<u16> = vec![1, 0x0203, 0xFFFF];
    let enc = encode_identity(&v);
    assert_eq!(enc, vec![1, 0, 3, 2, 0xFF, 0xFF]);
    assert_eq!(decode_to_slice::<u16>(&enc, 3).unwrap(), v);
    assert!(decode_to_slice::<u16>(&enc, 4).is_err());
    let p: Vec<i8> = vec![-1, 5];
    assert_eq!(encode_identity(&p), vec![0xFF, 5]);
    assert_eq!(i64::encode_values(&[1, 2], ColumnEncoding::Identity), encode_identity(&[1i64, 2]));
    assert_eq!(i64::encode_values(&[1, 2], ColumnEncoding::Delta), encode_delta_i64(&[1, 2]));
    assert_eq!(u64::encode_values(&[4, 4], ColumnEncoding::Gorilla), encode_xor_u64(&[4, 4]));
    assert_eq!(u32::decode_values(&encode_identity(&[9u32]), 1, ColumnEncoding::Delta).unwrap(), vec![9u32]);
}

#[test]
fn column_compress_then_decompress() {
    let mut col = Column::<i64>::new(10, ColumnEncoding::Delta, CompressionCodec::Zstd).unwrap();
    for t in [1000i64, 1001, 1003, 990] {
        col.append(t).unwrap();
    }
    col.compress_data().unwrap();
    col.decompress_data().unwrap();
    assert_eq!(col.as_slice(), &[1000, 1001, 1003, 990]);
    let mut rle = Column::<u8>::new(10, ColumnEncoding::Dictionary, CompressionCodec::Rle).unwrap();
    for b in [3u8, 3, 3, 4] {
        rle.append(b).unwrap();
    }
    rle.compress_data().unwrap();
    rle.decompress_data().unwrap();
    assert_eq!(rle.as_slice(), &[3, 3, 3, 4]);
    let mut untouched = Column::<u32>::new(2, ColumnEncoding::Identity, CompressionCodec::Uncompressed).unwrap();
    untouched.append(5).unwrap();
    untouched.decompress_data().unwrap();
    assert_eq!(untouched.as_slice(), &[5]);
}

#[test]
fn repeated_floats_are_refused_on_decompress() {
    let mut col = Column::<u64>::new(10, ColumnEncoding::Gorilla, CompressionCodec::Zstd).unwrap();
    for _ in 0..4 {
        col.append(0.5f64.to_bits()).unwrap();
    }
    col.compress_data().unwrap();
    assert!(matches!(col.decompress_data(), Err(KcmError::Corrupted(_))));
    assert_eq!(col.len(), 4);
}

#[test]
fn schema_compress_all_keeps_rows() {
    let mut schema = Schema::new(8).unwrap();
    for i in 0..3u32 {
        schema.append_fact(&Fact::new(SubjectID(i), PredicateID(1), ObjectID(i * 2), 0.25f64.to_bits()).unwrap()).unwrap();
    }
    schema.compress_all_columns().unwrap();
    assert_eq!(schema.get_fact(2).unwrap().object, ObjectID(4));
}

#[test]
fn decoder_errors_name_the_sizes() {
    let enc = encode_delta_i64(&[1i64, 2]);
    assert_eq!(
        decode_delta_i64(&enc[..10], 2),
        Err(KcmError::Corrupted("Delta decode i64: expected 16 bytes, got 10".to_string()))
    );
    assert_eq!(
        decode_delta_i32(&[0u8; 7], 2),
        Err(KcmError::Corrupted("Delta decode i32: expected 8 bytes, got 7".to_string()))
    );
    assert_eq!(
        decode_to_slice::<u16>(&[1u8, 2, 3], 2),
        Err(KcmError::Corrupted("Decode: expected 4 bytes for 2 elements, got 3".to_string()))
    );
    assert_eq!(
        decode_xor_u64(&[0u8; 4], 1),
        Err(KcmError::Corrupted("Gorilla decode: insufficient data for first value".to_string()))
    );
    assert_eq!(
        decode_xor_u64(&[0u8; 9], 3),
        Err(KcmError::Corrupted("Gorilla decode: insufficient data at offset 9, have 9".to_string()))
    );
    let mut cut = vec![0u8; 8];
    cut.extend_from_slice(&[1u8, 3, 7]);
    assert_eq!(
        decode_xor_u64(&cut, 2),
        Err(KcmError::Corrupted("Gorilla decode: need 9 bytes for entry at offset 9, have 2".to_string()))
    );
}
