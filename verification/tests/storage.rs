use kcm::codec::{Codec, DeltaCodec, GorillaCodec, RleCodec};
use kcm::column::{Column, ColumnEncoding, CompressionCodec, Schema};
use kcm::dict::DictionaryCache;
use kcm::index::{BitmapIndex, BloomFilter, ZoneMap};
use kcm::types::{Fact, KcmError, ObjectID, PredicateID, SubjectID};

fn conf(x: f64) -> u64 {
    x.to_bits()
}

#[test]
fn test_column_append_and_get() {
    let mut col = Column::<u32>::new(100, ColumnEncoding::Identity, CompressionCodec::Uncompressed).unwrap();
    col.append(10).unwrap();
    col.append(20).unwrap();
    col.append(30).unwrap();
    assert_eq!(col.len(), 3);
    assert_eq!(col.get(0), Some(10));
    assert_eq!(col.get(1), Some(20));
    assert_eq!(col.get(2), Some(30));
    assert_eq!(col.get(3), None);
}

#[test]
fn test_column_full() {
    let mut col = Column::<u8>::new(2, ColumnEncoding::Identity, CompressionCodec::Uncompressed).unwrap();
    col.append(1).unwrap();
    col.append(2).unwrap();
    assert!(col.append(3).is_err());
}

#[test]
fn test_column_as_slice() {
    let mut col = Column::<u64>::new(10, ColumnEncoding::Identity, CompressionCodec::Uncompressed).unwrap();
    for i in 0..5 {
        col.append(i * 100).unwrap();
    }
    assert_eq!(col.as_slice(), &[0, 100, 200, 300, 400]);
}

#[test]
fn test_schema_append_and_get_fact() {
    let mut schema = Schema::new(100).unwrap();
    let fact = Fact::new(SubjectID(1), PredicateID(2), ObjectID(3), conf(0.85)).unwrap();
    schema.append_fact(&fact).unwrap();
    assert_eq!(schema.len(), 1);
    let retrieved = schema.get_fact(0).unwrap();
    assert_eq!(retrieved.subject, SubjectID(1));
    assert_eq!(retrieved.predicate, PredicateID(2));
    assert_eq!(retrieved.object, ObjectID(3));
    assert_eq!(f64::from_bits(retrieved.confidence_bits), 0.85);
}

#[test]
fn test_schema_multiple_facts() {
    let mut schema = Schema::new(100).unwrap();
    for i in 0..10u32 {
        let fact = Fact::new(SubjectID(i), PredicateID((i % 5) as u8), ObjectID(i * 10), conf(0.5 + (i as f64 * 0.05))).unwrap();
        schema.append_fact(&fact).unwrap();
    }
    assert_eq!(schema.len(), 10);
    let fact5 = schema.get_fact(5).unwrap();
    assert_eq!(fact5.subject, SubjectID(5));
    assert_eq!(fact5.predicate, PredicateID(0));
    assert_eq!(fact5.object, ObjectID(50));
}

#[test]
fn test_delta_codec() {
    let codec = DeltaCodec;
    let data = vec![100i64, 105, 110, 120, 100];
    let encoded = codec.encode(&data).unwrap();
    let decoded = codec.decode(&encoded, data.len()).unwrap();
    assert_eq!(data, decoded);
}

#[test]
fn test_delta_codec_empty() {
    let codec = DeltaCodec;
    let data: Vec<i64> = vec![];
    let encoded = codec.encode(&data).unwrap();
    let decoded = codec.decode(&encoded, 0).unwrap();
    assert!(decoded.is_empty());
}

#[test]
fn test_rle_codec() {
    let codec = RleCodec;
    let data = vec![1u8, 1, 1, 2, 2, 3, 3, 3, 3];
    let encoded = codec.encode(&data).unwrap();
    let decoded = codec.decode(&encoded, data.len()).unwrap();
    assert_eq!(data, decoded);
}

#[test]
fn rle_exact_bytes_and_incomplete_entry() {
    let codec = RleCodec;
    let data = vec![1u8, 1, 1, 2, 2, 3, 3, 3, 3];
    let encoded = codec.encode(&data).unwrap();
    assert_eq!(encoded, vec![1, 3, 0, 0, 0, 2, 2, 0, 0, 0, 3, 4, 0, 0, 0]);
    assert_eq!(codec.decode(&encoded, 9).unwrap(), data);
    assert_eq!(
        codec.decode(&encoded[..7], 9),
        Err(KcmError::Corrupted("Incomplete RLE entry".to_string()))
    );
}

#[test]
fn test_rle_codec_single_values() {
    let codec = RleCodec;
    let data = vec![5u8, 10, 15, 20];
    let encoded = codec.encode(&data).unwrap();
    let decoded = codec.decode(&encoded, data.len()).unwrap();
    assert_eq!(data, decoded);
}

#[test]
fn test_gorilla_codec() {
    let codec = GorillaCodec;
    let data = vec![1.0f64, 1.5, 2.0, 2.5, 3.0];
    let bits: Vec<u64> = data.iter().map(|x| x.to_bits()).collect();
    let encoded = codec.encode(&bits).unwrap();
    let decoded = codec.decode(&encoded, bits.len()).unwrap();
    assert_eq!(data.len(), decoded.len());
    for (a, b) in data.iter().zip(decoded.iter()) {
        assert!((a - f64::from_bits(*b)).abs() < f64::EPSILON);
    }
}

#[test]
fn test_gorilla_codec_empty() {
    let codec = GorillaCodec;
    let data: Vec<u64> = vec![];
    let encoded = codec.encode(&data).unwrap();
    let decoded = codec.decode(&encoded, 0).unwrap();
    assert!(decoded.is_empty());
}

#[test]
fn test_bitmap_index() {
    let column = vec![0u8, 1, 0, 2, 1, 0, 2, 2];
    let index = BitmapIndex::new(&column, 8).unwrap();
    let bitmap0 = index.lookup(0).unwrap();
    assert_eq!(bitmap0.count_ones(), 3);
    assert!(bitmap0.get(0));
    assert!(bitmap0.get(2));
    assert!(bitmap0.get(5));
    let bitmap1 = index.lookup(1).unwrap();
    assert_eq!(bitmap1.count_ones(), 2);
    assert!(bitmap1.get(1));
    assert!(bitmap1.get(4));
    assert!(index.lookup(3).is_none());
}

#[test]
fn test_storage_test_bitmap_index_range_query() {
    let column = vec![0u8, 1, 2, 3, 4, 5];
    let index = BitmapIndex::new(&column, 6).unwrap();
    let result = index.range_query(1, 3).unwrap();
    assert_eq!(result.count_ones(), 3);
    assert!(result.get(1));
    assert!(result.get(2));
    assert!(result.get(3));
}

#[test]
fn test_storage_test_zone_map() {
    let column = vec![10i64, 20, 30, 5, 15, 25];
    let zone_map = ZoneMap::new(&column, 3).unwrap();
    let ranges = zone_map.range_query(15, 25);
    assert!(!ranges.is_empty());
    let ranges = zone_map.range_query(100, 200);
    assert!(ranges.is_empty());
}

#[test]
fn test_bloom_filter() {
    let mut filter = BloomFilter::new(100);
    filter.insert(42);
    filter.insert(100);
    filter.insert(999);
    assert!(filter.contains(42));
    assert!(filter.contains(100));
    assert!(filter.contains(999));
    assert!(!filter.contains(1));
    assert!(!filter.contains(50));
}

#[test]
fn test_storage_test_schema_get_fact_out_of_bounds() {
    let schema = Schema::new(10).unwrap();
    assert!(schema.get_fact(0).is_none());
    assert!(schema.get_fact(100).is_none());
}

#[test]
fn test_schema_delete_fact() {
    let mut schema = Schema::new(100).unwrap();
    let fact = Fact::new(SubjectID(1), PredicateID(0), ObjectID(2), conf(0.9)).unwrap();
    schema.append_fact(&fact).unwrap();
    assert!(schema.get_fact(0).is_some());
    assert!(!schema.is_deleted(0));
    schema.delete_fact(0).unwrap();
    assert!(schema.get_fact(0).is_none());
    assert!(schema.is_deleted(0));
    assert_eq!(schema.len(), 1);
    assert_eq!(schema.active_count(), 0);
}

#[test]
fn test_schema_delete_out_of_bounds() {
    let mut schema = Schema::new(10).unwrap();
    assert!(schema.delete_fact(0).is_err());
    assert!(schema.delete_fact(100).is_err());
}

#[test]
fn test_schema_update_fact() {
    let mut schema = Schema::new(100).unwrap();
    let fact = Fact::new(SubjectID(1), PredicateID(0), ObjectID(2), conf(0.9)).unwrap();
    schema.append_fact(&fact).unwrap();
    let updated = Fact::new(SubjectID(5), PredicateID(2), ObjectID(10), conf(0.7)).unwrap();
    schema.update_fact(0, &updated).unwrap();
    let retrieved = schema.get_fact(0).unwrap();
    assert_eq!(retrieved.subject, SubjectID(5));
    assert_eq!(retrieved.predicate, PredicateID(2));
    assert_eq!(retrieved.object, ObjectID(10));
    assert_eq!(f64::from_bits(retrieved.confidence_bits), 0.7);
}

#[test]
fn test_schema_update_out_of_bounds() {
    let mut schema = Schema::new(10).unwrap();
    let fact = Fact::new(SubjectID(1), PredicateID(0), ObjectID(2), conf(0.9)).unwrap();
    assert!(schema.update_fact(0, &fact).is_err());
    assert!(schema.update_fact(100, &fact).is_err());
}

#[test]
fn test_storage_test_schema_iter_active() {
    let mut schema = Schema::new(100).unwrap();
    for i in 0..5u32 {
        let fact = Fact::new(SubjectID(i), PredicateID(0), ObjectID(i * 10), conf(0.9)).unwrap();
        schema.append_fact(&fact).unwrap();
    }
    schema.delete_fact(1).unwrap();
    schema.delete_fact(3).unwrap();
    let active: Vec<(usize, Fact)> = schema.iter_active();
    assert_eq!(active.len(), 3);
    assert_eq!(active[0].0, 0);
    assert_eq!(active[1].0, 2);
    assert_eq!(active[2].0, 4);
}

#[test]
fn test_schema_creation() {
    let schema = Schema::new(1000).unwrap();
    assert_eq!(schema.len(), 0);
    assert!(schema.is_empty());
}

#[test]
fn test_schema_append_single() {
    let mut schema = Schema::new(100).unwrap();
    let fact = Fact::new(SubjectID(1), PredicateID(0), ObjectID(2), conf(0.95)).unwrap();
    schema.append_fact(&fact).unwrap();
    assert_eq!(schema.len(), 1);
}

#[test]
fn test_schema_append_multiple() {
    let mut schema = Schema::new(1000).unwrap();
    for i in 0..100u32 {
        let fact = Fact::new(SubjectID(i), PredicateID(0), ObjectID(i * 2), conf(0.5 + (i as f64 * 0.001))).unwrap();
        schema.append_fact(&fact).unwrap();
    }
    assert_eq!(schema.len(), 100);
}

#[test]
fn test_schema_get_fact() {
    let mut schema = Schema::new(100).unwrap();
    let original = Fact::new(SubjectID(42), PredicateID(5), ObjectID(100), conf(0.85)).unwrap();
    schema.append_fact(&original).unwrap();
    let retrieved = schema.get_fact(0).unwrap();
    assert_eq!(retrieved.subject, original.subject);
    assert_eq!(retrieved.predicate, original.predicate);
    assert_eq!(retrieved.object, original.object);
    assert!((f64::from_bits(retrieved.confidence_bits) - f64::from_bits(original.confidence_bits)).abs() < 1e-10);
}

#[test]
fn integration_tests_test_schema_get_fact_out_of_bounds() {
    let schema = Schema::new(100).unwrap();
    assert!(schema.get_fact(0).is_none());
    assert!(schema.get_fact(999).is_none());
}

#[test]
fn test_schema_column_independence() {
    let mut schema = Schema::new(100).unwrap();
    schema.append_fact(&Fact::new(SubjectID(1), PredicateID(0), ObjectID(2), conf(0.9)).unwrap()).unwrap();
    schema.append_fact(&Fact::new(SubjectID(3), PredicateID(1), ObjectID(4), conf(0.8)).unwrap()).unwrap();
    assert_eq!(schema.subject_col.get(0), Some(1u32));
    assert_eq!(schema.subject_col.get(1), Some(3u32));
    assert_eq!(schema.predicate_col.get(0), Some(0u8));
    assert_eq!(schema.predicate_col.get(1), Some(1u8));
}

#[test]
fn test_schema_delete_and_active_count() {
    let mut schema = Schema::new(100).unwrap();
    for i in 0..10u32 {
        schema.append_fact(&Fact::new(SubjectID(i), PredicateID(0), ObjectID(i), conf(0.9)).unwrap()).unwrap();
    }
    assert_eq!(schema.len(), 10);
    assert_eq!(schema.active_count(), 10);
    schema.delete_fact(0).unwrap();
    schema.delete_fact(5).unwrap();
    assert_eq!(schema.len(), 10);
    assert_eq!(schema.active_count(), 8);
    assert!(schema.get_fact(0).is_none());
    assert!(schema.get_fact(1).is_some());
}

#[test]
fn test_schema_update() {
    let mut schema = Schema::new(100).unwrap();
    schema.append_fact(&Fact::new(SubjectID(1), PredicateID(0), ObjectID(2), conf(0.9)).unwrap()).unwrap();
    let updated = Fact::new(SubjectID(99), PredicateID(9), ObjectID(88), conf(0.1)).unwrap();
    schema.update_fact(0, &updated).unwrap();
    let fact = schema.get_fact(0).unwrap();
    assert_eq!(fact.subject, SubjectID(99));
    assert_eq!(fact.predicate, PredicateID(9));
    assert!((f64::from_bits(fact.confidence_bits) - 0.1).abs() < 1e-10);
}

#[test]
fn integration_tests_test_schema_iter_active() {
    let mut schema = Schema::new(100).unwrap();
    for i in 0..5u32 {
        schema.append_fact(&Fact::new(SubjectID(i), PredicateID(0), ObjectID(i), conf(0.9)).unwrap()).unwrap();
    }
    schema.delete_fact(2).unwrap();
    let active: Vec<(usize, Fact)> = schema.iter_active();
    assert_eq!(active.len(), 4);
}

#[test]
fn test_dictionary_with_schema() {
    let mut schema = Schema::new(100).unwrap();
    let mut dict = DictionaryCache::new();
    for i in 0..50u32 {
        let fact = Fact::new(
            SubjectID(dict.encode(&format!("s_{}", i))),
            PredicateID((i % 10) as u8),
            ObjectID(dict.encode(&format!("o_{}", i))),
            conf(0.5),
        )
        .unwrap();
        schema.append_fact(&fact).unwrap();
    }
    assert_eq!(schema.len(), 50);
    assert!(dict.len() > 50);
}

#[test]
fn test_bitmap_index_from_schema() {
    let mut schema = Schema::new(1000).unwrap();
    for i in 0..100u32 {
        let fact = Fact::new(SubjectID(i), PredicateID((i % 10) as u8), ObjectID(i * 2), conf(0.5)).unwrap();
        schema.append_fact(&fact).unwrap();
    }
    let index = BitmapIndex::new(schema.predicate_col.as_slice(), schema.len()).unwrap();
    for pred in 0u8..10 {
        let bitmap = index.lookup(pred);
        assert!(bitmap.is_some());
        assert!(bitmap.unwrap().count_ones() > 0);
    }
}

#[test]
fn integration_tests_test_bitmap_index_range_query() {
    let mut schema = Schema::new(1000).unwrap();
    for i in 0..100u32 {
        schema.append_fact(&Fact::new(SubjectID(i), PredicateID((i % 10) as u8), ObjectID(i * 2), conf(0.5)).unwrap()).unwrap();
    }
    let index = BitmapIndex::new(schema.predicate_col.as_slice(), schema.len()).unwrap();
    let range_result = index.range_query(3, 7).unwrap();
    assert!(range_result.count_ones() > 0);
}

#[test]
fn integration_tests_test_zone_map() {
    let column: Vec<i64> = (0..1000).map(|i| (i * 7 % 500) as i64).collect();
    let zone_map = ZoneMap::new(&column, 100).unwrap();
    let ranges = zone_map.range_query(100, 200);
    assert!(!ranges.is_empty());
    let no_ranges = zone_map.range_query(1000, 2000);
    assert!(no_ranges.is_empty());
}

// Own tests.

#[test]
fn fact_confidence_bounds() {
    assert!(Fact::new(SubjectID(1), PredicateID(0), ObjectID(1), conf(1.0)).is_ok());
    assert!(Fact::new(SubjectID(1), PredicateID(0), ObjectID(1), conf(0.0)).is_ok());
    assert!(Fact::new(SubjectID(1), PredicateID(0), ObjectID(1), conf(-0.0)).is_ok());
    assert!(matches!(Fact::new(SubjectID(1), PredicateID(0), ObjectID(1), conf(1.5)), Err(KcmError::InvalidArgument(_))));
    assert!(matches!(Fact::new(SubjectID(1), PredicateID(0), ObjectID(1), conf(-0.1)), Err(KcmError::InvalidArgument(_))));
    assert!(Fact::new(SubjectID(1), PredicateID(0), ObjectID(1), f64::NAN.to_bits()).is_err());
}

#[test]
fn delta_encoding_bytes_and_short_input() {
    let codec = DeltaCodec;
    let encoded = codec.encode(&[5i64, 3]).unwrap();
    let mut expected = 5i64.to_le_bytes().to_vec();
    expected.extend_from_slice(&(-2i64).to_le_bytes());
    assert_eq!(encoded, expected);
    assert_eq!(codec.decode(&encoded[..10], 2).unwrap(), vec![5]);
    assert_eq!(codec.decode(&encoded, 1).unwrap(), vec![5]);
    assert!(codec.decode(&[], 3).unwrap().is_empty());
}

#[test]
fn rle_bytes() {
    let codec = RleCodec;
    assert_eq!(codec.encode(&[7u8, 7, 7, 9]).unwrap(), vec![7, 3, 0, 0, 0, 9, 1, 0, 0, 0]);
    let long = vec![4u8; 300];
    let enc = codec.encode(&long).unwrap();
    assert_eq!(enc, vec![4, 44, 1, 0, 0]);
    assert_eq!(codec.decode(&enc, 300).unwrap(), long);
    assert!(matches!(codec.decode(&[4, 1, 0], 1), Err(KcmError::Corrupted(_))));
}

#[test]
fn xor_codec_bytes() {
    let codec = GorillaCodec;
    let enc = codec.encode(&[0xFFu64, 0x0F]).unwrap();
    let mut expected = 0xFFu64.to_le_bytes().to_vec();
    expected.extend_from_slice(&0xF0u64.to_le_bytes());
    assert_eq!(enc, expected);
}

#[test]
fn bitmap_index_over_a_short_column() {
    let short = BitmapIndex::new(&[1u8, 2], 3).unwrap();
    assert_eq!(short.lookup(2).unwrap().len(), 3);
    let index = BitmapIndex::new(&[1u8, 2, 1], 3).unwrap();
    let r = index.range_query(5, 9).unwrap();
    assert_eq!(r.count_ones(), 0);
}

#[test]
fn zone_map_ranges_cover_matching_blocks() {
    let column = vec![10i64, 20, 30, 5, 15, 25];
    let zm = ZoneMap::new(&column, 3).unwrap();
    assert_eq!(zm.range_query(26, 29), vec![(0, 3)]);
    assert_eq!(zm.range_query(0, 6), vec![(3, 6)]);
}

#[test]
fn compaction_keeps_live_rows_in_order() {
    let mut schema = Schema::new(10).unwrap();
    for i in 0..4u32 {
        schema.append_fact(&Fact::new(SubjectID(i), PredicateID(0), ObjectID(i), conf(0.5)).unwrap()).unwrap();
    }
    schema.delete_fact(1).unwrap();
    let compacted = schema.compact().unwrap();
    assert_eq!(compacted.len(), 3);
    assert_eq!(compacted.get_fact(1).unwrap().subject, SubjectID(2));
    assert_eq!(compacted.active_count(), 3);
}

#[test]
fn index_error_names_index_and_length() {
    assert_eq!(
        kcm::column::index_error(12, 3),
        KcmError::InvalidArgument("Index 12 out of bounds (len 3)".to_string())
    );
}
