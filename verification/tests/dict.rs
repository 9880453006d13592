use kcm::dict::{DictionaryCache, DictionaryCodec};

#[test]
fn test_dictionary_cache_basic() {
    let mut cache = DictionaryCache::new();
    let id1 = cache.encode("hello");
    let id2 = cache.encode("world");
    let id1_again = cache.encode("hello");
    assert_eq!(id1, id1_again);
    assert_ne!(id1, id2);
    assert_eq!(cache.decode(id1), Some("hello".to_string()));
    assert_eq!(cache.decode(id2), Some("world".to_string()));
}

#[test]
fn test_dictionary_cache_lookup() {
    let mut cache = DictionaryCache::new();
    cache.encode("alice");
    cache.encode("bob");
    assert_eq!(cache.lookup("alice"), Some(1));
    assert_eq!(cache.lookup("bob"), Some(2));
    assert_eq!(cache.lookup("charlie"), None);
}

#[test]
fn test_dictionary_cache_batch_lookup() {
    let mut cache = DictionaryCache::new();
    cache.encode("x");
    cache.encode("y");
    cache.encode("z");
    let values = ["x", "y", "z", "w"];
    let mut results = vec![None; 4];
    cache.lookup_batch_prefetch(&values, &mut results);
    assert_eq!(results, vec![Some(1), Some(2), Some(3), None]);
}

#[test]
fn test_dictionary_cache_simd_lookup() {
    let mut cache = DictionaryCache::new();
    for i in 0..100 {
        cache.encode(&format!("item_{}", i));
    }
    let values: Vec<String> = (0..100).map(|i| format!("item_{}", i)).collect();
    let refs: Vec<&str> = values.iter().map(|s| s.as_str()).collect();
    let mut results = vec![None; 100];
    cache.lookup_batch_simd(&refs, &mut results);
    for (i, result) in results.iter().enumerate() {
        assert_eq!(*result, Some((i + 1) as u32));
    }
}

#[test]
fn test_dictionary_cache_warm_up() {
    let mut cache = DictionaryCache::new();
    cache.warm_up(&["alpha", "beta", "gamma"]);
    assert_eq!(cache.len(), 4);
    assert_eq!(cache.lookup("alpha"), Some(1));
    assert_eq!(cache.lookup("beta"), Some(2));
    assert_eq!(cache.lookup("gamma"), Some(3));
    cache.warm_up(&["alpha", "delta"]);
    assert_eq!(cache.len(), 5);
    assert_eq!(cache.lookup("delta"), Some(4));
}

#[test]
fn test_dictionary_cache_size() {
    let mut cache = DictionaryCache::new();
    assert!(cache.is_empty());
    cache.encode("test");
    assert!(!cache.is_empty());
    assert_eq!(cache.len(), 2);
}

#[test]
fn test_dictionary_cache_space() {
    let mut cache = DictionaryCache::new();
    cache.encode("hello");
    cache.encode("world");
    assert!(cache.space_bytes() > 0);
}

#[test]
fn test_dictionary_codec_basic() {
    let mut codec = DictionaryCodec::new();
    let id1 = codec.encode("hello");
    let id2 = codec.encode("world");
    let id1_again = codec.encode("hello");
    assert_eq!(id1, id1_again);
    assert_ne!(id1, id2);
    assert_eq!(codec.decode(id1), Some("hello".to_string()));
    assert_eq!(codec.decode(id2), Some("world".to_string()));
}

#[test]
fn test_dictionary_codec_lookup() {
    let mut codec = DictionaryCodec::new();
    codec.encode("alice");
    codec.encode("bob");
    assert_eq!(codec.lookup("alice"), Some(1));
    assert_eq!(codec.lookup("bob"), Some(2));
    assert_eq!(codec.lookup("charlie"), None);
}

#[test]
fn test_dictionary_codec_batch() {
    let mut codec = DictionaryCodec::new();
    let ids = codec.encode_batch(&["a", "b", "c", "a", "b"]);
    assert_eq!(ids, vec![1, 2, 3, 1, 2]);
    let decoded = codec.decode_batch(&ids);
    assert_eq!(
        decoded,
        vec![
            Some("a".to_string()),
            Some("b".to_string()),
            Some("c".to_string()),
            Some("a".to_string()),
            Some("b".to_string())
        ]
    );
}

#[test]
fn test_dictionary_codec_lookup_batch() {
    let mut codec = DictionaryCodec::new();
    codec.encode("x");
    codec.encode("y");
    codec.encode("z");
    let results = codec.lookup_batch_into(&["x", "y", "z", "w"]);
    assert_eq!(results, vec![Some(1), Some(2), Some(3), None]);
}

#[test]
fn test_dictionary_codec_decode_batch_into() {
    let mut codec = DictionaryCodec::new();
    codec.encode("a");
    codec.encode("b");
    let mut results = Vec::new();
    codec.decode_batch_into(&[1, 2, 3], &mut results);
    assert_eq!(results, vec![Some("a".to_string()), Some("b".to_string()), None]);
}

#[test]
fn test_dictionary_codec_size() {
    let mut codec = DictionaryCodec::new();
    assert!(codec.is_empty());
    codec.encode("test");
    assert!(!codec.is_empty());
    assert_eq!(codec.len(), 2);
}

#[test]
fn test_dictionary_codec_space() {
    let mut codec = DictionaryCodec::new();
    codec.encode("hello");
    codec.encode("world");

    let space = codec.space_bytes();
    assert!(space > 0);
}

#[test]
fn test_dictionary_codec_clear() {
    let mut codec = DictionaryCodec::new();
    codec.encode("hello");
    codec.encode("world");
    assert_eq!(codec.len(), 3);
    codec.clear();
    assert_eq!(codec.len(), 1);
    assert!(codec.is_empty());
}

#[test]
fn test_dictionary_codec_with_capacity() {
    let mut codec = DictionaryCodec::with_capacity(1024);
    assert!(codec.is_empty());
    codec.encode("test");
    assert_eq!(codec.len(), 2);
}

// Own tests.

#[test]
fn slot_zero_holds_the_empty_string() {
    let mut cache = DictionaryCache::new();
    assert_eq!(cache.decode(0), Some(String::new()));
    assert_eq!(cache.decode(1), None);
    assert_eq!(cache.lookup(""), None);
    assert_eq!(cache.encode(""), 1);
    assert_eq!(cache.lookup(""), Some(1));
    let copy = cache.duplicate();
    assert_eq!(copy.len(), cache.len());
}

#[test]
fn encode_then_decode_gives_the_string_back() {
    let mut codec = DictionaryCodec::new();
    for w in ["alpha", "beta", "alpha", "gamma", ""] {
        let id = codec.encode(w);
        assert_eq!(codec.decode(id), Some(w.to_string()));
        assert_eq!(codec.decode_ref(id), Some(w.to_string()));
    }
    assert_eq!(codec.len(), 5);
    let mut out = vec![None; 2];
    codec.lookup_batch(&["beta", "nope"], &mut out);
    assert_eq!(out, vec![Some(2), None]);
    codec.warm_up(&["delta"]);
    assert_eq!(codec.lookup("delta"), Some(5));
}

#[test]
fn space_counts_string_bytes_and_map_slots() {
    let mut cache = DictionaryCache::new();
    let per_slot = std::mem::size_of::<String>() + std::mem::size_of::<u32>();
    assert_eq!(cache.space_bytes(), 64 * per_slot);
    cache.encode("héllo");
    cache.encode("ab");
    assert_eq!(cache.space_bytes(), 6 + 2 + 64 * per_slot);
    let big = DictionaryCache::with_capacity(100);
    assert_eq!(big.space_bytes(), 128 * per_slot);
}
