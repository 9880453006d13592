use kcm::compress::{Compressor, Lz4Compressor, NoopCompressor, RleCompressor, ZstdCompressor};
use kcm::crc::crc32;
use kcm::hash::{hash_blake3, hash_blake3_hex, to_hex};

#[test]
fn test_zstd_compress_decompress() {
    let compressor = ZstdCompressor::default_level();
    let data = b"Hello, World! This is a test of zstd compression in KCM.";
    let compressed = compressor.compress(data).unwrap();
    let decompressed = compressor.decompress(&compressed, data.len()).unwrap();
    assert_eq!(data.to_vec(), decompressed);
}

#[test]
fn test_lz4_compress_decompress() {
    let compressor = Lz4Compressor::default_level();
    let data = b"Hello, World! This is a test of lz4 compression in KCM.";
    let compressed = compressor.compress(data).unwrap();
    let decompressed = compressor.decompress(&compressed, data.len()).unwrap();
    assert_eq!(data.to_vec(), decompressed);
}

#[test]
fn test_noop_compress_decompress() {
    let compressor = NoopCompressor;
    let data = b"Hello, World!";
    let compressed = compressor.compress(data).unwrap();
    let decompressed = compressor.decompress(&compressed, data.len()).unwrap();
    assert_eq!(data.to_vec(), decompressed);
    assert_eq!(data.to_vec(), compressed);
}

#[test]
fn test_blake3_hash() {
    let data = b"test data";
    let hash = hash_blake3(data);
    assert_eq!(hash.len(), 32);
    let hash2 = hash_blake3(data);
    assert_eq!(hash, hash2);
    let hash3 = hash_blake3(b"different data");
    assert_ne!(hash, hash3);
}

#[test]
fn test_blake3_hex() {
    let data = b"test";
    let hex = hash_blake3_hex(data);
    assert_eq!(hex.len(), 64);
}

#[test]
fn test_zstd_repetitive_data() {
    let compressor = ZstdCompressor::new(10);
    let data: Vec<u8> = vec![42u8; 10000];
    let compressed = compressor.compress(&data).unwrap();
    assert!(compressed.len() < data.len());
    let decompressed = compressor.decompress(&compressed, data.len()).unwrap();
    assert_eq!(data, decompressed);
}

#[test]
fn test_zstd_roundtrip() {
    let compressor = ZstdCompressor::default_level();
    let data: Vec<u8> = (0..10000).map(|i| (i % 256) as u8).collect();
    let compressed = compressor.compress(&data).unwrap();
    let decompressed = compressor.decompress(&compressed, data.len()).unwrap();
    assert_eq!(data, decompressed);
}

#[test]
fn test_zstd_compresses_repetitive() {
    let compressor = ZstdCompressor::default_level();
    let data = vec![42u8; 10000];
    let compressed = compressor.compress(&data).unwrap();
    assert!(compressed.len() < data.len());
    let decompressed = compressor.decompress(&compressed, data.len()).unwrap();
    assert_eq!(data, decompressed);
}

#[test]
fn test_lz4_roundtrip() {
    let compressor = Lz4Compressor::default_level();
    let data: Vec<u8> = (0..10000).map(|i| (i % 256) as u8).collect();
    let compressed = compressor.compress(&data).unwrap();
    let decompressed = compressor.decompress(&compressed, data.len()).unwrap();
    assert_eq!(data, decompressed);
}

#[test]
fn test_compression_roundtrip() {
    let data: Vec<u8> = (0..10000).map(|i| (i % 256) as u8).collect();
    let zstd = ZstdCompressor::default_level();
    let compressed = zstd.compress(&data).unwrap();
    let decompressed = zstd.decompress(&compressed, data.len()).unwrap();
    assert_eq!(data, decompressed);
    let lz4 = Lz4Compressor::default_level();
    let compressed = lz4.compress(&data).unwrap();
    let decompressed = lz4.decompress(&compressed, data.len()).unwrap();
    assert_eq!(data, decompressed);
}

#[test]
fn test_codec_property_test_zstd_roundtrip_various_sizes() {
    let compressor = ZstdCompressor::default_level();
    for n in [100, 1_000, 10_000, 100_000] {
        let data: Vec<u8> = (0..n).map(|i| (i % 256) as u8).collect();
        let compressed = compressor.compress(&data).unwrap();
        let decompressed = compressor.decompress(&compressed, data.len()).unwrap();
        assert_eq!(data, decompressed, "Zstd failed for n={}", n);
    }
}

#[test]
fn test_zstd_repetitive_high_ratio() {
    let compressor = ZstdCompressor::default_level();
    let data = vec![42u8; 100_000];
    let compressed = compressor.compress(&data).unwrap();
    let ratio = data.len() as f64 / compressed.len() as f64;
    assert!(ratio > 10.0, "Zstd ratio should be > 10x, got {}", ratio);
    let decompressed = compressor.decompress(&compressed, data.len()).unwrap();
    assert_eq!(data, decompressed);
}

#[test]
fn test_zstd_large_data() {
    let compressor = ZstdCompressor::default_level();
    let data: Vec<u8> = (0..100_000).map(|i| (i * 37 % 256) as u8).collect();
    let compressed = compressor.compress(&data).unwrap();
    let decompressed = compressor.decompress(&compressed, data.len()).unwrap();
    assert_eq!(data, decompressed);
}

#[test]
fn test_codec_property_test_lz4_roundtrip_various_sizes() {
    let compressor = Lz4Compressor::default_level();
    for n in [100, 1_000, 10_000, 100_000] {
        let data: Vec<u8> = (0..n).map(|i| (i % 256) as u8).collect();
        let compressed = compressor.compress(&data).unwrap();
        let decompressed = compressor.decompress(&compressed, data.len()).unwrap();
        assert_eq!(data, decompressed, "LZ4 failed for n={}", n);
    }
}

#[test]
fn test_lz4_repetitive_data() {
    let compressor = Lz4Compressor::default_level();
    let data = vec![99u8; 100_000];
    let compressed = compressor.compress(&data).unwrap();
    let decompressed = compressor.decompress(&compressed, data.len()).unwrap();
    assert_eq!(data, decompressed);
}

#[test]
fn test_lz4_random_data() {
    let compressor = Lz4Compressor::default_level();
    let data: Vec<u8> = (0..100_000).map(|i| (i * 47 % 256) as u8).collect();
    let compressed = compressor.compress(&data).unwrap();
    let decompressed = compressor.decompress(&compressed, data.len()).unwrap();
    assert_eq!(data, decompressed);
}

#[test]
fn test_rle_compressor_roundtrip() {
    let rle = RleCompressor;
    let data: Vec<u8> = (0..10_000).map(|i| (i % 10) as u8).collect();
    let compressed = rle.compress(&data).unwrap();
    let decompressed = rle.decompress(&compressed, data.len()).unwrap();
    assert_eq!(data, decompressed);
}

#[test]
fn test_compression_ratio_zstd_vs_lz4() {
    let data = vec![0u8; 100_000];
    let zstd = ZstdCompressor::default_level();
    let lz4 = Lz4Compressor::default_level();
    let zstd_ratio = data.len() as f64 / zstd.compress(&data).unwrap().len() as f64;
    let lz4_ratio = data.len() as f64 / lz4.compress(&data).unwrap().len() as f64;
    assert!(zstd_ratio > lz4_ratio, "Zstd should compress better than LZ4 for repetitive data");
}

#[test]
fn test_zstd_level_comparison() {
    let data: Vec<u8> = (0..10_000).map(|i| (i % 256) as u8).collect();
    let low = ZstdCompressor::new(1).compress(&data).unwrap();
    let high = ZstdCompressor::new(10).compress(&data).unwrap();
    assert!(high.len() <= low.len(), "Higher compression level should produce smaller output");
}

#[test]
fn test_property_roundtrips_test_zstd_roundtrip_various_sizes() {
    let compressor = ZstdCompressor::default_level();
    for n in [100, 1_000, 10_000, 100_000] {
        let data: Vec<u8> = (0..n).map(|i| (i % 256) as u8).collect();
        let compressed = compressor.compress(&data).unwrap();
        let decompressed = compressor.decompress(&compressed, data.len()).unwrap();
        assert_eq!(data, decompressed, "Zstd roundtrip failed for n={}", n);
    }
}

#[test]
fn test_property_roundtrips_test_lz4_roundtrip_various_sizes() {
    let compressor = Lz4Compressor::default_level();
    for n in [100, 1_000, 10_000, 100_000] {
        let data: Vec<u8> = (0..n).map(|i| (i % 256) as u8).collect();
        let compressed = compressor.compress(&data).unwrap();
        let decompressed = compressor.decompress(&compressed, data.len()).unwrap();
        assert_eq!(data, decompressed, "LZ4 roundtrip failed for n={}", n);
    }
}

#[test]
fn test_zstd_compression_ratio() {
    let compressor = ZstdCompressor::default_level();
    let data = vec![0u8; 100_000];
    let compressed = compressor.compress(&data).unwrap();
    assert!(compressed.len() < data.len(), "Zstd should compress repetitive data");
    let ratio = compressed.len() as f64 / data.len() as f64;
    assert!(ratio < 0.1, "Zstd ratio {} should be < 10% for zeros", ratio);
}

// Own tests.

#[test]
fn known_digests() {
    assert_eq!(
        hash_blake3_hex(b""),
        "af1349b9f5f9a1a6a0404dea36dcc9499bcb25c9adc112b7cc9a93cae41f3262"
    );
    assert_eq!(to_hex(&[0x00, 0xab, 0x10]), "00ab10");
    assert_eq!(crc32(b"123456789"), 0xCBF4_3926);
    assert_eq!(crc32(b""), 0);
}

#[test]
fn corrupt_inputs_are_errors() {
    assert!(ZstdCompressor::default_level().decompress(b"not zstd at all", 10).is_err());
    assert!(Lz4Compressor::default_level().decompress(&[0xFF, 0xFF], 100).is_err());
    let rle = RleCompressor;
    assert_eq!(rle.decompress(&[5, 2, 0, 0, 0, 9], 0).unwrap(), vec![5, 5]);
}
