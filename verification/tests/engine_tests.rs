//! Tests for the engine: dispatch, selection policies, entropy estimation.

use sigma_compress::{CompressedOutput, CompressionMetadata, CompressionMethod, Compressor};
use sigma_compress::error::CompressError;

#[test]
fn test_compress_huffman() {
    let compressor = Compressor::default();
    let data = b"hello world hello world hello world";
    let result = compressor.compress(data, CompressionMethod::Huffman).unwrap();
    assert!(result.compressed_size > 0);
    assert_eq!(result.original_size, data.len());
    assert_eq!(result.method, CompressionMethod::Huffman);
}

#[test]
fn test_compress_lz4() {
    let compressor = Compressor::default();
    let data = b"repeated repeated repeated repeated";
    let result = compressor.compress(data, CompressionMethod::Lz4Semantic).unwrap();
    assert!(result.compressed_size > 0);
}

#[test]
fn test_compress_empty() {
    let compressor = Compressor::default();
    let result = compressor.compress(b"", CompressionMethod::Huffman);
    assert!(result.is_err());
}

#[test]
fn test_roundtrip_huffman() {
    let compressor = Compressor::default();
    let data = b"the quick brown fox jumps over the lazy dog";
    let compressed = compressor.compress(data, CompressionMethod::Huffman).unwrap();
    let decompressed = compressor.decompress(&compressed).unwrap();
    assert_eq!(decompressed, data);
}

#[test]
fn test_auto_selection() {
    let compressor = Compressor::default();
    let low_entropy = vec![0u8; 1000];
    let result = compressor.compress(&low_entropy, CompressionMethod::Auto).unwrap();
    assert_eq!(result.method, CompressionMethod::Huffman);
}

#[test]
fn test_entropy_computation() {
    let compressor = Compressor::default();
    let uniform = vec![42u8; 100];
    let entropy = compressor.compute_entropy(&uniform);
    assert!(entropy < 10, "uniform data should have ~0 entropy");
}

#[test]
fn test_compression_ratio() {
    let compressor = Compressor::default();
    let data = "aaaaaaaaaa".repeat(100);
    let result = compressor.compress(data.as_bytes(), CompressionMethod::Huffman).unwrap();
    assert!(result.ratio_permille() < 1000, "repetitive data should compress well");
}

#[test]
fn test_entropy_bounds() {
    let compressor = Compressor::default();
    let mixed: Vec<u8> = (0..=255).cycle().take(1000).collect();
    assert!(compressor.compute_entropy(&mixed) <= 8000);
    assert!(compressor.compute_entropy(b"abcabc") <= 8000);
    let uniform = vec![42u8; 100];
    assert_eq!(compressor.compute_entropy(&uniform), 0);
    assert_eq!(compressor.compute_entropy(b""), 0);
}

#[test]
fn test_auto_never_stored() {
    let compressor = Compressor::default();
    for data in [
        vec![0u8; 10],
        (0..=255).collect::<Vec<u8>>(),
        b"mixed content 1234 mixed content".to_vec(),
        vec![9u8; 20000],
    ] {
        let result = compressor.compress(&data, CompressionMethod::Auto).unwrap();
        assert_ne!(result.method, CompressionMethod::Auto);
        let decompressed = compressor.decompress(&result).unwrap();
        assert_eq!(decompressed, data);
    }
}

#[test]
fn test_empty_rejected_all_methods() {
    let compressor = Compressor::default();
    for method in [
        CompressionMethod::Huffman,
        CompressionMethod::Lz4Semantic,
        CompressionMethod::EntropyCoding,
        CompressionMethod::SemanticDedupe,
        CompressionMethod::Auto,
    ] {
        let err = compressor.compress(b"", method).unwrap_err();
        assert!(matches!(err, CompressError::EmptyInput));
    }
    let err = compressor.compress_adaptive(b"").unwrap_err();
    assert!(matches!(err, CompressError::EmptyInput));
}

#[test]
fn test_decode_auto_tag_rejected() {
    let compressor = Compressor::default();
    let envelope = CompressedOutput {
        method: CompressionMethod::Auto,
        original_size: 4,
        compressed_size: 4,
        data: vec![1, 2, 3, 4],
        metadata: CompressionMetadata {
            entropy_millibits: 0,
            semantic_dedup_count: 0,
            block_count: 1,
        },
    };
    let err = compressor.decompress(&envelope).unwrap_err();
    assert!(matches!(err, CompressError::InvalidMethod));
}

#[test]
fn test_dedup_exactness() {
    let compressor = Compressor::default();
    let heavy = vec![0u8; 1000];
    let result = compressor.compress(&heavy, CompressionMethod::SemanticDedupe).unwrap();
    assert!(result.compressed_size < 1000);
    assert_eq!(compressor.decompress(&result).unwrap(), heavy);

    let distinct: Vec<u8> = (0..200).collect();
    let result = compressor.compress(&distinct, CompressionMethod::SemanticDedupe).unwrap();
    assert_eq!(compressor.decompress(&result).unwrap(), distinct);
}

#[test]
fn test_adaptive_beats_or_matches_static() {
    let compressor = Compressor::default();
    let pattern: Vec<u8> = (0..64).collect();
    let samples: Vec<Vec<u8>> = vec![
        "aaabbbccc".repeat(100).into_bytes(),
        pattern.iter().cycle().take(512).copied().collect(),
        vec![0xABu8; 100_000],
    ];
    for data in samples {
        let static_method = compressor.select_method(&data);
        let static_result = compressor.compress(&data, static_method).unwrap();
        let adaptive_result = compressor.compress_adaptive(&data).unwrap();
        assert!(adaptive_result.compressed_size <= static_result.compressed_size);
        assert_eq!(compressor.decompress(&adaptive_result).unwrap(), data);
    }
}

#[test]
fn test_low_entropy_scenario() {
    let compressor = Compressor::default();
    let data = "aaabbbccc".repeat(100);
    assert_eq!(data.len(), 900);
    let result = compressor.compress(data.as_bytes(), CompressionMethod::Auto).unwrap();
    assert_eq!(result.method, CompressionMethod::Huffman);
    assert!(result.ratio_permille() < 1000);
    let decompressed = compressor.decompress(&result).unwrap();
    assert_eq!(decompressed, data.as_bytes());
}

#[test]
fn test_adaptive_roundtrip() {
    let compressor = Compressor::default();
    let data = b"adaptive candidates should all round-trip exactly".repeat(20);
    let result = compressor.compress_adaptive(&data).unwrap();
    assert_ne!(result.method, CompressionMethod::Auto);
    let decompressed = compressor.decompress(&result).unwrap();
    assert_eq!(decompressed, data);
}

#[test]
fn test_entropy_exact_two_symbols() {
    // Two equally frequent byte values carry exactly one bit per byte.
    let compressor = Compressor::default();
    assert_eq!(compressor.compute_entropy(b"aabb"), 1000);
}

#[test]
fn test_ratio_permille_exact() {
    let envelope = CompressedOutput {
        method: CompressionMethod::EntropyCoding,
        original_size: 4,
        compressed_size: 3,
        data: vec![0, 0, 0],
        metadata: CompressionMetadata {
            entropy_millibits: 0,
            semantic_dedup_count: 0,
            block_count: 1,
        },
    };
    assert_eq!(envelope.ratio_permille(), 750);
}

#[test]
fn test_error_messages() {
    assert_eq!(CompressError::EmptyInput.message(), "empty input");
    assert_eq!(
        CompressError::InvalidMethod.message(),
        "invalid compression method for this operation"
    );
}
