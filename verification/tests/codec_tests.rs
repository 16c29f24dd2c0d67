//! Tests for the individual codecs: run-length, Huffman, block
//! compression, and content-addressable deduplication.

use sigma_compress::entropy;
use sigma_compress::huffman;
use sigma_compress::lz4_wrapper;
use sigma_compress::semantic;
use sigma_compress::error::CompressError;

#[test]
fn test_entropy_roundtrip() {
    let data = b"aaabbbccc";
    let compressed = entropy::compress(data).unwrap();
    let decompressed = entropy::decompress(&compressed, data.len()).unwrap();
    assert_eq!(decompressed, data);
}

#[test]
fn test_entropy_single_run() {
    let data = vec![0xFFu8; 100];
    let compressed = entropy::compress(&data).unwrap();
    let decompressed = entropy::decompress(&compressed, data.len()).unwrap();
    assert_eq!(decompressed, data);
}

#[test]
fn test_entropy_no_runs() {
    let data: Vec<u8> = (0..50).collect();
    let compressed = entropy::compress(&data).unwrap();
    let decompressed = entropy::decompress(&compressed, data.len()).unwrap();
    assert_eq!(decompressed, data);
}

#[test]
fn test_entropy_odd_payload_rejected() {
    let err = entropy::decompress(&[3u8, 0, 7], 3).unwrap_err();
    assert!(matches!(err, CompressError::EntropyError(_)));
}

#[test]
fn test_huffman_roundtrip() {
    let data = b"hello world hello world hello";
    let compressed = huffman::compress(data).unwrap();
    let decompressed = huffman::decompress(&compressed, data.len()).unwrap();
    assert_eq!(decompressed, data);
}

#[test]
fn test_huffman_single_char() {
    let data = b"aaaaaa";
    let compressed = huffman::compress(data).unwrap();
    let decompressed = huffman::decompress(&compressed, data.len()).unwrap();
    assert_eq!(decompressed, data);
}

#[test]
fn test_huffman_all_bytes() {
    let data: Vec<u8> = (0..=255).collect();
    let compressed = huffman::compress(&data).unwrap();
    let decompressed = huffman::decompress(&compressed, data.len()).unwrap();
    assert_eq!(decompressed, data);
}

#[test]
fn test_huffman_compression_ratio() {
    let data = "aaabbbccc".repeat(100);
    let compressed = huffman::compress(data.as_bytes()).unwrap();
    assert!(compressed.len() < data.len());
}

#[test]
fn test_huffman_single_symbol_scenario() {
    let data = vec![0xFFu8; 100];
    let compressed = huffman::compress(&data).unwrap();
    let decompressed = huffman::decompress(&compressed, 100).unwrap();
    assert_eq!(decompressed, data);
}

#[test]
fn test_huffman_empty_rejected() {
    let err = huffman::compress(b"").unwrap_err();
    assert!(matches!(err, CompressError::HuffmanError(_)));
}

#[test]
fn test_huffman_truncated_rejected() {
    let err = huffman::decompress(&[9u8], 5).unwrap_err();
    assert!(matches!(err, CompressError::HuffmanError(_)));
}

#[test]
fn test_lz4_roundtrip() {
    let data = b"test data for lz4 compression roundtrip test data";
    let compressed = lz4_wrapper::compress(data, 1024).unwrap();
    let decompressed = lz4_wrapper::decompress(&compressed, data.len()).unwrap();
    assert_eq!(decompressed, data);
}

#[test]
fn test_lz4_multiple_blocks() {
    let data = vec![42u8; 200];
    let compressed = lz4_wrapper::compress(&data, 64).unwrap();
    let decompressed = lz4_wrapper::decompress(&compressed, data.len()).unwrap();
    assert_eq!(decompressed, data);
}

#[test]
fn test_lz4_small_data() {
    let data = b"hi";
    let compressed = lz4_wrapper::compress(data, 1024).unwrap();
    let decompressed = lz4_wrapper::decompress(&compressed, data.len()).unwrap();
    assert_eq!(decompressed, data);
}

#[test]
fn test_lz4_actually_compresses() {
    // Would fail if the block compressor handed its input back unchanged:
    // 5000 identical bytes must shrink well below the framing overhead.
    let data = vec![7u8; 5000];
    let compressed = lz4_wrapper::compress(&data, 65536).unwrap();
    assert!(compressed.len() < data.len() / 2);
}

#[test]
fn test_lz4_truncated_rejected() {
    let err = lz4_wrapper::decompress(&[1u8, 0, 0], 5).unwrap_err();
    assert!(matches!(err, CompressError::Lz4Error(_)));
}

#[test]
fn test_semantic_roundtrip() {
    let data = "hello world ".repeat(10);
    let compressed = semantic::compress(data.as_bytes(), 950).unwrap();
    let decompressed = semantic::decompress(&compressed, data.len()).unwrap();
    assert_eq!(decompressed, data.as_bytes());
}

#[test]
fn test_semantic_dedup_ratio() {
    let data = vec![0u8; 1000]; // highly duplicated
    let compressed = semantic::compress(&data, 950).unwrap();
    assert!(
        compressed.len() < data.len(),
        "should compress repeated data"
    );
}

#[test]
fn test_semantic_unique_data() {
    let data: Vec<u8> = (0..200).collect();
    let compressed = semantic::compress(&data, 950).unwrap();
    let decompressed = semantic::decompress(&compressed, data.len()).unwrap();
    assert_eq!(decompressed, data);
}

#[test]
fn test_semantic_truncated_rejected() {
    let err = semantic::decompress(&[1u8, 0], 5).unwrap_err();
    assert!(matches!(err, CompressError::SemanticError(_)));
}

#[test]
fn test_semantic_invalid_reference_rejected() {
    // One empty unique block, one reference pointing past the table.
    let mut payload = Vec::new();
    payload.extend_from_slice(&1u32.to_le_bytes()); // one unique block
    payload.extend_from_slice(&0u32.to_le_bytes()); // of length zero
    payload.extend_from_slice(&1u32.to_le_bytes()); // one reference
    payload.extend_from_slice(&5u32.to_le_bytes()); // out of range
    let err = semantic::decompress(&payload, 0).unwrap_err();
    assert!(matches!(err, CompressError::SemanticError(_)));
}

#[test]
fn test_entropy_exact_bytes() {
    // Maximal runs pin the encoder's bytes uniquely.
    let compressed = entropy::compress(b"aaabbbccc").unwrap();
    assert_eq!(compressed, vec![3, b'a', 3, b'b', 3, b'c']);
    let long = vec![7u8; 300];
    assert_eq!(entropy::compress(&long).unwrap(), vec![255, 7, 45, 7]);
}

#[test]
fn test_semantic_exact_size() {
    // 15 full zero blocks and one 40-byte tail collapse to two unique
    // blocks plus 16 references: 8 + (4 + 64) + (4 + 40) + 16 * 4 bytes.
    let data = vec![0u8; 1000];
    let compressed = semantic::compress(&data, 950).unwrap();
    assert_eq!(compressed.len(), 184);
}

#[test]
fn test_lz4_frame_headers() {
    // Each frame stores its chunk's original length.
    let data = vec![5u8; 200];
    let compressed = lz4_wrapper::compress(&data, 64).unwrap();
    assert_eq!(u32::from_le_bytes([compressed[0], compressed[1], compressed[2], compressed[3]]), 4);
    assert_eq!(u32::from_le_bytes([compressed[4], compressed[5], compressed[6], compressed[7]]), 64);
}
