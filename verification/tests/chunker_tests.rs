use webpub::chunker::{chunk_data, Chunk};

#[test]
fn test_chunk_small_data() {
    let data = b"Hello, world!";
    let chunks: Vec<Chunk> = chunk_data(data);

    // Small data should produce one chunk
    assert_eq!(chunks.len(), 1);
    assert_eq!(chunks[0].data, data);

    // Hash should be BLAKE3 of data
    let expected_hash = blake3::hash(data);
    assert_eq!(chunks[0].hash, *expected_hash.as_bytes());
}

#[test]
fn test_chunk_deterministic() {
    let data = b"Some test data that we chunk";
    let chunks1: Vec<Chunk> = chunk_data(data);
    let chunks2: Vec<Chunk> = chunk_data(data);

    assert_eq!(chunks1.len(), chunks2.len());
    for (c1, c2) in chunks1.iter().zip(chunks2.iter()) {
        assert_eq!(c1.hash, c2.hash);
    }
}

#[test]
fn test_chunk_large_data() {
    // Create data large enough to produce multiple chunks
    // fastcdc default min is 16KB, avg 32KB, max 64KB
    let data: Vec<u8> = (0..200_000).map(|i| (i % 256) as u8).collect();
    let chunks: Vec<Chunk> = chunk_data(&data);

    // Should produce multiple chunks
    assert!(chunks.len() > 1);

    // Reconstruct and verify
    let reconstructed: Vec<u8> = chunks.iter().flat_map(|c| c.data.iter().copied()).collect();
    assert_eq!(reconstructed, data);
}

#[test]
fn test_chunk_empty_input() {
    let chunks: Vec<Chunk> = chunk_data(b"");
    assert!(chunks.is_empty());
}

#[test]
fn test_chunk_single_byte() {
    let chunks: Vec<Chunk> = chunk_data(b"x");
    assert_eq!(chunks.len(), 1);
    assert_eq!(chunks[0].data, b"x");
}

#[test]
fn test_chunk_at_most_min_size_is_single() {
    // Any input up to the minimum chunk size comes back as one chunk.
    let data: Vec<u8> = (0..16384).map(|i| (i * 31 % 251) as u8).collect();
    let chunks: Vec<Chunk> = chunk_data(&data);
    assert_eq!(chunks.len(), 1);
    assert_eq!(chunks[0].data, data);
}

#[test]
fn test_chunk_sizes_bounded() {
    let data: Vec<u8> = (0..300_000).map(|i| (i % 256) as u8).collect();
    let chunks: Vec<Chunk> = chunk_data(&data);
    for (i, c) in chunks.iter().enumerate() {
        assert!(c.data.len() <= 65536);
        if i + 1 < chunks.len() {
            assert!(c.data.len() >= 16384);
        }
    }
}

#[test]
fn test_chunk_exactly_max_size() {
    // A 64 KiB input may come back as one chunk, and must reassemble.
    let data: Vec<u8> = vec![7u8; 65536];
    let chunks: Vec<Chunk> = chunk_data(&data);
    assert!(!chunks.is_empty());
    let reconstructed: Vec<u8> = chunks.iter().flat_map(|c| c.data.iter().copied()).collect();
    assert_eq!(reconstructed, data);
    for c in &chunks {
        assert_eq!(c.hash, *blake3::hash(&c.data).as_bytes());
    }
}
