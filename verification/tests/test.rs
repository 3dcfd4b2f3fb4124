use deflate::compression_options::{Compression, CompressionOptions};
use deflate::writer::{DeflateEncoder, ZlibEncoder};

/// Deterministic English-like text of about 180 kB, standing in for a book-sized test file.
fn get_test_data() -> Vec<u8> {
    let words: [&str; 64] = [
        "the", "of", "and", "to", "a", "in", "that", "was", "she", "it", "Alice", "rabbit", "said",
        "very", "little", "Queen", "Hatter", "time", "would", "could", "down", "into", "what", "with",
        "for", "you", "her", "not", "on", "as", "at", "had", "be", "all", "this", "they", "there", "so",
        "but", "when", "garden", "curious", "thought", "herself", "looked", "began", "Mock", "Turtle",
        "Gryphon", "Duchess", "King", "March", "Hare", "Dormouse", "tea", "party", "croquet", "door",
        "key", "golden", "bottle", "cake", "mushroom", "caterpillar",
    ];
    let mut out = Vec::new();
    let mut state: u32 = 12345;
    let mut line = 0usize;
    while out.len() < 180_000 {
        state = state.wrapping_mul(1103515245).wrapping_add(12345);
        let w = words[((state >> 16) % 64) as usize];
        out.extend_from_slice(w.as_bytes());
        line += w.len() + 1;
        let p = (state >> 8) % 23;
        if p == 0 {
            out.push(b'.');
        } else if p == 1 {
            out.push(b',');
        }
        if line > 70 {
            out.push(b'\n');
            line = 0;
        } else {
            out.push(b' ');
        }
    }
    out
}

fn roundtrip(data: &[u8]) {
    roundtrip_conf(data, CompressionOptions::default())
}

fn roundtrip_conf(data: &[u8], level: CompressionOptions) {
    let compressed = deflate::deflate_bytes_zlib_conf(data, level);
    println!("Compressed len: {}, level: {:?}", compressed.len(), level);
    let decompressed = miniz_oxide::inflate::decompress_to_vec_zlib(&compressed).expect("Decompression failed!");
    assert!(decompressed.as_slice() == data);
}

// A test comparing the compression ratio of the library with miniz_oxide
#[test]
fn file_zlib_compare_output() {
    let test_data = get_test_data();
    let flate2_compressed = miniz_oxide::deflate::compress_to_vec_zlib(&test_data, 10);

    println!("mz_oxide len: {}", flate2_compressed.len(),);

    roundtrip_conf(&test_data, CompressionOptions::high());
}

#[test]
fn issue_17() {
    // This is window size + 1 bytes long which made the hash table
    // slide when there was only the two end-bytes that don't need to be hashed left
    // and triggered an assertion.
    let data = vec![0; 65537];

    roundtrip(&data);
}

#[test]
fn fast() {
    let test_data = get_test_data();
    roundtrip_conf(&test_data, CompressionOptions::fast());
}

#[test]
fn issue_26() {
    let fp = Vec::new();
    let mut fp = ZlibEncoder::new(fp, CompressionOptions::default());

    fp.write(&[0]);
    fp.flush();
    fp.write(&[0]);
    fp.write(&[0, 0]);
}

#[test]
fn issue_26_gzip() {
    let fp = Vec::new();
    let mut fp = DeflateEncoder::new(fp, CompressionOptions::default());

    fp.write(&[0]);
    fp.flush();
    fp.write(&[0]);
    fp.write(&[0, 0]);
}

#[test]
fn issue_47() {
    let _ = ZlibEncoder::new(vec![], Compression::Fast.into()).flush();
}

#[test]
fn fast_level_from_compression() {
    let test_data = get_test_data();
    roundtrip_conf(&test_data, Compression::Fast.into());
    roundtrip_conf(&test_data, Compression::Best.into());
}
