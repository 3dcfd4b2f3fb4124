use deflate::compression_options::CompressionOptions;
use deflate::writer::{DeflateEncoder, ZlibEncoder};
use miniz_oxide::inflate::{decompress_to_vec, decompress_to_vec_zlib};

/// Deterministic English-like text of about 180 kB, standing in for a book-sized test file.
fn get_test_data() -> Vec<u8> {
    let words: [&str; 64] = [
        "the", "of", "and", "to", "a", "in", "that", "was", "she", "it", "Alice", "rabbit", "said",
        "very", "little", "Queen", "Hatter", "time", "would", "could", "down", "into", "what", "with",
        "for", "you", "her", "not", "on", "as", "at", "had", "be", "all", "this", "they", "there", "so",
        "but", "when", "garden", "curious", "thought", "herself", "looked", "began", "Mock", "Turtle",
        "Gryphon", "Duchess", "King", "March", "Hare", "Dormouse", "tea", "party", "croquet", "door",
        "key", "golden", "bottle", "cake", "mushroom", "caterpillar",
    ];
    let mut out = Vec::new();
    let mut state: u32 = 12345;
    let mut line = 0usize;
    while out.len() < 180_000 {
        state = state.wrapping_mul(1103515245).wrapping_add(12345);
        let w = words[((state >> 16) % 64) as usize];
        out.extend_from_slice(w.as_bytes());
        line += w.len() + 1;
        let p = (state >> 8) % 23;
        if p == 0 {
            out.push(b'.');
        } else if p == 1 {
            out.push(b',');
        }
        if line > 70 {
            out.push(b'\n');
            line = 0;
        } else {
            out.push(b' ');
        }
    }
    out
}

fn decompress_to_end(input: &[u8]) -> Vec<u8> {
    decompress_to_vec(input).expect("Decompression failed!")
}

fn decompress_zlib(compressed: &[u8]) -> Vec<u8> {
    decompress_to_vec_zlib(compressed).expect("Decompression failed!")
}

#[test]
fn deflate_writer() {
    let data = get_test_data();
    let compressed = {
        let mut compressor = DeflateEncoder::new(Vec::with_capacity(data.len() / 3), CompressionOptions::high());
        // Write in multiple steps to see if this works as it's supposed to.
        compressor.write_all(&data[0..data.len() / 2]);
        compressor.write_all(&data[data.len() / 2..]);
        compressor.finish()
    };

    let res = decompress_to_end(&compressed);
    assert!(res == data);
}

#[test]
fn zlib_writer() {
    let data = get_test_data();
    let compressed = {
        let mut compressor = ZlibEncoder::new(Vec::with_capacity(data.len() / 3), CompressionOptions::high());
        compressor.write_all(&data[0..data.len() / 2]);
        compressor.write_all(&data[data.len() / 2..]);
        compressor.finish()
    };

    let res = decompress_zlib(&compressed);
    assert!(res == data);
}

#[test]
/// Check if the the result of compressing after resetting is the same as before.
fn writer_reset() {
    let data = get_test_data();
    let mut compressor = DeflateEncoder::new(Vec::with_capacity(data.len() / 3), CompressionOptions::default());
    compressor.write_all(&data);
    let res1 = compressor.reset(Vec::with_capacity(data.len() / 3));
    compressor.write_all(&data);
    let res2 = compressor.finish();
    assert!(res1 == res2);
}

#[test]
fn writer_reset_zlib() {
    let data = get_test_data();
    let mut compressor = ZlibEncoder::new(Vec::with_capacity(data.len() / 3), CompressionOptions::default());
    compressor.write_all(&data);
    let res1 = compressor.reset(Vec::with_capacity(data.len() / 3));
    compressor.write_all(&data);
    let res2 = compressor.finish();
    assert!(res1 == res2);
}

#[test]
fn writer_sync() {
    let data = get_test_data();
    let compressed = {
        let mut compressor = DeflateEncoder::new(Vec::with_capacity(data.len() / 3), CompressionOptions::default());
        let split = data.len() / 2;
        compressor.write_all(&data[..split]);
        compressor.flush();
        {
            let buf = compressor.get_ref();
            let buf_len = buf.len();
            // Check for the sync marker. (excluding the header as it might not line
            // up with the byte boundary.)
            assert_eq!(buf[buf_len - 4..], [0, 0, 255, 255]);
        }
        compressor.write_all(&data[split..]);
        compressor.finish()
    };

    let decompressed = decompress_to_end(&compressed);

    assert!(decompressed == data);
}

#[test]
fn writer_sync_multiple() {
    let data = get_test_data();
    let compressed = {
        let mut compressor = DeflateEncoder::new(Vec::with_capacity(data.len() / 3), CompressionOptions::default());
        let split = data.len() / 2;
        compressor.write_all(&data[..split]);
        compressor.flush();
        compressor.flush();
        {
            let buf = compressor.get_ref();
            let buf_len = buf.len();
            // Check for the sync marker. (excluding the header as it might not line
            // up with the byte boundary.)
            assert_eq!(buf[buf_len - 4..], [0, 0, 255, 255]);
        }
        compressor.write_all(&data[split..std::cmp::min(split + 2, data.len())]);
        compressor.flush();
        compressor.write_all(&data[std::cmp::min(split + 2, data.len())..]);
        compressor.finish()
    };

    let decompressed = decompress_to_end(&compressed);

    assert!(decompressed == data);

    let mut compressor = DeflateEncoder::new(Vec::with_capacity(data.len() / 3), CompressionOptions::default());

    compressor.flush();
    compressor.write_all(&[1, 2]);
    compressor.flush();
    compressor.write_all(&[3]);
    compressor.flush();
    let compressed = compressor.finish();

    let decompressed = decompress_to_end(&compressed);

    assert_eq!(decompressed, [1, 2, 3]);
}

#[test]
fn zlib_checksum_of_input_so_far() {
    let mut compressor = ZlibEncoder::new(Vec::new(), CompressionOptions::default());
    assert_eq!(compressor.checksum(), 1);
    compressor.write_all(b"Wikipedia");
    // The Adler-32 example of RFC 1950 and Wikipedia.
    assert_eq!(compressor.checksum(), 0x11E60398);
    let out = compressor.finish();
    assert_eq!(&out[..2], &[0x78, 0x9c]);
    assert_eq!(&out[out.len() - 4..], &[0x11, 0xE6, 0x03, 0x98]);
    assert_eq!(decompress_zlib(&out), b"Wikipedia");
}

#[test]
fn zlib_flush_writes_header_first() {
    let mut compressor = ZlibEncoder::new(Vec::new(), CompressionOptions::default());
    compressor.flush();
    compressor.write_all(b"abc");
    let out = compressor.finish();
    assert_eq!(&out[..2], &[0x78, 0x9c]);
    assert_eq!(decompress_zlib(&out), b"abc");
}

#[test]
fn finish_without_input() {
    let compressed = DeflateEncoder::new(Vec::new(), CompressionOptions::default()).finish();
    assert_eq!(decompress_to_end(&compressed), Vec::<u8>::new());
    let compressed = ZlibEncoder::new(Vec::new(), CompressionOptions::default()).finish();
    assert_eq!(decompress_zlib(&compressed), Vec::<u8>::new());
    // Header, an empty block, and the checksum of nothing.
    assert_eq!(&compressed[compressed.len() - 4..], &[0, 0, 0, 1]);
}

#[test]
fn encoder_keeps_earlier_output() {
    let mut compressor = DeflateEncoder::new(vec![1, 2, 3], CompressionOptions::fast());
    compressor.write_all(b"some data");
    let out = compressor.finish();
    assert_eq!(&out[..3], &[1, 2, 3]);
    assert_eq!(decompress_to_end(&out[3..]), b"some data");
}

#[test]
fn small_input_in_pieces_matches_one_shot() {
    let data = b"Badger badger bababa test data 25 asfgestghresjkgh";
    let mut encoder = DeflateEncoder::new(Vec::new(), CompressionOptions::default());
    encoder.write_all(&data[..25]);
    encoder.write_all(&data[25..]);
    let pieces = encoder.finish();
    let whole = deflate::deflate_bytes(data);
    assert_eq!(pieces, whole);
    assert_eq!(decompress_to_end(&pieces), data.to_vec());
}

#[test]
fn small_input_in_pieces_matches_one_shot_zlib() {
    let data = b"Badger badger bababa test data 25 asfgestghresjkgh";
    let mut encoder = ZlibEncoder::new(Vec::new(), CompressionOptions::default());
    encoder.write_all(&data[..10]);
    encoder.write_all(&data[10..]);
    let pieces = encoder.finish();
    let whole = deflate::deflate_bytes_zlib(data);
    assert_eq!(pieces, whole);
    assert_eq!(decompress_zlib(&pieces), data.to_vec());
}
