use deflate::compression_options::CompressionOptions;
use deflate::input_buffer::BUFFER_SIZE;
use deflate::writer::ZlibEncoder;
use deflate::{deflate_bytes, deflate_bytes_conf, deflate_bytes_zlib, deflate_bytes_zlib_conf};
use miniz_oxide::inflate::{decompress_to_vec, decompress_to_vec_zlib};

/// Deterministic English-like text of about 180 kB, standing in for a book-sized test file.
fn get_test_data() -> Vec<u8> {
    let words: [&str; 64] = [
        "the", "of", "and", "to", "a", "in", "that", "was", "she", "it", "Alice", "rabbit", "said",
        "very", "little", "Queen", "Hatter", "time", "would", "could", "down", "into", "what", "with",
        "for", "you", "her", "not", "on", "as", "at", "had", "be", "all", "this", "they", "there", "so",
        "but", "when", "garden", "curious", "thought", "herself", "looked", "began", "Mock", "Turtle",
        "Gryphon", "Duchess", "King", "March", "Hare", "Dormouse", "tea", "party", "croquet", "door",
        "key", "golden", "bottle", "cake", "mushroom", "caterpillar",
    ];
    let mut out = Vec::new();
    let mut state: u32 = 12345;
    let mut line = 0usize;
    while out.len() < 180_000 {
        state = state.wrapping_mul(1103515245).wrapping_add(12345);
        let w = words[((state >> 16) % 64) as usize];
        out.extend_from_slice(w.as_bytes());
        line += w.len() + 1;
        let p = (state >> 8) % 23;
        if p == 0 {
            out.push(b'.');
        } else if p == 1 {
            out.push(b',');
        }
        if line > 70 {
            out.push(b'\n');
            line = 0;
        } else {
            out.push(b' ');
        }
    }
    out
}

fn decompress_to_end(input: &[u8]) -> Vec<u8> {
    decompress_to_vec(input).expect("Decompression failed!")
}

fn decompress_zlib(compressed: &[u8]) -> Vec<u8> {
    decompress_to_vec_zlib(compressed).expect("Decompression failed!")
}

/// Write data to the encoder in chunks of chunk_size.
fn chunked_write(writer: &mut ZlibEncoder, data: &[u8], chunk_size: usize) {
    for chunk in data.chunks(chunk_size) {
        let bytes_written = writer.write(&chunk);
        assert_eq!(bytes_written, chunk.len());
    }
}

#[test]
fn dynamic_string_mem() {
    let test_data = String::from("                    GNU GENERAL PUBLIC LICENSE").into_bytes();
    let compressed = deflate_bytes(&test_data);

    assert!(compressed.len() < test_data.len());

    let result = decompress_to_end(&compressed);
    assert_eq!(test_data, result);
}

#[test]
fn dynamic_string_file() {
    let input = get_test_data();
    let compressed = deflate_bytes(&input);

    println!("Compressed len: {}", compressed.len());

    let result = decompress_to_end(&compressed);
    // Not using assert_eq here deliberately to avoid massive amounts of output spam
    assert!(input == result);
    // Check that we actually managed to compress the input
    assert!(compressed.len() < input.len());
}

#[test]
fn file_zlib() {
    let test_data = get_test_data();

    let compressed = deflate_bytes_zlib(&test_data);

    println!("compressed length: {}", compressed.len());

    let result = decompress_zlib(&compressed);

    assert!(&test_data == &result);
    assert!(compressed.len() < test_data.len());
}

#[test]
fn zlib_short() {
    let test_data = [10, 20, 30, 40, 55];
    let compressed = deflate_bytes_zlib(&test_data);

    let result = decompress_zlib(&compressed);
    assert_eq!(&test_data, result.as_slice());
}

#[test]
fn zlib_last_block() {
    let mut test_data = vec![22; 32768];
    test_data.extend(&[5, 2, 55, 11, 12]);
    let compressed = deflate_bytes_zlib(&test_data);

    let result = decompress_zlib(&compressed);
    assert!(test_data == result);
}

fn chunk_test(chunk_size: usize) {
    let data = get_test_data();
    let compressed = {
        let mut compressor = ZlibEncoder::new(Vec::with_capacity(32000), CompressionOptions::high());
        chunked_write(&mut compressor, &data, chunk_size);
        compressor.finish()
    };
    let compressed2 = deflate_bytes_zlib_conf(&data, CompressionOptions::high());
    let res = decompress_zlib(&compressed);
    assert!(res == data);
    assert_eq!(compressed.len(), compressed2.len());
    assert!(compressed == compressed2);
}

#[test]
/// Test the writer by inputing data in one chunk at the time.
fn zlib_writer_chunks() {
    chunk_test(1);
    chunk_test(50);
    chunk_test(400);
    chunk_test(32768);
    chunk_test(BUFFER_SIZE);
    chunk_test(50000);
    chunk_test((32768 * 2) + 258);
}

#[test]
fn empty_input() {
    let compressed = deflate_bytes(&[]);
    assert_eq!(decompress_to_end(&compressed), Vec::<u8>::new());
    let compressed = deflate_bytes_zlib(&[]);
    // Header, a final empty block, and the checksum 1 of no data.
    assert_eq!(&compressed[..2], &[0x78, 0x9c]);
    assert_eq!(&compressed[compressed.len() - 4..], &[0, 0, 0, 1]);
    assert_eq!(decompress_zlib(&compressed), Vec::<u8>::new());
}

#[test]
fn zlib_trailer_is_adler32() {
    let compressed = deflate_bytes_zlib(b"Wikipedia");
    assert_eq!(&compressed[compressed.len() - 4..], &[0x11, 0xE6, 0x03, 0x98]);
}

#[test]
fn all_levels_roundtrip() {
    let data = get_test_data();
    let part = &data[..20000];
    for options in [CompressionOptions::fast(), CompressionOptions::default(), CompressionOptions::high()] {
        let c = deflate_bytes_conf(part, options);
        assert_eq!(decompress_to_end(&c), part);
    }
}

#[test]
fn incompressible_data_roundtrip() {
    // Pseudo-random bytes: the blocks are likely stored.
    let mut state: u32 = 7;
    let data: Vec<u8> = (0..70000)
        .map(|_| {
            state = state.wrapping_mul(1664525).wrapping_add(1013904223);
            (state >> 24) as u8
        })
        .collect();
    let c = deflate_bytes(&data);
    assert_eq!(decompress_to_end(&c), data);
    // Blocks that would grow are stored, so the output is barely longer than the input.
    assert!(c.len() < data.len() + data.len() / 500);
}
