use deflate::compress::compress_data_fixed;
use miniz_oxide::inflate::decompress_to_vec;

/// Deterministic English-like text of about 180 kB, standing in for a book-sized test file.
fn get_test_data() -> Vec<u8> {
    let words: [&str; 64] = [
        "the", "of", "and", "to", "a", "in", "that", "was", "she", "it", "Alice", "rabbit", "said",
        "very", "little", "Queen", "Hatter", "time", "would", "could", "down", "into", "what", "with",
        "for", "you", "her", "not", "on", "as", "at", "had", "be", "all", "this", "they", "there", "so",
        "but", "when", "garden", "curious", "thought", "herself", "looked", "began", "Mock", "Turtle",
        "Gryphon", "Duchess", "King", "March", "Hare", "Dormouse", "tea", "party", "croquet", "door",
        "key", "golden", "bottle", "cake", "mushroom", "caterpillar",
    ];
    let mut out = Vec::new();
    let mut state: u32 = 12345;
    let mut line = 0usize;
    while out.len() < 180_000 {
        state = state.wrapping_mul(1103515245).wrapping_add(12345);
        let w = words[((state >> 16) % 64) as usize];
        out.extend_from_slice(w.as_bytes());
        line += w.len() + 1;
        let p = (state >> 8) % 23;
        if p == 0 {
            out.push(b'.');
        } else if p == 1 {
            out.push(b',');
        }
        if line > 70 {
            out.push(b'\n');
            line = 0;
        } else {
            out.push(b' ');
        }
    }
    out
}

fn decompress_to_end(input: &[u8]) -> Vec<u8> {
    decompress_to_vec(input).expect("Decompression failed!")
}

#[test]
/// Test compressing a short string using fixed encoding.
fn fixed_string_mem() {
    let test_data = String::from("                    GNU GENERAL PUBLIC LICENSE").into_bytes();
    let compressed = compress_data_fixed(&test_data);

    let result = decompress_to_end(&compressed);

    assert_eq!(test_data, result);
}

#[test]
fn fixed_data() {
    let data = vec![190u8; 400];
    let compressed = compress_data_fixed(&data);
    let result = decompress_to_end(&compressed);

    assert_eq!(data, result);
}

/// Check if the encoder produces the same code as the example given by Mark Adler for the
/// fixed Huffman codes.
#[test]
fn fixed_example() {
    let test_data = b"Deflate late";
    let check = [0x73, 0x49, 0x4d, 0xcb, 0x49, 0x2c, 0x49, 0x55, 0x00, 0x11, 0x00];
    let compressed = compress_data_fixed(test_data);
    assert_eq!(&compressed, &check);
    let decompressed = decompress_to_end(&compressed);
    assert_eq!(&decompressed, test_data)
}

#[test]
/// Test compression from a file.
fn fixed_string_file() {
    let input = get_test_data();

    let compressed = compress_data_fixed(&input);
    println!("Fixed codes compressed len: {}", compressed.len());
    let result = decompress_to_end(&compressed);

    assert_eq!(input.len(), result.len());
    assert!(input == result);
}

#[test]
fn fixed_empty_input() {
    // An empty final block with fixed codes: header bits 1 and 01, then the end of block
    // code of seven zero bits.
    let compressed = compress_data_fixed(&[]);
    assert_eq!(compressed, vec![0x03, 0x00]);
    assert_eq!(decompress_to_end(&compressed), Vec::<u8>::new());
}
