use deflate::compression_options::CompressionOptions;
use deflate::gzip::GzEncoder;

/// Deterministic English-like text of about 180 kB, standing in for a book-sized test file.
fn get_test_data() -> Vec<u8> {
    let words: [&str; 64] = [
        "the", "of", "and", "to", "a", "in", "that", "was", "she", "it", "Alice", "rabbit", "said",
        "very", "little", "Queen", "Hatter", "time", "would", "could", "down", "into", "what", "with",
        "for", "you", "her", "not", "on", "as", "at", "had", "be", "all", "this", "they", "there", "so",
        "but", "when", "garden", "curious", "thought", "herself", "looked", "began", "Mock", "Turtle",
        "Gryphon", "Duchess", "King", "March", "Hare", "Dormouse", "tea", "party", "croquet", "door",
        "key", "golden", "bottle", "cake", "mushroom", "caterpillar",
    ];
    let mut out = Vec::new();
    let mut state: u32 = 12345;
    let mut line = 0usize;
    while out.len() < 180_000 {
        state = state.wrapping_mul(1103515245).wrapping_add(12345);
        let w = words[((state >> 16) % 64) as usize];
        out.extend_from_slice(w.as_bytes());
        line += w.len() + 1;
        let p = (state >> 8) % 23;
        if p == 0 {
            out.push(b'.');
        } else if p == 1 {
            out.push(b',');
        }
        if line > 70 {
            out.push(b'\n');
            line = 0;
        } else {
            out.push(b' ');
        }
    }
    out
}

/// Read the gzip header, inflate the body, and check the trailer.
fn decompress_gzip(compressed: &[u8]) -> Vec<u8> {
    let mut rest = compressed;
    let _header = gzip_header::read_gz_header(&mut rest).expect("bad gzip header");
    let body = &rest[..rest.len() - 8];
    let trailer = &rest[rest.len() - 8..];
    let data = miniz_oxide::inflate::decompress_to_vec(body).expect("Decompression failed!");
    let mut crc = gzip_header::Crc::new();
    crc.update(&data);
    assert_eq!(u32::from_le_bytes([trailer[0], trailer[1], trailer[2], trailer[3]]), crc.sum());
    assert_eq!(u32::from_le_bytes([trailer[4], trailer[5], trailer[6], trailer[7]]), data.len() as u32);
    data
}

#[test]
fn gzip_writer() {
    let data = get_test_data();
    let compressed = {
        let mut compressor = GzEncoder::new(Vec::with_capacity(data.len() / 3), CompressionOptions::default());
        compressor.write_all(&data[0..data.len() / 2]);
        compressor.write_all(&data[data.len() / 2..]);
        compressor.finish()
    };

    let res = decompress_gzip(&compressed);
    assert!(res == data);
}

#[test]
fn gzip_header_and_empty_input() {
    let compressed = GzEncoder::new(Vec::new(), CompressionOptions::default()).finish();
    assert_eq!(&compressed[..3], &[0x1f, 0x8b, 8]);
    // The CRC-32 of nothing is 0, and so is the length.
    assert_eq!(&compressed[compressed.len() - 8..], &[0, 0, 0, 0, 0, 0, 0, 0]);
    assert_eq!(decompress_gzip(&compressed), Vec::<u8>::new());
}

#[test]
fn gzip_checksum_and_flush() {
    let mut compressor = GzEncoder::new(Vec::new(), CompressionOptions::fast());
    compressor.flush();
    assert_eq!(&compressor.get_ref()[..3], &[0x1f, 0x8b, 8]);
    compressor.write_all(b"123456789");
    // The check value of CRC-32 for the nine digits.
    assert_eq!(compressor.checksum(), 0xCBF43926);
    compressor.flush();
    let n = compressor.get_ref().len();
    assert_eq!(&compressor.get_ref()[n - 4..], &[0, 0, 255, 255]);
    let out = compressor.finish();
    assert_eq!(decompress_gzip(&out), b"123456789");
}

#[test]
fn gzip_reset_gives_same_output() {
    let data = get_test_data();
    let mut compressor = GzEncoder::new(Vec::new(), CompressionOptions::default());
    compressor.write_all(&data[..50000]);
    let first = compressor.reset(Vec::new());
    compressor.write_all(&data[..50000]);
    let second = compressor.finish();
    assert!(first == second);
    assert_eq!(decompress_gzip(&first), &data[..50000]);
}

#[test]
fn gzip_custom_header() {
    let builder = gzip_header::GzBuilder::new().filename("test.txt").mtime(1234);
    let mut compressor = GzEncoder::from_builder(builder, Vec::new(), CompressionOptions::default());
    compressor.write_all(b"abc");
    let out = compressor.finish();
    let mut rest = &out[..];
    let header = gzip_header::read_gz_header(&mut rest).unwrap();
    assert_eq!(header.filename(), Some(&b"test.txt"[..]));
    assert_eq!(header.mtime(), 1234);
    assert_eq!(decompress_gzip(&out), b"abc");
}
