use deflate::chained_hash_table::WINDOW_SIZE;
use deflate::compression_options::{DEFAULT_LAZY_IF_LESS_THAN, DEFAULT_MAX_HASH_CHECKS};
use deflate::input_buffer::InputBuffer;
use deflate::lz77::{
    decompress_lz77, decompress_lz77_with_backbuffer, lz77_compress, lz77_compress_block_finish,
    lz77_compress_conf, LZ77State, LZ77Status, MatchingType, TestStruct, MAX_MATCH,
};
use deflate::lzvalue::{LDPair, LZValue};
use deflate::output_writer::{BufferStatus, FixedWriter, OutputWriter, MAX_BUFFER_LENGTH};

/// Deterministic English-like text of about 180 kB, standing in for a book-sized test file.
fn get_test_data() -> Vec<u8> {
    let words: [&str; 64] = [
        "the", "of", "and", "to", "a", "in", "that", "was", "she", "it", "Alice", "rabbit", "said",
        "very", "little", "Queen", "Hatter", "time", "would", "could", "down", "into", "what", "with",
        "for", "you", "her", "not", "on", "as", "at", "had", "be", "all", "this", "they", "there", "so",
        "but", "when", "garden", "curious", "thought", "herself", "looked", "began", "Mock", "Turtle",
        "Gryphon", "Duchess", "King", "March", "Hare", "Dormouse", "tea", "party", "croquet", "door",
        "key", "golden", "bottle", "cake", "mushroom", "caterpillar",
    ];
    let mut out = Vec::new();
    let mut state: u32 = 12345;
    let mut line = 0usize;
    while out.len() < 180_000 {
        state = state.wrapping_mul(1103515245).wrapping_add(12345);
        let w = words[((state >> 16) % 64) as usize];
        out.extend_from_slice(w.as_bytes());
        line += w.len() + 1;
        let p = (state >> 8) % 23;
        if p == 0 {
            out.push(b'.');
        } else if p == 1 {
            out.push(b',');
        }
        if line > 70 {
            out.push(b'\n');
            line = 0;
        } else {
            out.push(b' ');
        }
    }
    out
}

/// Helper function to print the output from the lz77 compression function
fn print_output(input: &[LZValue]) {
    let mut output = vec![];
    for l in input {
        match l.value() {
            LDPair::Literal(l) => output.push(l),
            LDPair::Length(l) => output.extend(format!("<L {}>", l).into_bytes()),
            LDPair::Distance(d) => output.extend(format!("<D {}>", d).into_bytes()),
        }
    }

    println!("\"{}\"", String::from_utf8(output).unwrap());
}

/// Test that a short string from an example on SO compresses correctly
#[test]
fn compress_short() {
    let test_bytes = String::from("Deflate late").into_bytes();
    let res = lz77_compress(&test_bytes).unwrap();

    let decompressed = decompress_lz77(&res);

    assert_eq!(test_bytes, decompressed);
}

/// Test that compression is working for a longer file
#[test]
fn compress_long() {
    let input = get_test_data();
    let compressed = lz77_compress(&input).unwrap();
    assert!(compressed.len() < input.len());

    let decompressed = decompress_lz77(&compressed);

    // This is to check where the compression fails, if it were to
    for (n, (&a, &b)) in input.iter().zip(decompressed.iter()).enumerate() {
        if a != b {
            println!("First difference at {}, input: {}, output: {}", n, a, b);
            break;
        }
    }
    assert_eq!(input.len(), decompressed.len());
    assert!(&decompressed == &input);
}

/// Check that lazy matching is working as intended
#[test]
fn lazy() {
    // We want to match on `badger` rather than `nba` as it is longer
    let data = b"nba badger nbadger";
    let compressed = lz77_compress(data).unwrap();
    // A match is a length followed by a distance.
    let test = compressed[compressed.len() - 2];
    if let LDPair::Length(l) = test.value() {
        assert_eq!(l, 6);
    } else {
        print_output(&compressed);
        panic!();
    }
}

fn roundtrip(data: &[u8]) {
    let compressed = lz77_compress(&data).unwrap();
    let decompressed = decompress_lz77(&compressed);
    assert!(decompressed == data);
}

// Check that data with the exact window size is working properly
#[test]
fn exact_window_size() {
    let mut data = vec![0; WINDOW_SIZE];
    roundtrip(&data);
    data.extend_from_slice(&[22; WINDOW_SIZE]);
    roundtrip(&data);
    data.extend_from_slice(&[55; WINDOW_SIZE]);
    roundtrip(&data);
}

/// Test that matches at the window border are working correctly
#[test]
fn border() {
    let mut data = vec![35; WINDOW_SIZE];
    data.extend(b"Test");
    let compressed = lz77_compress(&data).unwrap();
    assert!(compressed.len() < data.len());
    let decompressed = decompress_lz77(&compressed);

    assert_eq!(decompressed.len(), data.len());
    assert!(decompressed == data);
}

#[test]
fn border_multiple_blocks() {
    let mut data = vec![0; (WINDOW_SIZE * 2) + 50];
    data.push(1);
    let compressed = lz77_compress(&data).unwrap();
    assert!(compressed.len() < data.len());
    let decompressed = decompress_lz77(&compressed);
    assert!(decompressed == data);
}

#[test]
fn compress_block_status() {
    let data = b"Test data data";
    let mut writer = FixedWriter::new();

    let mut buffer = InputBuffer::empty();
    let mut state = LZ77State::new(4096, DEFAULT_LAZY_IF_LESS_THAN, MatchingType::Lazy);
    let status = lz77_compress_block_finish(data, &mut state, &mut buffer, &mut writer);
    assert_eq!(status.1, LZ77Status::Finished);
    assert!(&buffer.get_buffer()[..data.len()] == data);
    assert_eq!(buffer.current_end(), data.len());
}

#[test]
fn compress_block_multiple_windows() {
    let data = get_test_data();
    assert!(data.len() > (WINDOW_SIZE * 2) + MAX_MATCH);
    let mut writer = FixedWriter::new();

    let mut buffer = InputBuffer::empty();
    let mut state = LZ77State::new(0, DEFAULT_LAZY_IF_LESS_THAN, MatchingType::Lazy);
    let (bytes_consumed, status) = lz77_compress_block_finish(&data, &mut state, &mut buffer, &mut writer);
    assert_eq!(buffer.get_buffer().len(), (WINDOW_SIZE * 2) + MAX_MATCH);
    assert_eq!(status, LZ77Status::EndBlock);
    let buf_len = buffer.get_buffer().len();
    assert!(buffer.get_buffer()[..] == data[..buf_len]);

    writer.clear_buffer();
    let (_, status) = lz77_compress_block_finish(&data[bytes_consumed..], &mut state, &mut buffer, &mut writer);
    assert_eq!(status, LZ77Status::EndBlock);
}

#[test]
fn multiple_inputs() {
    let data = b"Badger badger bababa test data 25 asfgestghresjkgh";
    let comp1 = lz77_compress(data).unwrap();
    let comp2 = {
        const SPLIT: usize = 25;
        let first_part = &data[..SPLIT];
        let second_part = &data[SPLIT..];
        let mut state = TestStruct::new();
        let (bytes_written, status, _) = state.compress_block(first_part, false);
        assert_eq!(bytes_written, first_part.len());
        assert_eq!(status, LZ77Status::NeedInput);
        let (bytes_written, status, _) = state.compress_block(second_part, true);
        assert_eq!(bytes_written, second_part.len());
        assert_eq!(status, LZ77Status::Finished);
        Vec::from(state.writer.get_buffer())
    };
    assert!(comp1 == comp2);
}

#[test]
/// Test that the exit from process_chunk when buffer is full is working correctly.
fn buffer_fill() {
    let data = get_test_data();
    buffer_test_literals(&data);
    buffer_test_last_bytes(MatchingType::Greedy, &data);
    buffer_test_last_bytes(MatchingType::Lazy, &data);
    buffer_test_match(MatchingType::Greedy);
    buffer_test_match(MatchingType::Lazy);
    buffer_test_add_end(&data);
}

// Test buffer fill when a byte is added due to no match being found.
fn buffer_test_literals(data: &[u8]) {
    let mut state = TestStruct::with_config(0, 0, MatchingType::Lazy);
    let (bytes_consumed, status, _) = state.compress_block(&data, false);
    let total_consumed = bytes_consumed;
    assert_eq!(status, LZ77Status::EndBlock);
    assert!(bytes_consumed <= (WINDOW_SIZE * 2) + MAX_MATCH);

    // The buffer should be full.
    assert_eq!(state.writer.get_buffer().len(), u16::max_value() as usize);

    let mut out = decompress_lz77(state.writer.get_buffer());
    state.writer.clear_buffer();
    // The buffer should now be cleared.
    assert_eq!(state.writer.get_buffer().len(), 0);

    let (bytes_consumed, ..) = state.compress_block(&data[total_consumed..], false);
    // Now that the buffer has been cleared, we should have consumed more data.
    assert!(bytes_consumed > 0);
    // We should have some new data in the buffer at this point.
    assert!(state.writer.get_buffer().len() > 0);
    out.extend_from_slice(&decompress_lz77(state.writer.get_buffer()));
    assert!(data[..out.len()] == out[..]);
}

// Test buffer fill at the last two bytes that are not hashed.
fn buffer_test_last_bytes(matching_type: MatchingType, data: &[u8]) {
    const BYTES_USED: usize = MAX_BUFFER_LENGTH;
    assert!(&data[..BYTES_USED] == &decompress_lz77(&lz77_compress_conf(&data[..BYTES_USED], 0, 0, matching_type).unwrap())[..]);
    assert!(
        &data[..BYTES_USED + 1]
            == &decompress_lz77(&lz77_compress_conf(&data[..BYTES_USED + 1], 0, 0, matching_type).unwrap())[..]
    );
}

// Test buffer fill when buffer is full at a match.
fn buffer_test_match(matching_type: MatchingType) {
    let mut state = TestStruct::with_config(1, 0, matching_type);
    for _ in 0..MAX_BUFFER_LENGTH - 4 {
        assert!(state.writer.write_literal(0) == BufferStatus::NotFull);
    }
    state.compress_block(&[1, 2, 3, 1, 2, 3, 4], true);
    // The last match is a length of three at a distance of three.
    let buf = state.writer.get_buffer();
    assert!(buf[buf.len() - 2] == LZValue::length(3));
    assert!(buf[buf.len() - 1] == LZValue::distance(3));
}

// Test buffer fill for the lazy match algorithm when adding a pending byte at the end.
fn buffer_test_add_end(data: &[u8]) {
    let mut state = TestStruct::with_config(DEFAULT_MAX_HASH_CHECKS, DEFAULT_LAZY_IF_LESS_THAN, MatchingType::Lazy);
    // Fill most of the buffer so that it gets full partway through the data.
    for _ in 0..33583 {
        assert!(state.writer.write_literal(0) == BufferStatus::NotFull)
    }

    state.compress_block(data, false);

    let dec = decompress_lz77(&state.writer.get_buffer()[33583..]);
    assert!(dec.len() > 0);
    assert!(dec[..] == data[..dec.len()]);
}

fn lit(l: u8) -> LZValue {
    LZValue::literal(l)
}

/// Check that decompressing lz77-data that refers to the back-buffer works.
#[test]
fn test_decompress_with_backbuffer() {
    let bb = vec![5; WINDOW_SIZE];
    let lz_compressed = [
        lit(2), lit(4), LZValue::length(4), LZValue::distance(20), lit(1), lit(1), LZValue::length(5),
        LZValue::distance(10),
    ];
    let dec = decompress_lz77_with_backbuffer(&lz_compressed, &bb);

    // ------------l2 l4  <-ld4,20-> l1 l1  <---ld5,10-->
    assert!(dec == [2, 4, 5, 5, 5, 5, 1, 1, 5, 5, 2, 4, 5]);
}

#[test]
fn repeated_bytes_become_one_match() {
    // One literal, then the other 99 bytes as a match of length 99 at distance 1.
    let data = vec![7u8; 100];
    let compressed = lz77_compress(&data).unwrap();
    assert_eq!(compressed, vec![lit(7), LZValue::length(99), LZValue::distance(1)]);
    assert_eq!(decompress_lz77(&compressed), data);
}

#[test]
fn empty_input_gives_no_symbols() {
    assert_eq!(lz77_compress(&[]).unwrap(), Vec::<LZValue>::new());
}

#[test]
fn first_window_waits_for_more_input() {
    let data = b"Badger badger bababa test data 25 asfgestghresjkgh";
    let mut state = TestStruct::new();
    let r = state.compress_block(&data[..25], false);
    assert_eq!(r, (25, LZ77Status::NeedInput, 0));
    assert_eq!(state.buffer.get_buffer(), &data[..25]);
    assert!(state.writer.get_buffer().is_empty());
}
