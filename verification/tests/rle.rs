use deflate::lzvalue::LZValue;
use deflate::output_writer::{FixedWriter, OutputWriter};
use deflate::rle::process_chunk_greedy_rle;
use deflate::lz77::{decompress_lz77, ProcessStatus};

fn l(c: char) -> LZValue {
    LZValue::literal(c as u8)
}

#[test]
fn rle_compress() {
    let input = b"textaaaaaaaaatext";
    let mut w = FixedWriter::new();
    let r = 0..input.len();
    let (overlap, _) = process_chunk_greedy_rle(input, &r, &mut w);
    let expected = [
        l('t'), l('e'), l('x'), l('t'), l('a'), LZValue::length(8), LZValue::distance(1), l('t'), l('e'),
        l('x'), l('t'),
    ];
    println!("expected: {:?}", expected);
    println!("actual: {:?}", w.get_buffer());
    assert!(w.get_buffer() == expected);
    assert_eq!(overlap, 0);
}

#[test]
fn rle_run_past_chunk_end() {
    // The run starting at byte 1 covers the whole input, three bytes past the chunk end.
    let input = [4u8; 10];
    let mut w = FixedWriter::new();
    let (overlap, status) = process_chunk_greedy_rle(&input, &(0..7), &mut w);
    assert_eq!(overlap, 3);
    assert!(matches!(status, ProcessStatus::Complete));
    assert_eq!(w.get_buffer(), &[LZValue::literal(4), LZValue::length(9), LZValue::distance(1)]);
    assert_eq!(decompress_lz77(w.get_buffer()), input.to_vec());
}

#[test]
fn rle_later_chunk_starts_after_history() {
    let input = b"abcccccd";
    let mut w = FixedWriter::new();
    let (overlap, _) = process_chunk_greedy_rle(input, &(3..8), &mut w);
    assert_eq!(overlap, 0);
    // Bytes 3 to 6 repeat byte 2; byte 7 is a literal.
    assert_eq!(w.get_buffer(), &[LZValue::length(4), LZValue::distance(1), LZValue::literal(b'd')]);
}
