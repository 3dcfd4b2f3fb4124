use deflate::stored_block::{compress_block_stored, compress_data_stored, put16};
use miniz_oxide::inflate::decompress_to_vec;

fn from_bytes(low: u8, high: u8) -> u16 {
    (low as u16) | ((high as u16) << 8)
}

#[test]
fn test_bits() {
    let len = 520u16;
    let (low, high) = put16(len);
    assert_eq!(low, 8);
    assert_eq!(high, 2);

    let test2 = from_bytes(low, high);
    assert_eq!(len, test2);
}

#[test]
fn stored_block_layout() {
    let mut out = Vec::new();
    let n = compress_block_stored(&[1, 2, 3], &mut out);
    assert_eq!(n, 3);
    // Length 3, then its complement, then the bytes.
    assert_eq!(out, vec![3, 0, 0xfc, 0xff, 1, 2, 3]);
}

#[test]
fn stored_data_decompresses() {
    let data: Vec<u8> = (0..70000u32).map(|i| (i % 251) as u8).collect();
    let stored = compress_data_stored(&data);
    // Three blocks of at most 32000 bytes, five bytes of framing each.
    assert_eq!(stored.len(), data.len() + 15);
    assert_eq!(decompress_to_vec(&stored).unwrap(), data);
}
