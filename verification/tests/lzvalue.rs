use deflate::huffman_table::{MAX_DISTANCE, MAX_MATCH, MIN_DISTANCE, MIN_MATCH};
use deflate::lzvalue::{LDPair, LZValue};

#[test]
fn test_lzvalue() {
    for i in 0..255 as usize + 1 {
        let v = LZValue::literal(i as u8);
        if let LDPair::Literal(n) = v.value() {
            assert_eq!(n as usize, i);
        } else {
            panic!();
        }
    }

    for i in MIN_MATCH..MAX_MATCH + 1 {
        let v = LZValue::length(i);
        if let LDPair::Length(n) = v.value() {
            assert_eq!(n, i);
        } else {
            panic!();
        }
    }

    for i in MIN_DISTANCE..MAX_DISTANCE {
        let v = LZValue::distance(i);
        if let LDPair::Distance(n) = v.value() {
            assert_eq!(n, i);
        } else {
            panic!("Failed to get distance {}", i);
        }
    }
    let v = LZValue::distance(MAX_DISTANCE);
    if let LDPair::Distance(n) = v.value() {
        assert_eq!(n, MAX_DISTANCE);
    } else {
        panic!("Failed to get distance {}", MAX_DISTANCE);
    }
}

#[test]
fn lzvalue_packing() {
    assert_eq!(LZValue::literal(0x41).data, 0xC041);
    assert_eq!(LZValue::length(10).data, 0x800A);
    // The largest distance is stored as zero.
    assert_eq!(LZValue::distance(32768).data, 0);
    assert_eq!(LZValue::distance(5).data, 5);
}
