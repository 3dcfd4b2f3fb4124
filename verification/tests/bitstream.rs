use deflate::bitstream::LsbWriter;

#[test]
fn write_bits() {
    let input: [(u16, u8); 33] = [
        (3, 3), (10, 8), (88, 7), (0, 2), (0, 5), (0, 0), (238, 8), (126, 8), (161, 8), (10, 8),
        (238, 8), (174, 8), (126, 8), (174, 8), (65, 8), (142, 8), (62, 8), (10, 8), (1, 8),
        (161, 8), (78, 8), (62, 8), (158, 8), (206, 8), (10, 8), (64, 7), (0, 0), (24, 5), (0, 0),
        (174, 8), (126, 8), (193, 8), (174, 8),
    ];
    let expected: [u8; 27] = [
        83, 192, 2, 220, 253, 66, 21, 220, 93, 253, 92, 131, 28, 125, 20, 2, 66, 157, 124, 60, 157,
        21, 128, 216, 213, 47, 216,
    ];
    let mut writer = LsbWriter::new(Vec::new());
    for v in input.iter() {
        writer.write_bits(v.0, v.1);
    }
    assert_eq!(writer.w, expected);
}

#[test]
fn flush_pads_with_zero_bits() {
    // Three bits 0b101 followed by five zero bits of padding: one byte of value 5.
    let mut writer = LsbWriter::new(vec![9]);
    writer.write_bits(5, 3);
    assert_eq!(writer.w, vec![9]);
    writer.flush();
    assert_eq!(writer.w, vec![9, 5]);
    assert_eq!(writer.pending_bits(), 0);
}

#[test]
fn bit_writer_size_zero_writes_nothing() {
    // A size of zero writes nothing, whatever the bits.
    let mut bw = deflate::bit_writer::BitWriter::new();
    bw.write_bits(5, 3);
    bw.write_bits(0xffff, 0);
    bw.write_bits(0b11111, 5);
    bw.finish();
    let mut lw = LsbWriter::new(Vec::new());
    lw.write_bits(5, 3);
    lw.write_bits(0b11111, 5);
    lw.flush();
    assert_eq!(bw.buffer, lw.w);
    assert_eq!(bw.buffer, vec![0b1111_1101]);
}
