use deflate::huffman_codes::build_length_count_table;
use deflate::huffman_table::{
    get_distance_code, get_distance_code_and_extra_bits, get_length_code_and_extra_bits, HuffmanError,
    HuffmanTable, reverse_bits,
};
use deflate::tables::FIXED_CODE_LENGTHS;

#[test]
fn test_get_length_code() {
    let extra_bits = get_length_code_and_extra_bits(4).unwrap();
    assert_eq!(extra_bits.code_number, 258);
    assert_eq!(extra_bits.num_bits, 0);
    assert_eq!(extra_bits.value, 0);

    let extra_bits = get_length_code_and_extra_bits(165).unwrap();
    assert_eq!(extra_bits.code_number, 282);
    assert_eq!(extra_bits.num_bits, 5);
    assert_eq!(extra_bits.value, 2);

    let extra_bits = get_length_code_and_extra_bits(257).unwrap();
    assert_eq!(extra_bits.code_number, 284);
    assert_eq!(extra_bits.num_bits, 5);
    assert_eq!(extra_bits.value, 30);

    let extra_bits = get_length_code_and_extra_bits(258).unwrap();
    assert_eq!(extra_bits.code_number, 285);
    assert_eq!(extra_bits.num_bits, 0);
}

#[test]
fn test_distance_code() {
    assert_eq!(get_distance_code(1).unwrap(), 0);
    assert_eq!(get_distance_code(0), None);
    assert_eq!(get_distance_code(50000), None);
    assert_eq!(get_distance_code(6146).unwrap(), 25);
    assert_eq!(get_distance_code(256).unwrap(), 15);
}

#[test]
fn test_distance_extra_bits() {
    let extra = get_distance_code_and_extra_bits(527).unwrap();
    assert_eq!(extra.value, 0b1110);
    assert_eq!(extra.code_number, 18);
    assert_eq!(extra.num_bits, 8);
    let extra = get_distance_code_and_extra_bits(256).unwrap();
    assert_eq!(extra.code_number, 15);
    assert_eq!(extra.num_bits, 6);
}

#[test]
fn test_length_table_fixed() {
    let _ = build_length_count_table(&FIXED_CODE_LENGTHS).unwrap();
}

#[test]
fn test_length_table_max_length() {
    let table = [16u8; 288];
    let test = build_length_count_table(&table);
    match test {
        Err(HuffmanError::CodeTooLong) => (),
        _ => panic!("Didn't fail with invalid length!"),
    };
}

#[test]
fn test_empty_table() {
    let table = [];
    let test = build_length_count_table(&table);
    match test {
        Err(HuffmanError::EmptyLengthTable) => (),
        _ => panic!("Empty length table didn't fail!'"),
    }
}

#[test]
fn make_table_fixed() {
    let table = HuffmanTable::fixed_table();
    assert_eq!(table.codes[0].code, 0b00001100);
    assert_eq!(table.codes[143].code, 0b11111101);
    assert_eq!(table.codes[144].code, 0b000010011);
    assert_eq!(table.codes[255].code, 0b111111111);
    assert_eq!(table.codes[256].code, 0b0000000);
    assert_eq!(table.codes[279].code, 0b1110100);
    assert_eq!(table.codes[280].code, 0b00000011);
    assert_eq!(table.codes[287].code, 0b11100011);

    assert_eq!(table.distance_codes[0].code, 0);
    assert_eq!(table.distance_codes[5].code, 20);

    let ld = table.get_length_distance_code(4, 5).unwrap();

    assert_eq!(ld.length_code.code, 0b00100000);
    assert_eq!(ld.distance_code.code, 0b00100);
    assert_eq!(ld.distance_extra_bits.length, 1);
    assert_eq!(ld.distance_extra_bits.code, 0);
}

#[test]
fn length_count_table_counts() {
    // Longest length 3, last used symbol at index 4, and the number of codes of each length.
    let (max_length, max_pos, counts) = build_length_count_table(&[2, 0, 3, 3, 1, 0]).unwrap();
    assert_eq!(max_length, 3);
    assert_eq!(max_pos, 4);
    assert_eq!(counts, vec![2, 1, 1, 2]);
}

#[test]
fn reversing_bits() {
    assert_eq!(reverse_bits(0b110, 3), 0b011);
    assert_eq!(reverse_bits(0b0001, 4), 0b1000);
    assert_eq!(reverse_bits(1, 1), 1);
}
