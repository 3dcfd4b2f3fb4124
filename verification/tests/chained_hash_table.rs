use deflate::chained_hash_table::{filled_hash_table, ChainedHashTable, HASH_BYTES, WINDOW_SIZE, update_hash};

#[test]
fn chained_hash() {
    let test_string = "Lorem ipsum dolor sit amet, consectetur adipiscing elit, sed do \
                       eiusmod tempor. rum. incididunt ut labore et dolore magna aliqua. Ut \
                       enim ad minim veniam, quis nostrud exercitation ullamco laboris nisi \
                       ut aliquip ex ea commodo consequat. rum. Duis aute irure dolor in \
                       reprehenderit in voluptate velit esse cillum dolore eu fugiat nulla \
                       pariatur. Excepteur sint occaecat cupidatat non proident, sunt in \
                       culpa qui officia deserunt mollit anim id est laborum.";

    let test_data = test_string.as_bytes();

    let current_bytes = &test_data[test_data.len() - HASH_BYTES..test_data.len()];

    let num_iters = test_string.matches(std::str::from_utf8(current_bytes).unwrap()).count();

    let hash_table = filled_hash_table(test_data);

    // Test that the positions in the chain are valid
    let mut prev_value = hash_table.get_prev(hash_table.current_head() as usize) as usize;
    let mut count = 0;
    let mut current = hash_table.current_head() as usize;
    while current != prev_value {
        count += 1;
        current = prev_value;
        prev_value = hash_table.get_prev(prev_value) as usize;
    }
    // There should be at least as many occurences of the hash of the checked bytes as the
    // numbers of occurences of the checked bytes themselves.
    assert!(count >= num_iters);
}

#[test]
fn table_unique() {
    let mut test_data = Vec::new();
    test_data.extend(0u8..255);
    test_data.extend(255u8..0);
    let hash_table = filled_hash_table(&test_data);
    let prev_pos = hash_table.get_prev(hash_table.current_head() as usize);
    // Since all sequences in the input are unique, there shouldn't be any previous values
    assert_eq!(prev_pos, hash_table.current_hash());
}

#[test]
fn hash_of_three_bytes() {
    // The running hash shifts by five bits per byte and keeps fifteen bits.
    assert_eq!(update_hash(0, 1), 1);
    assert_eq!(update_hash(1, 2), 34);
    assert_eq!(update_hash(34, 3), 1091);
    let t = ChainedHashTable::from_starting_values(1, 2);
    assert_eq!(t.current_hash(), 34);
}

#[test]
fn slide_moves_positions_down() {
    assert_eq!(ChainedHashTable::slide_value(40000, 7, WINDOW_SIZE as u16), 40000 - WINDOW_SIZE as u16);
    // A position that would fall below zero points to itself, ending the chain.
    assert_eq!(ChainedHashTable::slide_value(100, 7, WINDOW_SIZE as u16), 7);
}
