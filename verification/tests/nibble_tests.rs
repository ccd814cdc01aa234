use trie_proof::nibbles::{bytes_to_nibbles, decode_hex_prefix};

#[test]
fn nibbles_of_bytes_high_half_first() {
    assert_eq!(bytes_to_nibbles(&[0x12, 0xab, 0xf0]), vec![1, 2, 0xa, 0xb, 0xf, 0]);
}

#[test]
fn nibbles_of_nothing() {
    assert_eq!(bytes_to_nibbles(&[]), Vec::<u8>::new());
}

#[test]
fn nibbles_are_twice_the_bytes() {
    let bytes: Vec<u8> = (0u8..=255).collect();
    let nibbles = bytes_to_nibbles(&bytes);
    assert_eq!(nibbles.len(), 512);
    assert!(nibbles.iter().all(|n| *n < 16));
    assert_eq!(nibbles[2 * 0x5c], 5);
    assert_eq!(nibbles[2 * 0x5c + 1], 0xc);
}

#[test]
fn hex_prefix_of_nothing() {
    assert_eq!(decode_hex_prefix(&[]), (vec![], false));
}

#[test]
fn hex_prefix_odd_leaf() {
    // 0x3a: high nibble 3 sets the leaf flag and the odd flag, so the low
    // nibble a is the first nibble of the path.
    assert_eq!(decode_hex_prefix(&[0x3a]), (vec![0xa], true));
    assert_eq!(decode_hex_prefix(&[0x3a, 0xbc, 0xde]), (vec![0xa, 0xb, 0xc, 0xd, 0xe], true));
}

#[test]
fn hex_prefix_even_leaf() {
    assert_eq!(decode_hex_prefix(&[0x20, 0x12, 0x34]), (vec![1, 2, 3, 4], true));
    assert_eq!(decode_hex_prefix(&[0x20]), (vec![], true));
}

#[test]
fn hex_prefix_odd_extension() {
    assert_eq!(decode_hex_prefix(&[0x15, 0x67]), (vec![5, 6, 7], false));
}

#[test]
fn hex_prefix_even_extension() {
    assert_eq!(decode_hex_prefix(&[0x00, 0x12]), (vec![1, 2], false));
    // With the odd flag clear the low nibble of the first byte is padding.
    assert_eq!(decode_hex_prefix(&[0x0f, 0x12]), (vec![1, 2], false));
}

#[test]
fn hex_prefix_high_flag_bits_count_as_leaf() {
    // Any high nibble of 2 or more marks a leaf; its lowest bit marks odd.
    assert_eq!(decode_hex_prefix(&[0xf1]), (vec![1], true));
    assert_eq!(decode_hex_prefix(&[0x80, 0x99]), (vec![9, 9], true));
}
