use keccak_hasher::KeccakHasher;
use rlp::RlpStream;
use trie_db::Hasher;
use trie_proof::decoder::{decode_node, NodeItem, NodeView};
use trie_proof::mpt::{
    bytes_equal, check_link, consume_path, step, visit, Cursor, Step, VerificationError,
};

fn data_item(bytes: &[u8]) -> Option<NodeItem> {
    let mut s = RlpStream::new();
    s.append(&bytes.to_vec());
    Some(NodeItem {
        raw: s.out().to_vec(),
        is_list: false,
        is_empty: bytes.is_empty(),
        data: Some(bytes.to_vec()),
    })
}

fn list_item(raw: &[u8]) -> Option<NodeItem> {
    Some(NodeItem { raw: raw.to_vec(), is_list: true, is_empty: raw == [0xc0], data: None })
}

fn short(first: Option<NodeItem>, second: Option<NodeItem>) -> NodeView {
    NodeView { count: 2, items: vec![first, second] }
}

fn branch(slot: usize, item: Option<NodeItem>) -> NodeView {
    let mut items: Vec<Option<NodeItem>> = (0..17).map(|_| data_item(&[])).collect();
    items[slot] = item;
    NodeView { count: 17, items }
}

fn cursor(key_index: usize) -> Cursor {
    Cursor { expected: vec![0xee; 32], key_index }
}

#[test]
fn bytes_equal_compares_length_and_content() {
    assert!(bytes_equal(&[], &[]));
    assert!(bytes_equal(&[1, 2, 3], &[1, 2, 3]));
    assert!(!bytes_equal(&[1, 2, 3], &[1, 2]));
    assert!(!bytes_equal(&[1, 2, 3], &[1, 2, 4]));
    assert!(!bytes_equal(&[], &[0]));
}

#[test]
fn link_by_digest() {
    let node = vec![0xc2u8, 0x01, 0x02];
    let digest = [7u8; 32];
    assert!(check_link(&node, &digest, &digest));
    assert!(!check_link(&node, &digest, &[8u8; 32]));
}

#[test]
fn link_by_inline_bytes_needs_fewer_than_32() {
    let digest = [7u8; 32];
    let small = vec![0xc2u8, 0x01, 0x02];
    assert!(check_link(&small, &digest, &small));
    let exactly_31 = vec![5u8; 31];
    assert!(check_link(&exactly_31, &digest, &exactly_31));
    let exactly_32 = vec![5u8; 32];
    assert!(!check_link(&exactly_32, &digest, &exactly_32));
    let large = vec![5u8; 40];
    assert!(!check_link(&large, &digest, &large));
}

#[test]
fn path_that_fits_moves_the_key_index() {
    let key = [1u8, 2, 3, 4, 5];
    assert_eq!(consume_path(&[3, 4], &key, 2, 9), Ok(4));
    assert_eq!(consume_path(&[1, 2, 3, 4, 5], &key, 0, 9), Ok(5));
    assert_eq!(consume_path(&[], &key, 5, 9), Ok(5));
    assert_eq!(consume_path(&[], &key, 0, 9), Ok(0));
}

#[test]
fn path_that_differs_names_the_key_position() {
    let key = [1u8, 2, 3, 4, 5];
    assert_eq!(
        consume_path(&[3, 9], &key, 2, 7),
        Err(VerificationError::PathMismatch { index: 7, position: 3 })
    );
    assert_eq!(
        consume_path(&[0], &key, 0, 7),
        Err(VerificationError::PathMismatch { index: 7, position: 0 })
    );
}

#[test]
fn path_beyond_the_key() {
    let key = [1u8, 2, 3];
    assert_eq!(consume_path(&[3, 4], &key, 2, 4), Err(VerificationError::KeyTooShort { index: 4 }));
    assert_eq!(consume_path(&[1], &key, 3, 4), Err(VerificationError::KeyTooShort { index: 4 }));
    // A nibble that differs is reported before the end of the key is reached.
    assert_eq!(
        consume_path(&[9, 4], &key, 2, 4),
        Err(VerificationError::PathMismatch { index: 4, position: 2 })
    );
}

#[test]
fn decode_node_of_a_leaf() {
    let mut s = RlpStream::new_list(2);
    s.append(&vec![0x20u8, 0x12]);
    s.append(&vec![0xaau8, 0xbb]);
    let node = decode_node(&s.out()).unwrap();
    assert_eq!(node.count, 2);
    assert_eq!(
        node.items,
        vec![
            Some(NodeItem {
                raw: vec![0x82, 0x20, 0x12],
                is_list: false,
                is_empty: false,
                data: Some(vec![0x20, 0x12]),
            }),
            Some(NodeItem {
                raw: vec![0x82, 0xaa, 0xbb],
                is_list: false,
                is_empty: false,
                data: Some(vec![0xaa, 0xbb]),
            }),
        ]
    );
}

#[test]
fn decode_node_tells_lists_and_empty_items_apart() {
    let mut s = RlpStream::new_list(2);
    s.append_empty_data();
    s.begin_list(1).append(&vec![7u8]);
    let node = decode_node(&s.out()).unwrap();
    assert_eq!(
        node.items,
        vec![
            Some(NodeItem { raw: vec![0x80], is_list: false, is_empty: true, data: Some(vec![]) }),
            Some(NodeItem { raw: vec![0xc1, 0x07], is_list: true, is_empty: false, data: None }),
        ]
    );

    let mut s = RlpStream::new_list(2);
    s.begin_list(0);
    s.append(&vec![0x05u8]);
    let node = decode_node(&s.out()).unwrap();
    assert_eq!(
        node.items,
        vec![
            Some(NodeItem { raw: vec![0xc0], is_list: true, is_empty: true, data: None }),
            Some(NodeItem {
                raw: vec![0x05],
                is_list: false,
                is_empty: false,
                data: Some(vec![5]),
            }),
        ]
    );
}

#[test]
fn decode_node_keeps_only_the_count_of_other_arities() {
    let mut s = RlpStream::new_list(3);
    s.append(&vec![1u8]).append(&vec![2u8]).append(&vec![3u8]);
    let node = decode_node(&s.out()).unwrap();
    assert_eq!(node, NodeView { count: 3, items: vec![] });

    let node = decode_node(&[0xc0]).unwrap();
    assert_eq!(node, NodeView { count: 0, items: vec![] });
}

#[test]
fn decode_node_of_seventeen_items() {
    let mut s = RlpStream::new_list(17);
    for slot in 0..17u8 {
        if slot == 4 {
            s.append(&vec![9u8; 32]);
        } else {
            s.append_empty_data();
        }
    }
    let node = decode_node(&s.out()).unwrap();
    assert_eq!(node.count, 17);
    assert_eq!(node.items.len(), 17);
    assert_eq!(node.items[4], data_item(&[9u8; 32]));
    assert_eq!(node.items[16], data_item(&[]));
}

#[test]
fn decode_node_refuses_what_is_no_list() {
    assert_eq!(decode_node(&[]), None);
    assert_eq!(decode_node(&[0x80]), None);
    assert_eq!(decode_node(&[0x83, 1, 2, 3]), None);
    assert_eq!(decode_node(&[0x05]), None);
}

#[test]
fn step_at_a_leaf_gives_its_value() {
    let node = short(data_item(&[0x20, 0x34]), data_item(&[7, 7, 7]));
    assert_eq!(step(&node, 5, &cursor(2), &[1, 2, 3, 4]), Step::Finish(Ok(vec![7, 7, 7])));
    let odd = short(data_item(&[0x34]), data_item(&[7]));
    assert_eq!(step(&odd, 5, &cursor(3), &[1, 2, 3, 4]), Step::Finish(Ok(vec![7])));
}

#[test]
fn step_at_a_leaf_that_stops_short_of_the_key() {
    let node = short(data_item(&[0x20, 0x34]), data_item(&[7]));
    assert_eq!(
        step(&node, 5, &cursor(2), &[1, 2, 3, 4, 5, 6]),
        Step::Finish(Err(VerificationError::KeyNotFullyConsumed { remaining: 2 }))
    );
}

#[test]
fn step_at_an_extension_follows_the_hash() {
    let node = short(data_item(&[0x00, 0x12]), data_item(&[9u8; 32]));
    assert_eq!(
        step(&node, 0, &cursor(0), &[1, 2, 3, 4]),
        Step::Continue(Cursor { expected: vec![9u8; 32], key_index: 2 })
    );
}

#[test]
fn step_at_an_extension_with_inline_child_follows_the_raw_bytes() {
    let inline = vec![0xc3u8, 0x20, 0x07, 0x08];
    let node = short(data_item(&[0x11]), list_item(&inline));
    assert_eq!(
        step(&node, 0, &cursor(0), &[1, 2]),
        Step::Continue(Cursor { expected: inline, key_index: 1 })
    );
}

#[test]
fn step_at_an_extension_with_short_data_follows_the_decoded_bytes() {
    let node = short(data_item(&[0x11]), data_item(&[4, 5, 6]));
    assert_eq!(
        step(&node, 0, &cursor(0), &[1, 2]),
        Step::Continue(Cursor { expected: vec![4, 5, 6], key_index: 1 })
    );
}

#[test]
fn step_at_a_branch_follows_the_slot_of_the_next_nibble() {
    let node = branch(0xa, data_item(&[3u8; 32]));
    assert_eq!(
        step(&node, 1, &cursor(1), &[0, 0xa, 5]),
        Step::Continue(Cursor { expected: vec![3u8; 32], key_index: 2 })
    );
    assert_eq!(
        step(&node, 1, &cursor(2), &[0, 0xa, 5]),
        Step::Finish(Err(VerificationError::EmptyBranch { index: 1, nibble: 5 }))
    );
}

#[test]
fn step_at_a_branch_with_the_key_used_up() {
    let with_value = branch(16, data_item(&[1, 2]));
    assert_eq!(step(&with_value, 3, &cursor(2), &[0, 1]), Step::Finish(Ok(vec![1, 2])));
    let without = branch(4, data_item(&[3u8; 32]));
    assert_eq!(
        step(&without, 3, &cursor(2), &[0, 1]),
        Step::Finish(Err(VerificationError::NoValueAtBranchTerminus { index: 3 }))
    );
}

#[test]
fn step_where_an_item_is_missing_or_holds_no_bytes() {
    let no_path = short(None, data_item(&[7]));
    let malformed = Step::Finish(Err(VerificationError::MalformedNode { index: 2 }));
    assert_eq!(step(&no_path, 2, &cursor(0), &[1]), malformed);
    let list_path = short(list_item(&[0xc1, 0x01]), data_item(&[7]));
    assert_eq!(step(&list_path, 2, &cursor(0), &[1]), malformed);
    let no_value = short(data_item(&[0x31]), None);
    assert_eq!(step(&no_value, 2, &cursor(0), &[1]), malformed);
    let list_value = short(data_item(&[0x31]), list_item(&[0xc1, 0x01]));
    assert_eq!(step(&list_value, 2, &cursor(0), &[1]), malformed);
    let too_few = NodeView { count: 17, items: vec![] };
    assert_eq!(step(&too_few, 2, &cursor(0), &[1]), malformed);
    assert_eq!(step(&too_few, 2, &cursor(1), &[1]), malformed);
}

#[test]
fn step_checks_the_path_before_the_second_item() {
    let node = short(data_item(&[0x31]), None);
    assert_eq!(
        step(&node, 2, &cursor(0), &[2]),
        Step::Finish(Err(VerificationError::PathMismatch { index: 2, position: 0 }))
    );
}

#[test]
fn step_at_other_arities() {
    for count in [0usize, 1, 3, 16, 18] {
        let node = NodeView { count, items: vec![] };
        assert_eq!(
            step(&node, 6, &cursor(0), &[1]),
            Step::Finish(Err(VerificationError::InvalidNodeArity { index: 6, count }))
        );
    }
}

#[test]
fn visit_checks_the_link_before_decoding() {
    let garbage = vec![0x83u8, 1, 2, 3];
    let unlinked = Cursor { expected: vec![0u8; 32], key_index: 0 };
    assert_eq!(
        visit(&garbage, 4, &unlinked, &[1]),
        Step::Finish(Err(VerificationError::HashMismatch { index: 4 }))
    );
    let linked = Cursor { expected: KeccakHasher::hash(&garbage).to_vec(), key_index: 0 };
    assert_eq!(
        visit(&garbage, 4, &linked, &[1]),
        Step::Finish(Err(VerificationError::MalformedNode { index: 4 }))
    );
    let inline = Cursor { expected: garbage.clone(), key_index: 0 };
    assert_eq!(
        visit(&garbage, 4, &inline, &[1]),
        Step::Finish(Err(VerificationError::MalformedNode { index: 4 }))
    );
}

#[test]
fn visit_of_a_linked_leaf() {
    let mut s = RlpStream::new_list(2);
    s.append(&vec![0x20u8, 0x12]);
    s.append(&vec![0xaau8, 0xbb]);
    let leaf = s.out().to_vec();
    let linked = Cursor { expected: KeccakHasher::hash(&leaf).to_vec(), key_index: 0 };
    assert_eq!(visit(&leaf, 0, &linked, &[1, 2]), Step::Finish(Ok(vec![0xaa, 0xbb])));
}
