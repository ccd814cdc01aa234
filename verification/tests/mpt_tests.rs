use keccak_hasher::KeccakHasher;
use rlp::RlpStream;
use trie_db::Hasher;
use trie_proof::mpt::{verify_proof, VerificationError};

fn keccak(data: &[u8]) -> Vec<u8> {
    KeccakHasher::hash(data).to_vec()
}

/// A node of two items, both byte strings.
fn short_node(path: &[u8], second: &[u8]) -> Vec<u8> {
    let mut s = RlpStream::new_list(2);
    s.append(&path.to_vec());
    s.append(&second.to_vec());
    s.out().to_vec()
}

/// A node of two items whose second item is a nested node, embedded as it is.
fn short_node_inline(path: &[u8], child: &[u8]) -> Vec<u8> {
    let mut s = RlpStream::new_list(2);
    s.append(&path.to_vec());
    s.append_raw(child, 1);
    s.out().to_vec()
}

/// A branch node: `children` fills the named slots with byte strings, the
/// other slots and, without `value`, the last one are empty.
fn branch_node(children: &[(usize, Vec<u8>)], value: Option<&[u8]>) -> Vec<u8> {
    let mut s = RlpStream::new_list(17);
    for slot in 0..16 {
        match children.iter().find(|(at, _)| *at == slot) {
            Some((_, child)) => {
                s.append(child);
            }
            None => {
                s.append_empty_data();
            }
        }
    }
    match value {
        Some(v) => {
            s.append(&v.to_vec());
        }
        None => {
            s.append_empty_data();
        }
    }
    s.out().to_vec()
}

fn long_value() -> Vec<u8> {
    (0u8..40).collect()
}

#[test]
fn extension_then_leaf_returns_leaf_value() {
    let key = [0x12u8, 0x34];
    let value = long_value();
    let leaf = short_node(&[0x20, 0x34], &value);
    let extension = short_node(&[0x00, 0x12], &keccak(&leaf));
    let root = keccak(&extension);
    let result = verify_proof(&root, &key, &[extension, leaf]);
    assert_eq!(result, Ok(value));
}

#[test]
fn leaf_with_odd_path_under_a_branch() {
    // The branch takes the first nibble of the key, which leaves the leaf an
    // odd path of three: 2, 3, 4.
    let key = [0x12u8, 0x34];
    let value = long_value();
    let leaf = short_node(&[0x32, 0x34], &value);
    let branch = branch_node(&[(1, keccak(&leaf))], None);
    let root = keccak(&branch);
    let result = verify_proof(&root, &key, &[branch, leaf]);
    assert_eq!(result, Ok(value));
}

#[test]
fn leaf_at_root() {
    let key = [0xabu8, 0xcd];
    let value = vec![7u8; 3];
    let leaf = short_node(&[0x20, 0xab, 0xcd], &value);
    let root = keccak(&leaf);
    assert_eq!(verify_proof(&root, &key, &[leaf]), Ok(value));
}

#[test]
fn nodes_after_the_leaf_are_ignored() {
    let key = [0xabu8, 0xcd];
    let value = vec![7u8; 3];
    let leaf = short_node(&[0x20, 0xab, 0xcd], &value);
    let root = keccak(&leaf);
    let garbage = vec![0xffu8, 0x00, 0x01];
    assert_eq!(verify_proof(&root, &key, &[leaf, garbage]), Ok(value));
}

#[test]
fn inline_child_of_extension_is_matched_by_its_bytes() {
    let key = [0x12u8, 0x34];
    let value = vec![0x55u8, 0x66];
    let leaf = short_node(&[0x20, 0x34], &value);
    assert!(leaf.len() < 32);
    let extension = short_node_inline(&[0x00, 0x12], &leaf);
    let root = keccak(&extension);
    assert_eq!(verify_proof(&root, &key, &[extension, leaf]), Ok(value));
}

#[test]
fn branch_terminus_returns_value_slot() {
    let key: [u8; 0] = [];
    let value = vec![1u8, 2, 3, 4];
    let branch = branch_node(&[], Some(&value));
    let root = keccak(&branch);
    assert_eq!(verify_proof(&root, &key, &[branch]), Ok(value));
}

#[test]
fn branch_terminus_without_value() {
    let key: [u8; 0] = [];
    let branch = branch_node(&[(3, vec![9u8; 32])], None);
    let root = keccak(&branch);
    assert_eq!(
        verify_proof(&root, &key, &[branch]),
        Err(VerificationError::NoValueAtBranchTerminus { index: 0 })
    );
}

#[test]
fn branch_terminus_without_value_after_extension() {
    let key = [0x12u8];
    let branch = branch_node(&[(3, vec![9u8; 32])], None);
    let extension = short_node(&[0x00, 0x12], &keccak(&branch));
    let root = keccak(&extension);
    assert_eq!(
        verify_proof(&root, &key, &[extension, branch]),
        Err(VerificationError::NoValueAtBranchTerminus { index: 1 })
    );
}

#[test]
fn empty_branch_slot_at_root() {
    let key = [0x7au8];
    let branch = branch_node(&[(3, vec![9u8; 32])], None);
    let root = keccak(&branch);
    assert_eq!(
        verify_proof(&root, &key, &[branch]),
        Err(VerificationError::EmptyBranch { index: 0, nibble: 7 })
    );
}

#[test]
fn empty_proof_is_rejected() {
    let root = [0u8; 32];
    assert_eq!(verify_proof(&root, &[1, 2], &[]), Err(VerificationError::EmptyProof));
}

#[test]
fn root_of_wrong_length_is_rejected() {
    let leaf = short_node(&[0x20, 0xab], &[1, 2, 3]);
    assert_eq!(
        verify_proof(&[0u8; 31], &[0xab], &[leaf.clone()]),
        Err(VerificationError::InvalidRoot)
    );
    assert_eq!(
        verify_proof(&[0u8; 33], &[0xab], &[leaf]),
        Err(VerificationError::InvalidRoot)
    );
    assert_eq!(verify_proof(&[], &[0xab], &[]), Err(VerificationError::InvalidRoot));
}

#[test]
fn flipped_bit_in_any_node_is_a_hash_mismatch_there() {
    let key = [0x12u8, 0x34];
    let value = long_value();
    let leaf = short_node(&[0x20, 0x34], &value);
    let extension = short_node(&[0x00, 0x12], &keccak(&leaf));
    let root = keccak(&extension);

    for byte in 0..extension.len() {
        for bit in 0..8 {
            let mut tampered = extension.clone();
            tampered[byte] ^= 1 << bit;
            assert_eq!(
                verify_proof(&root, &key, &[tampered, leaf.clone()]),
                Err(VerificationError::HashMismatch { index: 0 })
            );
        }
    }
    for byte in 0..leaf.len() {
        for bit in 0..8 {
            let mut tampered = leaf.clone();
            tampered[byte] ^= 1 << bit;
            assert_eq!(
                verify_proof(&root, &key, &[extension.clone(), tampered]),
                Err(VerificationError::HashMismatch { index: 1 })
            );
        }
    }
}

#[test]
fn wrong_root_is_a_hash_mismatch_at_the_first_node() {
    let leaf = short_node(&[0x20, 0xab], &[1, 2, 3]);
    let mut root = keccak(&leaf);
    root[31] ^= 0x01;
    assert_eq!(
        verify_proof(&root, &[0xab], &[leaf]),
        Err(VerificationError::HashMismatch { index: 0 })
    );
}

#[test]
fn short_node_equal_to_root_is_not_inline_when_32_bytes_long() {
    // The inline exception needs a node shorter than 32 bytes; a root has 32.
    let leaf = short_node(&[0x20, 0xab], &[5u8; 27]);
    assert_eq!(leaf.len(), 32);
    assert_eq!(
        verify_proof(&leaf, &[0xab], &[leaf.clone()]),
        Err(VerificationError::HashMismatch { index: 0 })
    );
}

#[test]
fn path_mismatch_reports_the_key_position() {
    let key = [0x12u8, 0x34];
    let leaf = short_node(&[0x20, 0x35], &long_value());
    let extension = short_node(&[0x00, 0x12], &keccak(&leaf));
    let root = keccak(&extension);
    assert_eq!(
        verify_proof(&root, &key, &[extension, leaf]),
        Err(VerificationError::PathMismatch { index: 1, position: 3 })
    );
}

#[test]
fn path_longer_than_key() {
    let key = [0x12u8];
    let leaf = short_node(&[0x20, 0x12, 0x34], &long_value());
    let root = keccak(&leaf);
    assert_eq!(
        verify_proof(&root, &key, &[leaf]),
        Err(VerificationError::KeyTooShort { index: 0 })
    );
}

#[test]
fn leaf_that_leaves_key_nibbles_unread() {
    let key = [0x12u8, 0x34, 0x56];
    let leaf = short_node(&[0x20, 0x12], &long_value());
    let root = keccak(&leaf);
    assert_eq!(
        verify_proof(&root, &key, &[leaf]),
        Err(VerificationError::KeyNotFullyConsumed { remaining: 4 })
    );
}

#[test]
fn node_of_three_items() {
    let mut s = RlpStream::new_list(3);
    s.append(&vec![1u8]);
    s.append(&vec![2u8]);
    s.append(&vec![3u8]);
    let node = s.out().to_vec();
    let root = keccak(&node);
    assert_eq!(
        verify_proof(&root, &[0x12], &[node]),
        Err(VerificationError::InvalidNodeArity { index: 0, count: 3 })
    );
}

#[test]
fn node_that_is_no_list() {
    let node = vec![0x83u8, 1, 2, 3];
    let root = keccak(&node);
    assert_eq!(
        verify_proof(&root, &[0x12], &[node]),
        Err(VerificationError::MalformedNode { index: 0 })
    );
}

#[test]
fn leaf_whose_value_is_a_list() {
    let mut inner = RlpStream::new_list(1);
    inner.append(&vec![1u8]);
    let leaf = short_node_inline(&[0x20, 0x12], &inner.out().to_vec());
    let root = keccak(&leaf);
    assert_eq!(
        verify_proof(&root, &[0x12], &[leaf]),
        Err(VerificationError::MalformedNode { index: 0 })
    );
}

#[test]
fn proof_that_stops_at_an_extension() {
    let key = [0x12u8, 0x34];
    let extension = short_node(&[0x00, 0x12], &[9u8; 32]);
    let root = keccak(&extension);
    assert_eq!(
        verify_proof(&root, &key, &[extension]),
        Err(VerificationError::ProofIncomplete)
    );
}

#[test]
fn verifying_twice_gives_the_same_result() {
    let key = [0x12u8, 0x34];
    let value = long_value();
    let leaf = short_node(&[0x20, 0x34], &value);
    let extension = short_node(&[0x00, 0x12], &keccak(&leaf));
    let root = keccak(&extension);
    let proof = [extension, leaf];
    let first = verify_proof(&root, &key, &proof);
    let second = verify_proof(&root, &key, &proof);
    assert_eq!(first, second);
    assert_eq!(first, Ok(value));

    let bad = verify_proof(&root, &[0x12, 0x35], &proof);
    assert_eq!(bad, verify_proof(&root, &[0x12, 0x35], &proof));
    assert_eq!(bad, Err(VerificationError::PathMismatch { index: 1, position: 3 }));
}

#[test]
fn branch_child_of_fewer_than_32_bytes_is_taken_by_its_decoded_bytes() {
    // The slot holds the byte string [1, 2, 3]; the next node must hash to or
    // equal those three bytes, which an encoded node never does.
    let key = [0x30u8];
    let branch = branch_node(&[(3, vec![1u8, 2, 3])], None);
    let root = keccak(&branch);
    assert_eq!(
        verify_proof(&root, &key, &[branch.clone(), vec![0x83, 1, 2, 3]]),
        Err(VerificationError::HashMismatch { index: 1 })
    );
    // The decoded bytes themselves are accepted as an inline node by the
    // linkage check, and then fail to decode as a list.
    assert_eq!(
        verify_proof(&root, &key, &[branch, vec![1, 2, 3]]),
        Err(VerificationError::MalformedNode { index: 1 })
    );
}

#[test]
fn path_through_branch_extension_branch_and_leaf() {
    // Key nibbles a, b, c, d, e, f: the root branch takes a, the extension
    // b and c, the second branch d, the leaf e and f.
    let key = [0xabu8, 0xcd, 0xef];
    let value = long_value();
    let leaf = short_node(&[0x20, 0xef], &value);
    let other_leaf = short_node(&[0x20, 0x00], &[1u8; 40]);
    let lower = branch_node(&[(0xd, keccak(&leaf)), (0x1, keccak(&other_leaf))], Some(&[8, 8]));
    let extension = short_node(&[0x00, 0xbc], &keccak(&lower));
    let upper = branch_node(&[(0xa, keccak(&extension)), (0x2, vec![4u8; 32])], None);
    let root = keccak(&upper);
    let proof = [upper.clone(), extension.clone(), lower.clone(), leaf];
    assert_eq!(verify_proof(&root, &key, &proof), Ok(value));

    // The sibling leaf under nibble 1 of the lower branch holds another key.
    let sibling_proof = [upper.clone(), extension.clone(), lower.clone(), other_leaf];
    assert_eq!(verify_proof(&root, &[0xab, 0xc1, 0x00], &sibling_proof), Ok(vec![1u8; 40]));

    // A proof that stops before a value is reached is incomplete.
    let at_branch = [upper.clone(), extension.clone(), lower.clone()];
    assert_eq!(
        verify_proof(&root, &[0xab], &at_branch[..1]),
        Err(VerificationError::ProofIncomplete)
    );
    assert_eq!(
        verify_proof(&root, &key, &at_branch),
        Err(VerificationError::ProofIncomplete)
    );

    // A key that leaves the path is refused where it leaves.
    assert_eq!(
        verify_proof(&root, &[0x3b, 0xcd, 0xef], &proof),
        Err(VerificationError::EmptyBranch { index: 0, nibble: 3 })
    );
    assert_eq!(
        verify_proof(&root, &[0xab, 0xdd, 0xef], &proof),
        Err(VerificationError::PathMismatch { index: 1, position: 2 })
    );
    assert_eq!(
        verify_proof(&root, &[0xab, 0xc5, 0xef], &proof),
        Err(VerificationError::EmptyBranch { index: 2, nibble: 5 })
    );
    assert_eq!(
        verify_proof(&root, &[0xab, 0xcd, 0xee], &proof),
        Err(VerificationError::PathMismatch { index: 3, position: 5 })
    );
    assert_eq!(
        verify_proof(&root, &[0xab, 0xcd], &proof),
        Err(VerificationError::KeyTooShort { index: 3 })
    );
    assert_eq!(
        verify_proof(&root, &[0xab, 0xcd, 0xef, 0x01], &proof),
        Err(VerificationError::KeyNotFullyConsumed { remaining: 2 })
    );

    // Nodes in another order break the chain at the first one out of place.
    let swapped = [upper, lower, extension];
    assert_eq!(
        verify_proof(&root, &key, &swapped),
        Err(VerificationError::HashMismatch { index: 1 })
    );
}

#[test]
fn value_at_branch_after_odd_extension() {
    // Key nibbles 1, 2, 3, 4: the extension takes an odd path of three, the
    // upper branch the fourth; the key ends at the lower branch, which holds
    // the value.
    let key = [0x12u8, 0x34];
    let value = vec![0x99u8; 5];
    let lower = branch_node(&[], Some(&value));
    let upper = branch_node(&[(4, keccak(&lower))], None);
    let extension = short_node(&[0x11, 0x23], &keccak(&upper));
    let root = keccak(&extension);
    assert_eq!(verify_proof(&root, &key, &[extension, upper, lower]), Ok(value));
}
