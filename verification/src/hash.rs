//! The 32-byte hash that commits to trie nodes, and the plain Keccak-256
//! digest offered to callers.

use keccak_hasher::KeccakHasher;
use primitive_types::H256;
use tiny_keccak::{Hasher, Keccak};
use vstd::prelude::*;

verus! {

/// The digest that `keccak_hasher::KeccakHasher` gives to a byte string.
pub uninterp spec fn node_digest(data: Seq<u8>) -> Seq<u8>;

/// The Keccak-256 digest that `tiny_keccak` gives to a byte string.
pub uninterp spec fn keccak256_digest(data: Seq<u8>) -> Seq<u8>;

/// Trusted: `KeccakHasher::hash`, the `hash` method of `trie_db::Hasher`. The
/// digest is a function of the bytes alone, named [`node_digest`]; that it
/// has 32 bytes is its type.
#[verifier::external_body]
pub(crate) fn hash_node(data: &[u8]) -> (digest: [u8; 32])
    ensures
        digest@ == node_digest(data@),
{
    <KeccakHasher as trie_db::Hasher>::hash(data)
}

/// Trusted: `H256::from_slice` followed by `H256::as_bytes`, which copy 32
/// bytes into a fixed hash and hand them back unchanged. `from_slice` panics
/// on any other length, which the precondition leaves out.
#[verifier::external_body]
pub(crate) fn root_commitment(root: &[u8]) -> (bytes: Vec<u8>)
    requires
        root@.len() == 32,
    ensures
        bytes@ == root@,
{
    H256::from_slice(root).as_bytes().to_vec()
}

/// Keccak-256 of `input`.
///
/// Trusted: `tiny_keccak::Keccak::v256`, `update` and `finalize` into a
/// 32-byte buffer. The digest is a function of the bytes alone, named
/// [`keccak256_digest`].
#[verifier::external_body]
pub fn keccak256(input: &[u8]) -> (output: [u8; 32])
    ensures
        output@ == keccak256_digest(input@),
{
    let mut hasher = Keccak::v256();
    hasher.update(input);
    let mut output: [u8; 32] = [0u8; 32];
    hasher.finalize(&mut output);
    output
}

} // verus!
