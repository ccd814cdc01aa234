//! Verification of Merkle Patricia Trie inclusion proofs, with the byte-level
//! utilities that stand around it.
//!
//! - [`mpt`] walks a proof from the root commitment to the value;
//!   [`laws`] states what holds of that walk for every input.
//! - [`nibbles`] turns bytes into nibbles and decodes hex-prefix paths.
//! - [`decoder`] and [`hash`] are the two collaborators of the walk: the
//!   decoding of a node and the digest of its bytes.
//! - [`encoding`] writes a number as a length-prefixed byte string.
//! - [`storage_slot`] computes the slot of an entry of a nested mapping.
//! - [`base58`], over [`radix`], writes bytes as base-58 text and back;
//!   [`bytes`] holds small helpers on byte strings.
//! - [`vault`] holds the rules of a token vault.

pub mod base58;
pub mod bytes;
pub mod decoder;
pub mod encoding;
pub mod hash;
pub mod laws;
pub mod mpt;
pub mod nibbles;
pub mod radix;
pub mod storage_slot;
pub mod vault;
