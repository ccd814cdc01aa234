//! The storage slot of an entry of a nested mapping
//! `mapping(address => mapping(address => uint256))`, as a contract's storage
//! lays it out: the digest of the padded inner key and the digest of the
//! padded outer key and the mapping's own slot.

use crate::bytes::repeated;
use crate::hash::{keccak256, keccak256_digest};
use hex::FromHexError;
use vstd::prelude::*;
use vstd::string::StringExecFns;

verus! {

#[verifier::external_type_specification]
#[verifier::external_body]
pub struct ExFromHexError(hex::FromHexError);

/// Why no slot was computed.
#[derive(Clone, Copy, Debug, PartialEq, Eq, Structural)]
pub enum SlotError {
    /// The token address is not hexadecimal text.
    InvalidTokenHex,
    /// The token address does not have 20 bytes.
    TokenLength,
    /// The user address is not hexadecimal text.
    InvalidUserHex,
    /// The user address does not have 20 bytes.
    UserLength,
}

// ---------------------------------------------------------------------------
// Hexadecimal text
// ---------------------------------------------------------------------------
/// The value of a hexadecimal digit, in either case.
pub open spec fn hex_digit(c: char) -> Option<u8> {
    if '0' <= c <= '9' {
        Some((c as u32 - '0' as u32) as u8)
    } else if 'a' <= c <= 'f' {
        Some((c as u32 - 'a' as u32 + 10) as u8)
    } else if 'A' <= c <= 'F' {
        Some((c as u32 - 'A' as u32 + 10) as u8)
    } else {
        None
    }
}

/// The byte that two hexadecimal digits write, the high half first.
pub open spec fn hex_pair(high: char, low: char) -> u8 {
    (hex_digit(high)->Some_0 * 16 + hex_digit(low)->Some_0) as u8
}

/// Whether `text` is an even number of hexadecimal digits.
pub open spec fn is_hex(text: Seq<char>) -> bool {
    &&& text.len() % 2 == 0
    &&& forall|i: int| 0 <= i < text.len() ==> hex_digit(#[trigger] text[i]) is Some
}

/// The bytes that hexadecimal text writes, two digits to a byte, the high
/// half first; `None` for any other text.
pub open spec fn hex_decoded(text: Seq<char>) -> Option<Seq<u8>> {
    if is_hex(text) {
        Some(Seq::new(text.len() / 2, |i: int| hex_pair(text[2 * i], text[2 * i + 1])))
    } else {
        None
    }
}

/// The sixteen digits in lower case, in the order of their values.
pub open spec fn hex_digits() -> Seq<char> {
    "0123456789abcdef"@
}

/// Bytes as hexadecimal text in lower case, two digits to a byte.
pub open spec fn hex_text(bytes: Seq<u8>) -> Seq<char> {
    Seq::new(
        2 * bytes.len(),
        |i: int|
            if i % 2 == 0 {
                hex_digits()[bytes[i / 2] as int / 16]
            } else {
                hex_digits()[bytes[i / 2] as int % 16]
            },
    )
}

/// `text` without every leading repetition of `prefix`.
pub open spec fn without_leading(text: Seq<char>, prefix: Seq<char>) -> Seq<char>
    decreases text.len(),
{
    if prefix.len() > 0 && prefix.is_prefix_of(text) {
        without_leading(text.skip(prefix.len() as int), prefix)
    } else {
        text
    }
}

/// Trusted: `str::trim_start_matches` with a string pattern, which removes
/// the pattern from the front of the text for as long as it stands there.
#[verifier::external_body]
fn trim_leading<'a>(text: &'a str, prefix: &str) -> (rest: &'a str)
    requires
        prefix@.len() > 0,
    ensures
        rest@ == without_leading(text@, prefix@),
{
    text.trim_start_matches(prefix)
}

/// Trusted: `hex::decode`. It fails on an odd count of bytes and on any
/// byte that is no hexadecimal digit, and else joins each pair of digits
/// into a byte. Text that is all digits has as many bytes as characters, so
/// the result is [`hex_decoded`] of the characters.
#[verifier::external_body]
fn decode_hex(text: &str) -> (r: Result<Vec<u8>, FromHexError>)
    ensures
        match r {
            Ok(bytes) => hex_decoded(text@) == Some(bytes@),
            Err(_) => hex_decoded(text@) is None,
        },
{
    hex::decode(text)
}

/// Trusted: `hex::encode`, which writes each byte as two digits in lower
/// case, the high half first.
#[verifier::external_body]
fn encode_hex(bytes: &[u8]) -> (text: String)
    ensures
        text@ == hex_text(bytes@),
{
    hex::encode(bytes)
}

/// Each of the sixteen digits has its place as its value.
pub proof fn lemma_hex_digits()
    ensures
        hex_digits().len() == 16,
        forall|d: int| 0 <= d < 16 ==> hex_digit(#[trigger] hex_digits()[d]) == Some(d as u8),
{
    reveal_strlit("0123456789abcdef");
}

/// Hexadecimal text reads back as the bytes it was written from.
pub proof fn lemma_hex_round_trip(bytes: Seq<u8>)
    ensures
        hex_decoded(hex_text(bytes)) == Some(bytes),
{
    lemma_hex_digits();
    let text = hex_text(bytes);
    assert forall|i: int| 0 <= i < text.len() implies hex_digit(#[trigger] text[i]) is Some by {
        let byte = bytes[i / 2] as int;
        if i % 2 == 0 {
            assert(text[i] == hex_digits()[byte / 16]);
        } else {
            assert(text[i] == hex_digits()[byte % 16]);
        }
    }
    assert(is_hex(text));
    let decoded = hex_decoded(text)->Some_0;
    assert forall|k: int| 0 <= k < bytes.len() implies decoded[k] == bytes[k] by {
        let byte = bytes[k] as int;
        assert(text[2 * k] == hex_digits()[byte / 16]);
        assert(text[2 * k + 1] == hex_digits()[byte % 16]);
        assert(hex_digit(hex_digits()[byte / 16]) == Some((byte / 16) as u8));
        assert(hex_digit(hex_digits()[byte % 16]) == Some((byte % 16) as u8));
    }
    assert(decoded =~= bytes);
}

/// The slot, when there is one, is `0x` and 64 digits, given that the
/// digest has 32 bytes.
pub proof fn lemma_slot_text_shape(token: Seq<char>, user: Seq<char>, mapping_slot: u64)
    requires
        slot_spec(token, user, mapping_slot) is Ok,
        nested_slot(
            address_bytes(token)->Some_0,
            address_bytes(user)->Some_0,
            mapping_slot,
        ).len() == 32,
    ensures
        slot_spec(token, user, mapping_slot)->Ok_0.len() == 66,
        slot_spec(token, user, mapping_slot)->Ok_0[0] == '0',
        slot_spec(token, user, mapping_slot)->Ok_0[1] == 'x',
{
    reveal_strlit("0x");
}

// ---------------------------------------------------------------------------
// Words
// ---------------------------------------------------------------------------
/// The last `width` digits of `n` in radix 256, most significant first.
pub open spec fn be_fixed(n: nat, width: nat) -> Seq<u8>
    decreases width,
{
    if width == 0 {
        Seq::empty()
    } else {
        be_fixed(n / 256, (width - 1) as nat).push((n % 256) as u8)
    }
}

/// A number as a 32-byte word, most significant byte first.
pub open spec fn word_of(n: u64) -> Seq<u8> {
    repeated(0u8, 24) + be_fixed(n as nat, 8)
}

/// The input of the digest for a mapping entry: the key padded on the left
/// to 32 bytes, then the word that names the mapping.
pub open spec fn entry_preimage(address: Seq<u8>, word: Seq<u8>) -> Seq<u8> {
    repeated(0u8, 12) + address + word
}

/// The slot of `locked[user][token]`-style nesting, from the decoded
/// addresses: the inner digest is taken over the token and the mapping's
/// slot, the outer one over the user and the inner digest.
pub open spec fn nested_slot(token: Seq<u8>, user: Seq<u8>, mapping_slot: u64) -> Seq<u8> {
    keccak256_digest(
        entry_preimage(user, keccak256_digest(entry_preimage(token, word_of(mapping_slot)))),
    )
}

/// The bytes of an address given as hexadecimal text, with or without
/// leading `0x`.
pub open spec fn address_bytes(text: Seq<char>) -> Option<Seq<u8>> {
    hex_decoded(without_leading(text, "0x"@))
}

/// The slot as text, or the first reason why there is none.
pub open spec fn slot_spec(token: Seq<char>, user: Seq<char>, mapping_slot: u64) -> Result<
    Seq<char>,
    SlotError,
> {
    match address_bytes(token) {
        None => Err(SlotError::InvalidTokenHex),
        Some(token_bytes) => if token_bytes.len() != 20 {
            Err(SlotError::TokenLength)
        } else {
            match address_bytes(user) {
                None => Err(SlotError::InvalidUserHex),
                Some(user_bytes) => if user_bytes.len() != 20 {
                    Err(SlotError::UserLength)
                } else {
                    Ok("0x"@ + hex_text(nested_slot(token_bytes, user_bytes, mapping_slot)))
                },
            }
        },
    }
}

/// Writes `n` as a 32-byte word, most significant byte first.
pub fn uint256_word(n: u64) -> (word: Vec<u8>)
    ensures
        word@ == word_of(n),
{
    let mut word: Vec<u8> = Vec::new();
    let mut k: usize = 0;
    while k < 32
        invariant
            k <= 32,
            word@ == repeated(0u8, k as nat),
        decreases 32 - k,
    {
        word.push(0);
        k = k + 1;
        assert(word@ =~= repeated(0u8, k as nat));
    }
    let mut rest: u64 = n;
    let mut done: usize = 0;
    while done < 8
        invariant
            done <= 8,
            word@.len() == 32,
            forall|i: int| 0 <= i < 24 ==> word@[i] == 0u8,
            be_fixed(n as nat, 8) == be_fixed(rest as nat, (8 - done) as nat) + word@.subrange(
                32 - done,
                32,
            ),
        decreases 8 - done,
    {
        let ghost before = word@;
        let ghost entering = rest;
        word.set(31 - done, (rest % 256) as u8);
        rest = rest / 256;
        proof {
            let low = (entering as nat % 256) as u8;
            assert(be_fixed(entering as nat, (8 - done) as nat) == be_fixed(
                rest as nat,
                (8 - done - 1) as nat,
            ).push(low));
            assert(word@.subrange(32 - done - 1, 32) =~= seq![low] + before.subrange(
                32 - done,
                32,
            ));
            assert(be_fixed(rest as nat, (8 - done - 1) as nat).push(low) + before.subrange(
                32 - done,
                32,
            ) =~= be_fixed(rest as nat, (8 - done - 1) as nat) + (seq![low] + before.subrange(
                32 - done,
                32,
            )));
        }
        done = done + 1;
    }
    proof {
        assert(be_fixed(rest as nat, 0) + word@.subrange(24, 32) =~= word@.subrange(24, 32));
        assert(word@ =~= repeated(0u8, 24) + word@.subrange(24, 32));
    }
    word
}

/// Builds the input of the digest for a mapping entry.
pub fn mapping_preimage(address: &[u8], word: &[u8]) -> (preimage: Vec<u8>)
    ensures
        preimage@ == entry_preimage(address@, word@),
{
    let mut preimage: Vec<u8> = Vec::new();
    let mut k: usize = 0;
    while k < 12
        invariant
            k <= 12,
            preimage@ == repeated(0u8, k as nat),
        decreases 12 - k,
    {
        preimage.push(0);
        k = k + 1;
        assert(preimage@ =~= repeated(0u8, k as nat));
    }
    let mut i: usize = 0;
    while i < address.len()
        invariant
            i <= address@.len(),
            preimage@ == repeated(0u8, 12) + address@.subrange(0, i as int),
        decreases address@.len() - i,
    {
        preimage.push(address[i]);
        i = i + 1;
        assert(preimage@ =~= repeated(0u8, 12) + address@.subrange(0, i as int));
    }
    assert(address@.subrange(0, i as int) =~= address@);
    let mut j: usize = 0;
    while j < word.len()
        invariant
            j <= word@.len(),
            preimage@ == repeated(0u8, 12) + address@ + word@.subrange(0, j as int),
        decreases word@.len() - j,
    {
        preimage.push(word[j]);
        j = j + 1;
        assert(preimage@ =~= repeated(0u8, 12) + address@ + word@.subrange(0, j as int));
    }
    assert(word@.subrange(0, j as int) =~= word@);
    preimage
}

/// Reads an address given as hexadecimal text, with or without leading
/// `0x`.
pub fn parse_address(text: &str) -> (bytes: Option<Vec<u8>>)
    ensures
        match bytes {
            Some(decoded) => address_bytes(text@) == Some(decoded@),
            None => address_bytes(text@) is None,
        },
{
    proof {
        reveal_strlit("0x");
    }
    match decode_hex(trim_leading(text, "0x")) {
        Ok(decoded) => Some(decoded),
        Err(_) => None,
    }
}

/// Computes the storage slot of the entry for `user` and `token` in the
/// nested mapping that stands at `mapping_slot`, as `0x` and 64 hexadecimal
/// digits.
pub fn compute_double_mapping_slot(token: &str, user: &str, mapping_slot: u64) -> (r: Result<
    String,
    SlotError,
>)
    ensures
        match r {
            Ok(text) => slot_spec(token@, user@, mapping_slot) == Ok::<Seq<char>, SlotError>(text@),
            Err(e) => slot_spec(token@, user@, mapping_slot) == Err::<Seq<char>, SlotError>(e),
        },
{
    let token_bytes = match parse_address(token) {
        Some(bytes) => bytes,
        None => {
            return Err(SlotError::InvalidTokenHex);
        },
    };
    if token_bytes.len() != 20 {
        return Err(SlotError::TokenLength);
    }
    let slot_word = uint256_word(mapping_slot);
    let inner_preimage = mapping_preimage(token_bytes.as_slice(), slot_word.as_slice());
    let inner_hash: [u8; 32] = keccak256(inner_preimage.as_slice());

    let user_bytes = match parse_address(user) {
        Some(bytes) => bytes,
        None => {
            return Err(SlotError::InvalidUserHex);
        },
    };
    if user_bytes.len() != 20 {
        return Err(SlotError::UserLength);
    }
    let final_preimage = mapping_preimage(user_bytes.as_slice(), inner_hash.as_slice());
    let slot_final: [u8; 32] = keccak256(final_preimage.as_slice());

    let digits = encode_hex(slot_final.as_slice());
    let mut text = String::from_str("0x");
    text.append(digits.as_str());
    Ok(text)
}

} // verus!
