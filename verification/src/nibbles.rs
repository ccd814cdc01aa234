//! Nibble codec: bytes as sequences of 4-bit halves, and the compact
//! "hex-prefix" encoding of a nibble path that trie nodes carry.

use vstd::prelude::*;

verus! {

/// The nibbles of a byte string: two per byte, the high half first.
pub open spec fn nibbles_of(bytes: Seq<u8>) -> Seq<u8> {
    Seq::new(
        2 * bytes.len(),
        |i: int|
            if i % 2 == 0 {
                bytes[i / 2] / 16
            } else {
                bytes[i / 2] % 16
            },
    )
}

/// Whether every element is a nibble, that is below 16.
pub open spec fn all_nibbles(s: Seq<u8>) -> bool {
    forall|i: int| 0 <= i < s.len() ==> #[trigger] s[i] < 16
}

/// The leaf flag of a hex-prefix path: bit 1 of the first byte's high nibble.
/// An empty encoding carries no flag.
pub open spec fn hex_prefix_is_leaf(encoded: Seq<u8>) -> bool {
    encoded.len() > 0 && encoded[0] / 16 >= 2
}

/// The odd flag of a hex-prefix path: bit 0 of the first byte's high nibble.
pub open spec fn hex_prefix_is_odd(encoded: Seq<u8>) -> bool {
    encoded.len() > 0 && (encoded[0] / 16) % 2 == 1
}

/// The path that a hex-prefix encoding holds. With the odd flag set the low
/// nibble of the first byte is the first path nibble; every later byte gives
/// two nibbles.
pub open spec fn hex_prefix_nibbles(encoded: Seq<u8>) -> Seq<u8> {
    if encoded.len() == 0 {
        Seq::empty()
    } else {
        let rest = nibbles_of(encoded.subrange(1, encoded.len() as int));
        if hex_prefix_is_odd(encoded) {
            seq![encoded[0] % 16] + rest
        } else {
            rest
        }
    }
}

proof fn lemma_high_low(b: u8)
    ensures
        b >> 4 == b / 16,
        b & 0x0f == b % 16,
        b / 16 < 16,
        b % 16 < 16,
{
    assert(b >> 4 == b / 16) by (bit_vector);
    assert(b & 0x0f == b % 16) by (bit_vector);
}

/// The nibbles of a byte string are twice as many as its bytes, and each is
/// below 16.
pub proof fn lemma_nibbles_of_shape(bytes: Seq<u8>)
    ensures
        nibbles_of(bytes).len() == 2 * bytes.len(),
        all_nibbles(nibbles_of(bytes)),
{
}

/// A decoded hex-prefix path holds nibbles only, and its length follows from
/// the encoding's length and odd flag.
pub proof fn lemma_hex_prefix_shape(encoded: Seq<u8>)
    ensures
        all_nibbles(hex_prefix_nibbles(encoded)),
        encoded.len() == 0 ==> hex_prefix_nibbles(encoded).len() == 0,
        encoded.len() > 0 ==> hex_prefix_nibbles(encoded).len() == 2 * (encoded.len() - 1) + (
        if hex_prefix_is_odd(encoded) {
            1int
        } else {
            0int
        }),
{
    if encoded.len() > 0 {
        lemma_nibbles_of_shape(encoded.subrange(1, encoded.len() as int));
    }
}

/// Appends the two nibbles of each byte of `bytes[from..]` to `out`.
fn push_nibbles(out: &mut Vec<u8>, bytes: &[u8], from: usize)
    requires
        from <= bytes@.len(),
    ensures
        final(out)@ == old(out)@ + nibbles_of(bytes@.subrange(from as int, bytes@.len() as int)),
{
    let ghost start = out@;
    let ghost tail = bytes@.subrange(from as int, bytes@.len() as int);
    let mut i: usize = from;
    while i < bytes.len()
        invariant
            from <= i <= bytes@.len(),
            tail == bytes@.subrange(from as int, bytes@.len() as int),
            out@.len() == start.len() + 2 * (i - from),
            out@.subrange(0, start.len() as int) == start,
            forall|k: int|
                0 <= k < 2 * (i - from) ==> #[trigger] out@[start.len() + k] == nibbles_of(tail)[k],
        decreases bytes@.len() - i,
    {
        let byte: u8 = bytes[i];
        proof {
            lemma_high_low(byte);
        }
        let ghost before = out@;
        out.push(byte >> 4);
        out.push(byte & 0x0f);
        proof {
            assert(tail[i - from] == byte);
            assert(out@.subrange(0, start.len() as int) =~= before.subrange(0, start.len() as int));
            assert forall|k: int| 0 <= k < 2 * (i + 1 - from) implies #[trigger] out@[start.len()
                + k] == nibbles_of(tail)[k] by {
                if k < 2 * (i - from) {
                    assert(out@[start.len() + k] == before[start.len() + k]);
                }
            }
        }
        i = i + 1;
    }
    proof {
        let whole = start + nibbles_of(tail);
        assert(out@.len() == whole.len());
        assert forall|k: int| 0 <= k < out@.len() implies out@[k] == whole[k] by {
            if k < start.len() {
                assert(out@.subrange(0, start.len() as int)[k] == out@[k]);
            } else {
                let j = k - start.len();
                assert(out@[start.len() + j] == nibbles_of(tail)[j]);
            }
        }
        assert(out@ =~= whole);
    }
}

/// Splits each byte into its high and low nibble, in order.
pub fn bytes_to_nibbles(bytes: &[u8]) -> (nibbles: Vec<u8>)
    ensures
        nibbles@ == nibbles_of(bytes@),
{
    let mut nibbles: Vec<u8> = Vec::new();
    push_nibbles(&mut nibbles, bytes, 0);
    assert(bytes@.subrange(0, bytes@.len() as int) =~= bytes@);
    assert(Seq::<u8>::empty() + nibbles_of(bytes@) =~= nibbles_of(bytes@));
    nibbles
}

/// Decodes a hex-prefix path into its nibbles and its leaf flag. Every input
/// decodes; the empty one gives no nibbles and no flag.
pub fn decode_hex_prefix(encoded: &[u8]) -> (decoded: (Vec<u8>, bool))
    ensures
        decoded.0@ == hex_prefix_nibbles(encoded@),
        decoded.1 == hex_prefix_is_leaf(encoded@),
{
    let mut nibbles: Vec<u8> = Vec::new();
    if encoded.len() == 0 {
        return (nibbles, false);
    }
    let first: u8 = encoded[0];
    proof {
        lemma_high_low(first);
    }
    let is_leaf = (first >> 4) >= 2;
    let is_odd = (first >> 4) % 2 == 1;
    if is_odd {
        nibbles.push(first & 0x0f);
    }
    let ghost head = nibbles@;
    push_nibbles(&mut nibbles, encoded, 1);
    proof {
        if is_odd {
            assert(head =~= seq![encoded@[0] % 16]);
        } else {
            assert(head + nibbles_of(encoded@.subrange(1, encoded@.len() as int)) =~= nibbles_of(
                encoded@.subrange(1, encoded@.len() as int),
            ));
        }
    }
    (nibbles, is_leaf)
}

} // verus!
