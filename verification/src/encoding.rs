//! The encoding of an unsigned number as a length-prefixed byte string.

use crate::radix::be_digits;
use rlp::RlpStream;
use vstd::prelude::*;

verus! {

/// The encoding of `n`: its bytes in radix 256 without leading zeros, which
/// stand for themselves when they are one byte below `0x80`, and else
/// follow a byte that holds `0x80` plus their count. Zero has no byte and is
/// written `0x80`.
pub open spec fn rlp_number(n: u64) -> Seq<u8> {
    let digits = be_digits(n as nat, 256);
    if digits.len() == 1 && digits[0] < 0x80 {
        digits
    } else {
        seq![(0x80 + digits.len()) as u8] + digits
    }
}

/// Trusted: `rlp::RlpStream::new`, `append` of a `u64` and `out`. The stream
/// holds the one item appended: `rlp` cuts the leading zero bytes off the
/// number and writes what is left as a byte string, as [`rlp_number`] says.
#[verifier::external_body]
fn stream_number(n: u64) -> (bytes: Vec<u8>)
    ensures
        bytes@ == rlp_number(n),
{
    let mut stream = RlpStream::new();
    stream.append(&n);
    stream.out().to_vec()
}

/// Encodes a number.
pub fn rlp_encode_number(n: u64) -> (bytes: Vec<u8>)
    ensures
        bytes@ == rlp_number(n),
{
    if n == 0 {
        let bytes: Vec<u8> = vec![0x80u8];
        assert(bytes@ =~= rlp_number(0));
        bytes
    } else {
        stream_number(n)
    }
}

} // verus!
