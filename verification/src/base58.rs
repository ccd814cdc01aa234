//! Base-58 text: bytes written as a number in radix 58 over an alphabet
//! without look-alike characters, with one `1` for every leading zero byte.

use crate::bytes::repeated;
use crate::radix::{
    be_digits,
    be_value,
    convert,
    digits_below,
    leading_count,
    lemma_be_digits_canonical,
    lemma_be_digits_of_value,
    lemma_be_digits_value,
    lemma_be_value_leading_zeros,
    lemma_leading_count_of_run,
    lemma_leading_run,
};
use vstd::prelude::*;
use vstd::string::StrSliceExecFns;

verus! {

/// Trusted: `String::push`, which appends one character to the end of the
/// string.
pub assume_specification[ String::push ](text: &mut String, ch: char)
    ensures
        final(text)@ == old(text)@.push(ch),
;

/// The 58 symbols, in the order of their values.
pub open spec fn alphabet() -> Seq<char> {
    "123456789ABCDEFGHJKLMNPQRSTUVWXYZabcdefghijkmnopqrstuvwxyz"@
}

/// The first position from `from` on at which `symbols` holds `c`.
pub open spec fn position_from(symbols: Seq<char>, c: char, from: nat) -> Option<nat>
    decreases symbols.len() - from,
{
    if from >= symbols.len() {
        None
    } else if symbols[from as int] == c {
        Some(from)
    } else {
        position_from(symbols, c, from + 1)
    }
}

/// The value of a symbol: its place in the alphabet. Other characters have
/// none.
pub open spec fn symbol_value(c: char) -> Option<u8> {
    match position_from(alphabet(), c, 0) {
        Some(at) => Some(at as u8),
        None => None,
    }
}

/// The symbols that stand for a string of digits.
pub open spec fn symbols_of(digits: Seq<u8>) -> Seq<char> {
    Seq::new(digits.len(), |i: int| alphabet()[digits[i] as int])
}

/// Whether every character is a symbol of the alphabet.
pub open spec fn all_symbols(text: Seq<char>) -> bool {
    forall|i: int| 0 <= i < text.len() ==> symbol_value(#[trigger] text[i]) is Some
}

/// The values of a text of symbols.
pub open spec fn values_of(text: Seq<char>) -> Seq<u8> {
    Seq::new(text.len(), |i: int| symbol_value(text[i])->Some_0)
}

/// The base-58 text of `data`: a `1` for each leading zero byte, then the
/// symbols of the digits in radix 58 of the number that the bytes write in
/// radix 256.
pub open spec fn b58_text(data: Seq<u8>) -> Seq<char> {
    repeated('1', leading_count(data, 0u8)) + symbols_of(be_digits(be_value(data, 256), 58))
}

/// The bytes that a base-58 text stands for: a zero byte for each leading
/// `1`, then the digits in radix 256 of the number that the symbols write in
/// radix 58. A text with a character outside the alphabet stands for nothing.
pub open spec fn b58_bytes(text: Seq<char>) -> Option<Seq<u8>> {
    if all_symbols(text) {
        Some(
            repeated(0u8, leading_count(text, '1')) + be_digits(be_value(values_of(text), 58), 256),
        )
    } else {
        None
    }
}

fn alphabet_text() -> (text: &'static str)
    ensures
        text@ == alphabet(),
        text@.len() == 58,
{
    proof {
        reveal_strlit("123456789ABCDEFGHJKLMNPQRSTUVWXYZabcdefghijkmnopqrstuvwxyz");
    }
    "123456789ABCDEFGHJKLMNPQRSTUVWXYZabcdefghijkmnopqrstuvwxyz"
}

/// The symbol that stands for `digit`.
fn symbol(digit: u8) -> (c: char)
    requires
        digit < 58,
    ensures
        c == alphabet()[digit as int],
{
    alphabet_text().get_char(digit as usize)
}

/// The value of `c` as a symbol, if it is one.
fn symbol_index(c: char) -> (value: Option<u8>)
    ensures
        value == symbol_value(c),
        value matches Some(digit) ==> digit < 58,
{
    let table = alphabet_text();
    let mut i: usize = 0;
    while i < 58
        invariant
            i <= 58,
            table@ == alphabet(),
            table@.len() == 58,
            position_from(alphabet(), c, i as nat) == position_from(alphabet(), c, 0),
        decreases 58 - i,
    {
        if table.get_char(i) == c {
            return Some(i as u8);
        }
        i = i + 1;
    }
    None
}

proof fn lemma_leading_count_split<T>(s: Seq<T>, x: T, i: nat)
    requires
        i <= s.len(),
        forall|k: int| 0 <= k < i ==> s[k] == x,
    ensures
        leading_count(s, x) == i + leading_count(s.subrange(i as int, s.len() as int), x),
    decreases i,
{
    if i == 0 {
        assert(s.subrange(0, s.len() as int) =~= s);
    } else {
        let rest = s.drop_first();
        assert forall|k: int| 0 <= k < i - 1 implies rest[k] == x by {
            assert(rest[k] == s[k + 1]);
        }
        lemma_leading_count_split(rest, x, (i - 1) as nat);
        assert(rest.subrange(i - 1, rest.len() as int) =~= s.subrange(i as int, s.len() as int));
    }
}

/// Writes `data` as base-58 text.
pub fn b58(data: &[u8]) -> (text: String)
    ensures
        text@ == b58_text(data@),
{
    assert(digits_below(data@, 256));
    let digits = convert(data, 256, 58);
    let ghost wanted = be_digits(be_value(data@, 256), 58);
    proof {
        lemma_be_digits_canonical(be_value(data@, 256), 58);
    }
    let mut text = String::new();
    let mut zeros: usize = 0;
    while zeros < data.len() && data[zeros] == 0
        invariant
            zeros <= data@.len(),
            forall|k: int| 0 <= k < zeros ==> data@[k] == 0u8,
            text@ == repeated('1', zeros as nat),
        decreases data@.len() - zeros,
    {
        text.push('1');
        zeros = zeros + 1;
        assert(text@ =~= repeated('1', zeros as nat));
    }
    proof {
        lemma_leading_count_split(data@, 0u8, zeros as nat);
    }
    let ghost ones = text@;
    let mut left: usize = digits.len();
    while left > 0
        invariant
            left <= digits@.len(),
            digits@.reverse() == wanted,
            digits_below(wanted, 58),
            text@ == ones + symbols_of(wanted.subrange(0, digits@.len() - left)),
        decreases left,
    {
        left = left - 1;
        let digit: u8 = digits[left];
        let ghost at = digits@.len() - 1 - left;
        proof {
            assert(wanted[at] == digits@[left as int]);
            assert((wanted[at] as nat) < 58);
        }
        text.push(symbol(digit));
        proof {
            assert(wanted.subrange(0, at + 1) =~= wanted.subrange(0, at).push(digit));
            assert(symbols_of(wanted.subrange(0, at + 1)) =~= symbols_of(
                wanted.subrange(0, at),
            ).push(alphabet()[digit as int]));
            assert(text@ =~= ones + symbols_of(wanted.subrange(0, at + 1)));
        }
    }
    assert(wanted.subrange(0, digits@.len() as int) =~= wanted);
    text
}

/// The characters of `s`, in order.
fn chars_of(s: &str) -> (chars: Vec<char>)
    ensures
        chars@ == s@,
{
    let mut chars: Vec<char> = Vec::new();
    for c in it: s.chars()
        invariant
            it.seq() == s@,
            chars@ == s@.subrange(0, it.index()),
    {
        chars.push(c);
        assert(s@.subrange(0, it.index() + 1) =~= s@.subrange(0, it.index()).push(c));
    }
    assert(s@.subrange(0, s@.len() as int) =~= s@);
    chars
}

/// Reads base-58 text back into bytes. Gives `None` where a character is
/// not in the alphabet.
pub fn b58_dec(s: &str) -> (bytes: Option<Vec<u8>>)
    ensures
        match bytes {
            Some(decoded) => b58_bytes(s@) == Some(decoded@),
            None => b58_bytes(s@) is None,
        },
{
    let chars = chars_of(s);
    let mut values: Vec<u8> = Vec::new();
    let mut i: usize = 0;
    while i < chars.len()
        invariant
            i <= chars@.len(),
            chars@ == s@,
            values@.len() == i,
            digits_below(values@, 58),
            forall|k: int| 0 <= k < i ==> symbol_value(#[trigger] s@[k]) == Some(values@[k]),
        decreases chars@.len() - i,
    {
        match symbol_index(chars[i]) {
            None => {
                assert(symbol_value(s@[i as int]) is None);
                return None;
            },
            Some(digit) => {
                values.push(digit);
            },
        }
        i = i + 1;
    }
    proof {
        assert(all_symbols(s@));
        assert(values@ =~= values_of(s@));
    }
    let digits = convert(values.as_slice(), 58, 256);
    let ghost wanted = be_digits(be_value(values@, 58), 256);
    let mut decoded: Vec<u8> = Vec::new();
    let mut ones: usize = 0;
    while ones < chars.len() && chars[ones] == '1'
        invariant
            ones <= chars@.len(),
            forall|k: int| 0 <= k < ones ==> chars@[k] == '1',
            decoded@ == repeated(0u8, ones as nat),
        decreases chars@.len() - ones,
    {
        decoded.push(0);
        ones = ones + 1;
        assert(decoded@ =~= repeated(0u8, ones as nat));
    }
    proof {
        lemma_leading_count_split(chars@, '1', ones as nat);
    }
    let ghost zeros = decoded@;
    let mut left: usize = digits.len();
    while left > 0
        invariant
            left <= digits@.len(),
            digits@.reverse() == wanted,
            decoded@ == zeros + wanted.subrange(0, digits@.len() - left),
        decreases left,
    {
        left = left - 1;
        decoded.push(digits[left]);
        proof {
            let at = digits@.len() - 1 - left;
            assert(wanted[at] == digits@[left as int]);
            assert(decoded@ =~= zeros + wanted.subrange(0, at + 1));
        }
    }
    assert(wanted.subrange(0, digits@.len() as int) =~= wanted);
    Some(decoded)
}

/// The alphabet has 58 symbols, each with its place as its value; `1` is
/// the symbol of zero.
pub proof fn lemma_alphabet()
    ensures
        alphabet().len() == 58,
        alphabet()[0] == '1',
        symbol_value('1') == Some(0u8),
        forall|d: int| 0 <= d < 58 ==> symbol_value(#[trigger] alphabet()[d]) == Some(d as u8),
{
    reveal_strlit("123456789ABCDEFGHJKLMNPQRSTUVWXYZabcdefghijkmnopqrstuvwxyz");
    assert forall|d: int| 0 <= d < 58 implies symbol_value(#[trigger] alphabet()[d]) == Some(
        d as u8,
    ) by {
        lemma_increasing(0, d);
        lemma_first_position(alphabet()[d], d as nat, 0);
    }
}

/// The symbols stand in the order of their code points.
proof fn lemma_increasing(i: int, j: int)
    requires
        0 <= i <= j < 58,
    ensures
        forall|k: int| i <= k < j ==> #[trigger] alphabet()[k] < alphabet()[j],
    decreases j - i,
{
    reveal_strlit("123456789ABCDEFGHJKLMNPQRSTUVWXYZabcdefghijkmnopqrstuvwxyz");
    if i < j {
        lemma_increasing(i, j - 1);
        assert(alphabet()[j - 1] < alphabet()[j]);
    }
}

/// A symbol that does not stand before `at` is first found at `at`.
proof fn lemma_first_position(c: char, at: nat, from: nat)
    requires
        from <= at < alphabet().len(),
        alphabet()[at as int] == c,
        forall|k: int| 0 <= k < at ==> #[trigger] alphabet()[k] != c,
    ensures
        position_from(alphabet(), c, from) == Some(at),
    decreases at - from,
{
    if from < at {
        lemma_first_position(c, at, from + 1);
    }
}

/// Reading back what was written gives the bytes again, leading zeros
/// included: `b58_dec` undoes `b58`.
pub proof fn lemma_b58_round_trip(data: Seq<u8>)
    ensures
        b58_bytes(b58_text(data)) == Some(data),
{
    lemma_alphabet();
    let zeros = leading_count(data, 0u8);
    let rest = data.skip(zeros as int);
    let number = be_value(data, 256);
    let digits = be_digits(number, 58);
    let text = b58_text(data);
    let ones = repeated('1', zeros);
    // The bytes are a run of zeros and a number without a leading zero.
    lemma_leading_run(data, 0u8);
    lemma_be_value_leading_zeros(zeros, rest, 256);
    assert(digits_below(rest, 256));
    lemma_be_digits_of_value(rest, 256);
    // The text is as many ones and the symbols of the number's digits.
    lemma_be_digits_canonical(number, 58);
    lemma_be_digits_value(number, 58);
    assert forall|i: int| 0 <= i < text.len() implies symbol_value(#[trigger] text[i]) == Some(
        (repeated(0u8, zeros) + digits)[i],
    ) by {
        if i >= zeros {
            assert(text[i] == alphabet()[digits[i - zeros] as int]);
            assert((digits[i - zeros] as nat) < 58);
        }
    }
    assert(values_of(text) =~= repeated(0u8, zeros) + digits);
    lemma_be_value_leading_zeros(zeros, digits, 58);
    if digits.len() > 0 {
        assert(symbols_of(digits)[0] == alphabet()[digits[0] as int]);
        assert((digits[0] as nat) < 58);
        assert(symbol_value(symbols_of(digits)[0]) == Some(digits[0]));
    }
    lemma_leading_count_of_run(zeros, '1', symbols_of(digits));
}

} // verus!
