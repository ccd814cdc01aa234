//! The rules of a token vault: under which key an account's balance of a
//! token is kept, and when a withdrawal is allowed.

use crate::base58::{b58, b58_text};
use crate::bytes::{b, repeated};
use vstd::prelude::*;
use vstd::string::StringExecFns;
use vstd::utf8::encode_utf8;

verus! {

/// Why a withdrawal is refused.
#[derive(Clone, Copy, Debug, PartialEq, Eq, Structural)]
pub enum WithdrawError {
    /// The amount is not a number that fits 64 bits.
    InvalidAmount,
    /// The amount is zero.
    AmountNotPositive,
    /// The amount is more than the balance.
    InsufficientFunds,
}

impl WithdrawError {
    /// The words in which the refusal is reported.
    pub fn message(&self) -> (text: &'static str)
        ensures
            text@ == (match self {
                WithdrawError::InvalidAmount => "Invalid amount"@,
                WithdrawError::AmountNotPositive => "amount lte 0"@,
                WithdrawError::InsufficientFunds => "insufficient funds"@,
            }),
    {
        match self {
            WithdrawError::InvalidAmount => "Invalid amount",
            WithdrawError::AmountNotPositive => "amount lte 0",
            WithdrawError::InsufficientFunds => "insufficient funds",
        }
    }
}

/// The key of the vault of `caller` for the token `symbol`, as text:
/// `vault:`, the account in base 58, a colon and the symbol.
pub open spec fn vault_key_text(caller: Seq<u8>, symbol: Seq<char>) -> Seq<char> {
    "vault:"@ + b58_text(caller) + ":"@ + symbol
}

/// What a withdrawal of `amount` from `balance` leaves, or why it is
/// refused: a zero amount first, then an amount beyond the balance.
pub open spec fn withdrawal(balance: u64, amount: u64) -> Result<u64, WithdrawError> {
    if amount == 0 {
        Err(WithdrawError::AmountNotPositive)
    } else if balance < amount {
        Err(WithdrawError::InsufficientFunds)
    } else {
        Ok((balance - amount) as u64)
    }
}

/// The number that decimal digits write.
pub open spec fn decimal_value(digits: Seq<char>) -> nat
    decreases digits.len(),
{
    if digits.len() == 0 {
        0
    } else {
        (decimal_value(digits.drop_last()) * 10 + (digits.last() as nat - '0' as nat)) as nat
    }
}

/// Whether `digits` is one or more of the characters `0` to `9`.
pub open spec fn is_decimal(digits: Seq<char>) -> bool {
    digits.len() > 0 && forall|i: int| 0 <= i < digits.len() ==> '0' <= #[trigger] digits[i] <= '9'
}

/// The amount that `text` writes: decimal digits, after a `+` or after
/// nothing, whose number fits 64 bits. Any other text writes none.
pub open spec fn amount_of(text: Seq<char>) -> Option<u64> {
    let digits = if text.len() > 0 && text[0] == '+' {
        text.skip(1)
    } else {
        text
    };
    if is_decimal(digits) && decimal_value(digits) <= u64::MAX {
        Some(decimal_value(digits) as u64)
    } else {
        None
    }
}

/// What a request to withdraw the amount written in `amount` from `balance`
/// leads to: the amount and what is left, or the refusal. Text that is no
/// amount is refused before the balance is looked at.
pub open spec fn withdrawal_request(balance: u64, amount: Seq<char>) -> Result<
    (u64, u64),
    WithdrawError,
> {
    match amount_of(amount) {
        None => Err(WithdrawError::InvalidAmount),
        Some(value) => match withdrawal(balance, value) {
            Ok(remaining) => Ok((value, remaining)),
            Err(refusal) => Err(refusal),
        },
    }
}

/// Trusted: `str::parse` for `u64`, which accepts an optional `+` followed
/// by decimal digits only, and fails on empty text, on any other character
/// and on a number beyond 64 bits.
#[verifier::external_body]
fn parse_u64(text: &str) -> (value: Option<u64>)
    ensures
        value == amount_of(text@),
{
    text.parse::<u64>().ok()
}

/// Reads an amount written in decimal digits.
pub fn parse_amount(text: &str) -> (value: Option<u64>)
    ensures
        value == amount_of(text@),
{
    parse_u64(text)
}

/// The balance that the store holds as `text`: the amount written there,
/// and zero where the text is no amount (an account never credited).
pub fn stored_balance(text: &str) -> (balance: u64)
    ensures
        balance == (match amount_of(text@) {
            Some(value) => value,
            None => 0u64,
        }),
{
    match parse_u64(text) {
        Some(value) => value,
        None => 0,
    }
}

/// Decides a request to withdraw the amount written in `amount` from an
/// account that holds `balance`; gives the amount and what is left.
pub fn withdraw_request(balance: u64, amount: &str) -> (r: Result<(u64, u64), WithdrawError>)
    ensures
        r == withdrawal_request(balance, amount@),
{
    match parse_u64(amount) {
        None => Err(WithdrawError::InvalidAmount),
        Some(value) => match withdraw_remaining(balance, value) {
            Ok(remaining) => Ok((value, remaining)),
            Err(refusal) => Err(refusal),
        },
    }
}

/// The storage key under which the balance of `caller` in `symbol` is kept.
pub fn vault_key(caller: &[u8], symbol: &str) -> (key: Vec<u8>)
    ensures
        key@ == encode_utf8(vault_key_text(caller@, symbol@)),
{
    let account = b58(caller);
    let mut text = String::from_str("vault:");
    text.append(account.as_str());
    text.append(":");
    text.append(symbol);
    b(text.as_str())
}

/// Decides a withdrawal of `amount` from an account that holds `balance`.
pub fn withdraw_remaining(balance: u64, amount: u64) -> (r: Result<u64, WithdrawError>)
    ensures
        r == withdrawal(balance, amount),
{
    if amount == 0 {
        Err(WithdrawError::AmountNotPositive)
    } else if balance < amount {
        Err(WithdrawError::InsufficientFunds)
    } else {
        Ok(balance - amount)
    }
}

/// The account to which burnt tokens are sent: 48 zero bytes.
pub fn burn_address() -> (address: Vec<u8>)
    ensures
        address@ == repeated(0u8, 48),
{
    let mut address: Vec<u8> = Vec::new();
    let mut k: usize = 0;
    while k < 48
        invariant
            k <= 48,
            address@ == repeated(0u8, k as nat),
        decreases 48 - k,
    {
        address.push(0);
        k = k + 1;
        assert(address@ =~= repeated(0u8, k as nat));
    }
    address
}

} // verus!
