use trie_proof::vault::{
    burn_address, parse_amount, stored_balance, vault_key, withdraw_remaining, withdraw_request,
    WithdrawError,
};

#[test]
fn vault_key_names_account_and_symbol() {
    assert_eq!(vault_key(&[1, 2, 3, 4, 5], "BTC"), b"vault:7bWpTW:BTC".to_vec());
    assert_eq!(vault_key(&[1, 2, 3, 4, 5], "ETH"), b"vault:7bWpTW:ETH".to_vec());
}

#[test]
fn vault_key_of_empty_parts() {
    assert_eq!(vault_key(&[], ""), b"vault::".to_vec());
    assert_eq!(vault_key(&[0, 0], ""), b"vault:11:".to_vec());
}

#[test]
fn vault_key_keeps_symbols_beyond_ascii() {
    assert_eq!(vault_key(&[1, 0], "é"), "vault:5R:é".as_bytes().to_vec());
}

#[test]
fn withdrawal_leaves_the_difference() {
    assert_eq!(withdraw_remaining(300, 100), Ok(200));
    assert_eq!(withdraw_remaining(100, 100), Ok(0));
    assert_eq!(withdraw_remaining(u64::MAX, u64::MAX), Ok(0));
    assert_eq!(withdraw_remaining(u64::MAX, 1), Ok(u64::MAX - 1));
}

#[test]
fn withdrawal_of_nothing_is_refused() {
    assert_eq!(withdraw_remaining(100, 0), Err(WithdrawError::AmountNotPositive));
    assert_eq!(withdraw_remaining(0, 0), Err(WithdrawError::AmountNotPositive));
    assert_eq!(WithdrawError::AmountNotPositive.message(), "amount lte 0");
}

#[test]
fn withdrawal_beyond_the_balance_is_refused() {
    assert_eq!(withdraw_remaining(50, 100), Err(WithdrawError::InsufficientFunds));
    assert_eq!(withdraw_remaining(0, 1), Err(WithdrawError::InsufficientFunds));
    assert_eq!(WithdrawError::InsufficientFunds.message(), "insufficient funds");
}

#[test]
fn burn_address_is_48_zero_bytes() {
    assert_eq!(burn_address(), vec![0u8; 48]);
}

#[test]
fn amount_is_decimal_digits() {
    assert_eq!(parse_amount("0"), Some(0));
    assert_eq!(parse_amount("100"), Some(100));
    assert_eq!(parse_amount("007"), Some(7));
    assert_eq!(parse_amount("+5"), Some(5));
    assert_eq!(parse_amount("18446744073709551615"), Some(u64::MAX));
}

#[test]
fn amount_that_is_none() {
    assert_eq!(parse_amount(""), None);
    assert_eq!(parse_amount("+"), None);
    assert_eq!(parse_amount("-5"), None);
    assert_eq!(parse_amount("-0"), None);
    assert_eq!(parse_amount("++5"), None);
    assert_eq!(parse_amount("5+"), None);
    assert_eq!(parse_amount(" 5"), None);
    assert_eq!(parse_amount("5 "), None);
    assert_eq!(parse_amount("1_000"), None);
    assert_eq!(parse_amount("1.0"), None);
    assert_eq!(parse_amount("0x10"), None);
    assert_eq!(parse_amount("invalid"), None);
    assert_eq!(parse_amount("٣"), None);
    assert_eq!(parse_amount("18446744073709551616"), None);
    assert_eq!(parse_amount("99999999999999999999999"), None);
}

#[test]
fn stored_balance_defaults_to_zero() {
    assert_eq!(stored_balance("500"), 500);
    assert_eq!(stored_balance(""), 0);
    assert_eq!(stored_balance("none"), 0);
    assert_eq!(stored_balance("-3"), 0);
}

#[test]
fn withdraw_request_gives_amount_and_remainder() {
    assert_eq!(withdraw_request(300, "100"), Ok((100, 200)));
    assert_eq!(withdraw_request(300, "300"), Ok((300, 0)));
    assert_eq!(withdraw_request(300, "+1"), Ok((1, 299)));
}

#[test]
fn withdraw_request_refusals_in_order() {
    assert_eq!(withdraw_request(300, "invalid"), Err(WithdrawError::InvalidAmount));
    assert_eq!(withdraw_request(0, ""), Err(WithdrawError::InvalidAmount));
    assert_eq!(withdraw_request(300, "0"), Err(WithdrawError::AmountNotPositive));
    assert_eq!(withdraw_request(0, "0"), Err(WithdrawError::AmountNotPositive));
    assert_eq!(withdraw_request(300, "301"), Err(WithdrawError::InsufficientFunds));
    assert_eq!(WithdrawError::InvalidAmount.message(), "Invalid amount");
}
