use trie_proof::base58::{b58, b58_dec};

fn unhex(text: &str) -> Vec<u8> {
    hex::decode(text).unwrap()
}

#[test]
fn b58_of_nothing_is_empty() {
    assert_eq!(b58(&[]), "");
    assert_eq!(b58_dec(""), Some(vec![]));
}

#[test]
fn b58_known_texts() {
    assert_eq!(b58(&unhex("61")), "2g");
    assert_eq!(b58(&unhex("626262")), "a3gV");
    assert_eq!(b58(&unhex("636363")), "aPEr");
    assert_eq!(b58(b"simply a long string"), "2cFupjhnEsSn59qHXstmK2ffpLv2");
    assert_eq!(b58(&unhex("516b6fcd0f")), "ABnLTmg");
    assert_eq!(b58(&unhex("bf4f89001e670274dd")), "3SEo3LWLoPntC");
    assert_eq!(b58(&unhex("572e4794")), "3EFU7m");
    assert_eq!(b58(&unhex("ecac89cad93923c02321")), "EJDM8drfXA6uyA");
    assert_eq!(b58(&unhex("10c8511e")), "Rt5zm");
    assert_eq!(b58(b"Hello World!"), "2NEpo7TZRRrLZSi2U");
}

#[test]
fn b58_leading_zero_bytes_become_ones() {
    assert_eq!(b58(&[0]), "1");
    assert_eq!(b58(&[0u8; 10]), "1111111111");
    assert_eq!(b58(&unhex("0000287fb4cd")), "11233QC4");
    assert_eq!(
        b58(&unhex("00eb15231dfceb60925886b67d065299925915aeb172c06647")),
        "1NS17iag9jJgTHD1VXjvLCEnZuQ3rJDE9L"
    );
}

#[test]
fn b58_zero_bytes_inside_are_digits() {
    // 0x0100 is 256 = 4 * 58 + 24: the digits 4 and 24, the symbols 5 and R.
    assert_eq!(b58(&[1, 0]), "5R");
    assert_eq!(b58(&[0, 1, 0]), "15R");
}

#[test]
fn b58_single_digits_follow_the_alphabet() {
    let alphabet = "123456789ABCDEFGHJKLMNPQRSTUVWXYZabcdefghijkmnopqrstuvwxyz";
    for (value, symbol) in alphabet.chars().enumerate().skip(1) {
        assert_eq!(b58(&[value as u8]), symbol.to_string());
        assert_eq!(b58_dec(&symbol.to_string()), Some(vec![value as u8]));
    }
    // 58 itself takes two digits: 1 and 0.
    assert_eq!(b58(&[58]), "21");
}

#[test]
fn b58_dec_known_texts() {
    assert_eq!(b58_dec("2g"), Some(unhex("61")));
    assert_eq!(b58_dec("a3gV"), Some(unhex("626262")));
    assert_eq!(b58_dec("2cFupjhnEsSn59qHXstmK2ffpLv2"), Some(b"simply a long string".to_vec()));
    assert_eq!(b58_dec("11233QC4"), Some(unhex("0000287fb4cd")));
    assert_eq!(
        b58_dec("1NS17iag9jJgTHD1VXjvLCEnZuQ3rJDE9L"),
        Some(unhex("00eb15231dfceb60925886b67d065299925915aeb172c06647"))
    );
    assert_eq!(b58_dec("1111111111"), Some(vec![0u8; 10]));
    assert_eq!(b58_dec("1"), Some(vec![0]));
}

#[test]
fn b58_dec_refuses_characters_outside_the_alphabet() {
    assert_eq!(b58_dec("0"), None);
    assert_eq!(b58_dec("O"), None);
    assert_eq!(b58_dec("I"), None);
    assert_eq!(b58_dec("l"), None);
    assert_eq!(b58_dec("2g "), None);
    assert_eq!(b58_dec("a3gV+"), None);
    assert_eq!(b58_dec("aé"), None);
}

#[test]
fn b58_then_b58_dec_gives_the_bytes_back() {
    let mut data: Vec<u8> = Vec::new();
    for round in 0..40u32 {
        assert_eq!(b58_dec(&b58(&data)), Some(data.clone()));
        data.push((round.wrapping_mul(97).wrapping_add(13) % 256) as u8);
        if round % 7 == 0 {
            data.insert(0, 0);
        }
    }
}
