use hex_reader::{num_decode, NumError};

fn reference(s: &str) -> Option<u32> {
    let (s, rad) = if let Some(s) = s.strip_prefix("0x") {
        (s, 16)
    } else if let Some(s) = s.strip_prefix("0b") {
        (s, 2)
    } else if let Some(s) = s.strip_prefix("0o") {
        (s, 8)
    } else {
        (s, 10)
    };
    u32::from_str_radix(s, rad).ok()
}

#[test]
fn decimal_without_prefix() {
    assert_eq!(num_decode("0"), Ok(0));
    assert_eq!(num_decode("123"), Ok(123));
    assert_eq!(num_decode("007"), Ok(7));
    assert_eq!(num_decode("4294967295"), Ok(u32::MAX));
}

#[test]
fn prefixes_name_the_radix() {
    assert_eq!(num_decode("0x1F"), Ok(31));
    assert_eq!(num_decode("0x1f"), Ok(31));
    assert_eq!(num_decode("0xFFFFFFFF"), Ok(u32::MAX));
    assert_eq!(num_decode("0b101"), Ok(5));
    assert_eq!(num_decode("0o17"), Ok(15));
    assert_eq!(num_decode("0x0000000000C0"), Ok(0xC0));
}

#[test]
fn plus_sign_is_accepted() {
    assert_eq!(num_decode("+5"), Ok(5));
    assert_eq!(num_decode("0x+A"), Ok(10));
    assert_eq!(num_decode("+"), Err(NumError::InvalidDigit));
    assert_eq!(num_decode("0x+"), Err(NumError::InvalidDigit));
    assert_eq!(num_decode("++1"), Err(NumError::InvalidDigit));
}

#[test]
fn nothing_to_read_is_empty() {
    assert_eq!(num_decode(""), Err(NumError::Empty));
    assert_eq!(num_decode("0x"), Err(NumError::Empty));
    assert_eq!(num_decode("0b"), Err(NumError::Empty));
    assert_eq!(num_decode("0o"), Err(NumError::Empty));
}

#[test]
fn characters_that_are_no_digits() {
    assert_eq!(num_decode("-5"), Err(NumError::InvalidDigit));
    assert_eq!(num_decode("12a"), Err(NumError::InvalidDigit));
    assert_eq!(num_decode("0b102"), Err(NumError::InvalidDigit));
    assert_eq!(num_decode("0o8"), Err(NumError::InvalidDigit));
    assert_eq!(num_decode("0xG"), Err(NumError::InvalidDigit));
    assert_eq!(num_decode("0X1F"), Err(NumError::InvalidDigit));
    assert_eq!(num_decode(" 1"), Err(NumError::InvalidDigit));
    assert_eq!(num_decode("1_000"), Err(NumError::InvalidDigit));
    assert_eq!(num_decode("9x"), Err(NumError::InvalidDigit));
}

#[test]
fn numbers_beyond_32_bits() {
    assert_eq!(num_decode("4294967296"), Err(NumError::Overflow));
    assert_eq!(num_decode("0x100000000"), Err(NumError::Overflow));
    assert_eq!(num_decode("0b100000000000000000000000000000000"), Err(NumError::Overflow));
    assert_eq!(num_decode("99999999999x"), Err(NumError::Overflow));
}

#[test]
fn agrees_with_the_standard_parser() {
    let inputs = [
        "", "0", "1", "42", "+42", "-42", "+", "-", "0x", "0x0", "0xff", "0xFF", "0xfg", "0b", "0b1",
        "0b2", "0o", "0o7", "0o8", "0x+1", "0x-1", "4294967295", "4294967296", "0xffffffff",
        "0x100000000", "00000000000000000001", "1 ", " 1", "1e3", "0x1_0", "0b11111111",
        "0o37777777777", "0o40000000000", "9999999999", "é", "0xé",
    ];
    for s in inputs {
        assert_eq!(num_decode(s).ok(), reference(s), "input {:?}", s);
    }
}
