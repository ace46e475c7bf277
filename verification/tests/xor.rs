use hex_codec::error::CodecError;
use hex_codec::hex::Hex;
use hex_codec::xor::{fixed_xor, xor_hex};

#[test]
fn test_fixed_xor() {
    let a = "1c0111001f010100061a024b53535009181c";
    let b = "686974207468652062756c6c277320657965";
    let expected = "746865206b696420646f6e277420706c6179";
    assert_eq!(fixed_xor(a, b), Ok(expected.to_string()));
}

#[test]
fn fixed_xor_does_not_depend_on_the_order() {
    let a = "1c0111001f010100061a024b53535009181c";
    let b = "686974207468652062756c6c277320657965";
    assert_eq!(fixed_xor(a, b), fixed_xor(b, a));
    assert_eq!(fixed_xor("0f", "F1"), fixed_xor("F1", "0f"));
    assert_eq!(fixed_xor("0f", "F1"), Ok("fe".to_string()));
    // Failures do not depend on the order either.
    assert_eq!(fixed_xor("0f", "f"), fixed_xor("f", "0f"));
    assert_eq!(fixed_xor("0g", "ff"), fixed_xor("ff", "0g"));
}

#[test]
fn fixed_xor_with_itself_is_all_zero() {
    let a = "1c0111001f010100061a024b53535009181c";
    assert_eq!(fixed_xor(a, a), Ok("0".repeat(a.len())));
    assert_eq!(fixed_xor("ABCDEF", "ABCDEF"), Ok("000000".to_string()));
    assert_eq!(fixed_xor("abc", "ABC"), Ok("000".to_string()));
}

#[test]
fn fixed_xor_keeps_the_length_of_its_operands() {
    // Five digits are 20 bits, no multiple of six: nothing is appended.
    assert_eq!(fixed_xor("12345", "00000"), Ok("12345".to_string()));
    assert_eq!(fixed_xor("f", "5"), Ok("a".to_string()));
    assert_eq!(fixed_xor("", ""), Ok("".to_string()));
}

#[test]
fn fixed_xor_writes_lower_case() {
    assert_eq!(fixed_xor("AB", "00"), Ok("ab".to_string()));
    assert_eq!(fixed_xor("Ff", "0F"), Ok("f0".to_string()));
}

#[test]
fn fixed_xor_rejects_operands_of_different_length() {
    assert_eq!(fixed_xor("abc", "ab"), Err(CodecError::LengthMismatch));
    assert_eq!(fixed_xor("", "0"), Err(CodecError::LengthMismatch));
    // The lengths are compared before a digit is read.
    assert_eq!(fixed_xor("zz", "0"), Err(CodecError::LengthMismatch));
}

#[test]
fn fixed_xor_compares_numbers_of_characters() {
    // One character against two, though both take two bytes.
    assert_eq!(fixed_xor("\u{e9}", "ab"), Err(CodecError::LengthMismatch));
    // One character against one, though they take two bytes and one.
    assert_eq!(fixed_xor("\u{e9}", "a"), Err(CodecError::InvalidDigit));
}

#[test]
fn fixed_xor_rejects_a_character_that_is_no_digit() {
    assert_eq!(fixed_xor("zz", "00"), Err(CodecError::InvalidDigit));
    assert_eq!(fixed_xor("00", "0g"), Err(CodecError::InvalidDigit));
    assert_eq!(fixed_xor("0x", "11"), Err(CodecError::InvalidDigit));
}

#[test]
fn xor_hex_combines_digit_by_digit() {
    let a = Hex { data: b"0123456789abcdef".to_vec() };
    let b = Hex { data: b"ffffffffffffffff".to_vec() };
    assert_eq!(xor_hex(&a, &b), Ok(Hex { data: b"fedcba9876543210".to_vec() }));
    let c = Hex { data: b"5555555555555555".to_vec() };
    assert_eq!(xor_hex(&a, &c), Ok(Hex { data: b"54761032dcfe98ba".to_vec() }));
}

#[test]
fn xor_hex_reports_what_it_cannot_combine() {
    let a = Hex { data: b"12".to_vec() };
    assert_eq!(xor_hex(&a, &Hex { data: b"123".to_vec() }), Err(CodecError::LengthMismatch));
    assert_eq!(xor_hex(&a, &Hex { data: b"1h".to_vec() }), Err(CodecError::InvalidDigit));
    assert_eq!(xor_hex(&Hex { data: b"-1".to_vec() }, &a), Err(CodecError::InvalidDigit));
}
