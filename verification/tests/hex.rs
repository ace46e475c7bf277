use hex_codec::error::CodecError;
use hex_codec::hex::Hex;

#[test]
fn test_hex_to_binary() {
    // data: 4D616E
    // target: 010011010110000101101110
    let data = vec![b'4', b'D', b'6', b'1', b'6', b'E'];
    let target = vec![
        0, 1, 0, 0, 1, 1, 0, 1, 0, 1, 1, 0, 0, 0,
        0, 1, 0, 1, 1, 0, 1, 1, 1, 0,
    ];
    let hex = Hex { data };
    assert_eq!(hex.to_binary(), Ok(target));
}

#[test]
fn hex_to_binary_appends_two_zero_bits_after_four_digits() {
    // 4D61 is 16 bits; two zero bits bring them to 18.
    let hex = Hex { data: vec![b'4', b'D', b'6', b'1'] };
    let target: Vec<u8> = vec![0, 1, 0, 0, 1, 1, 0, 1, 0, 1, 1, 0, 0, 0, 0, 1, 0, 0];
    assert_eq!(hex.to_binary(), Ok(target));
}

#[test]
fn hex_to_binary_appends_four_zero_bits_after_two_digits() {
    let hex = Hex { data: vec![b'f', b'f'] };
    let target: Vec<u8> = vec![1, 1, 1, 1, 1, 1, 1, 1, 0, 0, 0, 0];
    assert_eq!(hex.to_binary(), Ok(target));
}

#[test]
fn hex_to_binary_pads_at_the_end_not_at_the_front() {
    let hex = Hex { data: vec![b'f'] };
    let target: Vec<u8> = vec![1, 1, 1, 1, 0, 0];
    assert_eq!(hex.to_binary(), Ok(target));
}

#[test]
fn hex_to_binary_of_nothing_is_nothing() {
    let hex = Hex { data: vec![] };
    assert_eq!(hex.to_binary(), Ok(vec![]));
}

#[test]
fn hex_to_binary_length_is_rounded_up_to_a_multiple_of_six() {
    let expected: [usize; 9] = [0, 6, 12, 12, 18, 24, 24, 30, 36];
    for digits in 0..expected.len() {
        let hex = Hex { data: vec![b'a'; digits] };
        let bits = hex.to_binary().unwrap();
        assert_eq!(bits.len(), expected[digits]);
        assert_eq!(bits.len() % 6, 0);
        assert!(bits.len() >= 4 * digits && bits.len() < 4 * digits + 6);
    }
}

#[test]
fn hex_to_binary_knows_every_digit_in_both_cases() {
    let digits = b"0123456789abcdef";
    for (value, &digit) in digits.iter().enumerate() {
        let v = value as u8;
        let target: Vec<u8> = vec![(v >> 3) & 1, (v >> 2) & 1, (v >> 1) & 1, v & 1];
        assert_eq!(Hex { data: vec![digit] }.to_bits(), Ok(target.clone()));
        assert_eq!(Hex { data: vec![digit.to_ascii_uppercase()] }.to_bits(), Ok(target));
    }
}

#[test]
fn hex_to_binary_rejects_a_byte_that_is_no_digit() {
    for bad in [b'g', b'G', b'/', b':', b'@', b'`', b' ', 0u8, 0xffu8] {
        let hex = Hex { data: vec![b'1', bad, b'2'] };
        assert_eq!(hex.to_binary(), Err(CodecError::InvalidDigit));
        assert_eq!(hex.to_bits(), Err(CodecError::InvalidDigit));
    }
}

#[test]
fn hex_to_bits_does_not_pad() {
    let hex = Hex { data: vec![b'4', b'D'] };
    let target: Vec<u8> = vec![0, 1, 0, 0, 1, 1, 0, 1];
    assert_eq!(hex.to_bits(), Ok(target));
}

#[test]
fn hex_from_binary_writes_lower_case_digits() {
    let bits: Vec<u8> = vec![1, 0, 1, 0, 0, 0, 0, 1, 1, 1, 1, 1, 0, 0, 0, 0];
    let hex = Hex::from_binary(&bits).unwrap();
    assert_eq!(hex.data, vec![b'a', b'1', b'f', b'0']);
}

#[test]
fn hex_from_binary_of_nothing_is_nothing() {
    assert_eq!(Hex::from_binary(&[]), Ok(Hex { data: vec![] }));
}

#[test]
fn hex_from_binary_rejects_a_length_that_is_no_multiple_of_four() {
    assert_eq!(Hex::from_binary(&[1, 0, 1, 0, 0, 0]), Err(CodecError::LengthMismatch));
    assert_eq!(Hex::from_binary(&[1]), Err(CodecError::LengthMismatch));
    // The length is looked at before the elements.
    assert_eq!(Hex::from_binary(&[7, 7, 7]), Err(CodecError::LengthMismatch));
}

#[test]
fn hex_from_binary_rejects_an_element_that_is_no_bit() {
    assert_eq!(Hex::from_binary(&[1, 0, 2, 0]), Err(CodecError::InvalidDigit));
    assert_eq!(Hex::from_binary(&[0, 0, 0, 0, 0, 0, 0, 255]), Err(CodecError::InvalidDigit));
}

#[test]
fn hex_from_binary_undoes_to_bits_up_to_case() {
    let hex = Hex { data: b"0123456789ABCDEFabcdef".to_vec() };
    let bits = hex.to_bits().unwrap();
    let back = Hex::from_binary(&bits).unwrap();
    assert_eq!(back.data, b"0123456789abcdefabcdef".to_vec());
    assert_eq!(back.to_bits(), Ok(bits));
}

#[test]
fn hex_from_str_takes_the_bytes_and_to_str_gives_them_back() {
    let hex = Hex::from_str("1c0f");
    assert_eq!(hex.data, vec![b'1', b'c', b'0', b'f']);
    assert_eq!(hex.to_str(), "1c0f");
    assert_eq!(Hex { data: vec![] }.to_str(), "");
}

#[test]
fn hex_from_str_does_not_validate() {
    let hex = Hex::from_str("xy");
    assert_eq!(hex.data, vec![b'x', b'y']);
    assert_eq!(hex.to_binary(), Err(CodecError::InvalidDigit));
}
