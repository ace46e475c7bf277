use hex_codec::error::CodecError;
use hex_codec::octal::Octal;

#[test]
fn test_octal_from_binary() {
    // data: 010011010110000101101110
    // target: 23260556
    let octal = Octal::from_binary(&[0, 1, 0, 0, 1, 1, 0, 1, 0, 1, 1, 0, 0, 0,
        0, 1, 0, 1, 1, 0, 1, 1, 1, 0]).unwrap();
    assert_eq!(
        octal.data,
        vec![2, 3, 2, 6, 0, 5, 5, 6]
    );
}

#[test]
fn test_octal_to_base64() {
    // data 23260556
    // target TWFu
    let octal = Octal {
        data: vec![2, 3, 2, 6, 0, 5, 5, 6],
    };
    assert_eq!(octal.to_base_64(), Ok(vec![b'T', b'W', b'F', b'u']));
}

#[test]
fn test_octal_to_decimal() {
    // data: 23 26 05 56
    // target: 19 22 05 46
    let octals = vec![
        Octal {
            data: vec![2, 3],
        },
        Octal {
            data: vec![2, 6],
        },
        Octal {
            data: vec![0, 5],
        },
        Octal {
            data: vec![5, 6],
        },
    ];
    let decimals: Vec<u8> = vec![19, 22, 5, 46];
    for (i, octal) in octals.iter().enumerate() {
        assert_eq!(octal.to_decimal(), Ok(decimals[i]));
    }
}

#[test]
fn octal_from_binary_groups_from_the_end() {
    // 1011 is split as 1 | 011, not as 101 | 1.
    assert_eq!(Octal::from_binary(&[1, 0, 1, 1]).unwrap().data, vec![1, 3]);
    // 11010 is split as 11 | 010.
    assert_eq!(Octal::from_binary(&[1, 1, 0, 1, 0]).unwrap().data, vec![3, 2]);
}

#[test]
fn octal_from_binary_fills_a_short_first_group_with_zero_bits() {
    assert_eq!(Octal::from_binary(&[1]).unwrap().data, vec![1]);
    assert_eq!(Octal::from_binary(&[1, 1]).unwrap().data, vec![3]);
    assert_eq!(Octal::from_binary(&[1, 0]).unwrap().data, vec![2]);
    assert_eq!(Octal::from_binary(&[1, 1, 1]).unwrap().data, vec![7]);
}

#[test]
fn octal_from_binary_of_nothing_is_nothing() {
    assert_eq!(Octal::from_binary(&[]), Ok(Octal { data: vec![] }));
}

#[test]
fn octal_from_binary_knows_every_group() {
    for value in 0u8..8 {
        let bits = [(value >> 2) & 1, (value >> 1) & 1, value & 1];
        assert_eq!(Octal::from_binary(&bits).unwrap().data, vec![value]);
    }
}

#[test]
fn octal_from_binary_rejects_an_element_that_is_no_bit() {
    assert_eq!(Octal::from_binary(&[0, 2, 1]), Err(CodecError::InvalidDigit));
    assert_eq!(Octal::from_binary(&[2]), Err(CodecError::InvalidDigit));
    assert_eq!(Octal::from_binary(&[1, 9]), Err(CodecError::InvalidDigit));
    assert_eq!(Octal::from_binary(&[1, 0, 1, 0, 1, 255]), Err(CodecError::InvalidDigit));
}

#[test]
fn octal_from_binary_keeps_the_number() {
    // 0b1_1010_0111 = 423 = 0o647
    let octal = Octal::from_binary(&[1, 1, 0, 1, 0, 0, 1, 1, 1]).unwrap();
    assert_eq!(octal.data, vec![6, 4, 7]);
    // 0b1111_1111 = 255 = 0o377
    let octal = Octal::from_binary(&[1, 1, 1, 1, 1, 1, 1, 1]).unwrap();
    assert_eq!(octal.data, vec![3, 7, 7]);
    assert_eq!(octal.to_decimal(), Ok(255));
}

#[test]
fn octal_to_decimal_weighs_by_powers_of_eight() {
    assert_eq!(Octal { data: vec![] }.to_decimal(), Ok(0));
    assert_eq!(Octal { data: vec![7] }.to_decimal(), Ok(7));
    assert_eq!(Octal { data: vec![7, 7] }.to_decimal(), Ok(63));
    assert_eq!(Octal { data: vec![1, 0, 0] }.to_decimal(), Ok(64));
    assert_eq!(Octal { data: vec![1, 2, 3] }.to_decimal(), Ok(83));
    assert_eq!(Octal { data: vec![3, 7, 7] }.to_decimal(), Ok(255));
}

#[test]
fn octal_to_decimal_reports_a_number_above_255() {
    assert_eq!(Octal { data: vec![4, 0, 0] }.to_decimal(), Err(CodecError::Overflow));
    assert_eq!(Octal { data: vec![7, 7, 7] }.to_decimal(), Err(CodecError::Overflow));
}

#[test]
fn octal_to_decimal_reports_a_fourth_digit() {
    assert_eq!(Octal { data: vec![0, 0, 0, 1] }.to_decimal(), Err(CodecError::Overflow));
    assert_eq!(Octal { data: vec![1, 0, 0, 0] }.to_decimal(), Err(CodecError::Overflow));
    // The number of digits is looked at before the digits.
    assert_eq!(Octal { data: vec![9, 9, 9, 9] }.to_decimal(), Err(CodecError::Overflow));
}

#[test]
fn octal_to_decimal_rejects_an_element_above_seven() {
    assert_eq!(Octal { data: vec![8] }.to_decimal(), Err(CodecError::InvalidDigit));
    assert_eq!(Octal { data: vec![1, 8, 1] }.to_decimal(), Err(CodecError::InvalidDigit));
    assert_eq!(Octal { data: vec![255, 0] }.to_decimal(), Err(CodecError::InvalidDigit));
}

#[test]
fn octal_to_base_64_pads_to_a_multiple_of_four() {
    assert_eq!(Octal { data: vec![] }.to_base_64(), Ok(vec![]));
    assert_eq!(
        Octal { data: vec![7, 6, 7, 7] }.to_base_64(),
        Ok(vec![b'+', b'/', b'=', b'='])
    );
    assert_eq!(
        Octal { data: vec![2, 3, 2, 6, 0, 4] }.to_base_64(),
        Ok(vec![b'T', b'W', b'E', b'='])
    );
}

#[test]
fn octal_to_base_64_counts_a_last_digit_alone_by_itself() {
    // 23 26 0: the last digit alone has the value 0.
    assert_eq!(
        Octal { data: vec![2, 3, 2, 6, 0] }.to_base_64(),
        Ok(vec![b'T', b'W', b'A', b'='])
    );
    assert_eq!(
        Octal { data: vec![0, 0, 7] }.to_base_64(),
        Ok(vec![b'A', b'H', b'=', b'='])
    );
}

#[test]
fn octal_to_base_64_reports_a_symbol_count_that_cannot_be_padded() {
    assert_eq!(Octal { data: vec![7, 7] }.to_base_64(), Err(CodecError::PaddingInconsistency));
    assert_eq!(Octal { data: vec![7] }.to_base_64(), Err(CodecError::PaddingInconsistency));
    assert_eq!(
        Octal { data: vec![0, 0, 0, 1, 0, 2, 0, 3, 0, 4] }.to_base_64(),
        Err(CodecError::PaddingInconsistency)
    );
}

#[test]
fn octal_to_base_64_rejects_an_element_above_seven() {
    assert_eq!(Octal { data: vec![8, 0] }.to_base_64(), Err(CodecError::InvalidDigit));
    assert_eq!(Octal { data: vec![0, 0, 0, 9] }.to_base_64(), Err(CodecError::InvalidDigit));
    // An invalid element is reported before the padding is looked at.
    assert_eq!(Octal { data: vec![8] }.to_base_64(), Err(CodecError::InvalidDigit));
}

#[test]
fn octal_to_base_64_walks_the_whole_alphabet() {
    let alphabet = b"ABCDEFGHIJKLMNOPQRSTUVWXYZabcdefghijklmnopqrstuvwxyz0123456789+/";
    let mut digits: Vec<u8> = Vec::new();
    for value in 0u8..64 {
        digits.push(value / 8);
        digits.push(value % 8);
    }
    assert_eq!(Octal { data: digits }.to_base_64(), Ok(alphabet.to_vec()));
}

#[test]
fn octal_to_binary_expands_each_digit_into_three_bits() {
    let octal = Octal { data: vec![2, 3, 2, 6, 0, 5, 5, 6] };
    let target: Vec<u8> = vec![
        0, 1, 0, 0, 1, 1, 0, 1, 0, 1, 1, 0, 0, 0, 0, 1, 0, 1, 1, 0, 1, 1, 1, 0,
    ];
    assert_eq!(octal.to_binary(), Ok(target));
    assert_eq!(Octal { data: vec![] }.to_binary(), Ok(vec![]));
    assert_eq!(Octal { data: vec![7, 0, 4] }.to_binary(), Ok(vec![1, 1, 1, 0, 0, 0, 1, 0, 0]));
}

#[test]
fn octal_to_binary_rejects_an_element_above_seven() {
    assert_eq!(Octal { data: vec![8] }.to_binary(), Err(CodecError::InvalidDigit));
    assert_eq!(Octal { data: vec![0, 1, 200] }.to_binary(), Err(CodecError::InvalidDigit));
}

#[test]
fn octal_to_binary_undoes_from_binary_up_to_the_zero_bits_in_front() {
    let bits: Vec<u8> = vec![1, 0, 1, 1, 1, 0];
    let octal = Octal::from_binary(&bits).unwrap();
    assert_eq!(octal.to_binary(), Ok(bits));
    // 1011 is regrouped as 001 011.
    let octal = Octal::from_binary(&[1, 0, 1, 1]).unwrap();
    assert_eq!(octal.to_binary(), Ok(vec![0, 0, 1, 0, 1, 1]));
    // The digits come back from their bits.
    let digits = Octal { data: vec![0, 1, 2, 3, 4, 5, 6, 7] };
    assert_eq!(Octal::from_binary(&digits.to_binary().unwrap()), Ok(digits));
}
