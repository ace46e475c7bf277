//! Bitwise exclusive or of two hexadecimal strings of equal length.

use vstd::prelude::*;
use crate::bits::{all_bits, is_bit};
use crate::error::CodecError;
use crate::hex::{
    all_hex_chars, all_hex_digits, hex_bits, hex_digit_value, hex_digits_of,
    lemma_hex_bits_are_bits, lemma_hex_chars_ascii, lemma_hex_chars_bytes,
    lemma_hex_digits_chars, lower_hex_digit, Hex,
};
use crate::text::{bytes_of_chars, chars_of_bytes};

verus! {

/// Element by element, the exclusive or of two bit sequences of one length.
pub open spec fn xor_bits(a: Seq<u8>, b: Seq<u8>) -> Seq<u8> {
    Seq::new(a.len(), |i: int| a[i] ^ b[i])
}

/// The lower-case digits of the exclusive or of two digit sequences of one
/// length, taken over their bits.
pub open spec fn xor_digits(a: Seq<u8>, b: Seq<u8>) -> Seq<u8> {
    hex_digits_of(xor_bits(hex_bits(a), hex_bits(b)))
}

/// What `xor_hex` returns for two byte sequences.
pub open spec fn xor_outcome(a: Seq<u8>, b: Seq<u8>) -> Result<Seq<u8>, CodecError> {
    if a.len() != b.len() {
        Err(CodecError::LengthMismatch)
    } else if !all_hex_digits(a) || !all_hex_digits(b) {
        Err(CodecError::InvalidDigit)
    } else {
        Ok(xor_digits(a, b))
    }
}

/// What `fixed_xor` returns for two strings.
pub open spec fn fixed_xor_outcome(a: Seq<char>, b: Seq<char>) -> Result<Seq<char>, CodecError> {
    if a.len() != b.len() {
        Err(CodecError::LengthMismatch)
    } else if !all_hex_chars(a) || !all_hex_chars(b) {
        Err(CodecError::InvalidDigit)
    } else {
        Ok(chars_of_bytes(xor_digits(bytes_of_chars(a), bytes_of_chars(b))))
    }
}

/// Combines two digit sequences of equal length by the exclusive or of
/// their bits and writes the result in lower-case digits. The bits are not
/// filled up to a multiple of six on the way, so the result has the length
/// of the operands.
///
/// Fails with `LengthMismatch` exactly when the lengths differ, which is
/// looked at first, and otherwise with `InvalidDigit` exactly when some
/// byte of either operand is not a hexadecimal digit.
pub fn xor_hex(a: &Hex, b: &Hex) -> (r: Result<Hex, CodecError>)
    ensures
        match r {
            Ok(hex) => xor_outcome(a.data@, b.data@) == Ok::<Seq<u8>, CodecError>(hex.data@),
            Err(e) => xor_outcome(a.data@, b.data@) == Err::<Seq<u8>, CodecError>(e),
        },
        r matches Ok(hex) ==> hex.is_valid() && hex.data@.len() == a.data@.len(),
{
    if a.data.len() != b.data.len() {
        return Err(CodecError::LengthMismatch);
    }
    let left = match a.to_bits() {
        Ok(bits) => bits,
        Err(e) => {
            return Err(e);
        },
    };
    let right = match b.to_bits() {
        Ok(bits) => bits,
        Err(e) => {
            return Err(e);
        },
    };
    proof {
        lemma_hex_bits_are_bits(a.data@);
        lemma_hex_bits_are_bits(b.data@);
        lemma_xor_bits_are_bits(left@, right@);
    }
    let n: usize = left.len();
    let mut combined: Vec<u8> = Vec::new();
    let mut i: usize = 0;
    while i < n
        invariant
            n == left@.len(),
            n == right@.len(),
            i <= n,
            combined@.len() == i,
            forall|k: int| 0 <= k < i ==> #[trigger] combined@[k] == left@[k] ^ right@[k],
        decreases n - i,
    {
        combined.push(left[i] ^ right[i]);
        i = i + 1;
    }
    assert(combined@ =~= xor_bits(left@, right@));
    Hex::from_binary(combined.as_slice())
}

/// Combines two hexadecimal strings of equal length by the exclusive or of
/// their bits; the result is written in lower-case digits and has the
/// length of the operands.
///
/// Fails with `LengthMismatch` exactly when the strings differ in their
/// number of characters, which is looked at first, and otherwise with
/// `InvalidDigit` exactly when some character of either string is not a
/// hexadecimal digit.
pub fn fixed_xor(a: &str, b: &str) -> (r: Result<String, CodecError>)
    ensures
        match r {
            Ok(s) => fixed_xor_outcome(a@, b@) == Ok::<Seq<char>, CodecError>(s@),
            Err(e) => fixed_xor_outcome(a@, b@) == Err::<Seq<char>, CodecError>(e),
        },
        r matches Ok(s) ==> s@.len() == a@.len() && all_hex_chars(s@),
{
    if a.unicode_len() != b.unicode_len() {
        return Err(CodecError::LengthMismatch);
    }
    if !a.is_ascii() || !b.is_ascii() {
        proof {
            if all_hex_chars(a@) {
                lemma_hex_chars_ascii(a@);
            }
            if all_hex_chars(b@) {
                lemma_hex_chars_ascii(b@);
            }
        }
        return Err(CodecError::InvalidDigit);
    }
    proof {
        vstd::string::is_ascii_spec_bytes(a);
        vstd::string::is_ascii_spec_bytes(b);
        lemma_hex_chars_bytes(a@);
        lemma_hex_chars_bytes(b@);
    }
    let left = Hex::from_str(a);
    let right = Hex::from_str(b);
    assert(left.data@ =~= bytes_of_chars(a@));
    assert(right.data@ =~= bytes_of_chars(b@));
    match xor_hex(&left, &right) {
        Ok(hex) => {
            proof {
                lemma_hex_digits_chars(hex.data@);
            }
            Ok(hex.to_str())
        },
        Err(e) => Err(e),
    }
}

/// The exclusive or of two bits is a bit, the same in either order, and
/// zero for a bit with itself.
proof fn lemma_xor_bit(x: u8, y: u8)
    requires
        is_bit(x),
        is_bit(y),
    ensures
        is_bit(x ^ y),
        x ^ y == y ^ x,
        x ^ x == 0,
{
    assert((x == 0 || x == 1) && (y == 0 || y == 1) ==> (x ^ y == 0 || x ^ y == 1) && x ^ y == y
        ^ x && x ^ x == 0) by (bit_vector);
}

/// The exclusive or of two bit sequences of one length holds bits only.
proof fn lemma_xor_bits_are_bits(a: Seq<u8>, b: Seq<u8>)
    requires
        a.len() == b.len(),
        all_bits(a),
        all_bits(b),
    ensures
        all_bits(xor_bits(a, b)),
        xor_bits(a, b).len() == a.len(),
{
    let x = xor_bits(a, b);
    assert forall|i: int| 0 <= i < x.len() implies is_bit(#[trigger] x[i]) by {
        lemma_xor_bit(a[i], b[i]);
    }
}

/// The exclusive or of two values below 16, taken bit by bit, is the
/// exclusive or of the values.
proof fn lemma_xor_nibble(x: u8, y: u8)
    requires
        x < 16,
        y < 16,
    ensures
        8 * ((x / 8 % 2) ^ (y / 8 % 2)) + 4 * ((x / 4 % 2) ^ (y / 4 % 2)) + 2 * ((x / 2 % 2) ^ (y
            / 2 % 2)) + ((x % 2) ^ (y % 2)) == x ^ y,
        x ^ y < 16,
{
    assert(x < 16 && y < 16 ==> 8 * ((x / 8 % 2) ^ (y / 8 % 2)) + 4 * ((x / 4 % 2) ^ (y / 4 % 2))
        + 2 * ((x / 2 % 2) ^ (y / 2 % 2)) + ((x % 2) ^ (y % 2)) == x ^ y && x ^ y < 16)
        by (bit_vector);
}

/// Digit by digit: each digit of the result is the lower-case digit of the
/// exclusive or of the two values at its place.
pub proof fn lemma_xor_digit(a: Seq<u8>, b: Seq<u8>, i: int)
    requires
        a.len() == b.len(),
        0 <= i < a.len(),
    ensures
        xor_digits(a, b).len() == a.len(),
        xor_digits(a, b)[i] == lower_hex_digit(
            (hex_digit_value(a[i]) as u8 ^ hex_digit_value(b[i]) as u8) as nat,
        ),
{
    let x = hex_digit_value(a[i]) as u8;
    let y = hex_digit_value(b[i]) as u8;
    let bits = xor_bits(hex_bits(a), hex_bits(b));
    lemma_xor_nibble(x, y);
    assert(bits[4 * i] == (x / 8 % 2) ^ (y / 8 % 2));
    assert(bits[4 * i + 1] == (x / 4 % 2) ^ (y / 4 % 2));
    assert(bits[4 * i + 2] == (x / 2 % 2) ^ (y / 2 % 2));
    assert(bits[4 * i + 3] == (x % 2) ^ (y % 2));
}

/// The exclusive or of two digit sequences does not depend on their order,
/// whether it succeeds or fails.
pub proof fn lemma_xor_outcome_commutes(a: Seq<u8>, b: Seq<u8>)
    ensures
        xor_outcome(a, b) == xor_outcome(b, a),
{
    if a.len() == b.len() && all_hex_digits(a) && all_hex_digits(b) {
        lemma_hex_bits_are_bits(a);
        lemma_hex_bits_are_bits(b);
        let left = hex_bits(a);
        let right = hex_bits(b);
        assert forall|k: int| 0 <= k < left.len() implies left[k] ^ right[k] == right[k]
            ^ left[k] by {
            lemma_xor_bit(left[k], right[k]);
        }
        assert(xor_bits(left, right) =~= xor_bits(right, left));
    }
}

/// The exclusive or of a sequence of hexadecimal digits with itself is as
/// many digits `0`.
pub proof fn lemma_xor_outcome_self(a: Seq<u8>)
    requires
        all_hex_digits(a),
    ensures
        xor_outcome(a, a) == Ok::<Seq<u8>, CodecError>(Seq::new(a.len(), |i: int| 0x30u8)),
{
    lemma_hex_bits_are_bits(a);
    let bits = hex_bits(a);
    let combined = xor_bits(bits, bits);
    assert forall|k: int| 0 <= k < combined.len() implies #[trigger] combined[k] == 0 by {
        lemma_xor_bit(bits[k], bits[k]);
    }
    assert(xor_digits(a, a) =~= Seq::new(a.len(), |i: int| 0x30u8)) by {
        assert forall|j: int| 0 <= j < a.len() implies #[trigger] xor_digits(a, a)[j]
            == 0x30u8 by {
            assert(combined[4 * j] == 0 && combined[4 * j + 1] == 0 && combined[4 * j + 2] == 0
                && combined[4 * j + 3] == 0);
        }
    }
}

/// `fixed_xor` gives the same for `(a, b)` as for `(b, a)`, whether it
/// succeeds or fails.
pub proof fn lemma_fixed_xor_commutes(a: Seq<char>, b: Seq<char>)
    ensures
        fixed_xor_outcome(a, b) == fixed_xor_outcome(b, a),
{
    if a.len() == b.len() && all_hex_chars(a) && all_hex_chars(b) {
        lemma_hex_chars_ascii(a);
        lemma_hex_chars_ascii(b);
        lemma_hex_chars_bytes(a);
        lemma_hex_chars_bytes(b);
        lemma_xor_outcome_commutes(bytes_of_chars(a), bytes_of_chars(b));
    }
}

/// `fixed_xor` of a hexadecimal string with itself gives a string of the
/// same length that holds the digit `0` only.
pub proof fn lemma_fixed_xor_self(a: Seq<char>)
    requires
        all_hex_chars(a),
    ensures
        fixed_xor_outcome(a, a) == Ok::<Seq<char>, CodecError>(Seq::new(a.len(), |i: int| '0')),
{
    lemma_hex_chars_ascii(a);
    lemma_hex_chars_bytes(a);
    lemma_xor_outcome_self(bytes_of_chars(a));
    assert(chars_of_bytes(Seq::new(a.len(), |i: int| 0x30u8)) =~= Seq::new(
        a.len(),
        |i: int| '0',
    ));
}

} // verus!
