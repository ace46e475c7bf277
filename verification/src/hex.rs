//! ASCII hexadecimal digits and their expansion into binary digits.

use vstd::prelude::*;
use vstd::string::StringSliceAdditionalSpecFns;
use vstd::utf8::is_ascii_chars;
use crate::bits::{all_bits, bits_bytes, byte_value, is_bit, padding_to, zeros};
use crate::error::CodecError;
use crate::text::{bytes_of_chars, chars_of_bytes, string_of_bytes};

verus! {

/// One of the 22 bytes `0-9`, `A-F`, `a-f`.
pub open spec fn is_hex_digit(c: u8) -> bool {
    (0x30 <= c <= 0x39) || (0x41 <= c <= 0x46) || (0x61 <= c <= 0x66)
}

/// Every byte is a hexadecimal digit.
pub open spec fn all_hex_digits(s: Seq<u8>) -> bool {
    forall|i: int| 0 <= i < s.len() ==> is_hex_digit(#[trigger] s[i])
}

/// The number from 0 to 15 that a hexadecimal digit denotes, in either case.
pub open spec fn hex_digit_value(c: u8) -> nat {
    if 0x30 <= c <= 0x39 {
        (c - 0x30) as nat
    } else if 0x41 <= c <= 0x46 {
        (c - 0x41 + 10) as nat
    } else if 0x61 <= c <= 0x66 {
        (c - 0x61 + 10) as nat
    } else {
        0
    }
}

/// Binary digit `k` of a value below 16, counted from the most significant
/// of its four.
pub open spec fn nibble_bit(v: nat, k: int) -> u8 {
    if k == 0 {
        (v / 8 % 2) as u8
    } else if k == 1 {
        (v / 4 % 2) as u8
    } else if k == 2 {
        (v / 2 % 2) as u8
    } else {
        (v % 2) as u8
    }
}

/// The binary expansion of a digit sequence: four bits per digit, in the
/// order of the digits.
pub open spec fn hex_bits(digits: Seq<u8>) -> Seq<u8> {
    Seq::new(4 * digits.len(), |i: int| nibble_bit(hex_digit_value(digits[i / 4]), i % 4))
}

/// A bit sequence followed by the fewest zero bits that make its length a
/// multiple of six.
pub open spec fn pad_to_sextets(bits: Seq<u8>) -> Seq<u8> {
    bits + zeros(padding_to(bits.len(), 6))
}

/// `n` rounded up to the next multiple of six.
pub open spec fn round_up_to_six(n: nat) -> nat {
    (n + 5) / 6 * 6
}

/// The bytes that a digit sequence spells, two digits for each byte.
pub open spec fn hex_bytes(digits: Seq<u8>) -> Seq<u8> {
    Seq::new(
        digits.len() / 2,
        |i: int| (16 * hex_digit_value(digits[2 * i]) + hex_digit_value(digits[2 * i + 1])) as u8,
    )
}

/// One of the 22 characters `0-9`, `A-F`, `a-f`.
pub open spec fn is_hex_char(c: char) -> bool {
    ('0' <= c <= '9') || ('A' <= c <= 'F') || ('a' <= c <= 'f')
}

/// Every character is a hexadecimal digit.
pub open spec fn all_hex_chars(s: Seq<char>) -> bool {
    forall|i: int| 0 <= i < s.len() ==> is_hex_char(#[trigger] s[i])
}

/// The lower-case hexadecimal digit for a value below 16.
pub open spec fn lower_hex_digit(v: nat) -> u8 {
    if v < 10 {
        (0x30 + v) as u8
    } else {
        (0x61 + (v - 10)) as u8
    }
}

/// A hexadecimal digit in lower case; any other byte as it is.
pub open spec fn to_lower_hex(c: u8) -> u8 {
    if 0x41 <= c <= 0x46 {
        (c + 0x20) as u8
    } else {
        c
    }
}

/// The value of the `j`-th group of four bits.
pub open spec fn nibble_value(bits: Seq<u8>, j: int) -> nat {
    (8 * bits[4 * j] + 4 * bits[4 * j + 1] + 2 * bits[4 * j + 2] + bits[4 * j + 3]) as nat
}

/// The lower-case hexadecimal digits of a bit sequence, one for each group
/// of four bits, in the order of the bits.
pub open spec fn hex_digits_of(bits: Seq<u8>) -> Seq<u8> {
    Seq::new(bits.len() / 4, |j: int| lower_hex_digit(nibble_value(bits, j)))
}

/// A sequence of ASCII hexadecimal digits.
///
/// The field is open so that a value can be written down directly; the
/// conversions report `InvalidDigit` for a value that is not `is_valid`.
#[derive(Clone, Debug, PartialEq, Eq)]
pub struct Hex {
    pub data: Vec<u8>,
}

/// The four bits of one hexadecimal digit, or `None` for any other byte.
fn digit_bits(c: u8) -> (r: Option<[u8; 4]>)
    ensures
        r is Some <==> is_hex_digit(c),
        r matches Some(a) ==> forall|k: int|
            0 <= k < 4 ==> #[trigger] a[k] == nibble_bit(hex_digit_value(c), k),
{
    match c {
        0x30 => Some([0, 0, 0, 0]),
        0x31 => Some([0, 0, 0, 1]),
        0x32 => Some([0, 0, 1, 0]),
        0x33 => Some([0, 0, 1, 1]),
        0x34 => Some([0, 1, 0, 0]),
        0x35 => Some([0, 1, 0, 1]),
        0x36 => Some([0, 1, 1, 0]),
        0x37 => Some([0, 1, 1, 1]),
        0x38 => Some([1, 0, 0, 0]),
        0x39 => Some([1, 0, 0, 1]),
        0x41 | 0x61 => Some([1, 0, 1, 0]),
        0x42 | 0x62 => Some([1, 0, 1, 1]),
        0x43 | 0x63 => Some([1, 1, 0, 0]),
        0x44 | 0x64 => Some([1, 1, 0, 1]),
        0x45 | 0x65 => Some([1, 1, 1, 0]),
        0x46 | 0x66 => Some([1, 1, 1, 1]),
        _ => None,
    }
}

/// The lower-case digit that four bits denote, or `None` if one of them is
/// not a bit.
fn nibble_digit(b0: u8, b1: u8, b2: u8, b3: u8) -> (r: Option<u8>)
    ensures
        r is Some <==> is_bit(b0) && is_bit(b1) && is_bit(b2) && is_bit(b3),
        r matches Some(c) ==> c == lower_hex_digit((8 * b0 + 4 * b1 + 2 * b2 + b3) as nat),
{
    match (b0, b1, b2, b3) {
        (0, 0, 0, 0) => Some(0x30),
        (0, 0, 0, 1) => Some(0x31),
        (0, 0, 1, 0) => Some(0x32),
        (0, 0, 1, 1) => Some(0x33),
        (0, 1, 0, 0) => Some(0x34),
        (0, 1, 0, 1) => Some(0x35),
        (0, 1, 1, 0) => Some(0x36),
        (0, 1, 1, 1) => Some(0x37),
        (1, 0, 0, 0) => Some(0x38),
        (1, 0, 0, 1) => Some(0x39),
        (1, 0, 1, 0) => Some(0x61),
        (1, 0, 1, 1) => Some(0x62),
        (1, 1, 0, 0) => Some(0x63),
        (1, 1, 0, 1) => Some(0x64),
        (1, 1, 1, 0) => Some(0x65),
        (1, 1, 1, 1) => Some(0x66),
        _ => None,
    }
}

impl Hex {
    /// Every byte held is a hexadecimal digit.
    pub open spec fn is_valid(&self) -> bool {
        all_hex_digits(self.data@)
    }

    /// Expands each digit into its four bits, in the order of the digits.
    ///
    /// Fails with `InvalidDigit` exactly when some byte is not a
    /// hexadecimal digit.
    pub fn to_bits(&self) -> (r: Result<Vec<u8>, CodecError>)
        ensures
            match r {
                Ok(bits) => self.is_valid() && bits@ == hex_bits(self.data@),
                Err(e) => e == CodecError::InvalidDigit && !self.is_valid(),
            },
    {
        let mut bits: Vec<u8> = Vec::new();
        let mut i: usize = 0;
        while i < self.data.len()
            invariant
                i <= self.data.len(),
                bits.len() == 4 * i,
                forall|j: int| 0 <= j < i ==> is_hex_digit(#[trigger] self.data@[j]),
                forall|n: int|
                    0 <= n < 4 * i ==> #[trigger] bits@[n] == nibble_bit(
                        hex_digit_value(self.data@[n / 4]),
                        n % 4,
                    ),
            decreases self.data.len() - i,
        {
            match digit_bits(self.data[i]) {
                Some(group) => {
                    bits.push(group[0]);
                    bits.push(group[1]);
                    bits.push(group[2]);
                    bits.push(group[3]);
                },
                None => {
                    return Err(CodecError::InvalidDigit);
                },
            }
            i = i + 1;
        }
        assert(bits@ =~= hex_bits(self.data@));
        Ok(bits)
    }

    /// Expands each digit into its four bits and appends zero bits until
    /// the length is a multiple of six.
    ///
    /// Fails with `InvalidDigit` exactly when some byte is not a
    /// hexadecimal digit. The length of the result is four times the number
    /// of digits, rounded up to the next multiple of six.
    pub fn to_binary(&self) -> (r: Result<Vec<u8>, CodecError>)
        ensures
            match r {
                Ok(bits) => {
                    &&& self.is_valid()
                    &&& bits@ == pad_to_sextets(hex_bits(self.data@))
                    &&& bits@.len() == round_up_to_six(4 * self.data@.len())
                },
                Err(e) => e == CodecError::InvalidDigit && !self.is_valid(),
            },
    {
        let mut bits = match self.to_bits() {
            Ok(bits) => bits,
            Err(e) => {
                return Err(e);
            },
        };
        let ghost expansion = bits@;
        let remainder: usize = bits.len() % 6;
        let padding: usize = if remainder == 0 {
            0
        } else {
            6 - remainder
        };
        assert(padding == padding_to(expansion.len(), 6));
        let mut k: usize = 0;
        while k < padding
            invariant
                k <= padding,
                bits@ == expansion + zeros(k as nat),
            decreases padding - k,
        {
            bits.push(0);
            k = k + 1;
        }
        proof {
            lemma_round_up_to_six(expansion.len());
        }
        Ok(bits)
    }

    /// Groups binary digits four by four and writes each group as a
    /// lower-case hexadecimal digit.
    ///
    /// Fails with `LengthMismatch` exactly when the number of bits is not a
    /// multiple of four, and otherwise with `InvalidDigit` exactly when
    /// some element is neither 0 nor 1.
    pub fn from_binary(bits: &[u8]) -> (r: Result<Hex, CodecError>)
        ensures
            match r {
                Ok(hex) => {
                    &&& bits@.len() % 4 == 0
                    &&& all_bits(bits@)
                    &&& hex.data@ == hex_digits_of(bits@)
                    &&& hex.is_valid()
                },
                Err(e) => {
                    ||| e == CodecError::LengthMismatch && bits@.len() % 4 != 0
                    ||| e == CodecError::InvalidDigit && bits@.len() % 4 == 0 && !all_bits(bits@)
                },
            },
    {
        let n: usize = bits.len();
        if n % 4 != 0 {
            return Err(CodecError::LengthMismatch);
        }
        let mut digits: Vec<u8> = Vec::new();
        let mut i: usize = 0;
        while i < n
            invariant
                n == bits@.len(),
                n % 4 == 0,
                i <= n,
                i % 4 == 0,
                digits@.len() == i / 4,
                forall|k: int| 0 <= k < i ==> is_bit(#[trigger] bits@[k]),
                forall|j: int|
                    0 <= j < digits@.len() ==> #[trigger] digits@[j] == lower_hex_digit(
                        nibble_value(bits@, j),
                    ),
            decreases n - i,
        {
            match nibble_digit(bits[i], bits[i + 1], bits[i + 2], bits[i + 3]) {
                Some(c) => {
                    digits.push(c);
                },
                None => {
                    return Err(CodecError::InvalidDigit);
                },
            }
            i = i + 4;
        }
        assert(digits@ =~= hex_digits_of(bits@));
        Ok(Hex { data: digits })
    }

    /// Takes the bytes of a string as they are, without looking at them:
    /// one byte for each character of an ASCII string.
    pub fn from_str(s: &str) -> (hex: Hex)
        ensures
            hex.data@ == s.spec_bytes(),
            is_ascii_chars(s@) ==> hex.data@ == bytes_of_chars(s@),
    {
        proof {
            vstd::string::is_ascii_spec_bytes(s);
        }
        Hex { data: s.as_bytes_vec() }
    }

    /// The digits as a string, each byte read as the character with that
    /// code.
    pub fn to_str(&self) -> (s: String)
        ensures
            s@ == chars_of_bytes(self.data@),
    {
        string_of_bytes(self.data.as_slice())
    }
}

/// The expansion of a digit sequence holds bits only, four for each digit.
pub proof fn lemma_hex_bits_are_bits(digits: Seq<u8>)
    ensures
        all_bits(hex_bits(digits)),
        hex_bits(digits).len() == 4 * digits.len(),
{
    let bits = hex_bits(digits);
    assert forall|i: int| 0 <= i < bits.len() implies is_bit(#[trigger] bits[i]) by {
        let v = hex_digit_value(digits[i / 4]);
        assert(bits[i] == nibble_bit(v, i % 4));
    }
}

/// Filling up to a multiple of six rounds the length up.
proof fn lemma_round_up_to_six(n: nat)
    ensures
        n + padding_to(n, 6) == round_up_to_six(n),
        round_up_to_six(n) % 6 == 0,
        n <= round_up_to_six(n) < n + 6,
{
}

/// The padded expansion of a digit sequence holds bits only; its length is
/// four times the number of digits, rounded up to the next multiple of
/// six, and it is the expansion itself when the number of digits is a
/// multiple of three.
pub proof fn lemma_padded_expansion(digits: Seq<u8>)
    ensures
        all_bits(pad_to_sextets(hex_bits(digits))),
        pad_to_sextets(hex_bits(digits)).len() == round_up_to_six(4 * digits.len()),
        pad_to_sextets(hex_bits(digits)).len() % 6 == 0,
        digits.len() % 3 == 0 ==> pad_to_sextets(hex_bits(digits)) == hex_bits(digits),
{
    lemma_hex_bits_are_bits(digits);
    let bits = hex_bits(digits);
    let padded = pad_to_sextets(bits);
    lemma_round_up_to_six(bits.len());
    assert forall|i: int| 0 <= i < padded.len() implies is_bit(#[trigger] padded[i]) by {
        if i < bits.len() {
            assert(padded[i] == bits[i]);
        }
    }
    if digits.len() % 3 == 0 {
        assert(padded =~= bits);
    }
}

/// A text of ASCII characters holds hexadecimal digits exactly when its
/// bytes do.
pub proof fn lemma_hex_chars_bytes(s: Seq<char>)
    requires
        is_ascii_chars(s),
    ensures
        all_hex_chars(s) <==> all_hex_digits(bytes_of_chars(s)),
{
    let bytes = bytes_of_chars(s);
    if all_hex_chars(s) {
        assert forall|i: int| 0 <= i < bytes.len() implies is_hex_digit(#[trigger] bytes[i]) by {
            assert(is_hex_char(s[i]));
        }
    }
    if all_hex_digits(bytes) {
        assert forall|i: int| 0 <= i < s.len() implies is_hex_char(#[trigger] s[i]) by {
            assert(is_hex_digit(bytes[i]));
        }
    }
}

/// Hexadecimal digits read as characters are hexadecimal digits.
pub proof fn lemma_hex_digits_chars(digits: Seq<u8>)
    requires
        all_hex_digits(digits),
    ensures
        all_hex_chars(chars_of_bytes(digits)),
        chars_of_bytes(digits).len() == digits.len(),
{
    let chars = chars_of_bytes(digits);
    assert forall|i: int| 0 <= i < chars.len() implies is_hex_char(#[trigger] chars[i]) by {
        assert(is_hex_digit(digits[i]));
    }
}

/// A text of hexadecimal digits holds ASCII characters only.
pub proof fn lemma_hex_chars_ascii(s: Seq<char>)
    requires
        all_hex_chars(s),
    ensures
        is_ascii_chars(s),
{
    assert forall|i: int| 0 <= i < s.len() implies '\0' <= #[trigger] s[i] <= '\u{7f}' by {
        assert(is_hex_char(s[i]));
    }
}

/// The case of a digit does not change its bits.
pub proof fn lemma_case_insensitive(digits: Seq<u8>)
    ensures
        hex_bits(Seq::new(digits.len(), |i: int| to_lower_hex(digits[i]))) == hex_bits(digits),
{
    let lower = Seq::new(digits.len(), |i: int| to_lower_hex(digits[i]));
    assert forall|n: int| 0 <= n < 4 * digits.len() implies hex_bits(lower)[n] == hex_bits(
        digits,
    )[n] by {
        assert(hex_digit_value(lower[n / 4]) == hex_digit_value(digits[n / 4]));
    }
    assert(hex_bits(lower) =~= hex_bits(digits));
}

/// Writing bits as digits and expanding the digits gives the bits back.
pub proof fn lemma_bits_of_digits(bits: Seq<u8>)
    requires
        all_bits(bits),
        bits.len() % 4 == 0,
    ensures
        all_hex_digits(hex_digits_of(bits)),
        hex_bits(hex_digits_of(bits)) == bits,
{
    let digits = hex_digits_of(bits);
    let back = hex_bits(digits);
    assert forall|j: int| 0 <= j < digits.len() implies is_hex_digit(#[trigger] digits[j]) by {
        assert(is_bit(bits[4 * j]) && is_bit(bits[4 * j + 1]));
        assert(is_bit(bits[4 * j + 2]) && is_bit(bits[4 * j + 3]));
    }
    assert forall|i: int| 0 <= i < bits.len() implies back[i] == bits[i] by {
        let j = i / 4;
        assert(is_bit(bits[4 * j]) && is_bit(bits[4 * j + 1]));
        assert(is_bit(bits[4 * j + 2]) && is_bit(bits[4 * j + 3]));
        assert(hex_digit_value(digits[j]) == nibble_value(bits, j));
    }
    assert(back =~= bits);
}

/// Expanding digits and writing the bits as digits gives the digits back,
/// in lower case.
pub proof fn lemma_digits_of_bits(digits: Seq<u8>)
    requires
        all_hex_digits(digits),
    ensures
        hex_digits_of(hex_bits(digits)) == Seq::new(
            digits.len(),
            |i: int| to_lower_hex(digits[i]),
        ),
{
    let bits = hex_bits(digits);
    let back = hex_digits_of(bits);
    assert forall|j: int| 0 <= j < digits.len() implies back[j] == to_lower_hex(digits[j]) by {
        let v = hex_digit_value(digits[j]);
        assert(is_hex_digit(digits[j]));
        assert(bits[4 * j] == nibble_bit(v, 0));
        assert(bits[4 * j + 1] == nibble_bit(v, 1));
        assert(bits[4 * j + 2] == nibble_bit(v, 2));
        assert(bits[4 * j + 3] == nibble_bit(v, 3));
        assert(nibble_value(bits, j) == v);
    }
    assert(back =~= Seq::new(digits.len(), |i: int| to_lower_hex(digits[i])));
}

/// Bit `k` of digit `j` stands at place `4 * j + k` of the expansion.
proof fn lemma_hex_bit_at(digits: Seq<u8>, j: int, k: int)
    requires
        0 <= j < digits.len(),
        0 <= k < 4,
    ensures
        hex_bits(digits)[4 * j + k] == nibble_bit(hex_digit_value(digits[j]), k),
{
    assert((4 * j + k) / 4 == j);
    assert((4 * j + k) % 4 == k);
}

/// The four bits of a value below 16 weigh 8, 4, 2 and 1.
proof fn lemma_nibble_bits_value(v: nat)
    requires
        v < 16,
    ensures
        8 * nibble_bit(v, 0) + 4 * nibble_bit(v, 1) + 2 * nibble_bit(v, 2) + nibble_bit(v, 3) == v,
{
}

/// The bits of a digit sequence spell, eight by eight, the bytes that the
/// digits spell two by two.
pub proof fn lemma_bytes_of_hex_bits(digits: Seq<u8>)
    requires
        all_hex_digits(digits),
    ensures
        bits_bytes(hex_bits(digits)) == hex_bytes(digits),
{
    let bits = hex_bits(digits);
    let bytes = bits_bytes(bits);
    assert(bytes.len() == hex_bytes(digits).len());
    assert forall|i: int| 0 <= i < bytes.len() implies bytes[i] == hex_bytes(digits)[i] by {
        let high = hex_digit_value(digits[2 * i]);
        let low = hex_digit_value(digits[2 * i + 1]);
        assert(is_hex_digit(digits[2 * i]) && is_hex_digit(digits[2 * i + 1]));
        lemma_hex_bit_at(digits, 2 * i, 0);
        lemma_hex_bit_at(digits, 2 * i, 1);
        lemma_hex_bit_at(digits, 2 * i, 2);
        lemma_hex_bit_at(digits, 2 * i, 3);
        lemma_hex_bit_at(digits, 2 * i + 1, 0);
        lemma_hex_bit_at(digits, 2 * i + 1, 1);
        lemma_hex_bit_at(digits, 2 * i + 1, 2);
        lemma_hex_bit_at(digits, 2 * i + 1, 3);
        lemma_nibble_bits_value(high);
        lemma_nibble_bits_value(low);
        assert(byte_value(bits, i) == 16 * high + low);
    }
    assert(bytes =~= hex_bytes(digits));
}

} // verus!
