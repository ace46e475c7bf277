//! Base-8 digits: regrouping of binary digits, positional value, and
//! rendering as base64 symbols.

use vstd::prelude::*;
use crate::base64::{
    base64_symbol, is_base64_text, lemma_base64_text_well_formed, symbol_for, BASE64_PAD,
};
use crate::bits::{all_bits, bits_value, is_bit, padding_to, zeros};
use crate::error::CodecError;

verus! {

/// A value from 0 to 7.
pub open spec fn is_octal_digit(d: u8) -> bool {
    d <= 7
}

/// Every element is a base-8 digit.
pub open spec fn all_octal_digits(s: Seq<u8>) -> bool {
    forall|i: int| 0 <= i < s.len() ==> is_octal_digit(#[trigger] s[i])
}

/// A bit sequence preceded by the fewest zero bits that make its length a
/// multiple of three.
pub open spec fn left_pad_to_triples(bits: Seq<u8>) -> Seq<u8> {
    zeros(padding_to(bits.len(), 3)) + bits
}

/// The value of the `j`-th group of three bits.
pub open spec fn triple_value(bits: Seq<u8>, j: int) -> nat {
    (4 * bits[3 * j] + 2 * bits[3 * j + 1] + bits[3 * j + 2]) as nat
}

/// The base-8 digits of a bit sequence. Groups of three bits are counted
/// from the end, so that only the first group can fall short; it is filled
/// with zero bits on its left. The digits keep the order of the bits.
pub open spec fn octal_digits(bits: Seq<u8>) -> Seq<u8> {
    let padded = left_pad_to_triples(bits);
    Seq::new(padded.len() / 3, |j: int| triple_value(padded, j) as u8)
}

/// Binary digit `k` of a value below 8, counted from the most significant
/// of its three.
pub open spec fn octal_bit(d: nat, k: int) -> u8 {
    if k == 0 {
        (d / 4 % 2) as u8
    } else if k == 1 {
        (d / 2 % 2) as u8
    } else {
        (d % 2) as u8
    }
}

/// The binary expansion of a digit sequence: three bits per digit, in the
/// order of the digits.
pub open spec fn octal_bits(digits: Seq<u8>) -> Seq<u8> {
    Seq::new(3 * digits.len(), |i: int| octal_bit(digits[i / 3] as nat, i % 3))
}

/// The number that a digit sequence denotes in base 8, most significant
/// digit first: digit `i` of `n` weighs `8^(n-1-i)`.
pub open spec fn octal_value(digits: Seq<u8>) -> nat
    decreases digits.len(),
{
    if digits.len() == 0 {
        0
    } else {
        8 * octal_value(digits.drop_last()) + digits.last() as nat
    }
}

/// How many digits `to_decimal` accepts: the weight of a fourth digit,
/// 512, no longer fits in eight bits.
pub const MAX_DECIMAL_DIGITS: usize = 3;

/// The number of base64 symbols that `n` base-8 digits give: one for each
/// pair, and one for a last digit left alone.
pub open spec fn symbol_count(n: nat) -> nat {
    (n + 1) / 2
}

/// The value of the `j`-th pair of digits; a last digit left alone counts
/// by itself.
pub open spec fn pair_value(digits: Seq<u8>, j: int) -> nat {
    if 2 * j + 1 < digits.len() {
        (8 * digits[2 * j] + digits[2 * j + 1]) as nat
    } else {
        digits[2 * j] as nat
    }
}

/// The base64 symbols of a digit sequence, without padding.
pub open spec fn base64_symbols(digits: Seq<u8>) -> Seq<u8> {
    Seq::new(symbol_count(digits.len()), |j: int| base64_symbol(pair_value(digits, j)))
}

/// The base64 text of a digit sequence: its symbols, followed by as many
/// `=` as bring the length to a multiple of four.
pub open spec fn base64_text(digits: Seq<u8>) -> Seq<u8> {
    base64_symbols(digits) + Seq::new(
        padding_to(symbol_count(digits.len()), 4),
        |i: int| BASE64_PAD,
    )
}

/// A sequence of base-8 digits.
///
/// The field is open so that a value can be written down directly; the
/// conversions report `InvalidDigit` for a value that is not `is_valid`.
#[derive(Clone, Debug, PartialEq, Eq)]
pub struct Octal {
    pub data: Vec<u8>,
}

/// The digit that three bits denote, or `None` if one of them is not a bit.
fn triple_digit(b0: u8, b1: u8, b2: u8) -> (r: Option<u8>)
    ensures
        r is Some <==> is_bit(b0) && is_bit(b1) && is_bit(b2),
        r matches Some(d) ==> d == 4 * b0 + 2 * b1 + b2,
{
    match (b0, b1, b2) {
        (0, 0, 0) => Some(0),
        (0, 0, 1) => Some(1),
        (0, 1, 0) => Some(2),
        (0, 1, 1) => Some(3),
        (1, 0, 0) => Some(4),
        (1, 0, 1) => Some(5),
        (1, 1, 0) => Some(6),
        (1, 1, 1) => Some(7),
        _ => None,
    }
}

/// The three bits of one base-8 digit, or `None` for a value above 7.
fn digit_triple(d: u8) -> (r: Option<[u8; 3]>)
    ensures
        r is Some <==> is_octal_digit(d),
        r matches Some(a) ==> forall|k: int|
            0 <= k < 3 ==> #[trigger] a[k] == octal_bit(d as nat, k),
{
    match d {
        0 => Some([0, 0, 0]),
        1 => Some([0, 0, 1]),
        2 => Some([0, 1, 0]),
        3 => Some([0, 1, 1]),
        4 => Some([1, 0, 0]),
        5 => Some([1, 0, 1]),
        6 => Some([1, 1, 0]),
        7 => Some([1, 1, 1]),
        _ => None,
    }
}

impl Octal {
    /// Every element held is a base-8 digit.
    pub open spec fn is_valid(&self) -> bool {
        all_octal_digits(self.data@)
    }

    /// Regroups binary digits into base-8 digits, three bits to a digit,
    /// counted from the end of the sequence.
    ///
    /// Fails with `InvalidDigit` exactly when some element is neither 0
    /// nor 1.
    pub fn from_binary(data: &[u8]) -> (r: Result<Octal, CodecError>)
        ensures
            match r {
                Ok(octal) => all_bits(data@) && octal.data@ == octal_digits(data@) && octal.is_valid(),
                Err(e) => e == CodecError::InvalidDigit && !all_bits(data@),
            },
    {
        let n: usize = data.len();
        let lead: usize = n % 3;
        let ghost padded = left_pad_to_triples(data@);
        let ghost shift = padding_to(n as nat, 3) as int;
        let mut digits: Vec<u8> = Vec::new();
        if lead != 0 {
            let first = if lead == 1 {
                triple_digit(0, 0, data[0])
            } else {
                triple_digit(0, data[0], data[1])
            };
            match first {
                Some(d) => {
                    digits.push(d);
                },
                None => {
                    return Err(CodecError::InvalidDigit);
                },
            }
        }
        let mut i: usize = lead;
        while i < n
            invariant
                n == data@.len(),
                lead == n % 3,
                lead <= i <= n,
                (i - lead) % 3 == 0,
                padded == left_pad_to_triples(data@),
                shift == padding_to(n as nat, 3),
                digits@.len() == (i + shift) / 3,
                forall|k: int| 0 <= k < i ==> is_bit(#[trigger] data@[k]),
                forall|j: int|
                    0 <= j < digits@.len() ==> #[trigger] digits@[j] == triple_value(padded, j),
            decreases n - i,
        {
            match triple_digit(data[i], data[i + 1], data[i + 2]) {
                Some(d) => {
                    digits.push(d);
                },
                None => {
                    return Err(CodecError::InvalidDigit);
                },
            }
            i = i + 3;
        }
        assert(digits@ =~= octal_digits(data@));
        Ok(Octal { data: digits })
    }

    /// Expands each digit into its three bits, in the order of the digits.
    ///
    /// Fails with `InvalidDigit` exactly when some element exceeds 7.
    pub fn to_binary(&self) -> (r: Result<Vec<u8>, CodecError>)
        ensures
            match r {
                Ok(bits) => self.is_valid() && bits@ == octal_bits(self.data@),
                Err(e) => e == CodecError::InvalidDigit && !self.is_valid(),
            },
    {
        let mut bits: Vec<u8> = Vec::new();
        let mut i: usize = 0;
        while i < self.data.len()
            invariant
                i <= self.data.len(),
                bits.len() == 3 * i,
                forall|j: int| 0 <= j < i ==> is_octal_digit(#[trigger] self.data@[j]),
                forall|n: int|
                    0 <= n < 3 * i ==> #[trigger] bits@[n] == octal_bit(
                        self.data@[n / 3] as nat,
                        n % 3,
                    ),
            decreases self.data.len() - i,
        {
            match digit_triple(self.data[i]) {
                Some(group) => {
                    bits.push(group[0]);
                    bits.push(group[1]);
                    bits.push(group[2]);
                },
                None => {
                    return Err(CodecError::InvalidDigit);
                },
            }
            i = i + 1;
        }
        assert(bits@ =~= octal_bits(self.data@));
        Ok(bits)
    }

    /// Reads the digits as one number in base 8.
    ///
    /// The result is held in eight bits. `Overflow` is returned when there
    /// are more than `MAX_DECIMAL_DIGITS` digits, whose weights no longer
    /// fit, or when the digits are valid and the number exceeds 255;
    /// `InvalidDigit` when there are at most `MAX_DECIMAL_DIGITS` elements
    /// and one of them exceeds 7.
    pub fn to_decimal(&self) -> (r: Result<u8, CodecError>)
        ensures
            match r {
                Ok(v) => {
                    &&& self.data@.len() <= MAX_DECIMAL_DIGITS
                    &&& self.is_valid()
                    &&& v == octal_value(self.data@)
                },
                Err(e) => {
                    ||| e == CodecError::Overflow && self.data@.len() > MAX_DECIMAL_DIGITS
                    ||| e == CodecError::Overflow && self.data@.len() <= MAX_DECIMAL_DIGITS
                        && self.is_valid() && octal_value(self.data@) > 255
                    ||| e == CodecError::InvalidDigit && self.data@.len() <= MAX_DECIMAL_DIGITS
                        && !self.is_valid()
                },
            },
    {
        let n: usize = self.data.len();
        if n > MAX_DECIMAL_DIGITS {
            return Err(CodecError::Overflow);
        }
        let mut k: usize = 0;
        while k < n
            invariant
                n == self.data@.len(),
                n <= MAX_DECIMAL_DIGITS,
                k <= n,
                forall|j: int| 0 <= j < k ==> is_octal_digit(#[trigger] self.data@[j]),
            decreases n - k,
        {
            if self.data[k] > 7 {
                assert(!is_octal_digit(self.data@[k as int]));
                return Err(CodecError::InvalidDigit);
            }
            k = k + 1;
        }
        let mut value: u8 = 0;
        let mut i: usize = 0;
        while i < n
            invariant
                n == self.data@.len(),
                i <= n,
                self.is_valid(),
                value == octal_value(self.data@.take(i as int)),
            decreases n - i,
        {
            proof {
                assert(self.data@.take(i + 1).drop_last() =~= self.data@.take(i as int));
                lemma_octal_value_prefix(self.data@, i + 1);
            }
            let shifted = match value.checked_mul(8) {
                Some(s) => s,
                None => {
                    return Err(CodecError::Overflow);
                },
            };
            value = match shifted.checked_add(self.data[i]) {
                Some(s) => s,
                None => {
                    return Err(CodecError::Overflow);
                },
            };
            i = i + 1;
        }
        assert(self.data@.take(n as int) =~= self.data@);
        Ok(value)
    }

    /// Renders the digits as base64 text: one symbol for each pair of
    /// digits, a last digit left alone counting by itself, and `=` up to a
    /// multiple of four.
    ///
    /// Fails with `InvalidDigit` exactly when some element exceeds 7, and
    /// otherwise with `PaddingInconsistency` exactly when the number of
    /// symbols leaves a remainder of one modulo four.
    pub fn to_base_64(&self) -> (r: Result<Vec<u8>, CodecError>)
        ensures
            match r {
                Ok(text) => {
                    &&& self.is_valid()
                    &&& symbol_count(self.data@.len()) % 4 != 1
                    &&& text@ == base64_text(self.data@)
                    &&& is_base64_text(text@)
                },
                Err(e) => {
                    ||| e == CodecError::InvalidDigit && !self.is_valid()
                    ||| e == CodecError::PaddingInconsistency && self.is_valid() && symbol_count(
                        self.data@.len(),
                    ) % 4 == 1
                },
            },
    {
        let n: usize = self.data.len();
        let mut text: Vec<u8> = Vec::new();
        let mut i: usize = 0;
        while i < n
            invariant
                n == self.data@.len(),
                i <= n,
                i % 2 == 0 || i == n,
                text@.len() == symbol_count(i as nat),
                forall|k: int| 0 <= k < i ==> is_octal_digit(#[trigger] self.data@[k]),
                forall|j: int|
                    0 <= j < text@.len() ==> #[trigger] text@[j] == base64_symbol(
                        pair_value(self.data@, j),
                    ),
            decreases n - i,
        {
            let mut pair: Vec<u8> = Vec::new();
            pair.push(self.data[i]);
            if i + 1 < n {
                pair.push(self.data[i + 1]);
            }
            let width: usize = pair.len();
            let group = Octal { data: pair };
            proof {
                lemma_octal_value_short(group.data@);
            }
            match group.to_decimal() {
                Ok(v) => {
                    text.push(symbol_for(v));
                },
                Err(e) => {
                    return Err(e);
                },
            }
            i = i + width;
        }
        let ghost symbols = text@;
        assert(symbols =~= base64_symbols(self.data@));
        let remainder: usize = text.len() % 4;
        if remainder == 1 {
            return Err(CodecError::PaddingInconsistency);
        }
        if remainder == 3 {
            text.push(BASE64_PAD);
        } else if remainder == 2 {
            text.push(BASE64_PAD);
            text.push(BASE64_PAD);
        }
        assert(text@ =~= base64_text(self.data@));
        proof {
            lemma_base64_text_well_formed(self.data@);
        }
        Ok(text)
    }
}

/// A digit sequence denotes at least as much as any of its prefixes.
proof fn lemma_octal_value_prefix(digits: Seq<u8>, k: int)
    requires
        0 <= k <= digits.len(),
    ensures
        octal_value(digits.take(k)) <= octal_value(digits),
    decreases digits.len(),
{
    if k < digits.len() {
        lemma_octal_value_prefix(digits.drop_last(), k);
        assert(digits.drop_last().take(k) =~= digits.take(k));
    } else {
        assert(digits.take(k) =~= digits);
    }
}

/// The value of at most three digits, by their weights 64, 8 and 1.
pub proof fn lemma_octal_value_short(digits: Seq<u8>)
    requires
        digits.len() <= 3,
    ensures
        digits.len() == 0 ==> octal_value(digits) == 0,
        digits.len() == 1 ==> octal_value(digits) == digits[0],
        digits.len() == 2 ==> octal_value(digits) == 8 * digits[0] + digits[1],
        digits.len() == 3 ==> octal_value(digits) == 64 * digits[0] + 8 * digits[1] + digits[2],
{
    reveal_with_fuel(octal_value, 4);
}

/// The value of a pair is what its digits denote in base 8, as is the value
/// of a last digit left alone.
pub proof fn lemma_pair_value(digits: Seq<u8>, j: int)
    requires
        0 <= j < symbol_count(digits.len()),
    ensures
        2 * j + 1 < digits.len() ==> pair_value(digits, j) == octal_value(
            digits.subrange(2 * j, 2 * j + 2),
        ),
        2 * j + 1 == digits.len() ==> pair_value(digits, j) == octal_value(
            digits.subrange(2 * j, 2 * j + 1),
        ),
{
    if 2 * j + 1 < digits.len() {
        lemma_octal_value_short(digits.subrange(2 * j, 2 * j + 2));
    } else {
        lemma_octal_value_short(digits.subrange(2 * j, 2 * j + 1));
    }
}

/// The base-8 digits of a bit sequence are digits, one for each group of
/// three bits.
pub proof fn lemma_octal_digits_valid(bits: Seq<u8>)
    requires
        all_bits(bits),
    ensures
        all_octal_digits(octal_digits(bits)),
        octal_digits(bits).len() == (bits.len() + 2) / 3,
{
    let padded = left_pad_to_triples(bits);
    let shift = padding_to(bits.len(), 3) as int;
    assert forall|i: int| 0 <= i < padded.len() implies is_bit(#[trigger] padded[i]) by {
        if i >= shift {
            assert(padded[i] == bits[i - shift]);
        }
    }
    let digits = octal_digits(bits);
    assert forall|j: int| 0 <= j < digits.len() implies is_octal_digit(#[trigger] digits[j]) by {
        assert(is_bit(padded[3 * j]) && is_bit(padded[3 * j + 1]) && is_bit(padded[3 * j + 2]));
    }
}

/// Bit `k` of digit `j` stands at place `3 * j + k` of the expansion.
proof fn lemma_octal_bit_at(digits: Seq<u8>, j: int, k: int)
    requires
        0 <= j < digits.len(),
        0 <= k < 3,
    ensures
        octal_bits(digits)[3 * j + k] == octal_bit(digits[j] as nat, k),
{
    assert((3 * j + k) / 3 == j);
    assert((3 * j + k) % 3 == k);
}

/// Expanding digits and regrouping the bits gives the digits back.
pub proof fn lemma_digits_of_octal_bits(digits: Seq<u8>)
    requires
        all_octal_digits(digits),
    ensures
        all_bits(octal_bits(digits)),
        octal_digits(octal_bits(digits)) == digits,
{
    let bits = octal_bits(digits);
    assert forall|i: int| 0 <= i < bits.len() implies is_bit(#[trigger] bits[i]) by {
        assert(bits[i] == octal_bit(digits[i / 3] as nat, i % 3));
    }
    assert(left_pad_to_triples(bits) =~= bits);
    let back = octal_digits(bits);
    assert(back.len() == digits.len());
    assert forall|j: int| 0 <= j < digits.len() implies back[j] == digits[j] by {
        assert(is_octal_digit(digits[j]));
        lemma_octal_bit_at(digits, j, 0);
        lemma_octal_bit_at(digits, j, 1);
        lemma_octal_bit_at(digits, j, 2);
        assert(back[j] == triple_value(bits, j) as u8);
    }
    assert(back =~= digits);
}

/// Regrouping bits and expanding the digits gives the bits back, behind
/// the zero bits that filled the first group.
pub proof fn lemma_octal_bits_of_digits(bits: Seq<u8>)
    requires
        all_bits(bits),
    ensures
        octal_bits(octal_digits(bits)) == left_pad_to_triples(bits),
{
    let padded = left_pad_to_triples(bits);
    let shift = padding_to(bits.len(), 3) as int;
    let digits = octal_digits(bits);
    let back = octal_bits(digits);
    assert(back.len() == padded.len());
    assert forall|i: int| 0 <= i < padded.len() implies is_bit(#[trigger] padded[i]) by {
        if i >= shift {
            assert(padded[i] == bits[i - shift]);
        }
    }
    assert forall|i: int| 0 <= i < padded.len() implies back[i] == padded[i] by {
        let j = i / 3;
        let k = i % 3;
        assert(i == 3 * j + k);
        lemma_octal_bit_at(digits, j, k);
        assert(digits[j] == triple_value(padded, j) as u8);
        assert(is_bit(padded[3 * j]) && is_bit(padded[3 * j + 1]) && is_bit(padded[3 * j + 2]));
    }
    assert(back =~= padded);
}

/// The last three bits of a sequence weigh 4, 2 and 1; the bits before
/// them weigh eight times what they denote alone.
proof fn lemma_bits_value_last_three(bits: Seq<u8>)
    requires
        bits.len() >= 3,
    ensures
        bits_value(bits) == 8 * bits_value(bits.take(bits.len() - 3)) + 4 * bits[bits.len() - 3]
            + 2 * bits[bits.len() - 2] + bits[bits.len() - 1],
{
    let n = bits.len() as int;
    let two = bits.drop_last();
    let one = two.drop_last();
    assert(one.drop_last() =~= bits.take(n - 3));
    assert(bits_value(bits) == 2 * bits_value(two) + bits[n - 1]);
    assert(bits_value(two) == 2 * bits_value(one) + two[n - 2]);
    assert(bits_value(one) == 2 * bits_value(one.drop_last()) + one[n - 3]);
}

/// The last digit of a sequence of at least three bits is the value of its
/// last three bits; the digits before it are those of the bits before them.
proof fn lemma_octal_digits_last(bits: Seq<u8>)
    requires
        bits.len() >= 3,
        all_bits(bits),
    ensures
        octal_digits(bits).len() >= 1,
        octal_digits(bits).drop_last() == octal_digits(bits.take(bits.len() - 3)),
        octal_digits(bits).last() == 4 * bits[bits.len() - 3] + 2 * bits[bits.len() - 2]
            + bits[bits.len() - 1],
{
    let n = bits.len() as int;
    let front = bits.take(n - 3);
    let digits = octal_digits(bits);
    let rest = octal_digits(front);
    let padded = left_pad_to_triples(bits);
    let front_padded = left_pad_to_triples(front);
    let shift = padding_to(bits.len(), 3) as int;
    assert(padding_to(front.len(), 3) == shift);
    assert(padded.len() == n + shift);
    assert(front_padded.len() == n + shift - 3);
    assert(rest.len() == digits.len() - 1);
    assert forall|i: int| 0 <= i < front_padded.len() implies front_padded[i] == padded[i] by {
        if i >= shift {
            assert(front_padded[i] == front[i - shift]);
            assert(padded[i] == bits[i - shift]);
        }
    }
    assert forall|j: int| 0 <= j < rest.len() implies digits[j] == rest[j] by {
        assert(rest[j] == triple_value(front_padded, j) as u8);
        assert(digits[j] == triple_value(padded, j) as u8);
    }
    assert(digits.drop_last() =~= rest);
    let last = digits.len() - 1;
    assert(3 * last == n + shift - 3);
    assert(padded[3 * last] == bits[n - 3]);
    assert(padded[3 * last + 1] == bits[n - 2]);
    assert(padded[3 * last + 2] == bits[n - 1]);
    assert(is_bit(bits[n - 3]) && is_bit(bits[n - 2]) && is_bit(bits[n - 1]));
    assert(digits[last] == triple_value(padded, last) as u8);
}

/// Regrouping keeps the number: the base-8 digits of a bit sequence denote
/// in base 8 what the bits denote in base 2.
pub proof fn lemma_octal_digits_value(bits: Seq<u8>)
    requires
        all_bits(bits),
    ensures
        octal_value(octal_digits(bits)) == bits_value(bits),
    decreases bits.len(),
{
    let n = bits.len() as int;
    let digits = octal_digits(bits);
    if n < 3 {
        let padded = left_pad_to_triples(bits);
        reveal_with_fuel(octal_value, 2);
        reveal_with_fuel(bits_value, 3);
        if n == 1 {
            assert(digits[0] == triple_value(padded, 0) as u8);
            assert(is_bit(bits[0]));
        } else if n == 2 {
            assert(digits[0] == triple_value(padded, 0) as u8);
            assert(is_bit(bits[0]) && is_bit(bits[1]));
            assert(bits.drop_last()[0] == bits[0]);
        }
    } else {
        let front = bits.take(n - 3);
        lemma_octal_digits_value(front);
        lemma_octal_digits_last(bits);
        lemma_bits_value_last_three(bits);
    }
}

} // verus!
