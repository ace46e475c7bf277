//! The base64 alphabet and the rendering of hexadecimal digits as base64
//! text.

use vstd::prelude::*;
use crate::bits::{all_bits, bits_bytes, is_bit, padding_to};
use crate::error::CodecError;
use crate::hex::{
    all_hex_chars, all_hex_digits, hex_bits, hex_bytes, lemma_bytes_of_hex_bits,
    lemma_hex_chars_ascii, lemma_hex_chars_bytes, lemma_padded_expansion, pad_to_sextets,
    round_up_to_six, Hex,
};
use crate::octal::{
    all_octal_digits, base64_symbols, base64_text, is_octal_digit, left_pad_to_triples,
    lemma_octal_digits_valid, octal_digits, pair_value, symbol_count, triple_value, Octal,
};
use crate::text::{bytes_of_chars, chars_of_bytes, string_of_bytes};

verus! {

/// The 64 symbols in the order of the values they stand for:
/// `A-Z`, `a-z`, `0-9`, `+`, `/`.
pub const BASE64_ALPHABET: [u8; 64] = [
    0x41, 0x42, 0x43, 0x44, 0x45, 0x46, 0x47, 0x48, 0x49, 0x4a, 0x4b, 0x4c, 0x4d, 0x4e, 0x4f, 0x50,
    0x51, 0x52, 0x53, 0x54, 0x55, 0x56, 0x57, 0x58, 0x59, 0x5a, 0x61, 0x62, 0x63, 0x64, 0x65, 0x66,
    0x67, 0x68, 0x69, 0x6a, 0x6b, 0x6c, 0x6d, 0x6e, 0x6f, 0x70, 0x71, 0x72, 0x73, 0x74, 0x75, 0x76,
    0x77, 0x78, 0x79, 0x7a, 0x30, 0x31, 0x32, 0x33, 0x34, 0x35, 0x36, 0x37, 0x38, 0x39, 0x2b, 0x2f,
];

/// The byte `=` that fills the text up to a multiple of four.
pub const BASE64_PAD: u8 = 0x3d;

/// The symbol that stands for a value below 64.
pub open spec fn base64_symbol(v: nat) -> u8 {
    if v < 26 {
        (0x41 + v) as u8
    } else if v < 52 {
        (0x61 + (v - 26)) as u8
    } else if v < 62 {
        (0x30 + (v - 52)) as u8
    } else if v == 62 {
        0x2b
    } else {
        0x2f
    }
}

/// One of the 64 symbols of the alphabet.
pub open spec fn is_base64_symbol(c: u8) -> bool {
    (0x41 <= c <= 0x5a) || (0x61 <= c <= 0x7a) || (0x30 <= c <= 0x39) || c == 0x2b || c == 0x2f
}

/// Symbols of the alphabet, followed by exactly `pads` bytes `=`, a
/// multiple of four bytes in all.
pub open spec fn is_padded_base64(text: Seq<u8>, pads: nat) -> bool {
    &&& pads <= text.len()
    &&& text.len() % 4 == 0
    &&& forall|i: int|
        0 <= i < text.len() ==> if i < text.len() - pads {
            is_base64_symbol(#[trigger] text[i])
        } else {
            text[i] == BASE64_PAD
        }
}

/// Well-formed base64 text: symbols of the alphabet, followed by no, one or
/// two bytes `=`, a multiple of four bytes in all.
pub open spec fn is_base64_text(text: Seq<u8>) -> bool {
    is_padded_base64(text, 0) || is_padded_base64(text, 1) || is_padded_base64(text, 2)
}

/// The value below 64 that a symbol of the alphabet stands for.
pub open spec fn base64_index(c: u8) -> nat {
    if 0x41 <= c <= 0x5a {
        (c - 0x41) as nat
    } else if 0x61 <= c <= 0x7a {
        (c - 0x61 + 26) as nat
    } else if 0x30 <= c <= 0x39 {
        (c - 0x30 + 52) as nat
    } else if c == 0x2b {
        62
    } else {
        63
    }
}

/// Binary digit `k` of a value below 64, counted from the most significant
/// of its six.
pub open spec fn sextet_bit(v: nat, k: int) -> u8 {
    if k == 0 {
        (v / 32 % 2) as u8
    } else if k == 1 {
        (v / 16 % 2) as u8
    } else if k == 2 {
        (v / 8 % 2) as u8
    } else if k == 3 {
        (v / 4 % 2) as u8
    } else if k == 4 {
        (v / 2 % 2) as u8
    } else {
        (v % 2) as u8
    }
}

/// The value of the `j`-th group of six bits.
pub open spec fn sextet_value(bits: Seq<u8>, j: int) -> nat {
    (32 * bits[6 * j] + 16 * bits[6 * j + 1] + 8 * bits[6 * j + 2] + 4 * bits[6 * j + 3] + 2
        * bits[6 * j + 4] + bits[6 * j + 5]) as nat
}

/// The bits that a sequence of symbols stands for, six for each symbol, in
/// the order of the symbols.
pub open spec fn symbol_bits(symbols: Seq<u8>) -> Seq<u8> {
    Seq::new(6 * symbols.len(), |i: int| sextet_bit(base64_index(symbols[i / 6]), i % 6))
}

/// The base64 text of a sequence of hexadecimal digits: their bits, filled
/// up with zero bits to a multiple of six, regrouped into base-8 digits and
/// rendered pair by pair.
pub open spec fn base64_of_hex(digits: Seq<u8>) -> Seq<u8> {
    base64_text(octal_digits(pad_to_sextets(hex_bits(digits))))
}

/// What `encode_base64` returns for a string.
pub open spec fn encode_base64_outcome(hex: Seq<char>) -> Result<Seq<char>, CodecError> {
    if !all_hex_chars(hex) {
        Err(CodecError::InvalidDigit)
    } else if hex.len() % 6 == 1 {
        Err(CodecError::PaddingInconsistency)
    } else {
        Ok(chars_of_bytes(base64_of_hex(bytes_of_chars(hex))))
    }
}

/// Base64 text.
#[derive(Clone, Debug, PartialEq, Eq)]
pub struct Base64 {
    pub data: Vec<u8>,
}

/// Looks a value below 64 up in the alphabet.
pub(crate) fn symbol_for(v: u8) -> (c: u8)
    requires
        v < 64,
    ensures
        c == base64_symbol(v as nat),
{
    BASE64_ALPHABET[v as usize]
}

impl Base64 {
    /// The bytes held are well-formed base64 text.
    pub open spec fn is_valid(&self) -> bool {
        is_base64_text(self.data@)
    }

    /// Renders hexadecimal digits as base64 text.
    ///
    /// Fails with `InvalidDigit` exactly when some byte is not a
    /// hexadecimal digit, and otherwise with `PaddingInconsistency` exactly
    /// when the number of digits leaves a remainder of one modulo six: the
    /// symbols of such an input cannot be padded to a multiple of four.
    pub fn from_hex(hex: Hex) -> (r: Result<Base64, CodecError>)
        ensures
            match r {
                Ok(base64) => {
                    &&& hex.is_valid()
                    &&& hex.data@.len() % 6 != 1
                    &&& base64.data@ == base64_of_hex(hex.data@)
                    &&& base64.is_valid()
                },
                Err(e) => {
                    ||| e == CodecError::InvalidDigit && !hex.is_valid()
                    ||| e == CodecError::PaddingInconsistency && hex.is_valid() && hex.data@.len()
                        % 6 == 1
                },
            },
    {
        let binary = match hex.to_binary() {
            Ok(binary) => binary,
            Err(e) => {
                return Err(e);
            },
        };
        proof {
            lemma_padded_expansion(hex.data@);
            lemma_octal_digits_valid(binary@);
        }
        let octal = match Octal::from_binary(binary.as_slice()) {
            Ok(octal) => octal,
            Err(e) => {
                return Err(e);
            },
        };
        match octal.to_base_64() {
            Ok(text) => Ok(Base64 { data: text }),
            Err(e) => Err(e),
        }
    }

    /// The text as a string, each byte read as the character with that
    /// code.
    pub fn to_str(&self) -> (s: String)
        ensures
            s@ == chars_of_bytes(self.data@),
    {
        string_of_bytes(self.data.as_slice())
    }
}

/// Renders a string of hexadecimal digits as base64 text.
///
/// Fails with `InvalidDigit` exactly when some character is not a
/// hexadecimal digit, and otherwise with `PaddingInconsistency` exactly
/// when the number of digits leaves a remainder of one modulo six.
pub fn encode_base64(hex: &str) -> (r: Result<String, CodecError>)
    ensures
        match r {
            Ok(s) => encode_base64_outcome(hex@) == Ok::<Seq<char>, CodecError>(s@),
            Err(e) => encode_base64_outcome(hex@) == Err::<Seq<char>, CodecError>(e),
        },
{
    if !hex.is_ascii() {
        proof {
            if all_hex_chars(hex@) {
                lemma_hex_chars_ascii(hex@);
            }
        }
        return Err(CodecError::InvalidDigit);
    }
    proof {
        vstd::string::is_ascii_spec_bytes(hex);
        lemma_hex_chars_bytes(hex@);
    }
    let digits = Hex::from_str(hex);
    assert(digits.data@ =~= bytes_of_chars(hex@));
    match Base64::from_hex(digits) {
        Ok(base64) => Ok(base64.to_str()),
        Err(e) => Err(e),
    }
}

/// The symbol of a value below 64 belongs to the alphabet, is not the
/// padding byte, and stands for that value.
pub proof fn lemma_symbol_index(v: nat)
    requires
        v < 64,
    ensures
        is_base64_symbol(base64_symbol(v)),
        base64_symbol(v) != BASE64_PAD,
        base64_index(base64_symbol(v)) == v,
{
}

/// For a whole number of groups of six bits, the symbols are those of the
/// groups, one by one.
pub proof fn lemma_symbols_of_sextets(bits: Seq<u8>)
    requires
        all_bits(bits),
        bits.len() % 6 == 0,
    ensures
        base64_symbols(octal_digits(bits)) == Seq::new(
            bits.len() / 6,
            |j: int| base64_symbol(sextet_value(bits, j)),
        ),
{
    let digits = octal_digits(bits);
    assert(left_pad_to_triples(bits) =~= bits);
    let symbols = base64_symbols(digits);
    let direct = Seq::new(bits.len() / 6, |j: int| base64_symbol(sextet_value(bits, j)));
    assert(symbols.len() == direct.len());
    assert forall|j: int| 0 <= j < symbols.len() implies symbols[j] == direct[j] by {
        assert(digits[2 * j] == triple_value(bits, 2 * j));
        assert(digits[2 * j + 1] == triple_value(bits, 2 * j + 1));
        assert(is_bit(bits[6 * j]) && is_bit(bits[6 * j + 1]) && is_bit(bits[6 * j + 2]));
        assert(is_bit(bits[6 * j + 3]) && is_bit(bits[6 * j + 4]) && is_bit(bits[6 * j + 5]));
        assert(pair_value(digits, j) == sextet_value(bits, j));
    }
    assert(symbols =~= direct);
}

/// The six bits of the value of six bits are those bits.
proof fn lemma_sextet_bits(b0: u8, b1: u8, b2: u8, b3: u8, b4: u8, b5: u8)
    requires
        is_bit(b0),
        is_bit(b1),
        is_bit(b2),
        is_bit(b3),
        is_bit(b4),
        is_bit(b5),
    ensures
        ({
            let v = (32 * b0 + 16 * b1 + 8 * b2 + 4 * b3 + 2 * b4 + b5) as nat;
            &&& v < 64
            &&& sextet_bit(v, 0) == b0
            &&& sextet_bit(v, 1) == b1
            &&& sextet_bit(v, 2) == b2
            &&& sextet_bit(v, 3) == b3
            &&& sextet_bit(v, 4) == b4
            &&& sextet_bit(v, 5) == b5
        }),
{
}

/// Regrouping is undone by reading back: for a whole number of groups of
/// six bits, the bits that the symbols stand for are the bits that were
/// rendered.
pub proof fn lemma_symbols_decode(bits: Seq<u8>)
    requires
        all_bits(bits),
        bits.len() % 6 == 0,
    ensures
        symbol_bits(base64_symbols(octal_digits(bits))) == bits,
{
    lemma_symbols_of_sextets(bits);
    let symbols = base64_symbols(octal_digits(bits));
    let decoded = symbol_bits(symbols);
    assert(decoded.len() == bits.len());
    assert forall|i: int| 0 <= i < bits.len() implies decoded[i] == bits[i] by {
        let j = i / 6;
        let k = i % 6;
        let v = sextet_value(bits, j);
        assert(i == 6 * j + k);
        lemma_sextet_bits(
            bits[6 * j],
            bits[6 * j + 1],
            bits[6 * j + 2],
            bits[6 * j + 3],
            bits[6 * j + 4],
            bits[6 * j + 5],
        );
        lemma_symbol_index(v);
        assert(symbols[j] == base64_symbol(v));
        assert(decoded[i] == sextet_bit(v, k));
    }
    assert(decoded =~= bits);
}

/// The text of valid base-8 digits is well formed whenever the number of
/// its symbols does not leave a remainder of one modulo four.
pub proof fn lemma_base64_text_well_formed(digits: Seq<u8>)
    requires
        all_octal_digits(digits),
        symbol_count(digits.len()) % 4 != 1,
    ensures
        is_padded_base64(base64_text(digits), padding_to(symbol_count(digits.len()), 4)),
        is_base64_text(base64_text(digits)),
{
    let text = base64_text(digits);
    let count = symbol_count(digits.len());
    let pads = padding_to(count, 4);
    assert forall|i: int| 0 <= i < text.len() implies if i < text.len() - pads {
        is_base64_symbol(#[trigger] text[i])
    } else {
        text[i] == BASE64_PAD
    } by {
        if i < count {
            assert(is_octal_digit(digits[2 * i]));
            if 2 * i + 1 < digits.len() {
                assert(is_octal_digit(digits[2 * i + 1]));
            }
            lemma_symbol_index(pair_value(digits, i));
            assert(text[i] == base64_symbol(pair_value(digits, i)));
        }
    }
}

/// Rendering hexadecimal digits is undone by reading the symbols back:
/// the bits that the symbols stand for are the bits of the digits, followed
/// by the zero bits that filled them up to a multiple of six. There are no
/// such zero bits when the number of digits is a multiple of three, as it
/// is for digits that spell a multiple of three bytes.
pub proof fn lemma_base64_decodes(digits: Seq<u8>)
    requires
        all_hex_digits(digits),
    ensures
        symbol_bits(base64_symbols(octal_digits(pad_to_sextets(hex_bits(digits)))))
            == pad_to_sextets(hex_bits(digits)),
        digits.len() % 3 == 0 ==> symbol_bits(
            base64_symbols(octal_digits(pad_to_sextets(hex_bits(digits)))),
        ) == hex_bits(digits),
{
    lemma_padded_expansion(digits);
    lemma_symbols_decode(pad_to_sextets(hex_bits(digits)));
}

/// Reading the symbols back recovers the bytes that the digits spell: the
/// zero bits that filled the last group of six spell no byte.
pub proof fn lemma_base64_recovers_bytes(digits: Seq<u8>)
    requires
        all_hex_digits(digits),
        digits.len() % 2 == 0,
    ensures
        bits_bytes(symbol_bits(base64_symbols(octal_digits(pad_to_sextets(hex_bits(digits))))))
            == hex_bytes(digits),
{
    lemma_base64_decodes(digits);
    lemma_bytes_of_hex_bits(digits);
    let bits = hex_bits(digits);
    let padded = pad_to_sextets(bits);
    assert(bits_bytes(padded).len() == bits_bytes(bits).len());
    assert forall|i: int| 0 <= i < bits_bytes(bits).len() implies bits_bytes(padded)[i]
        == bits_bytes(bits)[i] by {
        assert(padded[8 * i] == bits[8 * i]);
        assert(padded[8 * i + 1] == bits[8 * i + 1]);
        assert(padded[8 * i + 2] == bits[8 * i + 2]);
        assert(padded[8 * i + 3] == bits[8 * i + 3]);
        assert(padded[8 * i + 4] == bits[8 * i + 4]);
        assert(padded[8 * i + 5] == bits[8 * i + 5]);
        assert(padded[8 * i + 6] == bits[8 * i + 6]);
        assert(padded[8 * i + 7] == bits[8 * i + 7]);
    }
    assert(bits_bytes(padded) =~= bits_bytes(bits));
}

/// How many symbols and how many `=` the digits of `n` whole bytes give.
proof fn lemma_padding_by_bytes(n: nat)
    ensures
        symbol_count(round_up_to_six(8 * n) / 3) == (4 * n + 2) / 3,
        n % 3 == 0 ==> padding_to((4 * n + 2) / 3, 4) == 0,
        n % 3 == 2 ==> padding_to((4 * n + 2) / 3, 4) == 1,
        n % 3 == 1 ==> padding_to((4 * n + 2) / 3, 4) == 2,
        (4 * n + 2) / 3 + padding_to((4 * n + 2) / 3, 4) == 4 * ((n + 2) / 3),
{
}

/// The text of digits that spell `n` whole bytes has four bytes for every
/// three bytes spelled, the last group counted in full. It ends in no `=`
/// when `n` is a multiple of three, in one `=` when `n` leaves a remainder
/// of two, and in two when it leaves a remainder of one.
pub proof fn lemma_base64_padding(digits: Seq<u8>)
    requires
        all_hex_digits(digits),
        digits.len() % 2 == 0,
    ensures
        base64_of_hex(digits).len() == 4 * ((digits.len() / 2 + 2) / 3),
        (digits.len() / 2) % 3 == 0 ==> is_padded_base64(base64_of_hex(digits), 0),
        (digits.len() / 2) % 3 == 2 ==> is_padded_base64(base64_of_hex(digits), 1),
        (digits.len() / 2) % 3 == 1 ==> is_padded_base64(base64_of_hex(digits), 2),
{
    let n = digits.len() / 2;
    let bits = pad_to_sextets(hex_bits(digits));
    let octal = octal_digits(bits);
    lemma_padded_expansion(digits);
    lemma_octal_digits_valid(bits);
    lemma_padding_by_bytes(n);
    assert(bits.len() == round_up_to_six(8 * n));
    assert(octal.len() == bits.len() / 3);
    assert(symbol_count(octal.len()) == (4 * n + 2) / 3);
    lemma_base64_text_well_formed(octal);
}

} // verus!
