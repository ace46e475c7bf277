//! Sequences of binary digits, each held in a byte that is 0 or 1.

use vstd::prelude::*;

verus! {

/// A byte that stands for one binary digit.
pub open spec fn is_bit(b: u8) -> bool {
    b == 0 || b == 1
}

/// Every element is a binary digit.
pub open spec fn all_bits(s: Seq<u8>) -> bool {
    forall|i: int| 0 <= i < s.len() ==> is_bit(#[trigger] s[i])
}

/// `n` zero bits.
pub open spec fn zeros(n: nat) -> Seq<u8> {
    Seq::new(n, |i: int| 0u8)
}

/// How many elements a sequence of length `n` lacks to reach a whole
/// number of groups of `group` elements.
pub open spec fn padding_to(n: nat, group: nat) -> nat {
    ((group - n % group) % (group as int)) as nat
}

/// The value of the `i`-th group of eight bits.
pub open spec fn byte_value(bits: Seq<u8>, i: int) -> nat {
    (128 * bits[8 * i] + 64 * bits[8 * i + 1] + 32 * bits[8 * i + 2] + 16 * bits[8 * i + 3] + 8
        * bits[8 * i + 4] + 4 * bits[8 * i + 5] + 2 * bits[8 * i + 6] + bits[8 * i + 7]) as nat
}

/// The bytes that a bit sequence spells, eight bits for each byte; bits
/// left over at the end spell nothing.
pub open spec fn bits_bytes(bits: Seq<u8>) -> Seq<u8> {
    Seq::new(bits.len() / 8, |i: int| byte_value(bits, i) as u8)
}

/// The number that a bit sequence denotes, most significant bit first.
pub open spec fn bits_value(s: Seq<u8>) -> nat
    decreases s.len(),
{
    if s.len() == 0 {
        0
    } else {
        2 * bits_value(s.drop_last()) + s.last() as nat
    }
}

} // verus!
