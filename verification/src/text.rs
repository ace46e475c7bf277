//! Strings as sequences of bytes, and back.

use vstd::prelude::*;

verus! {

/// Contract for `String::push` of the standard library, which is taken on
/// trust: after the call the string holds the characters it held before,
/// followed by `c`.
pub assume_specification[ String::push ](s: &mut String, c: char)
    ensures
        final(s)@ == old(s)@.push(c),
;

/// Each byte read as the character with that code.
pub open spec fn chars_of_bytes(bytes: Seq<u8>) -> Seq<char> {
    Seq::new(bytes.len(), |i: int| bytes[i] as char)
}

/// Each character of an ASCII text as its one byte.
pub open spec fn bytes_of_chars(chars: Seq<char>) -> Seq<u8> {
    Seq::new(chars.len(), |i: int| chars[i] as u8)
}

/// Builds the string whose characters have the codes of the given bytes.
pub fn string_of_bytes(bytes: &[u8]) -> (s: String)
    ensures
        s@ == chars_of_bytes(bytes@),
{
    let mut s = String::new();
    let mut i: usize = 0;
    while i < bytes.len()
        invariant
            i <= bytes.len(),
            s@ == chars_of_bytes(bytes@.take(i as int)),
        decreases bytes.len() - i,
    {
        s.push(bytes[i] as char);
        assert(s@ =~= chars_of_bytes(bytes@.take(i + 1)));
        i = i + 1;
    }
    assert(bytes@.take(i as int) =~= bytes@);
    s
}

} // verus!
