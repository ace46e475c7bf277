//! A bit-level codec for hexadecimal text.
//!
//! Hexadecimal digits are expanded into binary digits, regrouped into
//! base-8 digits and rendered as base64 text; two hexadecimal strings of
//! equal length can be combined with a bitwise exclusive or.
//!
//! - [`hex`]: hexadecimal digits, their expansion into bits and back.
//! - [`octal`]: base-8 digits, their positional value, and their rendering
//!   as base64 symbols.
//! - [`base64`]: the alphabet, the rendering of hexadecimal digits as
//!   base64 text, and what reading the text back recovers.
//! - [`xor`]: the exclusive or of two hexadecimal strings.
//! - [`bits`], [`text`], [`error`]: what the others share.
//!
//! Every conversion is a pure function of its arguments. A conversion that
//! cannot be carried out returns a [`error::CodecError`] and no partial
//! result.

pub mod base64;
pub mod bits;
pub mod error;
pub mod hex;
pub mod octal;
pub mod text;
pub mod xor;
