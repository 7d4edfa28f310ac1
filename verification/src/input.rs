//! From a line of input to the byte that a `Read` stores.

use vstd::prelude::*;

verus! {

/// The text that `str::trim` leaves of `line`.
pub uninterp spec fn trimmed(line: Seq<char>) -> Seq<char>;

/// The low eight bits of the code point of `c`.
pub open spec fn low_byte(c: char) -> u8 {
    ((c as u32) % 256) as u8
}

/// The byte that a text gives: the low byte of its first character, or
/// `None` for an empty text.
pub open spec fn first_byte_spec(text: Seq<char>) -> Option<u8> {
    if text.len() == 0 {
        None
    } else {
        Some(low_byte(text[0]))
    }
}

/// Calls `str::trim`, which returns the part of `line` that is left when
/// the white space at both ends is taken away. Which characters are white
/// space is not stated here: the result is known by its name only.
#[verifier::external_body]
fn trim(line: &str) -> (text: &str)
    ensures
        text@ == trimmed(line@),
{
    line.trim()
}

/// The byte that a text gives to a `Read`: the low byte of its first
/// character. An empty text gives none.
pub fn first_byte(text: &str) -> (byte: Option<u8>)
    ensures
        byte == first_byte_spec(text@),
{
    let mut chars = text.chars();
    match chars.next() {
        Some(c) => {
            let code: u32 = c as u32;
            Some((code % 256) as u8)
        },
        None => None,
    }
}

/// The byte that a line of input gives to a `Read`: the first byte of the
/// line without the white space at its ends. A blank line gives none, and
/// the `Read` is to be tried again with the next line.
pub fn input_byte(line: &str) -> (byte: Option<u8>)
    ensures
        byte == first_byte_spec(trimmed(line@)),
{
    first_byte(trim(line))
}

} // verus!
