//! Conversions between characters, bytes and strings.
use vstd::prelude::*;

verus! {

/// `String::push` appends one character at the end of the string.
#[verifier::external_body]
pub(crate) fn push_char(s: &mut String, c: char)
    ensures
        final(s)@ == old(s)@.push(c),
{
    s.push(c)
}

/// The characters of `msg`, in order.
pub(crate) fn chars_of(msg: &str) -> (v: Vec<char>)
    ensures v@ == msg@,
{
    let mut v: Vec<char> = Vec::new();
    for c in it: msg.chars()
        invariant
            v@ == it.seq().take(it.index() as int),
    {
        v.push(c);
    }
    v
}

/// The low byte of a character's code point.
pub(crate) fn low_byte(c: char) -> (b: u8)
    ensures b == c as u8,
{
    c as u8
}

/// A character's code point.
pub(crate) fn as_index(c: char) -> (b: usize)
    ensures
        b == c as usize,
        b as int == c as int,
        b <= 0x10FFFF,
{
    c as usize
}

/// The character whose code point is `b`.
pub(crate) fn byte_char(b: u8) -> (c: char)
    ensures c == b as char,
{
    b as char
}

} // verus!
