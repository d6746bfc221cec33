//! Character classes.
use vstd::prelude::*;

verus! {

/// The five ASCII whitespace characters: space, horizontal tab, line feed,
/// form feed and carriage return.
pub open spec fn is_whitespace(c: char) -> bool {
    c == ' ' || c == '\t' || c == '\n' || c == '\u{c}' || c == '\r'
}

/// A character in the 7-bit range.
pub open spec fn is_ascii(c: char) -> bool {
    '\0' <= c <= '\u{7f}'
}

/// Tells whether `c` is ASCII whitespace.
pub fn char_is_whitespace(c: char) -> (b: bool)
    ensures
        b == is_whitespace(c),
{
    c == ' ' || c == '\t' || c == '\n' || c == '\u{c}' || c == '\r'
}

/// Tells whether `c` lies in the 7-bit range.
pub fn char_is_ascii(c: char) -> (b: bool)
    ensures
        b == is_ascii(c),
{
    c as u32 <= 0x7f
}

} // verus!
