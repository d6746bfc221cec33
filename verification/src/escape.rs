//! The byte-escape rule of a segment body.
//!
//! A space becomes `_`. Any other ASCII character except `_` and `=` stands
//! for itself. Every remaining character is written as its UTF-8 bytes, each
//! byte as `=` followed by two upper-case hexadecimal digits.
use vstd::prelude::*;
use vstd::utf8::{encode_scalar, is_ascii_chars, is_ascii_chars_concat};
use crate::ascii::{char_is_ascii, is_ascii};

verus! {

/// `String::push` of the standard library: the string afterwards is the
/// string before with `ch` added at its end.
pub assume_specification[ String::push ](s: &mut String, ch: char)
    ensures
        final(s)@ == old(s)@.push(ch),
;

/// Introduces a two-digit byte escape.
pub const ESCAPE_TRIGGER: char = '=';

/// Stands for a space inside a segment body.
pub const PLACEHOLDER: char = '_';

/// The longest escape of a single character: four bytes of three characters each.
pub const MAX_LEN_ESCAPED_CHAR: usize = 12;

/// The upper-case hexadecimal digit for a value below 16.
pub open spec fn hex_digit(nibble: u8) -> char {
    if nibble < 10 {
        (0x30 + nibble) as char
    } else {
        (0x41 + (nibble - 10)) as char
    }
}

/// The three characters that stand for one byte.
pub open spec fn escaped_byte(byte: u8) -> Seq<char> {
    seq![ESCAPE_TRIGGER, hex_digit(byte >> 4), hex_digit(byte & 0xf)]
}

/// The escapes of a run of bytes, in order.
pub open spec fn escaped_bytes(bytes: Seq<u8>) -> Seq<char>
    decreases bytes.len(),
{
    if bytes.len() == 0 {
        Seq::empty()
    } else {
        escaped_byte(bytes[0]) + escaped_bytes(bytes.drop_first())
    }
}

/// A character that a segment body shows as it is.
pub open spec fn is_verbatim(c: char) -> bool {
    is_ascii(c) && c != ' ' && c != PLACEHOLDER && c != ESCAPE_TRIGGER
}

/// What a segment body holds for one character.
pub open spec fn escaped_char(c: char) -> Seq<char> {
    if c == ' ' {
        seq![PLACEHOLDER]
    } else if is_verbatim(c) {
        seq![c]
    } else {
        escaped_bytes(encode_scalar(c as u32))
    }
}

/// What a segment body holds for a run of characters.
pub open spec fn escaped(text: Seq<char>) -> Seq<char>
    decreases text.len(),
{
    if text.len() == 0 {
        Seq::empty()
    } else {
        escaped_char(text[0]) + escaped(text.drop_first())
    }
}

/// Escaping goes through byte runs piece by piece.
pub proof fn lemma_escaped_bytes_concat(a: Seq<u8>, b: Seq<u8>)
    ensures
        escaped_bytes(a + b) == escaped_bytes(a) + escaped_bytes(b),
    decreases a.len(),
{
    if a.len() == 0 {
        assert(a + b =~= b);
    } else {
        assert((a + b).drop_first() =~= a.drop_first() + b);
        lemma_escaped_bytes_concat(a.drop_first(), b);
    }
}

/// A run of bytes grows to three times its length.
pub proof fn lemma_escaped_bytes_len(bytes: Seq<u8>)
    ensures
        escaped_bytes(bytes).len() == 3 * bytes.len(),
    decreases bytes.len(),
{
    if bytes.len() > 0 {
        lemma_escaped_bytes_len(bytes.drop_first());
    }
}

/// Escaping goes through text piece by piece.
pub proof fn lemma_escaped_concat(a: Seq<char>, b: Seq<char>)
    ensures
        escaped(a + b) == escaped(a) + escaped(b),
    decreases a.len(),
{
    if a.len() == 0 {
        assert(a + b =~= b);
    } else {
        assert((a + b).drop_first() =~= a.drop_first() + b);
        lemma_escaped_concat(a.drop_first(), b);
    }
}

/// A single character's run is that character's escape.
pub proof fn lemma_escaped_single(c: char)
    ensures
        escaped(seq![c]) == escaped_char(c),
{
    assert(seq![c].drop_first() =~= Seq::<char>::empty());
    assert(escaped(Seq::<char>::empty()) =~= Seq::<char>::empty());
    assert(escaped(seq![c]) =~= escaped_char(c));
}

/// A single byte's run is that byte's escape.
pub proof fn lemma_escaped_bytes_single(byte: u8)
    ensures
        escaped_bytes(seq![byte]) == escaped_byte(byte),
{
    assert(seq![byte].drop_first() =~= Seq::<u8>::empty());
    assert(escaped_bytes(Seq::<u8>::empty()) =~= Seq::<char>::empty());
    assert(escaped_bytes(seq![byte]) =~= escaped_byte(byte));
}

/// One more character at the end adds its escape at the end.
pub proof fn lemma_escaped_push(text: Seq<char>, c: char)
    ensures
        escaped(text.push(c)) == escaped(text) + escaped_char(c),
{
    lemma_escaped_concat(text, seq![c]);
    lemma_escaped_single(c);
    assert(text.push(c) =~= text + seq![c]);
}

/// One character takes between one and twelve characters of a body.
pub proof fn lemma_escaped_char_len(c: char)
    ensures
        1 <= escaped_char(c).len() <= MAX_LEN_ESCAPED_CHAR,
        escaped_char(c).len() == if c == ' ' || is_verbatim(c) {
            1
        } else {
            3 * encode_scalar(c as u32).len()
        },
{
    lemma_escaped_bytes_len(encode_scalar(c as u32));
}

/// The escape of a byte is ASCII.
pub proof fn lemma_escaped_byte_is_ascii(byte: u8)
    ensures
        is_ascii_chars(escaped_byte(byte)),
{
    let high: u8 = byte >> 4;
    let low: u8 = byte & 0xf;
    assert(high < 16 && low < 16) by (bit_vector)
        requires
            high == byte >> 4,
            low == byte & 0xf,
    ;
}

/// The escape of a run of bytes is ASCII.
pub proof fn lemma_escaped_bytes_is_ascii(bytes: Seq<u8>)
    ensures
        is_ascii_chars(escaped_bytes(bytes)),
    decreases bytes.len(),
{
    if bytes.len() > 0 {
        lemma_escaped_byte_is_ascii(bytes[0]);
        lemma_escaped_bytes_is_ascii(bytes.drop_first());
        is_ascii_chars_concat(
            escaped_bytes(bytes),
            escaped_byte(bytes[0]),
            escaped_bytes(bytes.drop_first()),
        );
    }
}

/// The escape of a character is ASCII.
pub proof fn lemma_escaped_char_is_ascii(c: char)
    ensures
        is_ascii_chars(escaped_char(c)),
{
    lemma_escaped_bytes_is_ascii(encode_scalar(c as u32));
}

/// The escape of a run of characters is ASCII.
pub proof fn lemma_escaped_is_ascii(text: Seq<char>)
    ensures
        is_ascii_chars(escaped(text)),
    decreases text.len(),
{
    if text.len() > 0 {
        lemma_escaped_char_is_ascii(text[0]);
        lemma_escaped_is_ascii(text.drop_first());
        is_ascii_chars_concat(escaped(text), escaped_char(text[0]), escaped(text.drop_first()));
    }
}

/// The hexadecimal digit for `nibble`.
pub fn hex_digit_char(nibble: u8) -> (c: char)
    requires
        nibble < 16,
    ensures
        c == hex_digit(nibble),
{
    if nibble < 10 {
        (0x30 + nibble) as char
    } else {
        (0x41 + (nibble - 10)) as char
    }
}

/// The UTF-8 bytes of one character.
pub fn encode_utf8_char(c: char) -> (bytes: Vec<u8>)
    ensures
        bytes@ == encode_scalar(c as u32),
{
    let scalar: u32 = c as u32;
    let mut bytes: Vec<u8> = Vec::new();
    if scalar <= 0x7F {
        bytes.push((scalar & 0x7F) as u8);
    } else if scalar <= 0x7FF {
        bytes.push(0xC0 | ((scalar >> 6) & 0x1F) as u8);
        bytes.push(0x80 | (scalar & 0x3F) as u8);
    } else if scalar <= 0xFFFF {
        bytes.push(0xE0 | ((scalar >> 12) & 0x0F) as u8);
        bytes.push(0x80 | ((scalar >> 6) & 0x3F) as u8);
        bytes.push(0x80 | (scalar & 0x3F) as u8);
    } else {
        bytes.push(0xF0 | ((scalar >> 18) & 0x7) as u8);
        bytes.push(0x80 | ((scalar >> 12) & 0x3F) as u8);
        bytes.push(0x80 | ((scalar >> 6) & 0x3F) as u8);
        bytes.push(0x80 | (scalar & 0x3F) as u8);
    }
    assert(bytes@ =~= encode_scalar(scalar));
    bytes
}

/// Appends the escape of one byte.
pub fn push_escaped_byte(out: &mut String, byte: u8)
    ensures
        final(out)@ == old(out)@ + escaped_byte(byte),
{
    let high: u8 = byte >> 4;
    let low: u8 = byte & 0xf;
    assert(high < 16 && low < 16) by (bit_vector)
        requires
            high == byte >> 4,
            low == byte & 0xf,
    ;
    out.push(ESCAPE_TRIGGER);
    out.push(hex_digit_char(high));
    out.push(hex_digit_char(low));
    assert(out@ =~= old(out)@ + escaped_byte(byte));
}

/// Appends the escape of one character and returns how many characters that took.
pub fn push_escaped_char(out: &mut String, c: char) -> (len: usize)
    ensures
        final(out)@ == old(out)@ + escaped_char(c),
        len == escaped_char(c).len(),
        1 <= len <= MAX_LEN_ESCAPED_CHAR,
{
    proof {
        lemma_escaped_char_len(c);
    }
    if c == ' ' {
        out.push(PLACEHOLDER);
        assert(out@ =~= old(out)@ + escaped_char(c));
        1
    } else if char_is_ascii(c) && c != PLACEHOLDER && c != ESCAPE_TRIGGER {
        out.push(c);
        assert(out@ =~= old(out)@ + escaped_char(c));
        1
    } else {
        let bytes = encode_utf8_char(c);
        let mut len: usize = 0;
        let mut i: usize = 0;
        while i < bytes.len()
            invariant
                i <= bytes.len() <= 4,
                len == 3 * i,
                out@ == old(out)@ + escaped_bytes(bytes@.take(i as int)),
            decreases bytes.len() - i,
        {
            push_escaped_byte(out, bytes[i]);
            proof {
                let head = bytes@.take(i as int);
                assert(bytes@.take(i + 1) =~= head + seq![bytes@[i as int]]);
                lemma_escaped_bytes_concat(head, seq![bytes@[i as int]]);
                lemma_escaped_bytes_single(bytes@[i as int]);
                assert(out@ =~= old(out)@ + escaped_bytes(bytes@.take(i + 1)));
            }
            len += 3;
            i += 1;
        }
        assert(bytes@.take(bytes.len() as int) =~= bytes@);
        len
    }
}

} // verus!
