//! Reading encoded text back.
//!
//! Nothing here is compiled: the reader lives in ghost code only. It takes
//! the text apart as the encoder does, token by token. A token that starts with
//! `=?utf-8?q?` and ends with `?=` is an encoded word and stands for what
//! its body unescapes to; whitespace between two encoded words is dropped;
//! everything else stands for itself.
//! [`lemma_round_trip`] shows that this reading gives the encoder's input
//! back, for every input that [`reads_back`] admits.
use vstd::prelude::*;
use vstd::utf8::{decode_utf8, encode_scalar, encode_utf8, encode_utf8_decode_utf8, is_ascii_chars};
use crate::ascii::is_whitespace;
use crate::encode::{
    encoded, encoded_from, is_whitespace_free, is_whitespace_run,
    lemma_encoded_starts_with_whitespace, lemma_first_token, lemma_first_token_parts,
    lemma_word_bounds, word_begin, word_end,
};
use crate::escape::{
    escaped, escaped_byte, escaped_bytes, escaped_char, hex_digit, is_verbatim, ESCAPE_TRIGGER,
    PLACEHOLDER,
};
use crate::word::{
    chunks, encoded_word, fill_len, joined, lemma_chunks_partition, lemma_fill_len_range,
    lemma_markers, segment, segment_prefix, segment_suffix, LEN_ENCODED_WORD_PREFIX,
    LEN_ENCODED_WORD_SUFFIX,
};

verus! {

/// The value of a hexadecimal digit.
pub open spec fn hex_value(digit: char) -> int {
    if '0' <= digit <= '9' {
        digit as int - 0x30
    } else {
        digit as int - 0x41 + 10
    }
}

/// The bytes that a segment body stands for: `=` and two digits give one
/// byte, `_` gives a space, any other character gives itself.
pub open spec fn unescaped_bytes(body: Seq<char>) -> Seq<u8>
    decreases body.len(),
{
    if body.len() == 0 {
        Seq::empty()
    } else if body[0] == ESCAPE_TRIGGER && body.len() >= 3 {
        seq![(hex_value(body[1]) * 16 + hex_value(body[2])) as u8] + unescaped_bytes(body.skip(3))
    } else if body[0] == PLACEHOLDER {
        seq![0x20u8] + unescaped_bytes(body.drop_first())
    } else {
        seq![body[0] as u8] + unescaped_bytes(body.drop_first())
    }
}

/// The text that a segment body stands for.
pub open spec fn unescaped(body: Seq<char>) -> Seq<char> {
    decode_utf8(unescaped_bytes(body))
}

/// A token with the shape of a segment.
pub open spec fn is_encoded_word(token: Seq<char>) -> bool {
    &&& token.len() >= LEN_ENCODED_WORD_PREFIX + LEN_ENCODED_WORD_SUFFIX
    &&& token.take(LEN_ENCODED_WORD_PREFIX as int) == segment_prefix()
    &&& token.skip(token.len() - LEN_ENCODED_WORD_SUFFIX) == segment_suffix()
}

/// What stands between the markers of a segment.
pub open spec fn body_of(token: Seq<char>) -> Seq<char> {
    token.subrange(LEN_ENCODED_WORD_PREFIX as int, token.len() - LEN_ENCODED_WORD_SUFFIX)
}

/// What a reader keeps of the whitespace in front of an encoded word:
/// nothing where the token before it was an encoded word too.
pub open spec fn kept_whitespace(
    prefix: Seq<char>,
    previous_token_was_encoded: bool,
) -> Seq<char> {
    if previous_token_was_encoded {
        Seq::empty()
    } else {
        prefix
    }
}

/// What `text` stands for, given whether the token in front of it was an
/// encoded word.
pub open spec fn decoded_from(text: Seq<char>, previous_token_was_encoded: bool) -> Seq<char>
    decreases text.len(),
    via decoded_from_decreases
{
    if text.len() == 0 {
        Seq::empty()
    } else {
        let prefix = text.take(word_begin(text));
        let word = text.subrange(word_begin(text), word_end(text));
        let rest = text.skip(word_end(text));
        if is_encoded_word(word) {
            kept_whitespace(prefix, previous_token_was_encoded) + unescaped(body_of(word))
                + decoded_from(rest, true)
        } else {
            prefix + word + decoded_from(rest, false)
        }
    }
}

#[via_fn]
proof fn decoded_from_decreases(text: Seq<char>, previous_token_was_encoded: bool) {
    lemma_word_bounds(text);
}

/// What the encoded text `text` stands for.
pub open spec fn decoded(text: Seq<char>) -> Seq<char> {
    decoded_from(text, false)
}

/// A run in which the only whitespace is the space.
pub open spec fn has_plain_spaces_only(text: Seq<char>) -> bool {
    forall|i: int| 0 <= i < text.len() ==> !is_whitespace(#[trigger] text[i]) || text[i] == ' '
}

/// Input that can be read back, given whether the token in front of it is
/// written as an encoded word. Two things stand in the way. A token of ASCII
/// characters with the shape of a segment is copied and then read as one. And
/// a tab or line break between two tokens that are both encoded goes into the
/// second word's payload as it is, where it breaks the segment in two.
pub open spec fn reads_back_from(text: Seq<char>, previous_token_was_encoded: bool) -> bool
    decreases text.len(),
    via reads_back_from_decreases
{
    if text.len() == 0 {
        true
    } else {
        let prefix = text.take(word_begin(text));
        let word = text.subrange(word_begin(text), word_end(text));
        let rest = text.skip(word_end(text));
        if is_ascii_chars(word) {
            !is_encoded_word(word) && reads_back_from(rest, false)
        } else if previous_token_was_encoded {
            has_plain_spaces_only(prefix) && reads_back_from(rest, true)
        } else {
            reads_back_from(rest, true)
        }
    }
}

#[via_fn]
proof fn reads_back_from_decreases(text: Seq<char>, previous_token_was_encoded: bool) {
    lemma_word_bounds(text);
}

/// Input that can be read back.
pub open spec fn reads_back(text: Seq<char>) -> bool {
    reads_back_from(text, false)
}

/// A digit's value is the value it was written for.
pub proof fn lemma_hex_value(nibble: u8)
    requires
        nibble < 16,
    ensures
        hex_value(hex_digit(nibble)) == nibble,
{
}

/// Reading one escaped byte gives the byte.
pub proof fn lemma_unescaped_byte(byte: u8, rest: Seq<char>)
    ensures
        unescaped_bytes(escaped_byte(byte) + rest) == seq![byte] + unescaped_bytes(rest),
{
    let high: u8 = byte >> 4;
    let low: u8 = byte & 0xf;
    assert(high < 16 && low < 16 && high * 16 + low == byte) by (bit_vector)
        requires
            high == byte >> 4,
            low == byte & 0xf,
    ;
    lemma_hex_value(high);
    lemma_hex_value(low);
    let body = escaped_byte(byte) + rest;
    assert(body[0] == ESCAPE_TRIGGER && body[1] == hex_digit(high) && body[2] == hex_digit(low));
    assert(body.skip(3) =~= rest);
}

/// Reading escaped bytes gives the bytes.
pub proof fn lemma_unescaped_bytes(bytes: Seq<u8>, rest: Seq<char>)
    ensures
        unescaped_bytes(escaped_bytes(bytes) + rest) == bytes + unescaped_bytes(rest),
    decreases bytes.len(),
{
    if bytes.len() == 0 {
        assert(escaped_bytes(bytes) + rest =~= rest);
        assert(bytes + unescaped_bytes(rest) =~= unescaped_bytes(rest));
    } else {
        let tail = bytes.drop_first();
        assert(escaped_bytes(bytes) + rest =~= escaped_byte(bytes[0]) + (escaped_bytes(tail)
            + rest));
        lemma_unescaped_byte(bytes[0], escaped_bytes(tail) + rest);
        lemma_unescaped_bytes(tail, rest);
        assert(seq![bytes[0]] + (tail + unescaped_bytes(rest)) =~= bytes + unescaped_bytes(rest));
    }
}

/// Reading one escaped character gives its UTF-8 bytes.
pub proof fn lemma_unescaped_char(c: char, rest: Seq<char>)
    ensures
        unescaped_bytes(escaped_char(c) + rest) == encode_scalar(c as u32) + unescaped_bytes(rest),
{
    let scalar: u32 = c as u32;
    let body = escaped_char(c) + rest;
    if c == ' ' || is_verbatim(c) {
        assert(body.drop_first() =~= rest);
        assert((scalar & 0x7F) as u8 == scalar) by (bit_vector)
            requires
                scalar <= 0x7f,
        ;
        assert(encode_scalar(scalar) =~= seq![scalar as u8]);
        if c == ' ' {
            assert(body[0] == PLACEHOLDER);
        } else {
            assert(body[0] == c);
        }
    } else {
        lemma_unescaped_bytes(encode_scalar(scalar), rest);
    }
}

/// Reading an escaped run gives the UTF-8 bytes of the run.
pub proof fn lemma_unescaped_bytes_of_escaped(text: Seq<char>)
    ensures
        unescaped_bytes(escaped(text)) == encode_utf8(text),
    decreases text.len(),
{
    if text.len() > 0 {
        lemma_unescaped_char(text[0], escaped(text.drop_first()));
        lemma_unescaped_bytes_of_escaped(text.drop_first());
    }
}

/// Unescaping undoes escaping.
pub proof fn lemma_unescaped_escaped(text: Seq<char>)
    ensures
        unescaped(escaped(text)) == text,
{
    lemma_unescaped_bytes_of_escaped(text);
    encode_utf8_decode_utf8(text);
}

/// No escaped byte holds whitespace.
proof fn lemma_escaped_bytes_whitespace_free(bytes: Seq<u8>)
    ensures
        is_whitespace_free(escaped_bytes(bytes)),
    decreases bytes.len(),
{
    if bytes.len() > 0 {
        let head = escaped_byte(bytes[0]);
        let tail = escaped_bytes(bytes.drop_first());
        lemma_escaped_bytes_whitespace_free(bytes.drop_first());
        assert forall|i: int| 0 <= i < (head + tail).len() implies !is_whitespace(
            #[trigger] (head + tail)[i],
        ) by {
            if i >= 3 {
                assert((head + tail)[i] == tail[i - 3]);
            }
        }
    }
}

/// The escape of a run with plain spaces only holds no whitespace.
proof fn lemma_escaped_whitespace_free(text: Seq<char>)
    requires
        has_plain_spaces_only(text),
    ensures
        is_whitespace_free(escaped(text)),
    decreases text.len(),
{
    if text.len() > 0 {
        let head = escaped_char(text[0]);
        let tail = escaped(text.drop_first());
        assert forall|i: int| 0 <= i < text.drop_first().len() implies !is_whitespace(
            #[trigger] text.drop_first()[i],
        ) || text.drop_first()[i] == ' ' by {
            assert(text.drop_first()[i] == text[i + 1]);
        }
        lemma_escaped_whitespace_free(text.drop_first());
        lemma_escaped_bytes_whitespace_free(encode_scalar(text[0] as u32));
        assert(!is_whitespace(text[0]) || text[0] == ' ');
        assert(is_whitespace_free(head));
        assert forall|i: int| 0 <= i < (head + tail).len() implies !is_whitespace(
            #[trigger] (head + tail)[i],
        ) by {
            if i < head.len() {
                assert((head + tail)[i] == head[i]);
            } else {
                assert((head + tail)[i] == tail[i - head.len()]);
            }
        }
    }
}

/// The segment of a chunk with plain spaces only is one token, has the
/// shape of a segment, and holds the chunk's escape between its markers.
proof fn lemma_segment_shape(chunk: Seq<char>)
    requires
        has_plain_spaces_only(chunk),
    ensures
        is_whitespace_free(segment(chunk)),
        segment(chunk).len() > 0,
        is_encoded_word(segment(chunk)),
        body_of(segment(chunk)) == escaped(chunk),
{
    lemma_markers();
    lemma_escaped_whitespace_free(chunk);
    let body = escaped(chunk);
    let whole = segment(chunk);
    assert(whole.len() == 10 + body.len() + 2);
    assert forall|i: int| 0 <= i < whole.len() implies !is_whitespace(#[trigger] whole[i]) by {
        if i < 10 {
            assert(whole[i] == segment_prefix()[i]);
        } else if i < 10 + body.len() {
            assert(whole[i] == body[i - 10]);
        } else {
            assert(whole[i] == segment_suffix()[i - 10 - body.len()]);
        }
    }
    assert(whole.take(10) =~= segment_prefix());
    assert(whole.skip(whole.len() - 2) =~= segment_suffix());
    assert(whole.subrange(10, whole.len() - 2) =~= body);
}

/// Reading one segment gives its chunk back.
proof fn lemma_decoded_segment(
    lead: Seq<char>,
    chunk: Seq<char>,
    rest: Seq<char>,
    previous_token_was_encoded: bool,
)
    requires
        is_whitespace_run(lead),
        has_plain_spaces_only(chunk),
        rest.len() == 0 || is_whitespace(rest[0]),
    ensures
        decoded_from(lead + segment(chunk) + rest, previous_token_was_encoded)
            == kept_whitespace(lead, previous_token_was_encoded) + chunk + decoded_from(
            rest,
            true,
        ),
{
    lemma_segment_shape(chunk);
    lemma_unescaped_escaped(chunk);
    lemma_first_token(lead, segment(chunk), rest);
}

/// Reading a word's segments gives the chunks back, one after the other,
/// and drops the spaces between the segments.
proof fn lemma_decoded_segments(
    lead: Seq<char>,
    parts: Seq<Seq<char>>,
    rest: Seq<char>,
    previous_token_was_encoded: bool,
)
    requires
        is_whitespace_run(lead),
        parts.len() >= 1,
        forall|i: int| 0 <= i < parts.len() ==> has_plain_spaces_only(#[trigger] parts[i]),
        rest.len() == 0 || is_whitespace(rest[0]),
    ensures
        decoded_from(lead + joined(parts) + rest, previous_token_was_encoded)
            == kept_whitespace(lead, previous_token_was_encoded) + parts.flatten() + decoded_from(
            rest,
            true,
        ),
    decreases parts.len(),
{
    let kept = kept_whitespace(lead, previous_token_was_encoded);
    let first = segment(parts[0]);
    if parts.len() == 1 {
        parts.lemma_flatten_one_element();
        lemma_decoded_segment(lead, parts[0], rest, previous_token_was_encoded);
    } else {
        let others = parts.drop_first();
        let space = seq![' '];
        let tail = space + joined(others) + rest;
        assert(lead + joined(parts) + rest == lead + first + tail) by {
            assert(lead + (first + space + joined(others)) + rest =~= lead + first + (space
                + joined(others) + rest));
        }
        assert(tail[0] == ' ');
        lemma_decoded_segment(lead, parts[0], tail, previous_token_was_encoded);
        assert forall|i: int| 0 <= i < others.len() implies has_plain_spaces_only(
            #[trigger] others[i],
        ) by {
            assert(others[i] == parts[i + 1]);
        }
        lemma_decoded_segments(space, others, rest, true);
        assert(kept + parts[0] + (Seq::<char>::empty() + others.flatten() + decoded_from(
            rest,
            true,
        )) == kept + parts.flatten() + decoded_from(rest, true)) by {
            assert(kept + parts[0] + (Seq::<char>::empty() + others.flatten() + decoded_from(
                rest,
                true,
            )) =~= kept + (parts[0] + others.flatten()) + decoded_from(rest, true));
        }
    }
}

/// The chunks of a payload with plain spaces only have plain spaces only.
proof fn lemma_chunks_plain(payload: Seq<char>)
    requires
        has_plain_spaces_only(payload),
    ensures
        forall|i: int|
            0 <= i < chunks(payload).len() ==> has_plain_spaces_only(#[trigger] chunks(payload)[i]),
    decreases payload.len(),
{
    let first = fill_len(payload, 0);
    lemma_fill_len_range(payload, 0);
    if first < payload.len() {
        let head = payload.take(first as int);
        let rest = payload.skip(first as int);
        assert(has_plain_spaces_only(head)) by {
            assert forall|i: int| 0 <= i < head.len() implies !is_whitespace(#[trigger] head[i])
                || head[i] == ' ' by {
                assert(head[i] == payload[i]);
            }
        }
        assert(has_plain_spaces_only(rest)) by {
            assert forall|i: int| 0 <= i < rest.len() implies !is_whitespace(#[trigger] rest[i])
                || rest[i] == ' ' by {
                assert(rest[i] == payload[i + first]);
            }
        }
        lemma_chunks_plain(rest);
        assert forall|i: int| 0 <= i < chunks(payload).len() implies has_plain_spaces_only(
            #[trigger] chunks(payload)[i],
        ) by {
            if i > 0 {
                assert(chunks(payload)[i] == chunks(rest)[i - 1]);
            }
        }
    }
}

/// Reading an encoded word gives its payload back.
proof fn lemma_decoded_word(
    lead: Seq<char>,
    payload: Seq<char>,
    rest: Seq<char>,
    previous_token_was_encoded: bool,
)
    requires
        is_whitespace_run(lead),
        has_plain_spaces_only(payload),
        rest.len() == 0 || is_whitespace(rest[0]),
    ensures
        decoded_from(lead + encoded_word(payload) + rest, previous_token_was_encoded)
            == kept_whitespace(lead, previous_token_was_encoded) + payload + decoded_from(
            rest,
            true,
        ),
{
    lemma_chunks_plain(payload);
    lemma_chunks_partition(payload);
    lemma_decoded_segments(lead, chunks(payload), rest, previous_token_was_encoded);
}

/// Reading the output gives the input back, from any point of the input on.
pub proof fn lemma_round_trip_from(text: Seq<char>, previous_token_was_encoded: bool)
    requires
        reads_back_from(text, previous_token_was_encoded),
    ensures
        decoded_from(
            encoded_from(text, previous_token_was_encoded),
            previous_token_was_encoded,
        ) == text,
    decreases text.len(),
{
    if text.len() > 0 {
        let prefix = text.take(word_begin(text));
        let word = text.subrange(word_begin(text), word_end(text));
        let rest = text.skip(word_end(text));
        lemma_word_bounds(text);
        lemma_first_token_parts(text);
        let encoded_next = !is_ascii_chars(word);
        let tail = encoded_from(rest, encoded_next);
        lemma_round_trip_from(rest, encoded_next);
        if rest.len() > 0 {
            lemma_encoded_starts_with_whitespace(rest, encoded_next);
        } else {
            assert(tail =~= Seq::<char>::empty());
        }
        if is_ascii_chars(word) {
            lemma_first_token(prefix, word, tail);
            assert(encoded_from(text, previous_token_was_encoded) =~= prefix + word + tail);
        } else if previous_token_was_encoded {
            let space = seq![' '];
            assert(has_plain_spaces_only(prefix + word)) by {
                assert forall|i: int| 0 <= i < (prefix + word).len() implies !is_whitespace(
                    #[trigger] (prefix + word)[i],
                ) || (prefix + word)[i] == ' ' by {
                    if i < prefix.len() {
                        assert((prefix + word)[i] == prefix[i]);
                    } else {
                        assert((prefix + word)[i] == word[i - prefix.len()]);
                    }
                }
            }
            lemma_decoded_word(space, prefix + word, tail, true);
            assert(Seq::<char>::empty() + (prefix + word) + rest =~= text);
        } else {
            assert(has_plain_spaces_only(word));
            lemma_decoded_word(prefix, word, tail, false);
        }
    }
}

/// Reading the output of the encoder gives its input back, whitespace of
/// any width included, for every input that [`reads_back`] admits.
pub proof fn lemma_round_trip(text: Seq<char>)
    requires
        reads_back(text),
    ensures
        decoded(encoded(text)) == text,
{
    lemma_round_trip_from(text, false);
}

} // verus!
