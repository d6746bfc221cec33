//! The encoder proper: the input is read token by token.
//!
//! A token is a maximal run of characters that are not ASCII whitespace. A
//! token of ASCII characters is copied together with the whitespace in front
//! of it. A token that holds a non-ASCII character is written as an encoded
//! word. Where the token before it was written as an encoded word too, a
//! reader joins the two and drops what stands between them: so a single
//! space is written there, and the whitespace of the input goes into the
//! payload of the second word.
use vstd::prelude::*;
use vstd::utf8::{is_ascii_chars, is_ascii_chars_concat};
use std::borrow::Cow;
use crate::ascii::{char_is_whitespace, is_whitespace};
use crate::text::{all_ascii, collect_chars, push_chars};
use crate::word::{
    chunks, encoded_word, lemma_chunks_partition, lemma_encoded_word_is_ascii, push_encoded_word,
};

verus! {

/// The length of the whitespace run that `text` starts with.
pub open spec fn whitespace_len(text: Seq<char>) -> nat
    decreases text.len(),
{
    if text.len() == 0 || !is_whitespace(text[0]) {
        0
    } else {
        1 + whitespace_len(text.drop_first())
    }
}

/// The length of the run of non-whitespace characters that `text` starts with.
pub open spec fn token_len(text: Seq<char>) -> nat
    decreases text.len(),
{
    if text.len() == 0 || is_whitespace(text[0]) {
        0
    } else {
        1 + token_len(text.drop_first())
    }
}

/// A run of whitespace characters.
pub open spec fn is_whitespace_run(text: Seq<char>) -> bool {
    forall|i: int| 0 <= i < text.len() ==> is_whitespace(#[trigger] text[i])
}

/// A run that holds no whitespace character.
pub open spec fn is_whitespace_free(text: Seq<char>) -> bool {
    forall|i: int| 0 <= i < text.len() ==> !is_whitespace(#[trigger] text[i])
}

/// Where the first token of `text` starts: behind the leading whitespace.
pub open spec fn word_begin(text: Seq<char>) -> int {
    whitespace_len(text) as int
}

/// Where the first token of `text` ends: at the next whitespace character
/// or at the end of `text`.
pub open spec fn word_end(text: Seq<char>) -> int {
    word_begin(text) + token_len(text.skip(word_begin(text)))
}

/// The output for `text`, given whether the token in front of it was written
/// as an encoded word.
pub open spec fn encoded_from(text: Seq<char>, previous_token_was_encoded: bool) -> Seq<char>
    decreases text.len(),
    via encoded_from_decreases
{
    if text.len() == 0 {
        Seq::empty()
    } else {
        let prefix = text.take(word_begin(text));
        let word = text.subrange(word_begin(text), word_end(text));
        let rest = text.skip(word_end(text));
        if is_ascii_chars(word) {
            prefix + word + encoded_from(rest, false)
        } else if previous_token_was_encoded {
            seq![' '] + encoded_word(prefix + word) + encoded_from(rest, true)
        } else {
            prefix + encoded_word(word) + encoded_from(rest, true)
        }
    }
}

#[via_fn]
proof fn encoded_from_decreases(text: Seq<char>, previous_token_was_encoded: bool) {
    lemma_word_bounds(text);
}

/// The output for the input `text`.
pub open spec fn encoded(text: Seq<char>) -> Seq<char> {
    encoded_from(text, false)
}

/// The leading whitespace run: all of it is whitespace, and it ends at the
/// end of the text or in front of another character.
pub proof fn lemma_whitespace_len(text: Seq<char>)
    ensures
        whitespace_len(text) <= text.len(),
        forall|j: int| 0 <= j < whitespace_len(text) ==> is_whitespace(#[trigger] text[j]),
        whitespace_len(text) < text.len() ==> !is_whitespace(text[whitespace_len(text) as int]),
    decreases text.len(),
{
    if text.len() > 0 && is_whitespace(text[0]) {
        let rest = text.drop_first();
        lemma_whitespace_len(rest);
        assert forall|j: int| 0 <= j < whitespace_len(text) implies is_whitespace(
            #[trigger] text[j],
        ) by {
            if j > 0 {
                assert(text[j] == rest[j - 1]);
            }
        }
    }
}

/// A run of whitespace that ends at the end of the text or in front of
/// another character is the leading whitespace run.
pub proof fn lemma_whitespace_len_is(text: Seq<char>, len: int)
    requires
        0 <= len <= text.len(),
        forall|j: int| 0 <= j < len ==> is_whitespace(#[trigger] text[j]),
        len < text.len() ==> !is_whitespace(text[len]),
    ensures
        whitespace_len(text) == len,
    decreases text.len(),
{
    if len > 0 {
        let rest = text.drop_first();
        assert(is_whitespace(text[0]));
        assert forall|j: int| 0 <= j < len - 1 implies is_whitespace(#[trigger] rest[j]) by {
            assert(rest[j] == text[j + 1]);
        }
        lemma_whitespace_len_is(rest, len - 1);
    }
}

/// The leading token: none of it is whitespace, and it ends at the end of
/// the text or in front of a whitespace character.
pub proof fn lemma_token_len(text: Seq<char>)
    ensures
        token_len(text) <= text.len(),
        forall|j: int| 0 <= j < token_len(text) ==> !is_whitespace(#[trigger] text[j]),
        token_len(text) < text.len() ==> is_whitespace(text[token_len(text) as int]),
    decreases text.len(),
{
    if text.len() > 0 && !is_whitespace(text[0]) {
        let rest = text.drop_first();
        lemma_token_len(rest);
        assert forall|j: int| 0 <= j < token_len(text) implies !is_whitespace(
            #[trigger] text[j],
        ) by {
            if j > 0 {
                assert(text[j] == rest[j - 1]);
            }
        }
    }
}

/// A run without whitespace that ends at the end of the text or in front of
/// a whitespace character is the leading token.
pub proof fn lemma_token_len_is(text: Seq<char>, len: int)
    requires
        0 <= len <= text.len(),
        forall|j: int| 0 <= j < len ==> !is_whitespace(#[trigger] text[j]),
        len < text.len() ==> is_whitespace(text[len]),
    ensures
        token_len(text) == len,
    decreases text.len(),
{
    if len > 0 {
        let rest = text.drop_first();
        assert(!is_whitespace(text[0]));
        assert forall|j: int| 0 <= j < len - 1 implies !is_whitespace(#[trigger] rest[j]) by {
            assert(rest[j] == text[j + 1]);
        }
        lemma_token_len_is(rest, len - 1);
    }
}

/// The first token lies inside the text, and a text that is not empty has
/// something in front of the token's end.
pub proof fn lemma_word_bounds(text: Seq<char>)
    ensures
        0 <= word_begin(text) <= word_end(text) <= text.len(),
        text.len() > 0 ==> word_end(text) > 0,
{
    lemma_whitespace_len(text);
    lemma_token_len(text.skip(word_begin(text)));
}

/// The first token of a text that is put together from a whitespace run,
/// a run without whitespace, and a rest that is empty or starts with
/// whitespace.
pub proof fn lemma_first_token(prefix: Seq<char>, word: Seq<char>, rest: Seq<char>)
    requires
        is_whitespace_run(prefix),
        is_whitespace_free(word),
        rest.len() == 0 || is_whitespace(rest[0]),
        word.len() > 0 || rest.len() == 0,
    ensures
        word_begin(prefix + word + rest) == prefix.len(),
        word_end(prefix + word + rest) == prefix.len() + word.len(),
        (prefix + word + rest).take(word_begin(prefix + word + rest)) == prefix,
        (prefix + word + rest).subrange(
            word_begin(prefix + word + rest),
            word_end(prefix + word + rest),
        ) == word,
        (prefix + word + rest).skip(word_end(prefix + word + rest)) == rest,
{
    let text = prefix + word + rest;
    assert forall|j: int| 0 <= j < prefix.len() implies is_whitespace(#[trigger] text[j]) by {
        assert(text[j] == prefix[j]);
    }
    if prefix.len() < text.len() {
        assert(text[prefix.len() as int] == word[0]);
    }
    lemma_whitespace_len_is(text, prefix.len() as int);
    assert(text.skip(prefix.len() as int) =~= word + rest);
    assert forall|j: int| 0 <= j < word.len() implies !is_whitespace(
        #[trigger] (word + rest)[j],
    ) by {
        assert((word + rest)[j] == word[j]);
    }
    lemma_token_len_is(word + rest, word.len() as int);
    assert(text.take(prefix.len() as int) =~= prefix);
    assert(text.subrange(prefix.len() as int, (prefix.len() + word.len()) as int) =~= word);
    assert(text.skip((prefix.len() + word.len()) as int) =~= rest);
}

/// The pieces that the first step of the encoder sees: the leading
/// whitespace, the first token, and a rest that is empty or starts with
/// whitespace.
pub proof fn lemma_first_token_parts(text: Seq<char>)
    ensures
        is_whitespace_run(text.take(word_begin(text))),
        is_whitespace_free(text.subrange(word_begin(text), word_end(text))),
        word_end(text) < text.len() ==> is_whitespace(text.skip(word_end(text))[0]),
        word_begin(text) == word_end(text) ==> word_end(text) == text.len(),
        text.take(word_begin(text)) + text.subrange(word_begin(text), word_end(text)) + text.skip(
            word_end(text),
        ) == text,
{
    lemma_whitespace_len(text);
    let tail = text.skip(word_begin(text));
    lemma_token_len(tail);
    let word = text.subrange(word_begin(text), word_end(text));
    assert forall|i: int| 0 <= i < word.len() implies !is_whitespace(#[trigger] word[i]) by {
        assert(word[i] == tail[i]);
    }
    if word_end(text) < text.len() {
        assert(text.skip(word_end(text))[0] == tail[token_len(tail) as int]);
    }
    if word_begin(text) == word_end(text) && word_begin(text) < text.len() {
        assert(tail[0] == text[word_begin(text)]);
    }
    assert(text.take(word_begin(text)) + word + text.skip(word_end(text)) =~= text);
}

/// Output for a text that starts with whitespace starts with whitespace.
pub proof fn lemma_encoded_starts_with_whitespace(
    text: Seq<char>,
    previous_token_was_encoded: bool,
)
    requires
        text.len() > 0,
        is_whitespace(text[0]),
    ensures
        encoded_from(text, previous_token_was_encoded).len() > 0,
        is_whitespace(encoded_from(text, previous_token_was_encoded)[0]),
{
    lemma_word_bounds(text);
    lemma_whitespace_len(text);
    let prefix = text.take(word_begin(text));
    assert(prefix[0] == text[0]);
}

/// Two tokens that are both written as encoded words, with nothing but
/// whitespace between them: the output has exactly one space between the
/// two, and the whitespace of the input is part of the second word's
/// payload, whose chunks hold it in full.
pub proof fn lemma_adjacent_encoded_tokens(
    lead: Seq<char>,
    first: Seq<char>,
    gap: Seq<char>,
    second: Seq<char>,
    rest: Seq<char>,
    previous_token_was_encoded: bool,
)
    requires
        is_whitespace_run(lead),
        is_whitespace_free(first),
        !is_ascii_chars(first),
        is_whitespace_run(gap),
        gap.len() > 0,
        is_whitespace_free(second),
        !is_ascii_chars(second),
        rest.len() == 0 || is_whitespace(rest[0]),
    ensures
        encoded_from(lead + first + gap + second + rest, previous_token_was_encoded)
            == encoded_from(lead + first, previous_token_was_encoded) + seq![' '] + encoded_word(
            gap + second,
        ) + encoded_from(rest, true),
        chunks(gap + second).flatten() == gap + second,
{
    lemma_chunks_partition(gap + second);
    let tail = gap + second + rest;
    let text = lead + first + gap + second + rest;
    assert(first.len() > 0 && second.len() > 0);
    assert(tail[0] == gap[0]);
    assert(text =~= lead + first + tail);
    lemma_first_token(lead, first, tail);
    lemma_first_token(lead, first, Seq::empty());
    assert(lead + first + Seq::<char>::empty() =~= lead + first);
    lemma_first_token(gap, second, rest);
    let head = encoded_from(lead + first, previous_token_was_encoded);
    assert(encoded_from(Seq::<char>::empty(), true) =~= Seq::<char>::empty());
    if previous_token_was_encoded {
        assert(head =~= seq![' '] + encoded_word(lead + first));
    } else {
        assert(head =~= lead + encoded_word(first));
    }
    assert(encoded_from(text, previous_token_was_encoded) =~= head + encoded_from(tail, true));
    assert(encoded_from(tail, true) =~= seq![' '] + encoded_word(gap + second) + encoded_from(
        rest,
        true,
    ));
}

/// Text that is ASCII throughout comes out as it went in.
pub proof fn lemma_ascii_unchanged(text: Seq<char>, previous_token_was_encoded: bool)
    requires
        is_ascii_chars(text),
    ensures
        encoded_from(text, previous_token_was_encoded) == text,
    decreases text.len(),
{
    if text.len() > 0 {
        lemma_word_bounds(text);
        let prefix = text.take(word_begin(text));
        let word = text.subrange(word_begin(text), word_end(text));
        let rest = text.skip(word_end(text));
        assert(is_ascii_chars(word));
        assert(is_ascii_chars(rest));
        lemma_ascii_unchanged(rest, false);
        assert(prefix + word + rest =~= text);
    }
}

/// The output is ASCII, whatever the input.
pub proof fn lemma_encoded_is_ascii(text: Seq<char>, previous_token_was_encoded: bool)
    ensures
        is_ascii_chars(encoded_from(text, previous_token_was_encoded)),
    decreases text.len(),
{
    if text.len() > 0 {
        lemma_word_bounds(text);
        lemma_first_token_parts(text);
        let prefix = text.take(word_begin(text));
        let word = text.subrange(word_begin(text), word_end(text));
        let rest = text.skip(word_end(text));
        let tail = encoded_from(rest, !is_ascii_chars(word));
        lemma_encoded_is_ascii(rest, !is_ascii_chars(word));
        assert(is_ascii_chars(prefix));
        if is_ascii_chars(word) {
            is_ascii_chars_concat(prefix + word, prefix, word);
            is_ascii_chars_concat(prefix + word + tail, prefix + word, tail);
        } else if previous_token_was_encoded {
            let space = seq![' '];
            lemma_encoded_word_is_ascii(prefix + word);
            is_ascii_chars_concat(space + encoded_word(prefix + word), space, encoded_word(
                prefix + word,
            ));
            is_ascii_chars_concat(
                space + encoded_word(prefix + word) + tail,
                space + encoded_word(prefix + word),
                tail,
            );
        } else {
            lemma_encoded_word_is_ascii(word);
            is_ascii_chars_concat(prefix + encoded_word(word), prefix, encoded_word(word));
            is_ascii_chars_concat(
                prefix + encoded_word(word) + tail,
                prefix + encoded_word(word),
                tail,
            );
        }
    }
}

/// The index behind the whitespace run that starts at `from`.
pub fn skip_whitespace(text: &Vec<char>, from: usize) -> (to: usize)
    requires
        from <= text.len(),
    ensures
        from <= to <= text.len(),
        to - from == whitespace_len(text@.skip(from as int)),
{
    let mut i: usize = from;
    while i < text.len() && char_is_whitespace(text[i])
        invariant
            from <= i <= text.len(),
            forall|j: int| from <= j < i ==> is_whitespace(#[trigger] text@[j]),
        decreases text.len() - i,
    {
        i += 1;
    }
    proof {
        lemma_whitespace_len_is(text@.skip(from as int), i - from);
    }
    i
}

/// The index behind the token that starts at `from`.
pub fn skip_token(text: &Vec<char>, from: usize) -> (to: usize)
    requires
        from <= text.len(),
    ensures
        from <= to <= text.len(),
        to - from == token_len(text@.skip(from as int)),
{
    let mut i: usize = from;
    while i < text.len() && !char_is_whitespace(text[i])
        invariant
            from <= i <= text.len(),
            forall|j: int| from <= j < i ==> !is_whitespace(#[trigger] text@[j]),
        decreases text.len() - i,
    {
        i += 1;
    }
    proof {
        lemma_token_len_is(text@.skip(from as int), i - from);
    }
    i
}

/// Encodes `data` for a place that takes 7-bit ASCII only.
///
/// Input that is ASCII throughout is handed back as it is, borrowed.
pub fn rfc2047_encode(data: &str) -> (out: Cow<'_, str>)
    ensures
        out@ == encoded(data@),
        is_ascii_chars(out@),
        is_ascii_chars(data@) ==> out@ == data@,
        is_ascii_chars(data@) ==> out == Cow::<'_, str>::Borrowed(data),
{
    proof {
        lemma_encoded_is_ascii(data@, false);
    }
    if data.is_ascii() {
        proof {
            lemma_ascii_unchanged(data@, false);
        }
        return Cow::Borrowed(data);
    }
    let text = collect_chars(data);
    let mut result = String::new();
    let mut previous_token_was_encoded = false;
    let mut pos: usize = 0;
    assert(text@.skip(0) =~= text@);
    assert(result@ + encoded_from(text@.skip(0), false) =~= encoded(text@));
    while pos < text.len()
        invariant
            pos <= text.len(),
            text@ == data@,
            result@ + encoded_from(text@.skip(pos as int), previous_token_was_encoded) == encoded(
                text@,
            ),
        decreases text.len() - pos,
    {
        let word_begin: usize = skip_whitespace(&text, pos);
        let word_end: usize = skip_token(&text, word_begin);
        let ghost tail = text@.skip(pos as int);
        let ghost before = result@;
        let ghost prefix = text@.subrange(pos as int, word_begin as int);
        let ghost word = text@.subrange(word_begin as int, word_end as int);
        proof {
            assert(tail.skip(word_begin - pos) =~= text@.skip(word_begin as int));
            assert(tail.take(word_begin - pos) =~= prefix);
            assert(tail.subrange(word_begin - pos, word_end - pos) =~= word);
            assert(tail.skip(word_end - pos) =~= text@.skip(word_end as int));
            assert(prefix + word =~= text@.subrange(pos as int, word_end as int));
        }
        if all_ascii(&text, word_begin, word_end) {
            push_chars(&mut result, &text, pos, word_end);
            previous_token_was_encoded = false;
            assert(result@ + encoded_from(text@.skip(word_end as int), false) =~= before
                + encoded_from(tail, previous_token_was_encoded));
        } else {
            if previous_token_was_encoded {
                result.push(' ');
                push_encoded_word(&mut result, &text, pos, word_end);
                assert(result@ + encoded_from(text@.skip(word_end as int), true) =~= before
                    + encoded_from(tail, true));
            } else {
                push_chars(&mut result, &text, pos, word_begin);
                push_encoded_word(&mut result, &text, word_begin, word_end);
                assert(result@ + encoded_from(text@.skip(word_end as int), true) =~= before
                    + encoded_from(tail, false));
            }
            previous_token_was_encoded = true;
        }
        proof {
            lemma_word_bounds(tail);
        }
        pos = word_end;
    }
    Cow::Owned(result)
}

} // verus!
