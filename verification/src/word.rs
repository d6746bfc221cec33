//! One payload written as encoded segments.
//!
//! A payload is cut into chunks of whole characters. Each chunk becomes one
//! segment, `=?utf-8?q?` + the chunk's escape + `?=`, and the segments are
//! joined by single spaces. A chunk is closed as soon as its escape has
//! reached [`MAX_LEN_ENCODED_DATA`] characters, so with the room kept free
//! for the last character no segment grows beyond [`MAX_LEN_ENCODED_WORD`].
use vstd::prelude::*;
use vstd::utf8::{is_ascii_chars, is_ascii_chars_concat};
use crate::escape::{
    escaped, escaped_char, lemma_escaped_char_len, lemma_escaped_concat, lemma_escaped_is_ascii,
    lemma_escaped_push, lemma_escaped_single, push_escaped_char, MAX_LEN_ESCAPED_CHAR,
};
use crate::text::collect_chars;

verus! {

/// The longest segment, markers included.
pub const MAX_LEN_ENCODED_WORD: usize = 75;

/// The length of the opening marker `=?utf-8?q?`.
pub const LEN_ENCODED_WORD_PREFIX: usize = 10;

/// The length of the closing marker `?=`.
pub const LEN_ENCODED_WORD_SUFFIX: usize = 2;

/// The room kept free in every segment for the escape of one more character.
pub const LEN_ENCODED_WORD_BUFFER: usize = MAX_LEN_ESCAPED_CHAR;

/// The body length from which on a segment takes no further character.
pub const MAX_LEN_ENCODED_DATA: usize = MAX_LEN_ENCODED_WORD - LEN_ENCODED_WORD_PREFIX
    - LEN_ENCODED_WORD_SUFFIX - LEN_ENCODED_WORD_BUFFER;

/// The marker that opens a segment.
pub open spec fn segment_prefix() -> Seq<char> {
    "=?utf-8?q?"@
}

/// The marker that closes a segment.
pub open spec fn segment_suffix() -> Seq<char> {
    "?="@
}

/// The segment that holds `chunk`.
pub open spec fn segment(chunk: Seq<char>) -> Seq<char> {
    segment_prefix() + escaped(chunk) + segment_suffix()
}

/// How many leading characters of `payload` still go into a segment whose
/// body already holds `at` characters.
pub open spec fn fill_len(payload: Seq<char>, at: nat) -> nat
    decreases payload.len(),
{
    if payload.len() == 0 || at >= MAX_LEN_ENCODED_DATA {
        0
    } else {
        1 + fill_len(payload.drop_first(), at + escaped_char(payload[0]).len())
    }
}

/// The chunks of `payload`, in order. There is always at least one; an empty
/// payload has one empty chunk.
pub open spec fn chunks(payload: Seq<char>) -> Seq<Seq<char>>
    decreases payload.len(),
{
    let first = fill_len(payload, 0);
    if first >= payload.len() {
        seq![payload]
    } else {
        seq![payload.take(first as int)] + chunks(payload.skip(first as int))
    }
}

/// The segments of `chunks`, joined by single spaces.
pub open spec fn joined(chunks: Seq<Seq<char>>) -> Seq<char>
    decreases chunks.len(),
{
    if chunks.len() == 0 {
        Seq::empty()
    } else if chunks.len() == 1 {
        segment(chunks[0])
    } else {
        segment(chunks[0]) + seq![' '] + joined(chunks.drop_first())
    }
}

/// The encoded form of `payload`.
pub open spec fn encoded_word(payload: Seq<char>) -> Seq<char> {
    joined(chunks(payload))
}

/// The two markers, character by character.
pub proof fn lemma_markers()
    ensures
        segment_prefix() == seq!['=', '?', 'u', 't', 'f', '-', '8', '?', 'q', '?'],
        segment_prefix().len() == LEN_ENCODED_WORD_PREFIX,
        segment_suffix() == seq!['?', '='],
        segment_suffix().len() == LEN_ENCODED_WORD_SUFFIX,
{
    reveal_strlit("=?utf-8?q?");
    reveal_strlit("?=");
    assert(segment_prefix() =~= seq!['=', '?', 'u', 't', 'f', '-', '8', '?', 'q', '?']);
    assert(segment_suffix() =~= seq!['?', '=']);
}

/// A segment never takes more characters than there are, and an unfilled one
/// takes at least one if there is one.
pub proof fn lemma_fill_len_range(payload: Seq<char>, at: nat)
    ensures
        fill_len(payload, at) <= payload.len(),
        payload.len() > 0 && at < MAX_LEN_ENCODED_DATA ==> fill_len(payload, at) >= 1,
    decreases payload.len(),
{
    if payload.len() > 0 && at < MAX_LEN_ENCODED_DATA {
        lemma_fill_len_range(payload.drop_first(), at + escaped_char(payload[0]).len());
    }
}

/// Every payload has a first chunk.
pub proof fn lemma_chunks_nonempty(payload: Seq<char>)
    ensures
        chunks(payload).len() >= 1,
{
}

/// A segment in front of others is followed by one space.
pub proof fn lemma_joined_cons(first: Seq<char>, rest: Seq<Seq<char>>)
    requires
        rest.len() >= 1,
    ensures
        joined(seq![first] + rest) == segment(first) + seq![' '] + joined(rest),
{
    assert((seq![first] + rest).drop_first() =~= rest);
}

/// The body of a segment stays below the fill limit plus the room kept free.
pub proof fn lemma_chunk_body_len(payload: Seq<char>, at: nat)
    requires
        at < MAX_LEN_ENCODED_DATA + LEN_ENCODED_WORD_BUFFER,
    ensures
        at + escaped(payload.take(fill_len(payload, at) as int)).len() < MAX_LEN_ENCODED_DATA
            + LEN_ENCODED_WORD_BUFFER,
    decreases payload.len(),
{
    if payload.len() == 0 || at >= MAX_LEN_ENCODED_DATA {
        assert(payload.take(0) =~= Seq::<char>::empty());
    } else {
        let c = payload[0];
        let rest = payload.drop_first();
        let more = fill_len(rest, at + escaped_char(c).len());
        lemma_escaped_char_len(c);
        lemma_chunk_body_len(rest, at + escaped_char(c).len());
        lemma_fill_len_range(rest, at + escaped_char(c).len());
        assert(payload.take(1 + more as int) =~= seq![c] + rest.take(more as int));
        lemma_escaped_concat(seq![c], rest.take(more as int));
        lemma_escaped_single(c);
    }
}

/// Where a segment that already holds `at` characters stops taking more: in
/// front of the first character at which its body has reached
/// [`MAX_LEN_ENCODED_DATA`], or at the end of the payload.
pub proof fn lemma_fill_len_is_first_full(payload: Seq<char>, at: nat)
    ensures
        forall|k: int|
            0 <= k < fill_len(payload, at) ==> at + (#[trigger] escaped(payload.take(k))).len()
                < MAX_LEN_ENCODED_DATA,
        fill_len(payload, at) < payload.len() ==> at + escaped(
            payload.take(fill_len(payload, at) as int),
        ).len() >= MAX_LEN_ENCODED_DATA,
    decreases payload.len(),
{
    if payload.len() == 0 || at >= MAX_LEN_ENCODED_DATA {
        assert(payload.take(0) =~= Seq::<char>::empty());
    } else {
        let c = payload[0];
        let rest = payload.drop_first();
        let next = at + escaped_char(c).len();
        lemma_fill_len_is_first_full(rest, next);
        lemma_fill_len_range(rest, next);
        lemma_escaped_single(c);
        assert forall|k: int| 0 <= k < fill_len(payload, at) implies at + (#[trigger] escaped(
            payload.take(k),
        )).len() < MAX_LEN_ENCODED_DATA by {
            if k == 0 {
                assert(payload.take(0) =~= Seq::<char>::empty());
            } else {
                assert(payload.take(k) =~= seq![c] + rest.take(k - 1));
                lemma_escaped_concat(seq![c], rest.take(k - 1));
            }
        }
        let more = fill_len(rest, next);
        assert(payload.take(1 + more as int) =~= seq![c] + rest.take(more as int));
        lemma_escaped_concat(seq![c], rest.take(more as int));
    }
}

/// No segment is longer than [`MAX_LEN_ENCODED_WORD`].
pub proof fn lemma_segment_len_bound(payload: Seq<char>)
    ensures
        forall|i: int|
            0 <= i < chunks(payload).len() ==> (#[trigger] segment(chunks(payload)[i])).len()
                <= MAX_LEN_ENCODED_WORD,
    decreases payload.len(),
{
    let first = fill_len(payload, 0);
    lemma_markers();
    lemma_fill_len_range(payload, 0);
    lemma_chunk_body_len(payload, 0);
    if first >= payload.len() {
        assert(payload.take(first as int) =~= payload);
    } else {
        let rest = payload.skip(first as int);
        lemma_segment_len_bound(rest);
        assert forall|i: int| 0 <= i < chunks(payload).len() implies (#[trigger] segment(
            chunks(payload)[i],
        )).len() <= MAX_LEN_ENCODED_WORD by {
            if i > 0 {
                assert(chunks(payload)[i] == chunks(rest)[i - 1]);
            }
        }
    }
}

/// The chunks hold the payload's characters, each once and in order, and
/// none of them is empty unless the payload is: a cut between two segments
/// always falls between two characters, never inside the escape of one.
pub proof fn lemma_chunks_partition(payload: Seq<char>)
    ensures
        chunks(payload).flatten() == payload,
        payload.len() > 0 ==> forall|i: int|
            0 <= i < chunks(payload).len() ==> (#[trigger] chunks(payload)[i]).len() > 0,
    decreases payload.len(),
{
    let first = fill_len(payload, 0);
    lemma_fill_len_range(payload, 0);
    if first >= payload.len() {
        seq![payload].lemma_flatten_one_element();
    } else {
        let head = payload.take(first as int);
        let rest = payload.skip(first as int);
        lemma_chunks_partition(rest);
        assert((seq![head] + chunks(rest)).drop_first() =~= chunks(rest));
        assert(head + rest =~= payload);
        assert forall|i: int| 0 <= i < chunks(payload).len() implies (#[trigger] chunks(
            payload,
        )[i]).len() > 0 by {
            if i > 0 {
                assert(chunks(payload)[i] == chunks(rest)[i - 1]);
            }
        }
    }
}

/// Segments joined by spaces are ASCII.
pub proof fn lemma_joined_is_ascii(parts: Seq<Seq<char>>)
    ensures
        is_ascii_chars(joined(parts)),
    decreases parts.len(),
{
    if parts.len() > 0 {
        let first = segment(parts[0]);
        lemma_markers();
        lemma_escaped_is_ascii(parts[0]);
        is_ascii_chars_concat(
            segment_prefix() + escaped(parts[0]),
            segment_prefix(),
            escaped(parts[0]),
        );
        is_ascii_chars_concat(first, segment_prefix() + escaped(parts[0]), segment_suffix());
        if parts.len() > 1 {
            lemma_joined_is_ascii(parts.drop_first());
            is_ascii_chars_concat(first + seq![' '], first, seq![' ']);
            is_ascii_chars_concat(
                joined(parts),
                first + seq![' '],
                joined(parts.drop_first()),
            );
        }
    }
}

/// An encoded word is ASCII, whatever its payload.
pub proof fn lemma_encoded_word_is_ascii(payload: Seq<char>)
    ensures
        is_ascii_chars(encoded_word(payload)),
{
    lemma_joined_is_ascii(chunks(payload));
}

/// Closing a full segment: what is left to write for the payload from
/// `start` on is the segment of the chunk that ends at `upto`, a space, and
/// the encoded form of the rest.
proof fn lemma_close_segment(payload: Seq<char>, start: int, upto: int, at: nat)
    requires
        0 <= start <= upto < payload.len(),
        at >= MAX_LEN_ENCODED_DATA,
        fill_len(payload.skip(start), 0) == (upto - start) + fill_len(payload.skip(upto), at),
    ensures
        encoded_word(payload.skip(start)) == segment(payload.subrange(start, upto)) + seq![' ']
            + encoded_word(payload.skip(upto)),
{
    let tail = payload.skip(start);
    let first = fill_len(tail, 0);
    assert(tail.take(first as int) =~= payload.subrange(start, upto));
    assert(tail.skip(first as int) =~= payload.skip(upto));
    lemma_chunks_nonempty(payload.skip(upto));
    lemma_joined_cons(payload.subrange(start, upto), chunks(payload.skip(upto)));
}

/// Taking one more character into the open segment.
proof fn lemma_extend_segment(payload: Seq<char>, start: int, upto: int, at: nat)
    requires
        0 <= start <= upto < payload.len(),
        at < MAX_LEN_ENCODED_DATA,
        fill_len(payload.skip(start), 0) == (upto - start) + fill_len(payload.skip(upto), at),
    ensures
        fill_len(payload.skip(start), 0) == (upto + 1 - start) + fill_len(
            payload.skip(upto + 1),
            at + escaped_char(payload[upto]).len(),
        ),
        escaped(payload.subrange(start, upto + 1)) == escaped(payload.subrange(start, upto))
            + escaped_char(payload[upto]),
{
    assert(payload.skip(upto).drop_first() =~= payload.skip(upto + 1));
    assert(payload.subrange(start, upto + 1) =~= payload.subrange(start, upto).push(
        payload[upto],
    ));
    lemma_escaped_push(payload.subrange(start, upto), payload[upto]);
}

/// At the end of the payload the open segment is the last one.
proof fn lemma_last_segment(payload: Seq<char>, start: int, at: nat)
    requires
        0 <= start <= payload.len(),
        fill_len(payload.skip(start), 0) == (payload.len() - start) + fill_len(
            payload.skip(payload.len() as int),
            at,
        ),
    ensures
        encoded_word(payload.skip(start)) == segment(payload.subrange(start, payload.len() as int)),
{
    assert(payload.skip(start) =~= payload.subrange(start, payload.len() as int));
}

/// Appends the encoded form of `text[from..to]` to `out`.
pub fn push_encoded_word(out: &mut String, text: &Vec<char>, from: usize, to: usize)
    requires
        from <= to <= text.len(),
    ensures
        final(out)@ == old(out)@ + encoded_word(text@.subrange(from as int, to as int)),
{
    let ghost payload = text@.subrange(from as int, to as int);
    let ghost base = out@;
    let ghost mut done: Seq<char> = Seq::empty();
    let ghost mut start: int = 0;
    out.append("=?utf-8?q?");
    let mut at: usize = 0;
    let mut i: usize = from;
    proof {
        assert(payload.skip(0) =~= payload);
        assert(payload.subrange(0, 0) =~= Seq::<char>::empty());
        assert(out@ =~= base + done + segment_prefix() + escaped(payload.subrange(start, 0)));
        assert(done + encoded_word(payload.skip(start)) =~= encoded_word(payload));
    }
    while i < to
        invariant
            from <= i <= to <= text.len(),
            payload == text@.subrange(from as int, to as int),
            0 <= start <= i - from,
            out@ == base + done + segment_prefix() + escaped(payload.subrange(start, i - from)),
            at == escaped(payload.subrange(start, i - from)).len(),
            done + encoded_word(payload.skip(start)) == encoded_word(payload),
            fill_len(payload.skip(start), 0) == (i - from - start) + fill_len(
                payload.skip(i - from),
                at as nat,
            ),
            at < MAX_LEN_ENCODED_DATA + LEN_ENCODED_WORD_BUFFER,
        decreases to - i,
    {
        if at >= MAX_LEN_ENCODED_DATA {
            out.append("?= =?utf-8?q?");
            proof {
                let closed = segment(payload.subrange(start, i - from)) + seq![' '];
                lemma_close_segment(payload, start, i - from, at as nat);
                reveal_strlit("?= =?utf-8?q?");
                lemma_markers();
                assert("?= =?utf-8?q?"@ =~= segment_suffix() + seq![' '] + segment_prefix());
                assert(done + closed + encoded_word(payload.skip(i - from)) =~= done
                    + encoded_word(payload.skip(start)));
                assert(payload.subrange(i - from, i - from) =~= Seq::<char>::empty());
                assert(out@ =~= base + (done + closed) + segment_prefix() + escaped(
                    payload.subrange(i - from, i - from),
                ));
                done = done + closed;
                start = i - from;
            }
            at = 0;
        }
        let len: usize = push_escaped_char(out, text[i]);
        proof {
            lemma_extend_segment(payload, start, i - from, at as nat);
            assert(out@ =~= base + done + segment_prefix() + escaped(
                payload.subrange(start, i - from + 1),
            ));
        }
        at += len;
        i += 1;
    }
    out.append("?=");
    proof {
        lemma_last_segment(payload, start, at as nat);
        assert(out@ =~= base + (done + encoded_word(payload.skip(start))));
    }
}

/// The encoded form of `word`: one segment, or several joined by single
/// spaces where one would grow too long.
pub fn rfc2047_encode_word(word: &str) -> (out: String)
    ensures
        out@ == encoded_word(word@),
        is_ascii_chars(out@),
{
    proof {
        lemma_encoded_word_is_ascii(word@);
    }
    let text = collect_chars(word);
    let mut out = String::new();
    push_encoded_word(&mut out, &text, 0, text.len());
    assert(text@.subrange(0, text.len() as int) =~= word@);
    assert(out@ =~= encoded_word(word@));
    out
}

} // verus!
