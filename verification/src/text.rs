//! Text held as a vector of characters.
use vstd::prelude::*;
use vstd::utf8::is_ascii_chars;
use crate::ascii::{char_is_ascii, is_ascii};

verus! {

/// The characters of `data`, in order.
pub fn collect_chars(data: &str) -> (text: Vec<char>)
    ensures
        text@ == data@,
{
    let mut text: Vec<char> = Vec::new();
    for c in it: data.chars()
        invariant
            text@ == it.seq().take(it.index()),
            it.seq() == data@,
    {
        text.push(c);
    }
    text
}

/// Appends `text[from..to]` to `out`.
pub fn push_chars(out: &mut String, text: &Vec<char>, from: usize, to: usize)
    requires
        from <= to <= text.len(),
    ensures
        final(out)@ == old(out)@ + text@.subrange(from as int, to as int),
{
    let mut i: usize = from;
    assert(out@ =~= old(out)@ + text@.subrange(from as int, from as int));
    while i < to
        invariant
            from <= i <= to <= text.len(),
            out@ == old(out)@ + text@.subrange(from as int, i as int),
        decreases to - i,
    {
        out.push(text[i]);
        assert(out@ =~= old(out)@ + text@.subrange(from as int, i + 1));
        i += 1;
    }
}

/// Tells whether `text[from..to]` holds ASCII characters only.
pub fn all_ascii(text: &Vec<char>, from: usize, to: usize) -> (b: bool)
    requires
        from <= to <= text.len(),
    ensures
        b == is_ascii_chars(text@.subrange(from as int, to as int)),
{
    let ghost run = text@.subrange(from as int, to as int);
    let mut i: usize = from;
    while i < to
        invariant
            from <= i <= to <= text.len(),
            run == text@.subrange(from as int, to as int),
            forall|j: int| 0 <= j < i - from ==> is_ascii(#[trigger] run[j]),
        decreases to - i,
    {
        let c = text[i];
        assert(c == run[i - from]);
        if !char_is_ascii(c) {
            return false;
        }
        i += 1;
    }
    true
}

} // verus!
