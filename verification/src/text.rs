//! Text as a sequence of characters, and where each character lies among the
//! bytes of its UTF-8 encoding.

use vstd::prelude::*;
use vstd::utf8::*;

verus! {

/// Number of bytes that `c` takes in UTF-8.
pub open spec fn utf8_width(c: char) -> nat {
    encode_scalar(c as u32).len()
}

/// Byte offset of the character at index `pos` of `text`: the length of the
/// encoding of everything before it.
pub open spec fn byte_offset(text: Seq<char>, pos: int) -> nat
    recommends
        0 <= pos <= text.len(),
{
    encode_utf8(text.take(pos)).len()
}

/// Encoding distributes over appending one character.
pub proof fn lemma_encode_push(chars: Seq<char>, c: char)
    ensures
        encode_utf8(chars.push(c)) == encode_utf8(chars) + encode_scalar(c as u32),
    decreases chars.len(),
{
    if chars.len() == 0 {
        assert(encode_utf8(chars.push(c).drop_first()) =~= Seq::<u8>::empty());
    } else {
        lemma_encode_push(chars.drop_first(), c);
        assert(chars.push(c).drop_first() =~= chars.drop_first().push(c));
    }
}

/// Stepping over one character moves the byte offset by its width, which is
/// between one and four.
pub proof fn lemma_byte_offset_step(text: Seq<char>, pos: int)
    requires
        0 <= pos < text.len(),
    ensures
        byte_offset(text, pos + 1) == byte_offset(text, pos) + utf8_width(text[pos]),
        1 <= utf8_width(text[pos]) <= 4,
{
    lemma_encode_push(text.take(pos), text[pos]);
    assert(text.take(pos + 1) =~= text.take(pos).push(text[pos]));
}

/// Byte offsets grow with the position.
pub proof fn lemma_byte_offset_monotonic(text: Seq<char>, a: int, b: int)
    requires
        0 <= a <= b <= text.len(),
    ensures
        byte_offset(text, a) + (b - a) <= byte_offset(text, b),
    decreases b - a,
{
    if a < b {
        lemma_byte_offset_monotonic(text, a, b - 1);
        lemma_byte_offset_step(text, b - 1);
    }
}

/// Encoding distributes over concatenation.
pub proof fn lemma_encode_concat(front: Seq<char>, back: Seq<char>)
    ensures
        encode_utf8(front + back) == encode_utf8(front) + encode_utf8(back),
    decreases back.len(),
{
    if back.len() > 0 {
        let init = back.drop_last();
        lemma_encode_concat(front, init);
        lemma_encode_push(front + init, back.last());
        lemma_encode_push(init, back.last());
        assert(init.push(back.last()) =~= back);
    }
}

/// A byte offset behind a prefix is the length of the prefix in bytes plus
/// the offset within the rest.
pub proof fn lemma_byte_offset_shift(before: Seq<char>, text: Seq<char>, pos: int)
    requires
        0 <= pos <= text.len(),
    ensures
        byte_offset(before + text, before.len() + pos) == encode_utf8(before).len() + byte_offset(
            text,
            pos,
        ),
{
    assert((before + text).take(before.len() + pos) =~= before + text.take(pos));
    lemma_encode_concat(before, text.take(pos));
}

/// Characters below 128 take one byte each.
pub proof fn lemma_ascii_length(text: Seq<char>)
    requires
        forall|i: int| 0 <= i < text.len() ==> (#[trigger] text[i] as u32) < 0x80,
    ensures
        encode_utf8(text).len() == text.len(),
    decreases text.len(),
{
    if text.len() > 0 {
        lemma_ascii_length(text.drop_first());
    }
}

/// Computes [`utf8_width`].
pub fn char_width(c: char) -> (w: usize)
    ensures
        w == utf8_width(c),
        1 <= w <= 4,
{
    let u: u32 = c as u32;
    proof {
        char_is_scalar(c);
    }
    if u < 0x80 {
        1
    } else if u < 0x800 {
        2
    } else if u < 0x10000 {
        3
    } else {
        4
    }
}

/// The characters of `s`, in order.
pub fn collect_chars(s: &str) -> (chars: Vec<char>)
    ensures
        chars@ == s@,
{
    let mut chars: Vec<char> = Vec::new();
    for c in it: s.chars()
        invariant
            chars@ == it.seq().take(it.index() as int),
            it.seq() == s@,
    {
        chars.push(c);
    }
    chars
}

/// Appends `c` to `s`.
///
/// Wraps `String::push`, which appends the given character to the end of the
/// string and leaves the rest as it was.
#[verifier::external_body]
pub(crate) fn push_char(s: &mut String, c: char)
    ensures
        final(s)@ == old(s)@.push(c),
{
    s.push(c)
}

} // verus!
