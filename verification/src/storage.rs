//! Offsets in characters and offsets in the bytes of the UTF-8 storage.
//!
//! The engine counts characters. Where a text is stored as UTF-8, the
//! character with index `i` starts at byte `byte_offset(text, i)`, which is
//! never inside the bytes of one character.

use crate::text::chars_of;
use crate::utils::{char_width, utf8_width};
use vstd::prelude::*;
use vstd::string::StringSliceAdditionalSpecFns;
use vstd::utf8::{
    encode_utf8, encode_utf8_first_scalar, encode_utf8_valid_utf8, is_char_boundary, pop_first_scalar,
};

verus! {

/// The byte at which the character with index `index` starts in the UTF-8
/// encoding of `text`; for the length of `text`, the length of the encoding.
pub open spec fn byte_offset(text: Seq<char>, index: int) -> int {
    encode_utf8(text.take(index)).len() as int
}

/// The encoding of a text is the encoding of its first character and then
/// that of the rest.
proof fn lemma_byte_offset_step(text: Seq<char>, index: int)
    requires
        0 < index <= text.len(),
    ensures
        byte_offset(text, index) == utf8_width(text[0]) + byte_offset(text.drop_first(), index - 1),
        utf8_width(text[0]) >= 1,
{
    broadcast use vstd::utf8::char_is_scalar;

    let head = text.take(index);
    assert(head.drop_first() =~= text.drop_first().take(index - 1));
}

/// A character index lies on a character boundary of the storage: between
/// the bytes of two characters, at the start, or at the end.
pub proof fn lemma_index_on_char_boundary(text: Seq<char>, index: int)
    requires
        0 <= index <= text.len(),
    ensures
        0 <= byte_offset(text, index) <= encode_utf8(text).len(),
        is_char_boundary(encode_utf8(text), byte_offset(text, index)),
    decreases text.len(),
{
    let bytes = encode_utf8(text);
    encode_utf8_valid_utf8(text);
    if index > 0 {
        let rest = text.drop_first();
        lemma_byte_offset_step(text, index);
        lemma_index_on_char_boundary(rest, index - 1);
        encode_utf8_first_scalar(text);
        assert(pop_first_scalar(bytes) =~= encode_utf8(rest));
    }
}

/// The byte at which the character with index `index` starts in the UTF-8
/// storage of `text`. It is a character boundary of `text`.
pub fn byte_offset_of(text: &str, index: usize) -> (offset: usize)
    requires
        index <= text@.len(),
    ensures
        offset == byte_offset(text@, index as int),
        is_char_boundary(text.spec_bytes(), offset as int),
{
    let chars = chars_of(text);
    let bytes = text.as_bytes().len();
    proof {
        assert(chars@.take(chars@.len() as int) =~= chars@);
        lemma_index_on_char_boundary(text@, index as int);
    }
    if index == chars.len() {
        return bytes;
    }
    let mut offset: usize = 0;
    let mut i: usize = 0;
    while i < index
        invariant
            chars@ == text@,
            i <= index <= chars@.len(),
            offset == byte_offset(chars@, i as int),
            byte_offset(chars@, index as int) <= bytes,
        decreases index - i,
    {
        let width = char_width(chars[i]);
        proof {
            lemma_byte_offset_grows(chars@, i as int);
            lemma_byte_offset_ascends(chars@, i + 1, index as int);
        }
        offset += width;
        i += 1;
    }
    offset
}

/// One more character moves the byte offset by the width of that character.
pub proof fn lemma_byte_offset_grows(text: Seq<char>, index: int)
    requires
        0 <= index < text.len(),
    ensures
        byte_offset(text, index + 1) == byte_offset(text, index) + utf8_width(text[index]),
    decreases index,
{
    if index == 0 {
        lemma_byte_offset_step(text, 1);
    } else {
        lemma_byte_offset_step(text, index + 1);
        lemma_byte_offset_step(text, index);
        lemma_byte_offset_grows(text.drop_first(), index - 1);
    }
}

/// Byte offsets ascend with character indices.
pub proof fn lemma_byte_offset_ascends(text: Seq<char>, from: int, to: int)
    requires
        0 <= from <= to <= text.len(),
    ensures
        byte_offset(text, from) <= byte_offset(text, to),
    decreases to - from,
{
    if from < to {
        lemma_byte_offset_grows(text, from);
        lemma_byte_offset_ascends(text, from + 1, to);
    }
}

} // verus!
