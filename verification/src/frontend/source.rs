//! Byte positions in text.

use vstd::prelude::*;
use vstd::utf8::{encode_scalar, encode_utf8, is_char_boundary};

verus! {

/// `char::len_utf8` is the number of bytes that the encoding of a character
/// takes.
pub assume_specification[ char::len_utf8 ](c: char) -> (r: usize)
    ensures
        r == encode_scalar(c as u32).len(),
;

/// The number of bytes that a text takes.
pub open spec fn width(s: Seq<char>) -> nat {
    encode_utf8(s).len()
}

/// The byte position of the character with number `i`.
pub open spec fn byte_at(text: Seq<char>, i: int) -> int {
    width(text.take(i)) as int
}

/// The number of line breaks in a text.
pub open spec fn newlines(s: Seq<char>) -> nat
    decreases s.len(),
{
    if s.len() == 0 {
        0
    } else {
        newlines(s.drop_last()) + (if s.last() == '\n' { 1nat } else { 0nat })
    }
}

/// The number of bytes behind the last line break of a text.
pub open spec fn last_line_width(s: Seq<char>) -> nat
    decreases s.len(),
{
    if s.len() == 0 || s.last() == '\n' {
        0
    } else {
        last_line_width(s.drop_last()) + encode_scalar(s.last() as u32).len()
    }
}

/// The number of line breaks in a run of bytes.
pub open spec fn byte_newlines(s: Seq<u8>) -> nat
    decreases s.len(),
{
    if s.len() == 0 {
        0
    } else {
        byte_newlines(s.drop_last()) + (if s.last() == 10u8 { 1nat } else { 0nat })
    }
}

/// The number of bytes behind the last line break of a run of bytes.
pub open spec fn bytes_since_newline(s: Seq<u8>) -> nat
    decreases s.len(),
{
    if s.len() == 0 || s.last() == 10u8 {
        0
    } else {
        bytes_since_newline(s.drop_last()) + 1
    }
}

/// The bytes of `bytes` before `position`, all of them if there are fewer.
pub open spec fn before(bytes: Seq<u8>, position: int) -> Seq<u8> {
    if position <= bytes.len() {
        bytes.take(position)
    } else {
        bytes
    }
}

pub proof fn lemma_encode_concat(a: Seq<char>, b: Seq<char>)
    ensures
        encode_utf8(a + b) == encode_utf8(a) + encode_utf8(b),
    decreases a.len(),
{
    if a.len() == 0 {
        assert(a + b =~= b);
        assert(encode_utf8(a) =~= Seq::<u8>::empty());
        assert(encode_utf8(a) + encode_utf8(b) =~= encode_utf8(b));
    } else {
        let c = a + b;
        assert(c.drop_first() =~= a.drop_first() + b);
        lemma_encode_concat(a.drop_first(), b);
        assert(c[0] == a[0]);
        assert(encode_utf8(c) == encode_scalar(c[0] as u32) + encode_utf8(c.drop_first()));
        assert(encode_utf8(a) == encode_scalar(a[0] as u32) + encode_utf8(a.drop_first()));
        assert(encode_utf8(c) =~= encode_utf8(a) + encode_utf8(b));
    }
}

/// One more character makes a text wider by that character's encoding.
pub proof fn lemma_width_push(s: Seq<char>, c: char)
    ensures
        width(s.push(c)) == width(s) + encode_scalar(c as u32).len(),
        1 <= encode_scalar(c as u32).len() <= 4,
{
    let one = seq![c];
    assert(s.push(c) =~= s + one);
    lemma_encode_concat(s, one);
    assert(one.drop_first() =~= Seq::<char>::empty());
    assert(encode_utf8(one.drop_first()) =~= Seq::<u8>::empty());
    assert(encode_utf8(one) =~= encode_scalar(c as u32));
}

/// Byte positions grow with the number of the character.
pub proof fn lemma_byte_at_monotone(text: Seq<char>, i: int, j: int)
    requires
        0 <= i <= j <= text.len(),
    ensures
        byte_at(text, i) <= byte_at(text, j),
        i < j ==> byte_at(text, i) < byte_at(text, j),
    decreases j - i,
{
    if i < j {
        lemma_byte_at_monotone(text, i, j - 1);
        lemma_width_push(text.take(j - 1), text[j - 1]);
        assert(text.take(j - 1).push(text[j - 1]) =~= text.take(j));
    }
}

/// The byte positions of characters lie on character boundaries.
pub proof fn lemma_byte_at_boundary(text: Seq<char>, i: int)
    requires
        0 <= i <= text.len(),
    ensures
        is_char_boundary(encode_utf8(text), byte_at(text, i)),
        byte_at(text, i) <= encode_utf8(text).len(),
    decreases i,
{
    reveal_with_fuel(is_char_boundary, 2);
    vstd::utf8::encode_utf8_valid_utf8(text);
    assert(text.take(text.len() as int) =~= text);
    lemma_byte_at_monotone(text, i, text.len() as int);
    if i == 0 {
        assert(text.take(0) =~= Seq::<char>::empty());
        assert(encode_utf8(text.take(0)) =~= Seq::<u8>::empty());
    } else {
        let tail = text.drop_first();
        let head = seq![text[0]];
        lemma_byte_at_boundary(tail, i - 1);
        assert(text.take(i) =~= head + tail.take(i - 1));
        lemma_encode_concat(head, tail.take(i - 1));
        vstd::utf8::encode_utf8_first_scalar(text);
        assert(head.drop_first() =~= Seq::<char>::empty());
        assert(encode_utf8(head.drop_first()) =~= Seq::<u8>::empty());
        assert(encode_utf8(head) =~= encode_scalar(text[0] as u32));
        assert(encode_utf8(text) == encode_scalar(text[0] as u32) + encode_utf8(tail));
        let bytes = encode_utf8(text);
        assert(vstd::utf8::pop_first_scalar(bytes) =~= encode_utf8(tail));
    }
}

/// The text between two characters is encoded by the bytes between their
/// positions.
pub proof fn lemma_encode_subrange(text: Seq<char>, i: int, j: int)
    requires
        0 <= i <= j <= text.len(),
    ensures
        encode_utf8(text.subrange(i, j)) == encode_utf8(text).subrange(
            byte_at(text, i),
            byte_at(text, j),
        ),
        byte_at(text, j) == byte_at(text, i) + width(text.subrange(i, j)),
{
    let a = text.take(i);
    let b = text.subrange(i, j);
    let c = text.skip(j);
    assert(text.take(j) =~= a + b);
    assert(text =~= (a + b) + c);
    lemma_encode_concat(a, b);
    lemma_encode_concat(a + b, c);
    assert(encode_utf8(text).subrange(byte_at(text, i), byte_at(text, j)) =~= encode_utf8(b));
}

/// Texts with the same encoding are the same text.
pub proof fn lemma_encode_injective(a: Seq<char>, b: Seq<char>)
    requires
        encode_utf8(a) == encode_utf8(b),
    ensures
        a == b,
{
    vstd::utf8::encode_utf8_decode_utf8(a);
    vstd::utf8::encode_utf8_decode_utf8(b);
}

} // verus!
