//! Byte offsets of characters in the UTF-8 encoding of a text, and slices
//! of a text cut at them.

use vstd::prelude::*;
use vstd::string::StringSliceAdditionalSpecFns;
use vstd::utf8::{
    encode_scalar, encode_utf8, encode_utf8_decode_utf8, encode_utf8_first_scalar,
    encode_utf8_valid_utf8, is_char_boundary, length_of_first_scalar, pop_first_scalar,
};

verus! {

/// The byte offset, in the UTF-8 encoding of `s`, of the character at index `i`.
pub open spec fn byte_offset(s: Seq<char>, i: int) -> int {
    encode_utf8(s.take(i)).len() as int
}

/// The encoding of a concatenation is the concatenation of the encodings.
pub proof fn lemma_encode_concat(a: Seq<char>, b: Seq<char>)
    ensures
        encode_utf8(a + b) == encode_utf8(a) + encode_utf8(b),
    decreases a.len(),
{
    if a.len() == 0 {
        assert(a + b == b);
        assert(encode_utf8(a) + encode_utf8(b) == encode_utf8(b));
    } else {
        lemma_encode_concat(a.drop_first(), b);
        assert((a + b).drop_first() == a.drop_first() + b);
        assert(encode_utf8(a + b) == encode_scalar(a[0] as u32) + (encode_utf8(a.drop_first())
            + encode_utf8(b)));
        assert(encode_utf8(a + b) == encode_utf8(a) + encode_utf8(b));
    }
}

/// The offset of the next character is this one's plus its encoded width, and
/// no offset passes the length of the whole encoding.
pub proof fn lemma_byte_offset_step(s: Seq<char>, i: int)
    requires
        0 <= i < s.len(),
    ensures
        byte_offset(s, i + 1) == byte_offset(s, i) + encode_scalar(s[i] as u32).len(),
        byte_offset(s, i + 1) <= encode_utf8(s).len(),
{
    let head = s.take(i);
    let one = seq![s[i]];
    assert(s.take(i + 1) == head + one);
    lemma_encode_concat(head, one);
    assert(one.drop_first() == Seq::<char>::empty());
    assert(encode_utf8(one) == encode_scalar(s[i] as u32) + encode_utf8(Seq::<char>::empty()));
    assert(encode_utf8(one) == encode_scalar(s[i] as u32));
    assert(s == s.take(i + 1) + s.skip(i + 1));
    lemma_encode_concat(s.take(i + 1), s.skip(i + 1));
}

/// The byte offset of every character of a text, and of its end, is a
/// character boundary of its encoding.
pub proof fn lemma_char_boundary(s: Seq<char>, i: int)
    requires
        0 <= i <= s.len(),
    ensures
        is_char_boundary(encode_utf8(s), byte_offset(s, i)),
        0 <= byte_offset(s, i) <= encode_utf8(s).len(),
    decreases i,
{
    let bytes = encode_utf8(s);
    encode_utf8_valid_utf8(s);
    assert(s == s.take(i) + s.skip(i));
    lemma_encode_concat(s.take(i), s.skip(i));
    if i == 0 {
        assert(s.take(0) == Seq::<char>::empty());
    } else {
        let rest = s.drop_first();
        encode_utf8_first_scalar(s);
        assert(pop_first_scalar(bytes) == encode_utf8(rest));
        lemma_char_boundary(rest, i - 1);
        assert(s.take(i).drop_first() == rest.take(i - 1));
        assert(s.take(i)[0] == s[0]);
        assert(byte_offset(s, i) == length_of_first_scalar(bytes) + byte_offset(rest, i - 1));
    }
}

/// Texts with the same encoding are the same text.
pub proof fn lemma_encode_injective(a: Seq<char>, b: Seq<char>)
    requires
        encode_utf8(a) == encode_utf8(b),
    ensures
        a == b,
{
    encode_utf8_decode_utf8(a);
    encode_utf8_decode_utf8(b);
}

/// The number of bytes that encode `c` in UTF-8.
pub fn utf8_width(c: char) -> (n: usize)
    ensures
        n == encode_scalar(c as u32).len(),
        1 <= n <= 4,
{
    let v: u32 = c as u32;
    if v < 0x80 {
        1
    } else if v < 0x800 {
        2
    } else if v < 0x10000 {
        3
    } else {
        4
    }
}

/// The number of bytes that encode `text` in UTF-8.
pub fn byte_len(text: &str) -> (n: usize)
    ensures
        n == encode_utf8(text@).len(),
        n == byte_offset(text@, text@.len() as int),
{
    assert(text@.take(text@.len() as int) == text@);
    text.as_bytes().len()
}

/// The characters `i..j` of `text`, which start at byte `from` and end at
/// byte `to`.
pub(crate) fn slice<'a>(
    text: &'a str,
    Ghost(i): Ghost<int>,
    Ghost(j): Ghost<int>,
    from: usize,
    to: usize,
) -> (r: &'a str)
    requires
        0 <= i <= j <= text@.len(),
        from == byte_offset(text@, i),
        to == byte_offset(text@, j),
    ensures
        r@ == text@.subrange(i, j),
{
    proof {
        lemma_char_boundary(text@, j);
    }
    let (head, _) = text.split_at(to);
    proof {
        assert(text@ == text@.take(j) + text@.skip(j));
        lemma_encode_concat(text@.take(j), text@.skip(j));
        assert(head.spec_bytes() == encode_utf8(text@.take(j)));
        lemma_encode_injective(head@, text@.take(j));
        assert(head@.take(i) == text@.take(i));
        lemma_char_boundary(head@, i);
    }
    let (_, r) = head.split_at(from);
    proof {
        assert(head@ == head@.take(i) + head@.skip(i));
        lemma_encode_concat(head@.take(i), head@.skip(i));
        assert(r.spec_bytes() == encode_utf8(head@.skip(i)));
        lemma_encode_injective(r@, head@.skip(i));
        assert(head@.skip(i) == text@.subrange(i, j));
    }
    r
}

} // verus!
