//! Texts as bytes: how long a text is in UTF-8, and cutting it at a byte offset.

use vstd::prelude::*;
use vstd::utf8::{
    decode_utf8, decode_utf8_encode_utf8, encode_scalar, encode_utf8, encode_utf8_decode_utf8, encode_utf8_first_scalar,
    encode_utf8_valid_utf8, is_char_boundary, length_of_first_scalar, pop_first_scalar, valid_utf8,
};

use crate::text::option_view;

verus! {

/// Number of bytes a text takes in UTF-8.
pub open spec fn byte_len(text: Seq<char>) -> nat {
    encode_utf8(text).len()
}

/// The bytes of two texts in a row are the bytes of the first and of the second.
pub proof fn lemma_encode_concat(a: Seq<char>, b: Seq<char>)
    ensures
        encode_utf8(a + b) == encode_utf8(a) + encode_utf8(b),
    decreases a.len(),
{
    if a.len() == 0 {
        assert(a + b == b);
        assert(encode_utf8(a) + encode_utf8(b) == encode_utf8(b));
    } else {
        let rest = a.drop_first();
        lemma_encode_concat(rest, b);
        assert((a + b).drop_first() == rest + b);
        assert((a + b)[0] == a[0]);
        assert(encode_utf8(a + b) == encode_scalar(a[0] as u32) + encode_utf8(rest + b));
        assert(encode_utf8(a) + encode_utf8(b) == encode_scalar(a[0] as u32) + (encode_utf8(rest)
            + encode_utf8(b)));
    }
}

/// Two texts with the same bytes are the same text.
pub proof fn lemma_encode_injective(a: Seq<char>, b: Seq<char>)
    requires
        encode_utf8(a) == encode_utf8(b),
    ensures
        a == b,
{
    encode_utf8_decode_utf8(a);
    encode_utf8_decode_utf8(b);
}

/// A text that is not empty takes at least one byte.
pub proof fn lemma_byte_len_positive(text: Seq<char>)
    ensures
        text.len() > 0 <==> byte_len(text) > 0,
{
    if text.len() > 0 {
        encode_utf8_first_scalar(text);
    }
}

/// A text may be cut where one of its parts ends.
pub proof fn lemma_boundary(a: Seq<char>, b: Seq<char>)
    ensures
        is_char_boundary(encode_utf8(a + b), byte_len(a) as int),
    decreases a.len(),
{
    encode_utf8_valid_utf8(a + b);
    if a.len() > 0 {
        let rest = a.drop_first();
        let bytes = encode_utf8(a + b);
        assert((a + b).drop_first() == rest + b);
        assert((a + b)[0] == a[0]);
        encode_utf8_first_scalar(a + b);
        lemma_encode_concat(a, b);
        lemma_boundary(rest, b);
        assert(pop_first_scalar(bytes) == encode_utf8(rest + b));
        assert(byte_len(a) == length_of_first_scalar(bytes) + byte_len(rest));
    }
}

/// Number of bytes a text takes in UTF-8.
pub fn size_of_text(text: &str) -> (n: usize)
    ensures
        n == byte_len(text@),
{
    text.as_bytes().len()
}

/// The middle one of three consecutive parts of a text, given by byte offsets.
pub(crate) fn part<'a>(
    text: &'a str,
    from: usize,
    to: usize,
    Ghost(front): Ghost<Seq<char>>,
    Ghost(middle): Ghost<Seq<char>>,
    Ghost(back): Ghost<Seq<char>>,
) -> (found: &'a str)
    requires
        text@ == front + middle + back,
        from == byte_len(front),
        to == byte_len(front + middle),
    ensures
        found@ == middle,
{
    proof {
        lemma_boundary(front + middle, back);
        lemma_boundary(front, middle);
        lemma_encode_concat(front + middle, back);
        lemma_encode_concat(front, middle);
    }
    let (head, _) = text.split_at(to);
    proof {
        assert(encode_utf8(head@) == encode_utf8(front + middle));
        lemma_encode_injective(head@, front + middle);
    }
    let (_, tail) = head.split_at(from);
    proof {
        assert(encode_utf8(tail@) == encode_utf8(middle));
        lemma_encode_injective(tail@, middle);
    }
    tail
}

/// `std::str::from_utf8` gives the text that a byte string is the UTF-8 form of,
/// and fails exactly when the bytes are not valid UTF-8.
#[verifier::external_body]
fn text_of_bytes(bytes: &[u8]) -> (text: Option<&str>)
    ensures
        match text {
            Some(text) => valid_utf8(bytes@) && encode_utf8(text@) == bytes@,
            None => !valid_utf8(bytes@),
        },
{
    std::str::from_utf8(bytes).ok()
}

/// The text that a byte string is the UTF-8 form of.
pub open spec fn decoded(bytes: Seq<u8>) -> Option<Seq<char>> {
    if valid_utf8(bytes) {
        Some(decode_utf8(bytes))
    } else {
        None
    }
}

/// The bytes of a text are read as that text, and what is read has those bytes.
pub proof fn law_texts_read_back(text: Seq<char>, bytes: Seq<u8>)
    ensures
        decoded(encode_utf8(text)) == Some(text),
        decoded(bytes) is Some <==> valid_utf8(bytes),
        decoded(bytes) matches Some(read) ==> encode_utf8(read) == bytes,
{
    encode_utf8_valid_utf8(text);
    encode_utf8_decode_utf8(text);
    if valid_utf8(bytes) {
        decode_utf8_encode_utf8(bytes);
    }
}

/// The text that a byte string is the UTF-8 form of, if it is one.
pub fn decode(bytes: &[u8]) -> (text: Option<&str>)
    ensures
        option_view(text) == decoded(bytes@),
{
    let text = text_of_bytes(bytes);
    proof {
        if let Some(text) = text {
            encode_utf8_decode_utf8(text@);
        }
    }
    text
}

/// Whether two byte strings are the same.
pub fn same_bytes(a: &[u8], b: &[u8]) -> (same: bool)
    ensures
        same == (a@ == b@),
{
    if a.len() != b.len() {
        return false;
    }
    let mut i: usize = 0;
    while i < a.len()
        invariant
            i <= a@.len(),
            a@.len() == b@.len(),
            forall|j: int| 0 <= j < i ==> a@[j] == b@[j],
        decreases a@.len() - i,
    {
        if a[i] != b[i] {
            return false;
        }
        i = i + 1;
    }
    assert(a@ == b@);
    true
}

} // verus!
