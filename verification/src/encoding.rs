//! UTF-8 encoding of single characters, verified against vstd's encoding
//! specification, together with a few facts about encoded lengths that the
//! rest of the crate leans on.
use vstd::prelude::*;

verus! {

use vstd::utf8::{
    encode_scalar, encode_utf8, char_is_scalar, is_ascii_chars, is_ascii_chars_encode_utf8,
};

/// Number of bytes in the UTF-8 encoding of `c` (one to four).
pub fn utf8_len(c: char) -> (n: usize)
    ensures
        n == encode_scalar(c as u32).len(),
        1 <= n <= 4,
{
    proof {
        char_is_scalar(c);
    }
    let u = c as u32;
    if u < 0x80 {
        1
    } else if u < 0x800 {
        2
    } else if u < 0x10000 {
        3
    } else {
        4
    }
}

/// The UTF-8 encoding of `c`, as one to four bytes.
pub fn encode_char(c: char) -> (v: Vec<u8>)
    ensures
        v@ == encode_scalar(c as u32),
        1 <= v@.len() <= 4,
{
    proof {
        char_is_scalar(c);
    }
    let u = c as u32;
    let mut v: Vec<u8> = Vec::new();
    if u < 0x80 {
        v.push((u & 0x7F) as u8);
    } else if u < 0x800 {
        v.push(0xC0 | ((u >> 6) & 0x1F) as u8);
        v.push(0x80 | (u & 0x3F) as u8);
    } else if u < 0x10000 {
        v.push(0xE0 | ((u >> 12) & 0x0F) as u8);
        v.push(0x80 | ((u >> 6) & 0x3F) as u8);
        v.push(0x80 | (u & 0x3F) as u8);
    } else {
        v.push(0xF0 | ((u >> 18) & 0x7) as u8);
        v.push(0x80 | ((u >> 12) & 0x3F) as u8);
        v.push(0x80 | ((u >> 6) & 0x3F) as u8);
        v.push(0x80 | (u & 0x3F) as u8);
    }
    proof {
        assert(v@ =~= encode_scalar(c as u32));
    }
    v
}

/// The encoding of a concatenation is the concatenation of the encodings.
pub proof fn lemma_encode_concat(a: Seq<char>, b: Seq<char>)
    ensures
        encode_utf8(a + b) == encode_utf8(a) + encode_utf8(b),
    decreases a.len(),
{
    if a.len() == 0 {
        assert(a + b =~= b);
        assert(encode_utf8(a) + encode_utf8(b) =~= encode_utf8(b));
    } else {
        assert((a + b).drop_first() =~= a.drop_first() + b);
        lemma_encode_concat(a.drop_first(), b);
        assert(encode_utf8(a + b) =~= encode_utf8(a) + encode_utf8(b));
    }
}

/// A one-character sequence encodes to the character's own encoding.
pub proof fn lemma_encode_singleton(c: char)
    ensures
        encode_utf8(seq![c]) == encode_scalar(c as u32),
{
    assert(seq![c].drop_first() =~= Seq::<char>::empty());
    assert(encode_scalar(c as u32) + encode_utf8(Seq::<char>::empty()) =~= encode_scalar(
        c as u32,
    ));
}

/// A sequence of characters below `0x80` encodes to one byte per character.
pub proof fn lemma_encode_ascii_len(s: Seq<char>)
    requires
        is_ascii_chars(s),
    ensures
        encode_utf8(s).len() == s.len(),
{
    is_ascii_chars_encode_utf8(s);
}

} // verus!
