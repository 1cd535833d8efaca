//! Text as sequences of characters, with byte offsets into its UTF-8 encoding.
//!
//! A position inside a text is a byte offset, as everywhere in Rust; what a line or a word
//! consists of is stated over characters. The lemmas here connect the two.

pub mod decimal;
pub mod laws;
pub mod lines;
pub mod words;

use vstd::prelude::*;
use vstd::utf8::*;

verus! {

broadcast use vstd::utf8::encode_utf8_valid_utf8;

/// Number of bytes of the UTF-8 encoding of `s`.
pub open spec fn utf8_len(s: Seq<char>) -> nat {
    encode_utf8(s).len()
}

/// The encoding of a concatenation is the concatenation of the encodings.
pub proof fn lemma_encode_concat(a: Seq<char>, b: Seq<char>)
    ensures
        encode_utf8(a + b) == encode_utf8(a) + encode_utf8(b),
        utf8_len(a + b) == utf8_len(a) + utf8_len(b),
    decreases a.len(),
{
    if a.len() == 0 {
        assert(a + b =~= b);
        assert(encode_utf8(a) + encode_utf8(b) =~= encode_utf8(b));
    } else {
        lemma_encode_concat(a.drop_first(), b);
        assert((a + b).drop_first() =~= a.drop_first() + b);
        assert(encode_utf8(a + b) =~= encode_scalar(a[0] as u32) + (encode_utf8(a.drop_first())
            + encode_utf8(b)));
        assert(encode_utf8(a + b) =~= encode_utf8(a) + encode_utf8(b));
    }
}

/// Two texts with the same encoding are the same text.
pub proof fn lemma_encode_injective(a: Seq<char>, b: Seq<char>)
    requires
        encode_utf8(a) == encode_utf8(b),
    ensures
        a == b,
{
    encode_utf8_decode_utf8(a);
    encode_utf8_decode_utf8(b);
}

/// The end of every prefix of a text is a character boundary of its encoding.
pub proof fn lemma_prefix_boundary(s: Seq<char>, i: int)
    requires
        0 <= i <= s.len(),
    ensures
        is_char_boundary(encode_utf8(s), utf8_len(s.take(i)) as int),
        utf8_len(s.take(i)) <= utf8_len(s),
    decreases i,
{
    assert(s =~= s.take(i) + s.skip(i));
    lemma_encode_concat(s.take(i), s.skip(i));
    if i == 0 {
        assert(s.take(0) =~= Seq::<char>::empty());
    } else {
        let bytes = encode_utf8(s);
        encode_utf8_first_scalar(s);
        assert(pop_first_scalar(bytes) =~= encode_utf8(s.drop_first()));
        lemma_prefix_boundary(s.drop_first(), i - 1);
        assert(s.take(i).drop_first() =~= s.drop_first().take(i - 1));
        assert(utf8_len(s.take(i)) == encode_scalar(s[0] as u32).len() + utf8_len(
            s.drop_first().take(i - 1),
        ));
    }
}

/// A front part of `s` that is as long in bytes as the first `i` characters is made of them.
pub proof fn lemma_same_prefix(s: Seq<char>, a: Seq<char>, b: Seq<char>, i: int)
    requires
        a + b == s,
        0 <= i <= s.len(),
        utf8_len(a) == utf8_len(s.take(i)),
    ensures
        a == s.take(i),
        b == s.skip(i),
{
    lemma_encode_concat(a, b);
    lemma_encode_concat(s.take(i), s.skip(i));
    assert(s =~= s.take(i) + s.skip(i));
    assert(encode_utf8(a) =~= encode_utf8(s).take(utf8_len(a) as int));
    assert(encode_utf8(s.take(i)) =~= encode_utf8(s).take(utf8_len(a) as int));
    lemma_encode_injective(a, s.take(i));
    assert(b =~= s.skip(a.len() as int));
}

/// Byte length of a text.
pub fn byte_len(s: &str) -> (n: usize)
    ensures
        n == utf8_len(s@),
{
    s.as_bytes().len()
}

/// Splits a text at a byte offset that is a character boundary.
pub fn split_str(s: &str, at: usize) -> (r: (&str, &str))
    requires
        is_char_boundary(encode_utf8(s@), at as int),
    ensures
        r.0@ + r.1@ == s@,
        utf8_len(r.0@) == at,
        encode_utf8(r.0@) == encode_utf8(s@).subrange(0, at as int),
        encode_utf8(r.1@) == encode_utf8(s@).subrange(at as int, utf8_len(s@) as int),
{
    let (a, b) = s.split_at(at);
    proof {
        lemma_boundary_in_range(encode_utf8(s@), at as int);
        lemma_encode_concat(a@, b@);
        assert(encode_utf8(a@ + b@) =~= encode_utf8(s@));
        lemma_encode_injective(a@ + b@, s@);
    }
    (a, b)
}

/// A character boundary lies inside the encoding or at its end.
pub proof fn lemma_boundary_in_range(bytes: Seq<u8>, at: int)
    requires
        valid_utf8(bytes),
        is_char_boundary(bytes, at),
    ensures
        0 <= at <= bytes.len(),
{
    reveal_with_fuel(is_char_boundary, 2);
}

/// A character boundary of an encoding is one of each of its valid front parts that reach it.
pub proof fn lemma_boundary_of_front(bytes: Seq<u8>, from: int, to: int)
    requires
        valid_utf8(bytes),
        is_char_boundary(bytes, from),
        is_char_boundary(bytes, to),
        from <= to,
    ensures
        is_char_boundary(bytes.subrange(0, to), from),
        valid_utf8(bytes.subrange(0, to)),
{
    lemma_boundary_in_range(bytes, from);
    lemma_boundary_in_range(bytes, to);
    valid_utf8_split(bytes, to);
    let front = bytes.subrange(0, to);
    if from == to {
        is_char_boundary_start_end_of_seq(front);
    } else {
        is_char_boundary_iff_not_is_continuation_byte(bytes, from);
        is_char_boundary_iff_not_is_continuation_byte(front, from);
        assert(front[from] == bytes[from]);
    }
}

/// The part of a text between two byte offsets that are character boundaries.
pub fn slice_str(s: &str, from: usize, to: usize) -> (r: &str)
    requires
        is_char_boundary(encode_utf8(s@), from as int),
        is_char_boundary(encode_utf8(s@), to as int),
        from <= to,
    ensures
        encode_utf8(r@) == encode_utf8(s@).subrange(from as int, to as int),
{
    let (front, _) = split_str(s, to);
    proof {
        lemma_boundary_of_front(encode_utf8(s@), from as int, to as int);
    }
    let (_, r) = split_str(front, from);
    proof {
        lemma_boundary_in_range(encode_utf8(s@), to as int);
        assert(encode_utf8(r@) =~= encode_utf8(s@).subrange(from as int, to as int));
    }
    r
}

/// The characters of a text.
pub fn chars_of(s: &str) -> (v: Vec<char>)
    ensures
        v@ == s@,
{
    let mut v: Vec<char> = Vec::new();
    for c in it: s.chars()
        invariant
            v@ == it.seq().take(it.index() as int),
            it.seq() == s@,
    {
        v.push(c);
    }
    v
}

/// Number of bytes of the UTF-8 encoding of one character.
pub fn char_width(c: char) -> (n: usize)
    ensures
        n == encode_scalar(c as u32).len(),
        1 <= n <= 4,
{
    let u: u32 = c as u32;
    if u < 0x80 {
        1
    } else if u < 0x800 {
        2
    } else if u < 0x10000 {
        3
    } else {
        4
    }
}

} // verus!
