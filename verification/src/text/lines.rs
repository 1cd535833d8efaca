//! Cutting a text at a character: pieces, lines, and their reassembly.

use vstd::prelude::*;
use vstd::utf8::*;

use crate::text;

verus! {

broadcast use vstd::utf8::encode_utf8_valid_utf8;

/// Index of the first `c` in `s`; the length of `s` when there is none.
pub open spec fn find(s: Seq<char>, c: char) -> int
    decreases s.len(),
{
    if s.len() == 0 || s[0] == c {
        0
    } else {
        1 + find(s.skip(1), c)
    }
}

/// `find` stops at the first occurrence, and only there.
pub proof fn lemma_find(s: Seq<char>, c: char)
    ensures
        0 <= find(s, c) <= s.len(),
        find(s, c) < s.len() ==> s[find(s, c)] == c,
        forall|j: int| 0 <= j < find(s, c) ==> s[j] != c,
    decreases s.len(),
{
    if s.len() == 0 || s[0] == c {
    } else {
        lemma_find(s.skip(1), c);
        assert forall|j: int| 0 <= j < find(s, c) implies s[j] != c by {
            if j > 0 {
                assert(s[j] == s.skip(1)[j - 1]);
            }
        }
    }
}

/// Whatever is the first occurrence is what `find` gives.
pub proof fn lemma_find_is(s: Seq<char>, c: char, i: int)
    requires
        0 <= i <= s.len(),
        i < s.len() ==> s[i] == c,
        forall|j: int| 0 <= j < i ==> s[j] != c,
    ensures
        find(s, c) == i,
{
    lemma_find(s, c);
    if find(s, c) < i {
        assert(s[find(s, c)] != c);
    }
}

/// The pieces of `s` between the occurrences of `c`: one more than there are occurrences.
pub open spec fn split(s: Seq<char>, c: char) -> Seq<Seq<char>>
    decreases s.len(),
    via split_decreases
{
    let i = find(s, c);
    if i >= s.len() {
        seq![s]
    } else {
        seq![s.take(i)] + split(s.skip(i + 1), c)
    }
}

#[via_fn]
proof fn split_decreases(s: Seq<char>, c: char) {
    lemma_find(s, c);
}

/// `parts` put together with `sep` between neighbours.
pub open spec fn join(parts: Seq<Seq<char>>, sep: Seq<char>) -> Seq<char>
    decreases parts.len(),
{
    if parts.len() == 0 {
        Seq::empty()
    } else if parts.len() == 1 {
        parts[0]
    } else {
        parts[0] + sep + join(parts.skip(1), sep)
    }
}

/// A line without the carriage return that ends it, if one does.
pub open spec fn strip_carriage_return(line: Seq<char>) -> Seq<char> {
    if line.len() > 0 && line.last() == '\r' {
        line.drop_last()
    } else {
        line
    }
}

/// The lines of `s`: each ends at a line feed or at the end of the text; the line ending, a line
/// feed with the carriage return before it if there is one, is no part of the line.
pub open spec fn lines(s: Seq<char>) -> Seq<Seq<char>>
    decreases s.len(),
    via lines_decreases
{
    let i = find(s, '\n');
    if s.len() == 0 {
        Seq::empty()
    } else if i >= s.len() {
        seq![s]
    } else {
        seq![strip_carriage_return(s.take(i))] + lines(s.skip(i + 1))
    }
}

#[via_fn]
proof fn lines_decreases(s: Seq<char>) {
    lemma_find(s, '\n');
}

/// The characters of each of `parts`.
pub open spec fn views(parts: Seq<&str>) -> Seq<Seq<char>> {
    parts.map_values(|p: &str| p@)
}

/// The characters of each of `parts`.
pub open spec fn texts(parts: Seq<String>) -> Seq<Seq<char>> {
    parts.map_values(|p: String| p@)
}

/// A one-character text below 128 is encoded as that one byte.
pub proof fn lemma_ascii_char(c: char)
    requires
        (c as u32) < 0x80,
    ensures
        encode_utf8(seq![c]) == seq![c as u8],
        c as u8 as u32 == c as u32,
{
    let u: u32 = c as u32;
    assert((u & 0x7f) as u8 == u as u8 && u as u8 as u32 == u) by (bit_vector)
        requires
            u < 0x80,
    ;
    assert(seq![c].drop_first() =~= Seq::<char>::empty());
    assert(encode_utf8(seq![c].drop_first()) =~= Seq::<u8>::empty());
    assert(encode_utf8(seq![c]) =~= seq![c as u8]);
}

/// A byte below 128 in an encoding is a whole character, and both its ends are boundaries.
pub proof fn lemma_ascii_at(s: Seq<char>, p: int) -> (i: int)
    requires
        0 <= p < text::utf8_len(s),
        encode_utf8(s)[p] < 0x80,
    ensures
        is_char_boundary(encode_utf8(s), p),
        is_char_boundary(encode_utf8(s), p + 1),
        0 <= i < s.len(),
        text::utf8_len(s.take(i)) == p,
        s[i] == encode_utf8(s)[p] as char,
{
    let bytes = encode_utf8(s);
    assert(is_leading_byte_width_1(bytes[p]));
    is_char_boundary_iff_is_leading_byte(bytes, p);
    valid_utf8_split(bytes, p);
    let front = bytes.subrange(0, p);
    let back = bytes.subrange(p, bytes.len() as int);
    let a = decode_utf8(front);
    let b = decode_utf8(back);
    decode_utf8_encode_utf8(front);
    decode_utf8_encode_utf8(back);
    text::lemma_encode_concat(a, b);
    assert(front + back =~= bytes);
    text::lemma_encode_injective(a + b, s);
    encode_utf8_first_scalar(b);
    let byte = bytes[p];
    assert(back[0] == byte);
    assert(byte & 0x7f == byte) by (bit_vector)
        requires
            byte < 0x80,
    ;
    assert(b[0] as u32 == byte as u32);
    let i = a.len() as int;
    assert(s[i] == b[0]);
    assert(s.take(i) =~= a);
    assert(s.take(i + 1) =~= a + seq![b[0]]);
    text::lemma_encode_concat(a, seq![b[0]]);
    lemma_ascii_char(b[0]);
    text::lemma_prefix_boundary(s, i + 1);
    i
}

/// A character below 128 shows up in the encoding as its own byte.
pub proof fn lemma_ascii_byte(s: Seq<char>, i: int)
    requires
        0 <= i < s.len(),
        (s[i] as u32) < 0x80,
    ensures
        text::utf8_len(s.take(i)) < text::utf8_len(s),
        encode_utf8(s)[text::utf8_len(s.take(i)) as int] as u32 == s[i] as u32,
        text::utf8_len(s.take(i + 1)) == text::utf8_len(s.take(i)) + 1,
{
    let one = seq![s[i]];
    lemma_ascii_char(s[i]);
    assert(s =~= s.take(i) + (one + s.skip(i + 1)));
    text::lemma_encode_concat(s.take(i), one + s.skip(i + 1));
    text::lemma_encode_concat(one, s.skip(i + 1));
    assert(s.take(i + 1) =~= s.take(i) + one);
    text::lemma_encode_concat(s.take(i), one);
}

/// Cuts a text at the first occurrence of an ASCII character.
pub fn split_once(s: &str, c: char) -> (r: Option<(&str, &str)>)
    requires
        (c as u32) < 0x80,
    ensures
        r is None <==> find(s@, c) == s@.len(),
        r matches Some((a, b)) ==> {
            &&& a@ == s@.take(find(s@, c))
            &&& b@ == s@.skip(find(s@, c) + 1)
            &&& 0 <= find(s@, c) < s@.len()
        },
{
    let bytes = s.as_bytes();
    let target: u8 = c as u8;
    let mut p: usize = 0;
    while p < bytes.len() && bytes[p] != target
        invariant
            p <= bytes@.len(),
            bytes@ == encode_utf8(s@),
            target as u32 == c as u32,
            (c as u32) < 0x80,
            forall|q: int| 0 <= q < p ==> bytes@[q] != target,
        decreases bytes.len() - p,
    {
        p += 1;
    }
    proof {
        assert forall|i: int| 0 <= i < s@.len() && s@[i] == c implies p <= text::utf8_len(
            s@.take(i),
        ) by {
            lemma_ascii_byte(s@, i);
        }
    }
    if p == bytes.len() {
        proof {
            assert forall|i: int| 0 <= i < s@.len() implies s@[i] != c by {
                if s@[i] == c {
                    lemma_ascii_byte(s@, i);
                }
            }
            lemma_find_is(s@, c, s@.len() as int);
        }
        return None;
    }
    let ghost mut i: int = 0;
    proof {
        i = lemma_ascii_at(s@, p as int);
    }
    let (a, rest) = text::split_str(s, p);
    proof {
        text::lemma_same_prefix(s@, a@, rest@, i);
        assert(rest@[0] == c);
        assert forall|j: int| 0 <= j < i implies s@[j] != c by {
            if s@[j] == c {
                lemma_ascii_byte(s@, j);
                assert(s@.take(i) =~= s@.take(j + 1) + s@.subrange(j + 1, i));
                text::lemma_encode_concat(s@.take(j + 1), s@.subrange(j + 1, i));
            }
        }
        lemma_find_is(s@, c, i);
        assert(rest@.take(0) =~= Seq::<char>::empty());
        lemma_ascii_byte(rest@, 0);
        text::lemma_prefix_boundary(rest@, 1);
    }
    let (head, b) = text::split_str(rest, 1);
    proof {
        text::lemma_same_prefix(rest@, head@, b@, 1);
        assert(b@ =~= s@.skip(find(s@, c) + 1));
    }
    Some((a, b))
}

/// The pieces of a text between the occurrences of an ASCII character.
pub fn split_on(s: &str, c: char) -> (parts: Vec<&str>)
    requires
        (c as u32) < 0x80,
    ensures
        views(parts@) == split(s@, c),
{
    let mut parts: Vec<&str> = Vec::new();
    let mut rest: &str = s;
    loop
        invariant_except_break
            split(s@, c) == views(parts@) + split(rest@, c),
        invariant
            (c as u32) < 0x80,
        ensures
            views(parts@) == split(s@, c),
        decreases rest@.len(),
    {
        match split_once(rest, c) {
            Some((piece, tail)) => {
                proof {
                    assert(views(parts@.push(piece)) =~= views(parts@).push(piece@));
                    assert(views(parts@) + (seq![piece@] + split(tail@, c)) =~= views(parts@).push(
                        piece@,
                    ) + split(tail@, c));
                }
                parts.push(piece);
                rest = tail;
            },
            None => {
                proof {
                    assert(views(parts@.push(rest)) =~= views(parts@).push(rest@));
                    assert(views(parts@) + seq![rest@] =~= views(parts@).push(rest@));
                }
                parts.push(rest);
                break;
            },
        }
    }
    parts
}

/// A line without the carriage return that ends it, if one does.
fn without_carriage_return(line: &str) -> (r: &str)
    ensures
        r@ == strip_carriage_return(line@),
{
    let bytes = line.as_bytes();
    let n: usize = bytes.len();
    proof {
        if line@.len() > 0 {
            let last = line@.len() - 1;
            assert(line@.take(line@.len() as int) =~= line@);
            if line@[last] == '\r' {
                lemma_ascii_byte(line@, last);
            }
        } else {
            assert(line@ =~= Seq::<char>::empty());
        }
    }
    if n > 0 && bytes[n - 1] == 13 {
        let ghost mut i: int = 0;
        proof {
            i = lemma_ascii_at(line@, n - 1);
        }
        let (front, back) = text::split_str(line, n - 1);
        proof {
            lemma_ascii_byte(line@, i);
            assert(text::utf8_len(line@.take(i + 1)) == n);
            assert(line@ =~= line@.take(i + 1) + line@.skip(i + 1));
            text::lemma_encode_concat(line@.take(i + 1), line@.skip(i + 1));
            if i + 1 < line@.len() {
                encode_utf8_first_scalar(line@.skip(i + 1));
            }
            text::lemma_same_prefix(line@, front@, back@, i);
            assert(line@.take(i) =~= line@.drop_last());
        }
        front
    } else {
        line
    }
}

/// The lines of a text.
pub fn split_lines(s: &str) -> (parts: Vec<&str>)
    ensures
        views(parts@) == lines(s@),
{
    let mut parts: Vec<&str> = Vec::new();
    let mut rest: &str = s;
    while !rest.is_empty()
        invariant_except_break
            lines(s@) == views(parts@) + lines(rest@),
        ensures
            views(parts@) == lines(s@),
        decreases rest@.len(),
    {
        match split_once(rest, '\n') {
            Some((piece, tail)) => {
                let line = without_carriage_return(piece);
                proof {
                    assert(views(parts@.push(line)) =~= views(parts@).push(line@));
                    assert(views(parts@) + (seq![line@] + lines(tail@)) =~= views(parts@).push(
                        line@,
                    ) + lines(tail@));
                }
                parts.push(line);
                rest = tail;
            },
            None => {
                proof {
                    assert(views(parts@.push(rest)) =~= views(parts@).push(rest@));
                    assert(views(parts@) + seq![rest@] =~= views(parts@).push(rest@));
                }
                parts.push(rest);
                break;
            },
        }
    }
    parts
}

/// Puts texts together with `sep` between neighbours.
pub fn join_with(parts: &Vec<String>, sep: &str) -> (r: String)
    ensures
        r@ == join(texts(parts@), sep@),
{
    let mut r: String = String::new();
    let mut i: usize = 0;
    proof {
        assert(texts(parts@).skip(0) =~= texts(parts@));
        assert(Seq::<char>::empty() + join(texts(parts@), sep@) =~= join(texts(parts@), sep@));
    }
    while i < parts.len()
        invariant
            i <= parts@.len(),
            i == 0 ==> r@ == Seq::<char>::empty(),
            i < parts@.len() ==> join(texts(parts@), sep@) == (if i == 0 {
                r@
            } else {
                r@ + sep@
            }) + join(texts(parts@).skip(i as int), sep@),
            i == parts@.len() ==> r@ == join(texts(parts@), sep@),
        decreases parts.len() - i,
    {
        proof {
            let all = texts(parts@);
            let tail = all.skip(i as int);
            assert(tail[0] == parts@[i as int]@);
            assert(tail.skip(1) =~= all.skip(i + 1));
        }
        let ghost before = if i == 0 {
            r@
        } else {
            r@ + sep@
        };
        if i > 0 {
            r.append(sep);
        }
        r.append(parts[i].as_str());
        proof {
            let tail = texts(parts@).skip(i as int);
            if i + 1 < parts@.len() {
                assert(before + (tail[0] + sep@ + join(tail.skip(1), sep@)) =~= (r@ + sep@) + join(
                    texts(parts@).skip(i + 1),
                    sep@,
                ));
            }
        }
        i += 1;
    }
    r
}

/// One text put together is that text.
pub proof fn lemma_join_one(part: Seq<char>, sep: Seq<char>)
    ensures
        join(seq![part], sep) == part,
{
}

/// Putting the pieces of a text together again gives the text.
pub proof fn law_join_of_split(s: Seq<char>, c: char)
    ensures
        join(split(s, c), seq![c]) == s,
    decreases s.len(),
{
    lemma_find(s, c);
    let i = find(s, c);
    if i < s.len() {
        let rest = split(s.skip(i + 1), c);
        law_join_of_split(s.skip(i + 1), c);
        let parts = split(s, c);
        assert(parts.skip(1) =~= rest);
        assert(s =~= s.take(i) + seq![c] + s.skip(i + 1));
        assert(rest.len() > 0);
    } else {
        lemma_join_one(s, seq![c]);
    }
}

/// There is always a piece.
pub proof fn lemma_split_not_empty(s: Seq<char>, c: char)
    ensures
        split(s, c).len() > 0,
{
}

/// Taking texts apart that were put together gives them back, where none holds the separator.
pub proof fn law_split_of_join(parts: Seq<Seq<char>>, c: char)
    requires
        parts.len() > 0,
        forall|i: int, j: int|
            0 <= i < parts.len() && 0 <= j < parts[i].len() ==> (#[trigger] parts[i][j]) != c,
    ensures
        split(join(parts, seq![c]), c) == parts,
    decreases parts.len(),
{
    let s = join(parts, seq![c]);
    lemma_find(s, c);
    if parts.len() == 1 {
        let i = find(s, c);
        if i < s.len() {
            assert(parts[0][i] == c);
        }
        assert(split(s, c) =~= parts);
    } else {
        let rest = parts.skip(1);
        let n = parts[0].len() as int;
        assert forall|i: int, j: int| 0 <= i < rest.len() && 0 <= j < rest[i].len() implies (
        #[trigger] rest[i][j]) != c by {
            assert(parts[i + 1][j] != c);
        }
        law_split_of_join(rest, c);
        assert forall|j: int| 0 <= j < n implies s[j] != c by {
            assert(s[j] == parts[0][j]);
        }
        assert(s[n] == c);
        lemma_find_is(s, c, n);
        assert(s.take(n) =~= parts[0]);
        assert(s.skip(n + 1) =~= join(rest, seq![c]));
        assert(split(s, c) =~= parts);
    }
}

} // verus!
