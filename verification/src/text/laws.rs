//! What trimming, splitting and ordering of texts do, said of the characters.

use vstd::prelude::*;

use crate::text::decimal;
use crate::text::lines;
use crate::text::words;

verus! {

/// The blanks are these 25 characters and no others.
pub proof fn law_blanks(c: char)
    ensures
        words::is_blank(c) <==> {
            ||| c as u32 == 9 || c as u32 == 10 || c as u32 == 11 || c as u32 == 12 || c as u32
                == 13
            ||| c as u32 == 32 || c as u32 == 133 || c as u32 == 160 || c as u32 == 5760
            ||| 8192 <= c as u32 && c as u32 <= 8202
            ||| c as u32 == 8232 || c as u32 == 8233 || c as u32 == 8239 || c as u32 == 8287
            ||| c as u32 == 12288
        },
{
}

/// Trimming takes the blanks off both ends and nothing else: what is left is a part of the text,
/// all before and after it is blank, and neither its first nor its last character is.
pub proof fn law_trim_drops_outer_blanks(s: Seq<char>) -> (r: (int, int))
    ensures
        0 <= r.0 <= r.1 <= s.len(),
        words::trim(s) == s.subrange(r.0, r.1),
        forall|i: int| 0 <= i < r.0 || r.1 <= i < s.len() ==> words::is_blank(#[trigger] s[i]),
        r.0 < r.1 ==> !words::is_blank(s[r.0]) && !words::is_blank(s[r.1 - 1]),
{
    let t = words::trim_start(s);
    let a = lemma_trim_start(s);
    let b = lemma_trim_end(t);
    assert(t.take(b) =~= s.subrange(a, a + b));
    assert forall|i: int| 0 <= i < a || a + b <= i < s.len() implies words::is_blank(
        #[trigger] s[i],
    ) by {
        if i >= a {
            assert(s[i] == t[i - a]);
        }
    }
    (a, a + b)
}

proof fn lemma_trim_start(s: Seq<char>) -> (a: int)
    ensures
        0 <= a <= s.len(),
        words::trim_start(s) == s.skip(a),
        forall|i: int| 0 <= i < a ==> words::is_blank(#[trigger] s[i]),
        a < s.len() ==> !words::is_blank(s[a]),
    decreases s.len(),
{
    if s.len() > 0 && words::is_blank(s[0]) {
        let a = lemma_trim_start(s.skip(1));
        assert(s.skip(1).skip(a) =~= s.skip(a + 1));
        assert forall|i: int| 0 <= i < a + 1 implies words::is_blank(#[trigger] s[i]) by {
            if i > 0 {
                assert(s[i] == s.skip(1)[i - 1]);
            }
        }
        a + 1
    } else {
        assert(s.skip(0) =~= s);
        0
    }
}

proof fn lemma_trim_end(s: Seq<char>) -> (b: int)
    ensures
        0 <= b <= s.len(),
        words::trim_end(s) == s.take(b),
        forall|i: int| b <= i < s.len() ==> words::is_blank(#[trigger] s[i]),
        b > 0 ==> !words::is_blank(s[b - 1]),
    decreases s.len(),
{
    if s.len() > 0 && words::is_blank(s.last()) {
        let b = lemma_trim_end(s.drop_last());
        assert(s.drop_last().take(b) =~= s.take(b));
        assert forall|i: int| b <= i < s.len() implies words::is_blank(#[trigger] s[i]) by {
            if i < s.len() - 1 {
                assert(s[i] == s.drop_last()[i]);
            }
        }
        b
    } else {
        assert(s.take(s.len() as int) =~= s);
        s.len() as int
    }
}

/// Blanks around a text that has none at its ends do not change what trimming gives: that text.
pub proof fn law_trim_of_padded(front: Seq<char>, t: Seq<char>, back: Seq<char>)
    requires
        forall|i: int| 0 <= i < front.len() ==> words::is_blank(#[trigger] front[i]),
        forall|i: int| 0 <= i < back.len() ==> words::is_blank(#[trigger] back[i]),
        t.len() > 0 ==> !words::is_blank(t[0]) && !words::is_blank(t.last()),
    ensures
        words::trim(front + t + back) == t,
{
    let s = front + t + back;
    let n = front.len() as int;
    let m = n + t.len();
    let (a, b) = law_trim_drops_outer_blanks(s);
    assert(forall|i: int| 0 <= i < n ==> #[trigger] s[i] == front[i]);
    assert(forall|i: int| n <= i < m ==> #[trigger] s[i] == t[i - n]);
    assert(forall|i: int| m <= i < s.len() ==> #[trigger] s[i] == back[i - m]);
    if t.len() > 0 {
        assert(s[n] == t[0]);
        assert(s[m - 1] == t.last());
        if a < n {
            assert(words::is_blank(s[a]));
        }
        if b > m {
            assert(words::is_blank(s[b - 1]));
        }
        assert(a == n && b == m);
    } else {
        if a < b {
            if a < n {
                assert(words::is_blank(s[a]));
            } else {
                assert(words::is_blank(s[a]));
            }
        }
    }
    assert(words::trim(s) =~= t);
}

/// A text comes before another exactly if, where they first differ, its character is the smaller,
/// or if it ends there and the other goes on.
pub proof fn law_order_by_first_difference(a: Seq<char>, b: Seq<char>)
    ensures
        words::precedes(a, b) <==> exists|k: int|
            {
                &&& 0 <= k <= a.len()
                &&& k < b.len()
                &&& #[trigger] a.take(k) == b.take(k)
                &&& k < a.len() ==> a[k] < b[k]
            },
    decreases a.len(),
{
    if b.len() > 0 {
        if a.len() == 0 {
            assert(a.take(0) =~= b.take(0));
        } else if a[0] == b[0] {
            let x = a.skip(1);
            let y = b.skip(1);
            law_order_by_first_difference(x, y);
            if words::precedes(a, b) {
                let k = choose|k: int|
                    {
                        &&& 0 <= k <= x.len()
                        &&& k < y.len()
                        &&& #[trigger] x.take(k) == y.take(k)
                        &&& k < x.len() ==> x[k] < y[k]
                    };
                assert forall|j: int| 0 <= j < k + 1 implies a[j] == b[j] by {
                    if j > 0 {
                        assert(x.take(k)[j - 1] == y.take(k)[j - 1]);
                    }
                }
                assert(a.take(k + 1) =~= b.take(k + 1));
            }
            if exists|k: int|
                {
                    &&& 0 <= k <= a.len()
                    &&& k < b.len()
                    &&& #[trigger] a.take(k) == b.take(k)
                    &&& k < a.len() ==> a[k] < b[k]
                } {
                let k = choose|k: int|
                    {
                        &&& 0 <= k <= a.len()
                        &&& k < b.len()
                        &&& #[trigger] a.take(k) == b.take(k)
                        &&& k < a.len() ==> a[k] < b[k]
                    };
                assert(k > 0);
                assert forall|j: int| 0 <= j < k - 1 implies x[j] == y[j] by {
                    assert(a.take(k)[j + 1] == b.take(k)[j + 1]);
                }
                assert(x.take(k - 1) =~= y.take(k - 1));
            }
        } else {
            assert(a.take(0) =~= b.take(0));
            if exists|k: int|
                {
                    &&& 0 <= k <= a.len()
                    &&& k < b.len()
                    &&& #[trigger] a.take(k) == b.take(k)
                    &&& k < a.len() ==> a[k] < b[k]
                } {
                let k = choose|k: int|
                    {
                        &&& 0 <= k <= a.len()
                        &&& k < b.len()
                        &&& #[trigger] a.take(k) == b.take(k)
                        &&& k < a.len() ==> a[k] < b[k]
                    };
                if k > 0 {
                    assert(a.take(k)[0] == b.take(k)[0]);
                }
            }
        }
    }
}

/// The order of texts looks past any common front part, however long it is.
pub proof fn law_order_ignores_common_front(front: Seq<char>, a: Seq<char>, b: Seq<char>)
    ensures
        words::precedes(front + a, front + b) == words::precedes(a, b),
    decreases front.len(),
{
    if front.len() == 0 {
        assert(front + a =~= a);
        assert(front + b =~= b);
    } else {
        assert((front + a).skip(1) =~= front.skip(1) + a);
        assert((front + b).skip(1) =~= front.skip(1) + b);
        law_order_ignores_common_front(front.skip(1), a, b);
    }
}

/// Lower case keeps the number of characters. Each of the capital letters `A` to `Z` becomes the
/// one 32 places on, and every other character stays.
pub proof fn law_lowercase(s: Seq<char>)
    ensures
        words::ascii_lowercase(s).len() == s.len(),
        forall|i: int|
            0 <= i < s.len() ==> (#[trigger] words::ascii_lowercase(s)[i]) as u32 == if 65
                <= s[i] as u32 && s[i] as u32 <= 90 {
                s[i] as u32 + 32
            } else {
                s[i] as int
            },
        words::ascii_lowercase(words::ascii_lowercase(s)) == words::ascii_lowercase(s),
{
    assert(words::ascii_lowercase(words::ascii_lowercase(s)) =~= words::ascii_lowercase(s));
}

/// A part occurs in a text exactly if the text is that part with something before and after it.
pub proof fn law_occurs_in(s: Seq<char>, part: Seq<char>)
    ensures
        words::occurs_in(s, part) <==> exists|a: Seq<char>, b: Seq<char>|
            s == #[trigger] (a + part + b),
{
    if words::occurs_in(s, part) {
        let i = choose|i: int| words::occurs_at(s, part, i);
        let a = s.take(i);
        let b = s.skip(i + part.len());
        assert(s =~= s.take(i) + s.subrange(i, i + part.len()) + s.skip(i + part.len()));
        assert(s == a + part + b);
    }
    if exists|a: Seq<char>, b: Seq<char>| s == #[trigger] (a + part + b) {
        let (a, b) = choose|a: Seq<char>, b: Seq<char>| s == #[trigger] (a + part + b);
        let i = a.len() as int;
        assert(s.subrange(i, i + part.len()) =~= part);
        assert(words::occurs_at(s, part, i));
    }
}

/// A text of blanks has no words.
pub proof fn law_blanks_have_no_words(s: Seq<char>)
    requires
        forall|i: int| 0 <= i < s.len() ==> words::is_blank(#[trigger] s[i]),
    ensures
        words::words(s).len() == 0,
{
    let a = lemma_trim_start(s);
    if a < s.len() {
        assert(words::is_blank(s[a]));
    }
}

/// The first word is what stands after the blanks at the front, up to the next blank or the end;
/// the other words are those of the rest.
pub proof fn law_first_word(front: Seq<char>, word: Seq<char>, rest: Seq<char>)
    requires
        forall|i: int| 0 <= i < front.len() ==> words::is_blank(#[trigger] front[i]),
        word.len() > 0,
        forall|i: int| 0 <= i < word.len() ==> !words::is_blank(#[trigger] word[i]),
        rest.len() > 0 ==> words::is_blank(rest[0]),
    ensures
        words::words(front + word + rest) == seq![word] + words::words(rest),
{
    let s = front + word + rest;
    let n = front.len() as int;
    let t = words::trim_start(s);
    let a = lemma_trim_start(s);
    assert(forall|i: int| 0 <= i < n ==> #[trigger] s[i] == front[i]);
    assert(s[n] == word[0]);
    if a < n {
        assert(words::is_blank(s[a]));
    }
    assert(a == n);
    assert(t =~= word + rest);
    words::lemma_word_len(t);
    let k = words::word_len(t);
    if k < word.len() {
        assert(words::is_blank(t[k]));
        assert(t[k] == word[k]);
    }
    if k > word.len() {
        assert(t[word.len() as int] == rest[0]);
    }
    assert(t.take(k) =~= word);
    assert(t.skip(k) =~= rest);
}

/// Texts are put together in order, with the separator before each but the first.
pub proof fn law_join_adds_at_the_end(parts: Seq<Seq<char>>, part: Seq<char>, sep: Seq<char>)
    ensures
        lines::join(Seq::<Seq<char>>::empty(), sep).len() == 0,
        parts.len() == 0 ==> lines::join(parts.push(part), sep) == part,
        parts.len() > 0 ==> lines::join(parts.push(part), sep) == lines::join(parts, sep) + sep
            + part,
    decreases parts.len(),
{
    if parts.len() > 0 {
        let all = parts.push(part);
        assert(all.skip(1) =~= parts.skip(1).push(part));
        law_join_adds_at_the_end(parts.skip(1), part, sep);
        if parts.len() == 1 {
            assert(lines::join(all, sep) =~= parts[0] + sep + part);
        } else {
            assert(lines::join(all, sep) =~= parts[0] + sep + lines::join(parts.skip(1), sep) + sep
                + part);
        }
    }
}

/// A text without the separator is its only piece; otherwise the first piece is what stands
/// before the first separator, and the other pieces are those of what stands after it.
pub proof fn law_first_piece(piece: Seq<char>, c: char, rest: Seq<char>)
    requires
        forall|i: int| 0 <= i < piece.len() ==> #[trigger] piece[i] != c,
    ensures
        lines::split(piece, c) == seq![piece],
        lines::split(piece + seq![c] + rest, c) == seq![piece] + lines::split(rest, c),
{
    let s = piece + seq![c] + rest;
    let n = piece.len() as int;
    lines::lemma_find_is(piece, c, n);
    assert forall|j: int| 0 <= j < n implies s[j] != c by {
        assert(s[j] == piece[j]);
    }
    assert(s[n] == c);
    lines::lemma_find_is(s, c, n);
    assert(s.take(n) =~= piece);
    assert(s.skip(n + 1) =~= rest);
}

/// The pieces of two texts with the separator between them are those of the one and then those of
/// the other.
pub proof fn law_pieces_of_two(a: Seq<char>, c: char, b: Seq<char>)
    ensures
        lines::split(a + seq![c] + b, c) == lines::split(a, c) + lines::split(b, c),
    decreases a.len(),
{
    lines::lemma_find(a, c);
    let i = lines::find(a, c);
    let piece = a.take(i);
    assert forall|j: int| 0 <= j < piece.len() implies #[trigger] piece[j] != c by {
        assert(piece[j] == a[j]);
    }
    if i >= a.len() {
        assert(piece =~= a);
        law_first_piece(a, c, b);
    } else {
        let rest = a.skip(i + 1);
        assert(a + seq![c] + b =~= piece + seq![c] + (rest + seq![c] + b));
        law_first_piece(piece, c, rest + seq![c] + b);
        law_pieces_of_two(rest, c, b);
        assert(seq![piece] + (lines::split(rest, c) + lines::split(b, c)) =~= (seq![piece]
            + lines::split(rest, c)) + lines::split(b, c));
    }
}

/// The lines of a text: each ends at a line feed, which is no part of it, nor is one carriage
/// return before that. What stands after the last line feed is a line too unless it is empty, and
/// keeps a carriage return.
pub proof fn law_first_line(line: Seq<char>, rest: Seq<char>)
    requires
        forall|i: int| 0 <= i < line.len() ==> #[trigger] line[i] != '\n',
    ensures
        line.len() == 0 ==> lines::lines(line).len() == 0,
        line.len() > 0 ==> lines::lines(line) == seq![line],
        line.len() == 0 || line.last() != '\r' ==> lines::lines(line + seq!['\n'] + rest)
            == seq![line] + lines::lines(rest),
        lines::lines(line + seq!['\r', '\n'] + rest) == seq![line] + lines::lines(rest),
{
    let n = line.len() as int;
    lines::lemma_find_is(line, '\n', n);
    let s = line + seq!['\n'] + rest;
    assert forall|j: int| 0 <= j < n implies s[j] != '\n' by {
        assert(s[j] == line[j]);
    }
    assert(s[n] == '\n');
    lines::lemma_find_is(s, '\n', n);
    assert(s.take(n) =~= line);
    assert(s.skip(n + 1) =~= rest);
    let t = line + seq!['\r', '\n'] + rest;
    assert forall|j: int| 0 <= j < n + 1 implies t[j] != '\n' by {
        if j < n {
            assert(t[j] == line[j]);
        } else {
            assert(t[j] == '\r');
        }
    }
    assert(t[n + 1] == '\n');
    lines::lemma_find_is(t, '\n', n + 1);
    assert(t.take(n + 1) =~= line.push('\r'));
    assert(line.push('\r').drop_last() =~= line);
    assert(t.skip(n + 2) =~= rest);
}

/// A digit stands for its place in `0` to `9`; one digit more makes the number ten times as large
/// and adds that digit; a minus sign stands before a number below zero.
pub proof fn law_decimal_digits(n: nat, d: nat)
    requires
        d < 10,
    ensures
        decimal::decimal(d as int).len() == 1,
        decimal::decimal(d as int)[0] as u32 == 48 + d,
        n > 0 ==> decimal::decimal((10 * n + d) as int) == decimal::decimal(n as int)
            + decimal::decimal(d as int),
        n > 0 ==> decimal::decimal(-(n as int)) == seq!['-'] + decimal::decimal(n as int),
{
    if n > 0 {
        assert((10 * n + d) / 10 == n);
        assert((10 * n + d) % 10 == d);
        assert(decimal::decimal((10 * n + d) as int) =~= decimal::decimal(n as int)
            + decimal::decimal(d as int));
    }
}

/// A text stands for an integer if it is one digit or more, with a sign before them or none: the
/// number of the digits, or that number below zero after a minus sign. No other text does.
pub proof fn law_integer_texts(s: Seq<char>)
    ensures
        decimal::integer_value(s) is Some <==> s.len() > 0 && (forall|i: int|
            0 < i < s.len() ==> '0' <= #[trigger] s[i] <= '9') && ('0' <= s[0] <= '9' || s.len() > 1
            && (s[0] == '+' || s[0] == '-')),
        s.len() > 0 && (forall|i: int| 0 <= i < s.len() ==> '0' <= #[trigger] s[i] <= '9') ==> {
            &&& decimal::integer_value(seq!['+'] + s) == decimal::integer_value(s)
            &&& decimal::integer_value(seq!['-'] + s) == Some(-(decimal::integer_value(s)->0))
            &&& decimal::integer_value(seq!['0'] + s) == decimal::integer_value(s)
        },
{
    if s.len() > 0 && s[0] != '+' && s[0] != '-' && decimal::integer_value(s) is Some {
        assert('0' <= s[0] <= '9');
    }
    if s.len() > 0 {
        let t = s.skip(1);
        assert forall|i: int| 0 < i < s.len() implies #[trigger] s[i] == t[i - 1] by {}
        if decimal::is_digits(t) {
            assert forall|i: int| 0 < i < s.len() implies '0' <= #[trigger] s[i] <= '9' by {
                assert('0' <= t[i - 1] <= '9');
            }
        }
        if decimal::is_digits(s) {
            assert forall|i: int| 0 < i < s.len() implies '0' <= #[trigger] s[i] <= '9' by {}
        }
        if forall|i: int| 0 < i < s.len() ==> '0' <= #[trigger] s[i] <= '9' {
            assert forall|i: int| 0 <= i < t.len() implies '0' <= #[trigger] t[i] <= '9' by {
                assert(t[i] == s[i + 1]);
            }
            if '0' <= s[0] <= '9' {
                assert(decimal::is_digits(s));
            }
        }
    }
    if s.len() > 0 && (forall|i: int| 0 <= i < s.len() ==> '0' <= #[trigger] s[i] <= '9') {
        let plus = seq!['+'] + s;
        let minus = seq!['-'] + s;
        let zero = seq!['0'] + s;
        assert(plus.skip(1) =~= s);
        assert(minus.skip(1) =~= s);
        assert(plus[0] == '+' && minus[0] == '-');
        assert forall|i: int| 0 <= i < zero.len() implies '0' <= #[trigger] zero[i] <= '9' by {
            if i > 0 {
                assert(zero[i] == s[i - 1]);
            }
        }
        lemma_leading_zero(s);
    }
}

proof fn lemma_leading_zero(s: Seq<char>)
    ensures
        decimal::digits_value(seq!['0'] + s) == decimal::digits_value(s),
    decreases s.len(),
{
    let zero = seq!['0'] + s;
    if s.len() == 0 {
        assert(zero.drop_last() =~= s);
        assert(zero.last() == '0');
        assert(decimal::digits_value(zero.drop_last()) == 0);
    } else {
        lemma_leading_zero(s.drop_last());
        assert(zero.drop_last() =~= seq!['0'] + s.drop_last());
        assert(zero.last() == s.last());
    }
}

} // verus!
