//! Blanks, prefixes, substrings and the order of texts.

use vstd::prelude::*;
use vstd::utf8::*;

use crate::text;

verus! {

broadcast use vstd::utf8::encode_utf8_valid_utf8;

/// The characters with the Unicode property `White_Space`.
pub open spec fn is_blank(c: char) -> bool {
    ||| '\u{9}' <= c <= '\u{d}'
    ||| c == '\u{20}'
    ||| c == '\u{85}'
    ||| c == '\u{a0}'
    ||| c == '\u{1680}'
    ||| '\u{2000}' <= c <= '\u{200a}'
    ||| c == '\u{2028}'
    ||| c == '\u{2029}'
    ||| c == '\u{202f}'
    ||| c == '\u{205f}'
    ||| c == '\u{3000}'
}

/// `s` without the blanks at its front.
pub open spec fn trim_start(s: Seq<char>) -> Seq<char>
    decreases s.len(),
{
    if s.len() > 0 && is_blank(s[0]) {
        trim_start(s.skip(1))
    } else {
        s
    }
}

/// `s` without the blanks at its end.
pub open spec fn trim_end(s: Seq<char>) -> Seq<char>
    decreases s.len(),
{
    if s.len() > 0 && is_blank(s.last()) {
        trim_end(s.drop_last())
    } else {
        s
    }
}

/// `s` without the blanks at its two ends.
pub open spec fn trim(s: Seq<char>) -> Seq<char> {
    trim_end(trim_start(s))
}

/// `s` consists of blanks.
pub open spec fn all_blank(s: Seq<char>) -> bool {
    forall|i: int| 0 <= i < s.len() ==> is_blank(#[trigger] s[i])
}

/// Nothing is left of a text after trimming exactly when it consists of blanks.
pub proof fn law_blank_texts_trim_to_nothing(s: Seq<char>)
    ensures
        trim(s).len() == 0 <==> all_blank(s),
{
    lemma_trim_start_empty(s);
    let t = trim_start(s);
    if t.len() > 0 {
        lemma_trim_start_head(s);
        lemma_trim_end_keeps(t);
    }
}

proof fn lemma_trim_start_empty(s: Seq<char>)
    ensures
        trim_start(s).len() == 0 <==> all_blank(s),
    decreases s.len(),
{
    if s.len() > 0 && is_blank(s[0]) {
        lemma_trim_start_empty(s.skip(1));
        if all_blank(s.skip(1)) {
            assert forall|i: int| 0 <= i < s.len() implies is_blank(#[trigger] s[i]) by {
                if i > 0 {
                    assert(s[i] == s.skip(1)[i - 1]);
                }
            }
        }
    }
}

proof fn lemma_trim_start_head(s: Seq<char>)
    requires
        trim_start(s).len() > 0,
    ensures
        !is_blank(trim_start(s)[0]),
    decreases s.len(),
{
    if s.len() > 0 && is_blank(s[0]) {
        lemma_trim_start_head(s.skip(1));
    }
}

proof fn lemma_trim_end_keeps(s: Seq<char>)
    requires
        s.len() > 0,
        !is_blank(s[0]),
    ensures
        trim_end(s).len() > 0,
    decreases s.len(),
{
    if is_blank(s.last()) {
        lemma_trim_end_keeps(s.drop_last());
    }
}

/// Whether a character has the Unicode property `White_Space`.
pub fn is_whitespace(c: char) -> (b: bool)
    ensures
        b == is_blank(c),
{
    ('\u{9}' <= c && c <= '\u{d}') || c == '\u{20}' || c == '\u{85}' || c == '\u{a0}' || c
        == '\u{1680}' || ('\u{2000}' <= c && c <= '\u{200a}') || c == '\u{2028}' || c == '\u{2029}'
        || c == '\u{202f}' || c == '\u{205f}' || c == '\u{3000}'
}

/// Whether a text consists of blanks.
pub fn is_all_blank(s: &str) -> (b: bool)
    ensures
        b == all_blank(s@),
{
    let v = text::chars_of(s);
    let mut i: usize = 0;
    while i < v.len()
        invariant
            i <= v@.len(),
            v@ == s@,
            forall|j: int| 0 <= j < i ==> is_blank(#[trigger] s@[j]),
        decreases v.len() - i,
    {
        if !is_whitespace(v[i]) {
            return false;
        }
        i += 1;
    }
    true
}

/// One character more makes a prefix longer by the width of that character.
pub proof fn lemma_next_width(s: Seq<char>, i: int)
    requires
        0 <= i < s.len(),
    ensures
        text::utf8_len(s.take(i + 1)) == text::utf8_len(s.take(i)) + encode_scalar(
            s[i] as u32,
        ).len(),
{
    let one = seq![s[i]];
    assert(s.take(i + 1) =~= s.take(i) + one);
    text::lemma_encode_concat(s.take(i), one);
    assert(one.drop_first() =~= Seq::<char>::empty());
    assert(encode_utf8(one.drop_first()) =~= Seq::<u8>::empty());
    assert(encode_utf8(one) =~= encode_scalar(one[0] as u32));
}

/// `part` occurs in `s` at the character index `i`.
pub open spec fn occurs_at(s: Seq<char>, part: Seq<char>, i: int) -> bool {
    0 <= i && i + part.len() <= s.len() && s.subrange(i, i + part.len()) == part
}

/// `part` occurs somewhere in `s`.
pub open spec fn occurs_in(s: Seq<char>, part: Seq<char>) -> bool {
    exists|i: int| occurs_at(s, part, i)
}

/// Whether `part` occurs in `v` at the index `i`.
pub fn occurs_here(v: &Vec<char>, part: &Vec<char>, i: usize) -> (b: bool)
    ensures
        b == occurs_at(v@, part@, i as int),
{
    let n: usize = v.len();
    if i > n || part.len() > n - i {
        return false;
    }
    let mut k: usize = 0;
    while k < part.len()
        invariant
            k <= part@.len(),
            n == v@.len(),
            i + part@.len() <= n,
            forall|j: int| 0 <= j < k ==> v@[i + j] == part@[j],
        decreases part.len() - k,
    {
        if v[i + k] != part[k] {
            proof {
                assert(v@.subrange(i as int, i + part@.len())[k as int] == v@[i + k]);
            }
            return false;
        }
        k += 1;
    }
    proof {
        assert(v@.subrange(i as int, i + part@.len()) =~= part@);
    }
    true
}

/// Whether a text starts with `prefix`.
pub fn starts_with(s: &str, prefix: &str) -> (b: bool)
    ensures
        b == occurs_at(s@, prefix@, 0),
{
    let v = text::chars_of(s);
    let p = text::chars_of(prefix);
    occurs_here(&v, &p, 0)
}

/// Whether `part` occurs in `v`.
pub fn contains(v: &Vec<char>, part: &Vec<char>) -> (b: bool)
    ensures
        b == occurs_in(v@, part@),
{
    let mut i: usize = 0;
    loop
        invariant
            i <= v@.len(),
            forall|j: int| 0 <= j < i ==> !occurs_at(v@, part@, j),
        decreases v.len() - i,
    {
        if occurs_here(v, part, i) {
            return true;
        }
        if i == v.len() {
            return false;
        }
        i += 1;
    }
}

/// `a` with the letters `A` to `Z` replaced by `a` to `z`.
pub open spec fn ascii_lowercase(s: Seq<char>) -> Seq<char> {
    s.map_values(|c: char| ascii_lower(c))
}

/// The small letter for one of `A` to `Z`; any other character stays as it is.
pub open spec fn ascii_lower(c: char) -> char {
    if 'A' <= c <= 'Z' {
        ((c as u8 + 32) as u8) as char
    } else {
        c
    }
}

/// The characters of a text, with the letters `A` to `Z` replaced by `a` to `z`.
pub fn lowercase_chars(s: &str) -> (v: Vec<char>)
    ensures
        v@ == ascii_lowercase(s@),
{
    let raw = text::chars_of(s);
    let mut v: Vec<char> = Vec::new();
    let mut i: usize = 0;
    while i < raw.len()
        invariant
            i <= raw@.len(),
            raw@ == s@,
            v@ == ascii_lowercase(s@).take(i as int),
        decreases raw.len() - i,
    {
        let c = raw[i];
        let d = if 'A' <= c && c <= 'Z' {
            (c as u8 + 32) as char
        } else {
            c
        };
        v.push(d);
        i += 1;
        proof {
            assert(v@ =~= ascii_lowercase(s@).take(i as int));
        }
    }
    proof {
        assert(v@ =~= ascii_lowercase(s@));
    }
    v
}

/// `a` comes before `b` in the order of texts: by the first character in which they differ, or
/// as a proper front part.
pub open spec fn precedes(a: Seq<char>, b: Seq<char>) -> bool
    decreases a.len(),
{
    if b.len() == 0 {
        false
    } else if a.len() == 0 {
        true
    } else if a[0] == b[0] {
        precedes(a.skip(1), b.skip(1))
    } else {
        a[0] < b[0]
    }
}

/// Whether one text comes before another.
pub fn is_before(a: &str, b: &str) -> (r: bool)
    ensures
        r == precedes(a@, b@),
{
    let x = text::chars_of(a);
    let y = text::chars_of(b);
    let mut i: usize = 0;
    proof {
        assert(a@.skip(0) =~= a@);
        assert(b@.skip(0) =~= b@);
    }
    loop
        invariant
            i <= x@.len(),
            i <= y@.len(),
            x@ == a@,
            y@ == b@,
            precedes(a@, b@) == precedes(a@.skip(i as int), b@.skip(i as int)),
        decreases x.len() - i,
    {
        if i == y.len() {
            return false;
        }
        if i == x.len() {
            return true;
        }
        proof {
            assert(a@.skip(i as int)[0] == a@[i as int]);
            assert(b@.skip(i as int)[0] == b@[i as int]);
            assert(a@.skip(i as int).skip(1) =~= a@.skip(i + 1));
            assert(b@.skip(i as int).skip(1) =~= b@.skip(i + 1));
        }
        if x[i] != y[i] {
            return x[i] < y[i];
        }
        i += 1;
    }
}

/// Whether two texts are the same.
pub fn same(a: &str, b: &str) -> (r: bool)
    ensures
        r == (a@ == b@),
{
    let x = text::chars_of(a);
    let y = text::chars_of(b);
    if x.len() != y.len() {
        return false;
    }
    let r = occurs_here(&x, &y, 0);
    proof {
        assert(a@.subrange(0, b@.len() as int) =~= a@);
    }
    r
}

/// Two texts of which neither comes before the other are the same.
pub proof fn lemma_order_total(a: Seq<char>, b: Seq<char>)
    ensures
        a == b <==> !precedes(a, b) && !precedes(b, a),
        !(precedes(a, b) && precedes(b, a)),
    decreases a.len(),
{
    if a.len() > 0 && b.len() > 0 {
        if a[0] == b[0] {
            lemma_order_total(a.skip(1), b.skip(1));
            if a.skip(1) == b.skip(1) {
                assert(a =~= seq![a[0]] + a.skip(1));
                assert(b =~= seq![b[0]] + b.skip(1));
            }
        }
    } else if a.len() == 0 && b.len() == 0 {
        assert(a =~= b);
    }
}

/// The order of texts is transitive.
pub proof fn lemma_order_transitive(a: Seq<char>, b: Seq<char>, c: Seq<char>)
    requires
        precedes(a, b),
        precedes(b, c),
    ensures
        precedes(a, c),
    decreases a.len(),
{
    if a.len() > 0 && b.len() > 0 && c.len() > 0 && a[0] == b[0] && b[0] == c[0] {
        lemma_order_transitive(a.skip(1), b.skip(1), c.skip(1));
    }
}

/// Number of characters before the first blank.
pub open spec fn word_len(s: Seq<char>) -> int
    decreases s.len(),
{
    if s.len() == 0 || is_blank(s[0]) {
        0
    } else {
        1 + word_len(s.skip(1))
    }
}

/// The words of `s`: its longest parts without blanks, in order.
pub open spec fn words(s: Seq<char>) -> Seq<Seq<char>>
    decreases s.len(),
    via words_decreases
{
    let t = trim_start(s);
    let n = word_len(t);
    if t.len() == 0 {
        Seq::empty()
    } else {
        seq![t.take(n)] + words(t.skip(n))
    }
}

#[via_fn]
proof fn words_decreases(s: Seq<char>) {
    lemma_trim_start_skips(s);
    if trim_start(s).len() > 0 {
        lemma_trim_start_head(s);
        lemma_word_len(trim_start(s));
    }
}

/// A word ends inside its text, at a blank or at the end.
pub proof fn lemma_word_len(s: Seq<char>)
    ensures
        0 <= word_len(s) <= s.len(),
        s.len() > 0 && !is_blank(s[0]) ==> word_len(s) > 0,
        word_len(s) < s.len() ==> is_blank(s[word_len(s)]),
        forall|j: int| 0 <= j < word_len(s) ==> !is_blank(s[j]),
    decreases s.len(),
{
    if s.len() > 0 && !is_blank(s[0]) {
        lemma_word_len(s.skip(1));
        assert forall|j: int| 0 <= j < word_len(s) implies !is_blank(s[j]) by {
            if j > 0 {
                assert(s[j] == s.skip(1)[j - 1]);
            }
        }
    }
}

/// Trimming the front drops some characters and nothing else.
pub proof fn lemma_trim_start_skips(s: Seq<char>)
    ensures
        trim_start(s).len() <= s.len(),
        trim_start(s) == s.skip(s.len() - trim_start(s).len()),
    decreases s.len(),
{
    if s.len() > 0 && is_blank(s[0]) {
        lemma_trim_start_skips(s.skip(1));
        assert(s.skip(1).skip(s.skip(1).len() - trim_start(s).len()) =~= s.skip(
            s.len() - trim_start(s).len(),
        ));
    } else {
        assert(s.skip(0) =~= s);
    }
}

/// Cuts the first word off a text that starts with one.
fn cut_word(s: &str) -> (r: (&str, &str))
    ensures
        r.0@ == s@.take(word_len(s@)),
        r.1@ == s@.skip(word_len(s@)),
{
    let v = text::chars_of(s);
    let total: usize = text::byte_len(s);
    let mut k: usize = 0;
    let mut off: usize = 0;
    proof {
        assert(s@.take(0) =~= Seq::<char>::empty());
        assert(s@.skip(0) =~= s@);
    }
    while k < v.len() && !is_whitespace(v[k])
        invariant
            k <= v@.len(),
            v@ == s@,
            total == text::utf8_len(s@),
            off == text::utf8_len(s@.take(k as int)),
            word_len(s@) == k + word_len(s@.skip(k as int)),
        decreases v.len() - k,
    {
        proof {
            lemma_next_width(s@, k as int);
            text::lemma_prefix_boundary(s@, k + 1);
            assert(s@.skip(k as int)[0] == s@[k as int]);
            assert(s@.skip(k as int).skip(1) =~= s@.skip(k + 1));
        }
        off += text::char_width(v[k]);
        k += 1;
    }
    proof {
        text::lemma_prefix_boundary(s@, k as int);
        if k < v.len() {
            assert(s@.skip(k as int)[0] == s@[k as int]);
        }
    }
    let (word, rest) = text::split_str(s, off);
    proof {
        text::lemma_same_prefix(s@, word@, rest@, k as int);
    }
    (word, rest)
}

/// A text without the blanks at its front.
fn trimmed_start(s: &str) -> (r: &str)
    ensures
        r@ == trim_start(s@),
{
    let v = text::chars_of(s);
    let total: usize = text::byte_len(s);
    let mut lo: usize = 0;
    let mut off: usize = 0;
    proof {
        assert(s@.skip(0) =~= s@);
        assert(s@.take(0) =~= Seq::<char>::empty());
    }
    while lo < v.len() && is_whitespace(v[lo])
        invariant
            lo <= v@.len(),
            v@ == s@,
            off == text::utf8_len(s@.take(lo as int)),
            total == text::utf8_len(s@),
            trim_start(s@) == trim_start(s@.skip(lo as int)),
        decreases v.len() - lo,
    {
        proof {
            lemma_next_width(s@, lo as int);
            text::lemma_prefix_boundary(s@, lo + 1);
            assert(s@.skip(lo as int).skip(1) =~= s@.skip(lo + 1));
            assert(s@.skip(lo as int)[0] == s@[lo as int]);
        }
        off += text::char_width(v[lo]);
        lo += 1;
    }
    proof {
        text::lemma_prefix_boundary(s@, lo as int);
        if lo < v.len() {
            assert(s@.skip(lo as int)[0] == s@[lo as int]);
        }
    }
    let (front, rest) = text::split_str(s, off);
    proof {
        text::lemma_same_prefix(s@, front@, rest@, lo as int);
    }
    rest
}

/// A text without the blanks at its end.
fn trimmed_end(s: &str) -> (r: &str)
    ensures
        r@ == trim_end(s@),
{
    let v = text::chars_of(s);
    let mut len: usize = v.len();
    let mut end: usize = text::byte_len(s);
    proof {
        assert(s@.take(len as int) =~= s@);
    }
    while len > 0 && is_whitespace(v[len - 1])
        invariant
            len <= v@.len(),
            v@ == s@,
            end == text::utf8_len(s@.take(len as int)),
            trim_end(s@) == trim_end(s@.take(len as int)),
        decreases len,
    {
        proof {
            lemma_next_width(s@, len - 1);
            assert(s@.take(len as int).drop_last() =~= s@.take(len - 1));
            assert(s@.take(len as int).last() == s@[len - 1]);
        }
        end -= text::char_width(v[len - 1]);
        len -= 1;
    }
    proof {
        text::lemma_prefix_boundary(s@, len as int);
        if len > 0 {
            assert(s@.take(len as int).last() == s@[len - 1]);
        }
    }
    let (r, tail) = text::split_str(s, end);
    proof {
        text::lemma_same_prefix(s@, r@, tail@, len as int);
    }
    r
}

/// A text without the blanks at its two ends.
pub fn trimmed(s: &str) -> (r: &str)
    ensures
        r@ == trim(s@),
{
    trimmed_end(trimmed_start(s))
}

/// The words of a text.
pub fn split_words(s: &str) -> (parts: Vec<&str>)
    ensures
        text::lines::views(parts@) == words(s@),
{
    let mut parts: Vec<&str> = Vec::new();
    let mut rest: &str = trimmed_start(s);
    proof {
        lemma_trim_start_again(s@);
    }
    while !rest.is_empty()
        invariant
            words(s@) == text::lines::views(parts@) + words(rest@),
            rest@ == trim_start(rest@),
        decreases rest@.len(),
    {
        let (word, tail) = cut_word(rest);
        proof {
            lemma_trim_start_head(rest@);
            lemma_word_len(rest@);
            lemma_trim_start_skips(tail@);
            lemma_trim_start_again(tail@);
            assert(text::lines::views(parts@.push(word)) =~= text::lines::views(parts@).push(
                word@,
            ));
            assert(text::lines::views(parts@) + (seq![word@] + words(tail@))
                =~= text::lines::views(parts@).push(word@) + words(tail@));
        }
        parts.push(word);
        rest = trimmed_start(tail);
    }
    parts
}

/// A text without blanks at its front has the same words, and trimming it again changes nothing.
proof fn lemma_trim_start_again(s: Seq<char>)
    ensures
        trim_start(trim_start(s)) == trim_start(s),
        words(trim_start(s)) == words(s),
{
    if trim_start(s).len() > 0 {
        lemma_trim_start_head(s);
    }
}

} // verus!
