//! What the chunks of a document have in common: they cover it, overlap, and have bounded sizes.

use vstd::prelude::*;
use vstd::utf8::*;

use crate::index::breaks;
use crate::index::chunker::{CHARS_PER_TOKEN, MIN_CHUNK_CHARS};
use crate::index::chunker;
use crate::text;

verus! {

broadcast use vstd::utf8::encode_utf8_valid_utf8;

/// Consecutive spans from `start` to the end of an encoding: each starts after the one before it
/// started, inside it or at its end, repeats at most `overlap` bytes of it, and ends after it.
pub open spec fn covers(bytes: Seq<u8>, s: Seq<(int, int)>, overlap: int, start: int) -> bool {
    &&& s.len() > 0
    &&& s[0].0 == start
    &&& s.last().1 == bytes.len()
    &&& forall|i: int|
        0 <= i < s.len() ==> {
            &&& 0 <= (#[trigger] s[i]).0 <= s[i].1 <= bytes.len()
            &&& is_char_boundary(bytes, s[i].0)
            &&& is_char_boundary(bytes, s[i].1)
            &&& bytes.len() > 0 ==> s[i].0 < s[i].1
        }
    &&& forall|i: int, j: int|
        #![trigger s[i], s[j]]
        0 <= i < s.len() && j == i + 1 && j < s.len() ==> {
            &&& s[i].0 < s[j].0 <= s[i].1 < s[j].1
            &&& s[i].1 - s[j].0 <= overlap
        }
}

/// A chunk ends after the one before it.
proof fn lemma_ends_increase(
    bytes: Seq<u8>,
    points: Seq<(int, int)>,
    size: int,
    overlap: int,
    start: int,
    prev_end: int,
)
    requires
        valid_utf8(bytes),
        size > 0,
        0 <= overlap < size,
        100 * overlap <= 15 * size + 200,
        0 <= start <= prev_end < bytes.len(),
        prev_end - start <= overlap,
    ensures
        chunker::chunk_end(bytes, points, size, start, prev_end) > prev_end,
{
    let len = bytes.len() as int;
    let floor = chunker::min_pos(start, prev_end);
    if len - start <= size {
    } else if len - (start + size) >= MIN_CHUNK_CHARS {
        breaks::lemma_break_pos(bytes, points, start, start + size, floor);
    } else if len - start >= 2 * MIN_CHUNK_CHARS {
        breaks::lemma_break_pos(bytes, points, start, len - MIN_CHUNK_CHARS, floor);
    }
}

proof fn lemma_spans_cover(
    bytes: Seq<u8>,
    points: Seq<(int, int)>,
    size: int,
    overlap: int,
    start: int,
    prev_end: int,
)
    requires
        valid_utf8(bytes),
        size > 0,
        0 <= overlap < size,
        100 * overlap <= 15 * size + 200,
        0 <= start <= prev_end < bytes.len(),
        start < bytes.len(),
        prev_end - start <= overlap,
        is_char_boundary(bytes, start),
    ensures
        covers(
            bytes,
            chunker::spans_from(bytes, points, size, overlap, start, prev_end),
            overlap,
            start,
        ),
        chunker::spans_from(bytes, points, size, overlap, start, prev_end)[0].1 > prev_end,
    decreases bytes.len() - start,
{
    let s = chunker::spans_from(bytes, points, size, overlap, start, prev_end);
    let end = chunker::chunk_end(bytes, points, size, start, prev_end);
    chunker::lemma_chunk_end(bytes, points, size, start, prev_end);
    lemma_ends_increase(bytes, points, size, overlap, start, prev_end);
    if end < bytes.len() {
        let next = chunker::next_start(bytes, overlap, start, end);
        chunker::lemma_next_start(bytes, overlap, start, end);
        lemma_spans_cover(bytes, points, size, overlap, next, end);
        let rest = chunker::spans_from(bytes, points, size, overlap, next, end);
        assert(s =~= seq![(start, end)] + rest);
        assert(s.last() == rest.last());
        assert forall|i: int| 0 < i < s.len() implies s[i] == rest[i - 1] by {}
        assert forall|i: int, j: int|
            #![trigger s[i], s[j]]
            0 <= i < s.len() && j == i + 1 && j < s.len() implies {
            &&& s[i].0 < s[j].0 <= s[i].1 < s[j].1
            &&& s[i].1 - s[j].0 <= overlap
        } by {
            if i > 0 {
                assert(s[i] == rest[i - 1]);
                assert(s[j] == rest[j - 1]);
            }
        }
    }
}

/// The overlap is a fixed part of the chunk size, up to rounding.
proof fn lemma_overlap(tokens: nat)
    requires
        tokens > 0,
    ensures
        ({
            let size = tokens * CHARS_PER_TOKEN;
            let overlap = chunker::overlap_tokens(tokens) * CHARS_PER_TOKEN;
            0 <= overlap < size && 100 * overlap <= 15 * size + 200
        }),
{
}

/// The chunks of a document cover it: the first starts at its start, the last ends at its end,
/// each starts inside the one before it or at its end, and repeats at most the overlap of it.
/// Starts and ends grow from chunk to chunk, and all of them are character boundaries.
pub proof fn law_chunks_cover(doc: Seq<char>, tokens: nat)
    requires
        tokens > 0,
    ensures
        covers(
            encode_utf8(doc),
            chunker::spans(doc, tokens),
            (chunker::overlap_tokens(tokens) * CHARS_PER_TOKEN) as int,
            0,
        ),
{
    let bytes = encode_utf8(doc);
    is_char_boundary_start_end_of_seq(bytes);
    lemma_overlap(tokens);
    if bytes.len() > tokens * CHARS_PER_TOKEN {
        let overlap = chunker::overlap_tokens(tokens) * CHARS_PER_TOKEN;
        let points = breaks::break_points(text::lines::lines(doc), 0, false);
        let size = tokens * CHARS_PER_TOKEN;
        lemma_first_spans_cover(bytes, points, size as int, overlap as int);
    }
}

/// The first chunk has no chunk before it.
proof fn lemma_first_spans_cover(
    bytes: Seq<u8>,
    points: Seq<(int, int)>,
    size: int,
    overlap: int,
)
    requires
        valid_utf8(bytes),
        size > 0,
        0 <= overlap < size,
        100 * overlap <= 15 * size + 200,
        bytes.len() > 0,
    ensures
        covers(bytes, chunker::spans_from(bytes, points, size, overlap, 0, 0), overlap, 0),
{
    is_char_boundary_start_end_of_seq(bytes);
    lemma_spans_cover(bytes, points, size, overlap, 0, 0);
}

/// No byte of a document is lost: each lies in one of the chunks.
pub proof fn law_every_byte_in_a_chunk(doc: Seq<char>, tokens: nat, p: int)
    requires
        tokens > 0,
        0 <= p < text::utf8_len(doc),
    ensures
        exists|i: int|
            #![trigger chunker::spans(doc, tokens)[i]]
            0 <= i < chunker::spans(doc, tokens).len() && chunker::spans(doc, tokens)[i].0 <= p
                < chunker::spans(doc, tokens)[i].1,
{
    law_chunks_cover(doc, tokens);
    let s = chunker::spans(doc, tokens);
    let overlap = (chunker::overlap_tokens(tokens) * CHARS_PER_TOKEN) as int;
    lemma_find_span(encode_utf8(doc), s, overlap, 0, p, 0);
}

/// Among spans that cover everything from `start` on, one holds `p`.
proof fn lemma_find_span(
    bytes: Seq<u8>,
    s: Seq<(int, int)>,
    overlap: int,
    start: int,
    p: int,
    k: int,
)
    requires
        covers(bytes, s, overlap, start),
        0 <= k < s.len(),
        s[k].0 <= p < bytes.len(),
    ensures
        exists|i: int| #![trigger s[i]] 0 <= i < s.len() && s[i].0 <= p < s[i].1,
    decreases s.len() - k,
{
    if p >= s[k].1 {
        if k + 1 < s.len() {
            assert(s[k + 1].0 <= s[k].1);
            lemma_find_span(bytes, s, overlap, start, p, k + 1);
        }
    }
}

/// A character boundary is at most three bytes away.
proof fn lemma_boundary_near(bytes: Seq<u8>, p: int)
    requires
        valid_utf8(bytes),
        0 <= p <= bytes.len(),
    ensures
        exists|q: int| p <= q <= p + 3 && q <= bytes.len() && is_char_boundary(bytes, q),
    decreases bytes.len(),
{
    is_char_boundary_start_end_of_seq(bytes);
    if p == 0 {
        assert(is_char_boundary(bytes, 0));
    } else {
        let tail = pop_first_scalar(bytes);
        let l = length_of_first_scalar(bytes);
        is_char_boundary_start_end_of_seq(tail);
        if p <= l {
            assert(is_char_boundary(bytes, l));
        } else {
            lemma_boundary_near(tail, p - l);
            let q = choose|q: int|
                p - l <= q <= p - l + 3 && q <= tail.len() && is_char_boundary(tail, q);
            assert(is_char_boundary(bytes, q + l));
        }
    }
}

/// Aligning moves by at most three bytes.
proof fn lemma_aligned_near(bytes: Seq<u8>, p: int)
    requires
        valid_utf8(bytes),
        0 <= p <= bytes.len(),
    ensures
        breaks::aligned(bytes, p) <= p + 3,
{
    lemma_boundary_near(bytes, p);
    breaks::lemma_aligned(bytes, p);
}

/// Every offset into the encoding of an ASCII text is a character boundary.
proof fn lemma_ascii_aligned(doc: Seq<char>, p: int)
    requires
        is_ascii_chars(doc),
        0 <= p <= text::utf8_len(doc),
    ensures
        breaks::aligned(encode_utf8(doc), p) == p,
{
    let bytes = encode_utf8(doc);
    is_ascii_chars_encode_utf8(doc);
    if p < bytes.len() {
        assert(doc[p] as u8 == bytes[p]);
        is_char_boundary_iff_not_is_continuation_byte(bytes, p);
    }
}

/// All spans are at least as long as the minimum; all but the last are at most `size` plus `slack`
/// long; the last is at most `size` long, or shorter than two minimal chunks.
pub open spec fn sized(s: Seq<(int, int)>, size: int, slack: int) -> bool {
    &&& forall|i: int| 0 <= i < s.len() ==> (#[trigger] s[i]).1 - s[i].0 >= MIN_CHUNK_CHARS
    &&& forall|i: int| 0 <= i < s.len() - 1 ==> (#[trigger] s[i]).1 - s[i].0 <= size + slack
    &&& s.last().1 - s.last().0 <= size || s.last().1 - s.last().0 < 2 * MIN_CHUNK_CHARS
}

/// Each span repeats `overlap` bytes of the one before it, or up to `slack` fewer.
pub open spec fn repeats(s: Seq<(int, int)>, overlap: int, slack: int) -> bool {
    forall|i: int, j: int|
        #![trigger s[i], s[j]]
        0 <= i < s.len() && j == i + 1 && j < s.len() ==> overlap - slack <= s[i].1 - s[j].0
            <= overlap
}

proof fn lemma_spans_sized(
    bytes: Seq<u8>,
    points: Seq<(int, int)>,
    size: int,
    overlap: int,
    start: int,
    prev_end: int,
    slack: int,
)
    requires
        valid_utf8(bytes),
        size >= MIN_CHUNK_CHARS,
        15 * size - 200 <= 100 * overlap <= 15 * size + 200,
        0 <= start,
        bytes.len() - start >= MIN_CHUNK_CHARS,
        0 <= slack <= 3,
        forall|p: int|
            0 <= p <= bytes.len() ==> (#[trigger] breaks::aligned(bytes, p)) <= p + slack,
    ensures
        sized(chunker::spans_from(bytes, points, size, overlap, start, prev_end), size, slack),
        repeats(chunker::spans_from(bytes, points, size, overlap, start, prev_end), overlap, slack),
        chunker::spans_from(bytes, points, size, overlap, start, prev_end).len() > 0,
        chunker::spans_from(bytes, points, size, overlap, start, prev_end)[0].0 == start,
    decreases bytes.len() - start,
{
    let len = bytes.len() as int;
    let floor = chunker::min_pos(start, prev_end);
    let s = chunker::spans_from(bytes, points, size, overlap, start, prev_end);
    let end = chunker::chunk_end(bytes, points, size, start, prev_end);
    chunker::lemma_chunk_end(bytes, points, size, start, prev_end);
    if len - start <= size {
    } else if len - (start + size) >= MIN_CHUNK_CHARS {
        breaks::lemma_break_pos(bytes, points, start, start + size, floor);
    } else if len - start >= 2 * MIN_CHUNK_CHARS {
        breaks::lemma_break_pos(bytes, points, start, len - MIN_CHUNK_CHARS, floor);
    }
    if end < len {
        let next = chunker::next_start(bytes, overlap, start, end);
        chunker::lemma_next_start(bytes, overlap, start, end);
        assert(end - overlap > start);
        breaks::lemma_aligned(bytes, end - overlap);
        assert(next == breaks::aligned(bytes, end - overlap));
        lemma_spans_sized(bytes, points, size, overlap, next, end, slack);
        let rest = chunker::spans_from(bytes, points, size, overlap, next, end);
        assert(s =~= seq![(start, end)] + rest);
        assert(s.last() == rest.last());
        assert forall|i: int| 0 < i < s.len() implies s[i] == rest[i - 1] by {}
        assert forall|i: int, j: int|
            #![trigger s[i], s[j]]
            0 <= i < s.len() && j == i + 1 && j < s.len() implies overlap - slack <= s[i].1
            - s[j].0 <= overlap by {
            if i > 0 {
                assert(s[i] == rest[i - 1]);
                assert(s[j] == rest[j - 1]);
            }
        }
    }
}

proof fn lemma_overlap_bounds(tokens: nat)
    ensures
        ({
            let size = tokens * CHARS_PER_TOKEN;
            let overlap = chunker::overlap_tokens(tokens) * CHARS_PER_TOKEN;
            15 * size - 200 <= 100 * overlap <= 15 * size + 200
        }),
{
}

/// When the chunk size is not below the minimum, no chunk of a longer document is shorter than
/// the minimum. None is longer than the chunk size by more than the three bytes that reaching a
/// character boundary can take; only the last chunk may be longer, and then it is shorter than
/// two minimal chunks. Each chunk repeats the overlap of the one before it, or up to three bytes
/// less.
pub proof fn law_chunk_sizes(doc: Seq<char>, tokens: nat)
    requires
        tokens * CHARS_PER_TOKEN >= MIN_CHUNK_CHARS,
        text::utf8_len(doc) > tokens * CHARS_PER_TOKEN,
    ensures
        sized(chunker::spans(doc, tokens), (tokens * CHARS_PER_TOKEN) as int, 3),
        repeats(
            chunker::spans(doc, tokens),
            (chunker::overlap_tokens(tokens) * CHARS_PER_TOKEN) as int,
            3,
        ),
{
    let bytes = encode_utf8(doc);
    assert forall|p: int| 0 <= p <= bytes.len() implies (#[trigger] breaks::aligned(bytes, p)) <= p
        + 3 by {
        lemma_aligned_near(bytes, p);
    }
    lemma_overlap_bounds(tokens);
    lemma_spans_sized(
        bytes,
        breaks::break_points(text::lines::lines(doc), 0, false),
        (tokens * CHARS_PER_TOKEN) as int,
        (chunker::overlap_tokens(tokens) * CHARS_PER_TOKEN) as int,
        0,
        0,
        3,
    );
}

/// The chunks of an ASCII document keep to the chunk size and repeat the overlap exactly.
pub proof fn law_ascii_chunk_sizes(doc: Seq<char>, tokens: nat)
    requires
        is_ascii_chars(doc),
        tokens * CHARS_PER_TOKEN >= MIN_CHUNK_CHARS,
        text::utf8_len(doc) > tokens * CHARS_PER_TOKEN,
    ensures
        sized(chunker::spans(doc, tokens), (tokens * CHARS_PER_TOKEN) as int, 0),
        repeats(
            chunker::spans(doc, tokens),
            (chunker::overlap_tokens(tokens) * CHARS_PER_TOKEN) as int,
            0,
        ),
{
    let bytes = encode_utf8(doc);
    assert forall|p: int| 0 <= p <= bytes.len() implies (#[trigger] breaks::aligned(bytes, p)) <= p
        + 0 by {
        lemma_ascii_aligned(doc, p);
    }
    lemma_overlap_bounds(tokens);
    lemma_spans_sized(
        bytes,
        breaks::break_points(text::lines::lines(doc), 0, false),
        (tokens * CHARS_PER_TOKEN) as int,
        (chunker::overlap_tokens(tokens) * CHARS_PER_TOKEN) as int,
        0,
        0,
        0,
    );
}

} // verus!
