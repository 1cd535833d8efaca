//! Where each chunk starts and ends, said of the bytes of the document.

use vstd::prelude::*;
use vstd::utf8::*;

use crate::index::breaks;
use crate::index::chunker;
use crate::index::chunker::ChunkSettings;
use crate::text::lines;

verus! {

broadcast use vstd::utf8::encode_utf8_valid_utf8;

/// The overlap is 15 hundredths of the size, rounded to the nearest token, half a token up.
pub proof fn law_overlap(tokens: nat)
    ensures
        ({
            let o = chunker::overlap_tokens(tokens);
            100 * o <= 15 * tokens + 50 < 100 * o + 100
        }),
{
}

/// A chunk has 512 tokens unless another size above 0 is set.
pub proof fn law_chunk_size(settings: ChunkSettings)
    ensures
        settings.size_override == 0 ==> settings.size() == 512,
        settings.size_override > 0 ==> settings.size() == settings.size_override,
{
}

/// Where the chunk that starts at `start` ends: at the end of the document if no more than `size`
/// bytes are left. Otherwise at a break before `size` bytes, where 400 bytes or more are left after
/// those. Where fewer are left, at a break before the last 400 bytes, or at the end of the document
/// if it is less than 800 bytes away. No break lies less than 400 bytes after the start, nor at or
/// before the end of the last chunk.
pub open spec fn ends_well(
    bytes: Seq<u8>,
    points: Seq<(int, int)>,
    size: int,
    span: (int, int),
    prev_end: int,
) -> bool {
    let left = bytes.len() - span.0;
    let floor = if span.0 + 400 >= prev_end + 1 {
        span.0 + 400
    } else {
        prev_end + 1
    };
    &&& left <= size ==> span.1 == bytes.len()
    &&& left >= size + 400 && left > size ==> span.1 == breaks::break_pos(
        bytes,
        points,
        span.0,
        span.0 + size,
        floor,
    )
    &&& size < left < size + 400 && left >= 800 ==> span.1 == breaks::break_pos(
        bytes,
        points,
        span.0,
        bytes.len() - 400,
        floor,
    )
    &&& size < left < size + 400 && left < 800 ==> span.1 == bytes.len()
}

/// Where the chunk after `span` starts: at the first character boundary that is at most `overlap`
/// bytes before the end of `span`; at that end, if the boundary is not past the start of `span`.
pub open spec fn starts_well(bytes: Seq<u8>, overlap: int, span: (int, int), next: int) -> bool {
    let from = if span.1 >= overlap {
        span.1 - overlap
    } else {
        0
    };
    exists|b: int|
        {
            &&& from <= b <= bytes.len()
            &&& #[trigger] is_char_boundary(bytes, b)
            &&& forall|q: int| from <= q < b ==> !#[trigger] is_char_boundary(bytes, q)
            &&& next == if b <= span.0 {
                span.1
            } else {
                b
            }
        }
}

proof fn lemma_spans_from(
    bytes: Seq<u8>,
    points: Seq<(int, int)>,
    size: int,
    overlap: int,
    start: int,
    prev_end: int,
)
    requires
        valid_utf8(bytes),
        size > 0,
        overlap >= 0,
        0 <= start < bytes.len(),
    ensures
        ({
            let s = chunker::spans_from(bytes, points, size, overlap, start, prev_end);
            &&& s.len() > 0
            &&& s[0].0 == start
            &&& ends_well(bytes, points, size, s[0], prev_end)
            &&& forall|i: int|
                0 < i < s.len() ==> ends_well(bytes, points, size, #[trigger] s[i], s[i - 1].1)
                    && starts_well(bytes, overlap, s[i - 1], s[i].0)
            &&& forall|i: int|
                0 <= i < s.len() ==> ((#[trigger] s[i]).1 == bytes.len() <==> i == s.len() - 1)
        }),
    decreases bytes.len() - start,
{
    let s = chunker::spans_from(bytes, points, size, overlap, start, prev_end);
    let end = chunker::chunk_end(bytes, points, size, start, prev_end);
    chunker::lemma_chunk_end(bytes, points, size, start, prev_end);
    if end < bytes.len() {
        let next = chunker::next_start(bytes, overlap, start, end);
        chunker::lemma_next_start(bytes, overlap, start, end);
        let rest = chunker::spans_from(bytes, points, size, overlap, next, end);
        lemma_spans_from(bytes, points, size, overlap, next, end);
        assert(s == seq![(start, end)] + rest);
        let from = if end >= overlap {
            end - overlap
        } else {
            0
        };
        breaks::lemma_aligned(bytes, from);
        let b = breaks::aligned(bytes, from);
        assert(is_char_boundary(bytes, b));
        assert(starts_well(bytes, overlap, s[0], rest[0].0));
        assert forall|i: int| 0 < i < s.len() implies ends_well(
            bytes,
            points,
            size,
            #[trigger] s[i],
            s[i - 1].1,
        ) && starts_well(bytes, overlap, s[i - 1], s[i].0) by {
            assert(s[i] == rest[i - 1]);
            if i > 1 {
                assert(s[i - 1] == rest[i - 2]);
            }
        }
        assert forall|i: int| 0 <= i < s.len() implies ((#[trigger] s[i]).1 == bytes.len() <==> i
            == s.len() - 1) by {
            if i > 0 {
                assert(s[i] == rest[i - 1]);
            }
        }
    }
}

/// Every chunk of a document that is longer than one chunk starts and ends where the size in bytes,
/// the overlap and the break points put it, and the last chunk alone reaches the end. A document
/// that is not longer is one chunk.
pub proof fn law_chunks_start_and_end(doc: Seq<char>, tokens: nat, o: nat)
    requires
        tokens > 0,
        100 * o <= 15 * tokens + 50 < 100 * o + 100,
    ensures
        ({
            let bytes = encode_utf8(doc);
            let points = breaks::break_points(lines::lines(doc), 0, false);
            let s = chunker::spans(doc, tokens);
            &&& bytes.len() <= 4 * tokens ==> s == seq![(0int, bytes.len() as int)]
            &&& bytes.len() > 4 * tokens ==> {
                &&& s.len() > 0
                &&& s[0].0 == 0
                &&& ends_well(bytes, points, (4 * tokens) as int, s[0], 0)
                &&& forall|i: int|
                    0 < i < s.len() ==> ends_well(
                        bytes,
                        points,
                        (4 * tokens) as int,
                        #[trigger] s[i],
                        s[i - 1].1,
                    ) && starts_well(bytes, (4 * o) as int, s[i - 1], s[i].0)
                &&& forall|i: int|
                    0 <= i < s.len() ==> ((#[trigger] s[i]).1 == bytes.len() <==> i == s.len() - 1)
            }
        }),
{
    let bytes = encode_utf8(doc);
    let points = breaks::break_points(lines::lines(doc), 0, false);
    law_overlap(tokens);
    assert(o == chunker::overlap_tokens(tokens));
    if bytes.len() > 4 * tokens {
        lemma_spans_from(bytes, points, (4 * tokens) as int, (4 * o) as int, 0, 0);
    }
}

} // verus!
