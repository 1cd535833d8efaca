//! Document chunker: chunks of 512 tokens with 15% overlap, cut at scored break points.
//!
//! Token approximation: 4 bytes make 1 token.

use vstd::prelude::*;
use vstd::utf8::*;

use crate::index::breaks;
use crate::text;
use crate::text::lines;

verus! {

broadcast use vstd::utf8::encode_utf8_valid_utf8;

/// Bytes that count as one token.
pub const CHARS_PER_TOKEN: usize = 4;

/// Chunk size when no other is set.
pub const DEFAULT_CHUNK_SIZE_TOKENS: usize = 512;

/// Part of a chunk that the next one repeats.
pub const CHUNK_OVERLAP_PERCENT: usize = 15;

/// Minimum chunk size: no break is chosen that would leave a shorter chunk.
pub const MIN_CHUNK_SIZE_TOKENS: usize = 100;

/// The minimum chunk size in bytes.
pub const MIN_CHUNK_CHARS: usize = MIN_CHUNK_SIZE_TOKENS * CHARS_PER_TOKEN;

/// The chunk size that was set in place of the default; 0 stands for none.
#[derive(Debug, Clone, Copy)]
pub struct ChunkSettings {
    pub size_override: usize,
}

impl ChunkSettings {
    /// No size is set.
    pub fn new() -> (r: Self)
        ensures
            r.size_override == 0,
    {
        ChunkSettings { size_override: 0 }
    }

    /// The chunk size in tokens.
    pub open spec fn size(self) -> nat {
        if self.size_override > 0 {
            self.size_override as nat
        } else {
            DEFAULT_CHUNK_SIZE_TOKENS as nat
        }
    }
}

/// Sets the chunk size in tokens; `None` (or 0) goes back to the default.
pub fn set_chunk_size_tokens_override(settings: &mut ChunkSettings, tokens: Option<usize>)
    ensures
        final(settings).size_override == (match tokens {
            Some(n) => n,
            None => 0,
        }),
        final(settings).size() == (match tokens {
            Some(n) if n > 0 => n,
            _ => DEFAULT_CHUNK_SIZE_TOKENS,
        }),
{
    settings.size_override = match tokens {
        Some(n) => n,
        None => 0,
    };
}

/// The chunk size in tokens.
pub fn chunk_size_tokens(settings: &ChunkSettings) -> (n: usize)
    ensures
        n == settings.size(),
        n > 0,
{
    if settings.size_override > 0 {
        settings.size_override
    } else {
        DEFAULT_CHUNK_SIZE_TOKENS
    }
}

/// Tokens that one chunk repeats of the one before it.
pub open spec fn overlap_tokens(size: nat) -> nat {
    ((size * CHUNK_OVERLAP_PERCENT + 50) / 100) as nat
}

/// Tokens that one chunk repeats of the one before it: 15% of the size, rounded to the nearest.
pub fn chunk_overlap_tokens(chunk_size_tokens: usize) -> (n: usize)
    requires
        chunk_size_tokens * CHUNK_OVERLAP_PERCENT + 50 <= usize::MAX,
    ensures
        n == overlap_tokens(chunk_size_tokens as nat),
{
    ((chunk_size_tokens * CHUNK_OVERLAP_PERCENT) + 50) / 100
}

/// One piece of a document.
#[derive(Debug, Clone)]
pub struct Chunk {
    pub seq: usize,
    /// Byte offset of this chunk's start in the original document.
    pub pos: usize,
    pub text: String,
}

/// The first position at which the chunk that starts at `start` may be cut.
pub open spec fn min_pos(start: int, prev_end: int) -> int {
    if start + MIN_CHUNK_CHARS > prev_end + 1 {
        start + MIN_CHUNK_CHARS
    } else {
        prev_end + 1
    }
}

/// End of the chunk that starts at `start`, after a chunk that ended at `prev_end`.
pub open spec fn chunk_end(
    bytes: Seq<u8>,
    points: Seq<(int, int)>,
    size: int,
    start: int,
    prev_end: int,
) -> int {
    let len = bytes.len() as int;
    let floor = min_pos(start, prev_end);
    if len - start <= size {
        len
    } else if len - (start + size) >= MIN_CHUNK_CHARS {
        breaks::break_pos(bytes, points, start, start + size, floor)
    } else if len - start >= 2 * MIN_CHUNK_CHARS {
        breaks::break_pos(bytes, points, start, len - MIN_CHUNK_CHARS, floor)
    } else {
        len
    }
}

/// Start of the chunk after the one from `start` to `end`.
pub open spec fn next_start(bytes: Seq<u8>, overlap: int, start: int, end: int) -> int {
    let back = breaks::aligned(
        bytes,
        if end > overlap {
            end - overlap
        } else {
            0
        },
    );
    if back <= start {
        end
    } else {
        back
    }
}

/// Start and end of each chunk, from the one that starts at `start` on.
pub open spec fn spans_from(
    bytes: Seq<u8>,
    points: Seq<(int, int)>,
    size: int,
    overlap: int,
    start: int,
    prev_end: int,
) -> Seq<(int, int)>
    decreases bytes.len() - start,
    when valid_utf8(bytes) && size > 0 && overlap >= 0 && start >= 0
    via spans_from_decreases
{
    if start >= bytes.len() {
        Seq::empty()
    } else {
        let end = chunk_end(bytes, points, size, start, prev_end);
        if end >= bytes.len() {
            seq![(start, end)]
        } else {
            seq![(start, end)] + spans_from(
                bytes,
                points,
                size,
                overlap,
                next_start(bytes, overlap, start, end),
                end,
            )
        }
    }
}

#[via_fn]
proof fn spans_from_decreases(
    bytes: Seq<u8>,
    points: Seq<(int, int)>,
    size: int,
    overlap: int,
    start: int,
    prev_end: int,
) {
    if start < bytes.len() {
        lemma_chunk_end(bytes, points, size, start, prev_end);
        lemma_next_start(
            bytes,
            overlap,
            start,
            chunk_end(bytes, points, size, start, prev_end),
        );
    }
}

/// Start and end, as byte offsets, of each chunk of a document cut to `tokens` tokens.
pub open spec fn spans(doc: Seq<char>, tokens: nat) -> Seq<(int, int)> {
    let bytes = encode_utf8(doc);
    let size = tokens * CHARS_PER_TOKEN;
    let overlap = overlap_tokens(tokens) * CHARS_PER_TOKEN;
    if bytes.len() <= size {
        seq![(0, bytes.len() as int)]
    } else {
        spans_from(bytes, breaks::break_points(lines::lines(doc), 0, false), size, overlap, 0, 0)
    }
}

/// `chunk` is number `i` of a document, and covers `span`.
pub open spec fn is_chunk(doc: Seq<char>, span: (int, int), i: int, chunk: Chunk) -> bool {
    &&& chunk.seq == i
    &&& chunk.pos == span.0
    &&& encode_utf8(chunk.text@) == encode_utf8(doc).subrange(span.0, span.1)
}

/// A chunk ends after its start, at a character boundary.
pub proof fn lemma_chunk_end(
    bytes: Seq<u8>,
    points: Seq<(int, int)>,
    size: int,
    start: int,
    prev_end: int,
)
    requires
        valid_utf8(bytes),
        size > 0,
        0 <= start < bytes.len(),
    ensures
        start < chunk_end(bytes, points, size, start, prev_end) <= bytes.len(),
        is_char_boundary(bytes, chunk_end(bytes, points, size, start, prev_end)),
{
    let len = bytes.len() as int;
    let floor = min_pos(start, prev_end);
    is_char_boundary_start_end_of_seq(bytes);
    if len - start <= size {
    } else if len - (start + size) >= MIN_CHUNK_CHARS {
        breaks::lemma_break_pos(bytes, points, start, start + size, floor);
    } else if len - start >= 2 * MIN_CHUNK_CHARS {
        breaks::lemma_break_pos(bytes, points, start, len - MIN_CHUNK_CHARS, floor);
    }
}

/// The next chunk starts after this one does, at most at its end, at a character boundary.
pub proof fn lemma_next_start(bytes: Seq<u8>, overlap: int, start: int, end: int)
    requires
        valid_utf8(bytes),
        overlap >= 0,
        0 <= start < end <= bytes.len(),
        is_char_boundary(bytes, end),
    ensures
        start < next_start(bytes, overlap, start, end) <= end,
        next_start(bytes, overlap, start, end) >= end - overlap,
        is_char_boundary(bytes, next_start(bytes, overlap, start, end)),
{
    breaks::lemma_aligned(
        bytes,
        if end > overlap {
            end - overlap
        } else {
            0
        },
    );
}

/// The first position at which the chunk that starts at `start` may be cut: it must not be below
/// the minimum size, nor end where the chunk before it did.
fn min_break_pos(start: usize, prev_end: usize) -> (p: usize)
    requires
        start + MIN_CHUNK_CHARS <= usize::MAX,
        prev_end < usize::MAX,
    ensures
        p == min_pos(start as int, prev_end as int),
{
    let floor: usize = start + MIN_CHUNK_CHARS;
    if floor > prev_end + 1 {
        floor
    } else {
        prev_end + 1
    }
}

/// Cuts a document into overlapping chunks.
pub fn chunk_document(settings: &ChunkSettings, doc: &str) -> (chunks: Vec<Chunk>)
    requires
        settings.size() * CHUNK_OVERLAP_PERCENT + 50 <= usize::MAX,
    ensures
        chunks@.len() == spans(doc@, settings.size()).len(),
        forall|i: int|
            0 <= i < chunks@.len() ==> is_chunk(
                doc@,
                spans(doc@, settings.size())[i],
                i,
                #[trigger] chunks@[i],
            ),
        forall|i: int|
            0 <= i < chunks@.len() ==> (#[trigger] chunks@[i]).seq == i && chunks@[i].pos == spans(
                doc@,
                settings.size(),
            )[i].0 && encode_utf8(chunks@[i].text@) == encode_utf8(doc@).subrange(
                chunks@[i].pos as int,
                spans(doc@, settings.size())[i].1,
            ),
{
    let tokens: usize = chunk_size_tokens(settings);
    let size: usize = tokens * CHARS_PER_TOKEN;
    let overlap: usize = chunk_overlap_tokens(tokens) * CHARS_PER_TOKEN;
    let len: usize = text::byte_len(doc);
    let ghost bytes = encode_utf8(doc@);
    let mut chunks: Vec<Chunk> = Vec::new();
    if len <= size {
        let chunk = Chunk { seq: 0, pos: 0, text: doc.to_owned() };
        proof {
            assert(bytes.subrange(0, len as int) =~= bytes);
        }
        chunks.push(chunk);
        return chunks;
    }
    let points = breaks::precompute_break_points(doc);
    let ghost all = breaks::point_ints(points@);
    let ghost full = spans(doc@, settings.size());
    let mut start: usize = 0;
    let mut prev_end: usize = 0;
    proof {
        is_char_boundary_start_end_of_seq(bytes);
        assert(full.skip(0) =~= full);
    }
    loop
        invariant_except_break
            start < len,
            prev_end < len,
            full.skip(chunks@.len() as int) == spans_from(
                bytes,
                all,
                size as int,
                overlap as int,
                start as int,
                prev_end as int,
            ),
        invariant
            bytes == encode_utf8(doc@),
            len == bytes.len(),
            size > 0,
            0 <= start <= len,
            is_char_boundary(bytes, start as int),
            all == breaks::point_ints(points@),
            chunks@.len() <= full.len(),
            forall|i: int|
                0 <= i < chunks@.len() ==> is_chunk(doc@, full[i], i, #[trigger] chunks@[i]),
        ensures
            chunks@.len() == full.len(),
        decreases len - start,
    {
        let tail: usize = len - start;
        let end: usize = if tail <= size {
            len
        } else {
            let naive_target: usize = start + size;
            if len - naive_target >= MIN_CHUNK_CHARS {
                let floor: usize = min_break_pos(start, prev_end);
                breaks::best_break(doc, &points, start, naive_target, floor)
            } else if tail >= 2 * MIN_CHUNK_CHARS {
                let floor: usize = min_break_pos(start, prev_end);
                breaks::best_break(doc, &points, start, len - MIN_CHUNK_CHARS, floor)
            } else {
                len
            }
        };
        proof {
            lemma_chunk_end(bytes, all, size as int, start as int, prev_end as int);
            let k = chunks@.len() as int;
            let rest = full.skip(k);
            assert(rest.len() > 0 && rest[0] == (start as int, end as int));
            assert(rest.len() == full.len() - k);
            assert(full[k] == rest[0]);
            assert(full.skip(k + 1) =~= rest.skip(1));
            if end < len {
                assert(rest.skip(1) =~= spans_from(
                    bytes,
                    all,
                    size as int,
                    overlap as int,
                    next_start(bytes, overlap as int, start as int, end as int),
                    end as int,
                ));
            }
        }
        chunks.push(
            Chunk {
                seq: chunks.len(),
                pos: start,
                text: text::slice_str(doc, start, end).to_owned(),
            },
        );
        prev_end = end;
        if end == len {
            break;
        }
        let back: usize = breaks::align(
            doc,
            if end > overlap {
                end - overlap
            } else {
                0
            },
        );
        proof {
            lemma_next_start(bytes, overlap as int, start as int, end as int);
        }
        if back <= start {
            start = end;
        } else {
            start = back;
        }
    }
    chunks
}

} // verus!
