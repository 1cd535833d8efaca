use ir::index::breaks::{best_break, line_break_score, precompute_break_points};
use ir::index::chunker::{
    chunk_document, chunk_overlap_tokens, chunk_size_tokens, set_chunk_size_tokens_override, Chunk,
    ChunkSettings, CHARS_PER_TOKEN, DEFAULT_CHUNK_SIZE_TOKENS, MIN_CHUNK_SIZE_TOKENS,
};

fn chunks_of(doc: &str) -> Vec<Chunk> {
    chunk_document(&ChunkSettings::new(), doc)
}

fn chunks_with_size(doc: &str, tokens: usize) -> Vec<Chunk> {
    let mut settings = ChunkSettings::new();
    set_chunk_size_tokens_override(&mut settings, Some(tokens));
    chunk_document(&settings, doc)
}

#[test]
fn short_doc_is_single_chunk() {
    let doc = "Hello world";
    let chunks = chunks_of(doc);
    assert_eq!(chunks.len(), 1);
    assert_eq!(chunks[0].text, doc);
    assert_eq!(chunks[0].pos, 0);
}

#[test]
fn long_doc_splits_into_multiple_chunks() {
    let line = "word ".repeat(100);
    let doc = (line + "\n").repeat(10);
    let chunks = chunks_of(&doc);
    assert!(chunks.len() > 1, "expected multiple chunks, got {}", chunks.len());
    for c in &chunks {
        assert!(!c.text.is_empty());
    }
}

#[test]
fn chunks_cover_full_document() {
    let line = "The quick brown fox jumps over the lazy dog. ".repeat(20);
    let doc = (line + "\n\n## Section\n\n").repeat(10);
    let chunks = chunks_of(&doc);
    let last = chunks.last().unwrap();
    assert_eq!(last.pos + last.text.len(), doc.len());
}

#[test]
fn doc_at_chunk_size_boundary_is_single_chunk() {
    let doc = "word ".repeat(100);
    let chunks = chunks_with_size(&doc, 200);
    assert_eq!(chunks.len(), 1, "doc ≤ chunk_size should be a single chunk");
    assert_eq!(chunks[0].text.len(), doc.len());
}

#[test]
fn rebalances_when_tail_would_be_sub_min() {
    let doc = "word ".repeat(200);
    let chunks = chunks_with_size(&doc, 200);
    assert!(chunks.len() >= 2, "rebalanced doc should produce ≥2 chunks");
    let min_chars = MIN_CHUNK_SIZE_TOKENS * CHARS_PER_TOKEN;
    for c in &chunks {
        assert!(
            c.text.len() >= min_chars,
            "chunk {} below floor: {} chars",
            c.seq,
            c.text.len()
        );
    }
}

#[test]
fn normal_split_when_tail_is_healthy() {
    let section = "word ".repeat(140);
    let doc = format!("{section}\n\n## Section\n\n{section}");
    let chunks = chunks_with_size(&doc, 200);
    assert!(chunks.len() >= 2, "healthy-tail doc should produce ≥2 chunks");
    let min_chars = MIN_CHUNK_SIZE_TOKENS * CHARS_PER_TOKEN;
    for c in &chunks {
        assert!(
            c.text.len() >= min_chars,
            "chunk {} below floor: {} chars",
            c.seq,
            c.text.len()
        );
    }
}

#[test]
fn doc_exactly_chunk_size_is_single_chunk() {
    let doc = "x".repeat(400);
    let chunks = chunks_with_size(&doc, 100);
    assert_eq!(chunks.len(), 1);
    assert_eq!(chunks[0].text.len(), 400);
}

#[test]
fn doc_one_byte_over_chunk_size_splits() {
    let mut settings = ChunkSettings::new();
    set_chunk_size_tokens_override(&mut settings, Some(100));
    set_chunk_size_tokens_override(&mut settings, Some(200));
    let min_chars = MIN_CHUNK_SIZE_TOKENS * CHARS_PER_TOKEN;
    let doc = "x".repeat(801);
    let chunks = chunk_document(&settings, &doc);
    assert!(chunks.len() >= 2, "801-char doc with chunk_size=800 should split");
    for c in &chunks {
        assert!(c.text.len() >= min_chars, "chunk {} too small: {}", c.seq, c.text.len());
    }
}

#[test]
fn multibyte_utf8_near_boundary_stays_valid() {
    let ascii_part = "a".repeat(798);
    let cjk = "あ";
    let rest = "b".repeat(400);
    let doc = format!("{ascii_part}{cjk}{rest}");
    let chunks = chunks_with_size(&doc, 200);
    for c in &chunks {
        assert!(std::str::from_utf8(c.text.as_bytes()).is_ok());
    }
}

#[test]
fn best_break_fallback_when_no_qualifying_break() {
    let doc = "a".repeat(2400);
    let chunks = chunks_with_size(&doc, 200);
    assert!(chunks.len() > 1, "featureless doc should still chunk");
    for c in &chunks {
        assert!(!c.text.is_empty());
    }
}

#[test]
fn overlap_larger_than_min_chunk_forward_progress_guard() {
    let doc = "word ".repeat(400);
    let chunks = chunks_with_size(&doc, 120);
    assert!(chunks.len() >= 2);
    for w in chunks.windows(2) {
        assert!(w[1].pos > w[0].pos, "positions must strictly increase");
    }
}

#[test]
fn consecutive_headings_exactly_at_chunk_boundary() {
    let pad = "word ".repeat(160);
    let doc = format!("{pad}## SectionA\n## SectionB\n{pad}");
    let chunks = chunks_with_size(&doc, 200);
    let positions: Vec<usize> = chunks.iter().map(|c| c.pos).collect();
    let unique: std::collections::HashSet<usize> = positions.iter().copied().collect();
    assert_eq!(positions.len(), unique.len(), "duplicate start positions detected");
}

#[test]
fn absorb_when_tail_less_than_two_min_chunks() {
    let doc = "x".repeat(700);
    let chunks = chunks_with_size(&doc, 150);
    assert_eq!(chunks.len(), 1, "absorb path should yield single chunk");
    assert_eq!(chunks[0].text.len(), 700);
}

#[test]
fn empty_doc_produces_single_chunk() {
    let chunks = chunks_of("");
    assert_eq!(chunks.len(), 1);
    assert_eq!(chunks[0].text, "");
}

#[test]
fn chunk_positions_cover_document() {
    let line = "The quick brown fox. ".repeat(20);
    let doc = (line + "\n").repeat(8);
    let chunks = chunks_with_size(&doc, 200);
    let last = chunks.last().unwrap();
    assert_eq!(last.pos + last.text.len(), doc.len(), "last chunk must reach end of doc");
}

#[test]
fn size_override_is_read_back() {
    let mut settings = ChunkSettings::new();
    assert_eq!(chunk_size_tokens(&settings), DEFAULT_CHUNK_SIZE_TOKENS);
    assert_eq!(chunk_size_tokens(&settings), 512);
    set_chunk_size_tokens_override(&mut settings, Some(77));
    assert_eq!(chunk_size_tokens(&settings), 77);
    set_chunk_size_tokens_override(&mut settings, Some(0));
    assert_eq!(chunk_size_tokens(&settings), 512);
    set_chunk_size_tokens_override(&mut settings, Some(9));
    set_chunk_size_tokens_override(&mut settings, None);
    assert_eq!(chunk_size_tokens(&settings), 512);
}

#[test]
fn overlap_is_fifteen_percent_rounded() {
    assert_eq!(chunk_overlap_tokens(512), 77);
    assert_eq!(chunk_overlap_tokens(200), 30);
    assert_eq!(chunk_overlap_tokens(110), 17);
    assert_eq!(chunk_overlap_tokens(3), 0);
    assert_eq!(chunk_overlap_tokens(4), 1);
}

#[test]
fn line_scores() {
    assert_eq!(line_break_score("# One"), 100);
    assert_eq!(line_break_score("## Two"), 90);
    assert_eq!(line_break_score("### Three"), 80);
    assert_eq!(line_break_score("#### Four"), 70);
    assert_eq!(line_break_score("##### Five"), 60);
    assert_eq!(line_break_score("###### Six"), 50);
    assert_eq!(line_break_score("####### Seven"), 1);
    assert_eq!(line_break_score("#NoBlank"), 1);
    assert_eq!(line_break_score("######"), 50);
    assert_eq!(line_break_score("  ## Indented  "), 90);
    assert_eq!(line_break_score(""), 20);
    assert_eq!(line_break_score(" \t "), 20);
    assert_eq!(line_break_score("- item"), 5);
    assert_eq!(line_break_score("* item"), 5);
    assert_eq!(line_break_score("+ item"), 5);
    assert_eq!(line_break_score("12. item"), 5);
    assert_eq!(line_break_score(". item"), 5);
    assert_eq!(line_break_score("1a. item"), 1);
    assert_eq!(line_break_score("-item"), 1);
    assert_eq!(line_break_score("plain"), 1);
}

#[test]
fn featureless_text_is_cut_at_the_target() {
    let doc = "a".repeat(2400);
    let chunks = chunks_with_size(&doc, 200);
    // Chunks of 800 bytes, each repeating 120 of the one before; the tail is rebalanced.
    let spans: Vec<(usize, usize)> = chunks.iter().map(|c| (c.pos, c.text.len())).collect();
    assert_eq!(spans[0], (0, 800));
    assert_eq!(spans[1], (680, 800));
    for (i, c) in chunks.iter().enumerate() {
        assert_eq!(c.seq, i);
        assert_eq!(c.text, doc[c.pos..c.pos + c.text.len()]);
    }
}

#[test]
fn heading_near_the_target_is_preferred() {
    let doc = format!("{}\n## Head\n{}", "a".repeat(699), "b".repeat(900));
    let chunks = chunks_with_size(&doc, 200);
    assert_eq!(chunks[0].text.len(), 700);
    assert!(doc[700..].starts_with("## Head"));
}

#[test]
fn neighbouring_chunks_overlap_and_cover() {
    let doc = "Ein Absatz über Übergänge.\n\n- Punkt\n".repeat(120);
    let chunks = chunks_with_size(&doc, 150);
    assert_eq!(chunks[0].pos, 0);
    for w in chunks.windows(2) {
        assert!(w[1].pos > w[0].pos);
        assert!(w[1].pos <= w[0].pos + w[0].text.len());
    }
    let last = chunks.last().unwrap();
    assert_eq!(last.pos + last.text.len(), doc.len());
}

#[test]
fn break_points_come_at_line_starts() {
    assert_eq!(
        precompute_break_points("# A\ntext\n\n- b"),
        vec![(0, 100), (4, 1), (9, 20), (10, 5)]
    );
    assert_eq!(precompute_break_points(""), vec![]);
}

#[test]
fn code_fences_hide_what_they_enclose() {
    assert_eq!(
        precompute_break_points("```rust\n# not a heading\n```\n~~~\nx"),
        vec![(0, 80), (24, 80), (28, 80)]
    );
}

#[test]
fn best_break_weighs_score_against_distance() {
    let doc = "a".repeat(1000);
    assert_eq!(best_break(&doc, &vec![], 0, 800, 400), 800);
    // A heading far from the target beats a plain line at it, but not one of its own rank.
    assert_eq!(best_break(&doc, &vec![(450, 90), (800, 1)], 0, 800, 400), 450);
    assert_eq!(best_break(&doc, &vec![(450, 90), (700, 90)], 0, 800, 400), 700);
    // Points before the floor or outside of the window do not count.
    assert_eq!(best_break(&doc, &vec![(399, 100)], 0, 800, 400), 800);
    assert_eq!(best_break(&doc, &vec![(900, 100)], 0, 800, 400), 800);
    // Of equals the last one is taken.
    assert_eq!(best_break(&doc, &vec![(600, 50), (600, 50), (601, 1)], 0, 800, 400), 600);
}

#[test]
fn best_break_falls_on_a_character() {
    let doc = format!("{}あ{}", "a".repeat(799), "b".repeat(400));
    assert_eq!(best_break(&doc, &vec![], 0, 800, 400), 802);
}

#[test]
fn ascii_chunks_keep_to_the_limits() {
    let doc = "# Head\n\nSome words to fill a line.\n- item\n".repeat(200);
    for tokens in [100, 130, 200, 512] {
        let chunks = chunks_with_size(&doc, tokens);
        let (size, min) = (tokens * CHARS_PER_TOKEN, MIN_CHUNK_SIZE_TOKENS * CHARS_PER_TOKEN);
        for (i, c) in chunks.iter().enumerate() {
            assert!(c.text.len() >= min);
            assert!(c.text.len() <= size || i + 1 == chunks.len() && c.text.len() < 2 * min);
        }
        let overlap = chunk_overlap_tokens(tokens) * CHARS_PER_TOKEN;
        for w in chunks.windows(2) {
            assert_eq!(w[0].pos + w[0].text.len() - w[1].pos, overlap);
        }
    }
}

#[test]
fn multibyte_chunks_keep_to_the_minimum() {
    let doc = "日本語の文章。🦀\nさらに続く行\n\n".repeat(150);
    for tokens in [100, 101, 173, 512] {
        let chunks = chunks_with_size(&doc, tokens);
        let overlap = chunk_overlap_tokens(tokens) * CHARS_PER_TOKEN;
        for c in &chunks {
            assert!(c.text.len() >= MIN_CHUNK_SIZE_TOKENS * CHARS_PER_TOKEN);
        }
        for w in chunks.windows(2) {
            let repeated = w[0].pos + w[0].text.len() - w[1].pos;
            assert!(repeated <= overlap && repeated + 3 >= overlap);
        }
    }
}

#[test]
fn break_points_are_line_starts() {
    for doc in ["# Ä\n\nText\n```\nx\n```\n- b\n", "a\rb\nc\r\r\n"] {
        for (pos, _) in precompute_break_points(doc) {
            assert!(pos == 0 || doc.as_bytes()[pos - 1] == b'\n');
        }
    }
    // A carriage return before the line feed is not counted.
    assert_eq!(precompute_break_points("a\r\nb\r\nc"), vec![(0, 1), (2, 1), (4, 1)]);
}

#[test]
fn best_break_takes_any_scores_and_targets() {
    let doc = "あ".repeat(10);
    let points = vec![(3, u32::MAX), (4, u32::MAX), (29, 1), (35, 0)];
    assert_eq!(best_break(&doc, &points, 0, 30, 0), 6);
    assert_eq!(best_break(&doc, &vec![], 0, 29, 0), 30);
    assert_eq!(best_break(&doc, &vec![], 0, 40, 0), 40);
    assert_eq!(best_break(&doc, &vec![(35, 1)], 0, 40, 0), 35);
    assert_eq!(best_break(&doc, &vec![], 7, 7, 0), 9);
}
