//! Where a document can be cut: the break points of its lines and their scores.
//!
//! Scores (higher: preferred split location):
//!   h1=100, h2=90, h3=80, h4=70, h5=60, h6=50
//!   code fence boundary = 80
//!   blank line = 20
//!   list item  = 5
//!   newline    = 1
//!
//! A score decays with the square of the distance from the target position:
//!   final = score * (1 - (distance / window)^2 * 0.7)

use vstd::prelude::*;
use vstd::utf8::*;

use crate::text;
use crate::text::lines;
use crate::text::words;

verus! {

broadcast use vstd::utf8::encode_utf8_valid_utf8;

/// Window before the target end position in which to search for a break point.
pub const BREAK_WINDOW_CHARS: usize = 800;

/// Number of `#` at the front of `t`.
pub open spec fn hashes(t: Seq<char>) -> int
    decreases t.len(),
{
    if t.len() > 0 && t[0] == '#' {
        1 + hashes(t.skip(1))
    } else {
        0
    }
}

/// `t` is a heading: one to six `#`, then a space or nothing.
pub open spec fn is_heading(t: Seq<char>) -> bool {
    1 <= hashes(t) <= 6 && (hashes(t) == t.len() || t[hashes(t)] == ' ')
}

/// `t` starts with digits, if any, a dot and a space.
pub open spec fn is_numbered(t: Seq<char>) -> bool {
    exists|i: int| #[trigger] is_number_end(t, i)
}

/// `t` has digits up to the index `i`, then a dot and a space.
pub open spec fn is_number_end(t: Seq<char>, i: int) -> bool {
    &&& 0 <= i && i + 1 < t.len()
    &&& t[i] == '.' && t[i + 1] == ' '
    &&& forall|j: int| 0 <= j < i ==> '0' <= #[trigger] t[j] <= '9'
}

/// `t` starts a list item.
pub open spec fn is_list_item(t: Seq<char>) -> bool {
    ||| t.len() >= 2 && t[1] == ' ' && (t[0] == '-' || t[0] == '*' || t[0] == '+')
    ||| is_numbered(t)
}

/// How well a document can be cut before `line`.
pub open spec fn line_score(line: Seq<char>) -> int {
    let t = words::trim(line);
    if t.len() == 0 {
        20
    } else if is_heading(t) {
        110 - 10 * hashes(t)
    } else if is_list_item(t) {
        5
    } else {
        1
    }
}

/// `line` opens or closes a code block.
pub open spec fn is_fence(line: Seq<char>) -> bool {
    words::occurs_at(line, seq!['`', '`', '`'], 0) || words::occurs_at(line, seq!['~', '~', '~'], 0)
}

proof fn lemma_hashes(t: Seq<char>, k: int)
    requires
        0 <= k <= t.len(),
        forall|j: int| 0 <= j < k ==> t[j] == '#',
        k < t.len() ==> t[k] != '#',
    ensures
        hashes(t) == k,
    decreases t.len(),
{
    if t.len() > 0 && t[0] == '#' {
        lemma_hashes(t.skip(1), k - 1);
    }
}

/// How well a document can be cut before `line`.
pub fn line_break_score(line: &str) -> (score: u32)
    ensures
        score == line_score(line@),
        1 <= score <= 100,
{
    let t = text::chars_of(words::trimmed(line));
    let n: usize = t.len();
    if n == 0 {
        return 20;
    }
    let mut h: usize = 0;
    while h < n && t[h] == '#'
        invariant
            h <= n,
            n == t@.len(),
            forall|j: int| 0 <= j < h ==> t@[j] == '#',
        decreases n - h,
    {
        h += 1;
    }
    proof {
        lemma_hashes(t@, h as int);
    }
    if 1 <= h && h <= 6 && (h == n || t[h] == ' ') {
        return 110 - 10 * (h as u32);
    }
    if n >= 2 && t[1] == ' ' && (t[0] == '-' || t[0] == '*' || t[0] == '+') {
        return 5;
    }
    let mut d: usize = 0;
    while d < n && '0' <= t[d] && t[d] <= '9'
        invariant
            d <= n,
            n == t@.len(),
            forall|j: int| 0 <= j < d ==> '0' <= #[trigger] t@[j] <= '9',
        decreases n - d,
    {
        d += 1;
    }
    if d < n && n - d >= 2 && t[d] == '.' && t[d + 1] == ' ' {
        proof {
            assert(is_number_end(t@, d as int));
        }
        return 5;
    }
    proof {
        assert forall|i: int| !is_number_end(t@, i) by {
            if is_number_end(t@, i) {
                if i > d {
                    assert('0' <= t@[d as int] <= '9');
                } else if i < d {
                    assert('0' <= t@[i] <= '9');
                }
            }
        }
    }
    1
}

/// The break points of consecutive lines: the offset of each and its score. Inside a code block
/// only the fences count. A line is taken to start one byte after the end of the one before it.
pub open spec fn break_points(ls: Seq<Seq<char>>, pos: int, fenced: bool) -> Seq<(int, int)>
    decreases ls.len(),
{
    if ls.len() == 0 {
        Seq::empty()
    } else {
        let here = if is_fence(ls[0]) {
            seq![(pos, 80int)]
        } else if !fenced {
            seq![(pos, line_score(ls[0]))]
        } else {
            Seq::empty()
        };
        here + break_points(
            ls.skip(1),
            pos + text::utf8_len(ls[0]) + 1,
            fenced != is_fence(ls[0]),
        )
    }
}

/// The integers of `points`.
pub open spec fn point_ints(points: Seq<(usize, u32)>) -> Seq<(int, int)> {
    points.map_values(|p: (usize, u32)| (p.0 as int, p.1 as int))
}

/// Bytes of some lines, with one more for the end of each.
pub open spec fn extent(ls: Seq<Seq<char>>) -> int
    decreases ls.len(),
{
    if ls.len() == 0 {
        0
    } else {
        text::utf8_len(ls[0]) + 1 + extent(ls.skip(1))
    }
}

proof fn lemma_extent(s: Seq<char>)
    ensures
        extent(lines::lines(s)) <= text::utf8_len(s) + 1,
    decreases s.len(),
{
    lines::lemma_find(s, '\n');
    let i = lines::find(s, '\n');
    let ls = lines::lines(s);
    if s.len() == 0 {
    } else if i >= s.len() {
        assert(ls.skip(1) =~= Seq::<Seq<char>>::empty());
        assert(ls[0] == s);
        assert(extent(ls) == text::utf8_len(s) + 1 + extent(ls.skip(1)));
    } else {
        lemma_extent(s.skip(i + 1));
        assert(ls.skip(1) =~= lines::lines(s.skip(i + 1)));
        let front = s.take(i);
        assert(s =~= front + (seq!['\n'] + s.skip(i + 1)));
        text::lemma_encode_concat(front, seq!['\n'] + s.skip(i + 1));
        text::lemma_encode_concat(seq!['\n'], s.skip(i + 1));
        lines::lemma_ascii_char('\n');
        if front.len() > 0 {
            assert(front =~= front.drop_last() + seq![front.last()]);
            text::lemma_encode_concat(front.drop_last(), seq![front.last()]);
        }
        assert(ls[0] == lines::strip_carriage_return(front));
        assert(text::utf8_len(ls[0]) <= text::utf8_len(front));
        assert(extent(ls) == text::utf8_len(ls[0]) + 1 + extent(ls.skip(1)));
        assert(text::utf8_len(seq!['\n']) == 1);
    }
}

/// Whether a line opens or closes a code block.
pub fn is_fence_line(line: &str) -> (b: bool)
    ensures
        b == is_fence(line@),
{
    let ticks = words::starts_with(line, "```");
    let tildes = words::starts_with(line, "~~~");
    proof {
        reveal_strlit("```");
        reveal_strlit("~~~");
        assert("```"@ =~= seq!['`', '`', '`']);
        assert("~~~"@ =~= seq!['~', '~', '~']);
    }
    ticks || tildes
}

/// All break points of a document.
pub fn precompute_break_points(doc: &str) -> (points: Vec<(usize, u32)>)
    ensures
        point_ints(points@) == break_points(lines::lines(doc@), 0, false),
        forall|i: int| 0 <= i < points@.len() ==> 1 <= (#[trigger] points@[i]).1 <= 100,
{
    let mut points: Vec<(usize, u32)> = Vec::new();
    let parts = lines::split_lines(doc);
    let n: usize = parts.len();
    let total: usize = text::byte_len(doc);
    let ghost ls = lines::lines(doc@);
    let mut in_code_fence = false;
    let mut pos: usize = 0;
    let mut i: usize = 0;
    proof {
        lemma_extent(doc@);
        assert(ls.skip(0) =~= ls);
        assert(lines::views(parts@).len() == parts@.len());
        assert(point_ints(points@) + break_points(ls, 0, false) =~= break_points(ls, 0, false));
    }
    while i < n
        invariant
            i <= n,
            n == parts@.len(),
            n == ls.len(),
            lines::views(parts@) == ls,
            total == text::utf8_len(doc@),
            i < n ==> pos + extent(ls.skip(i as int)) <= total + 1,
            i < n ==> break_points(ls, 0, false) == point_ints(points@) + break_points(
                ls.skip(i as int),
                pos as int,
                in_code_fence,
            ),
            i == n ==> break_points(ls, 0, false) == point_ints(points@),
            forall|k: int| 0 <= k < points@.len() ==> 1 <= (#[trigger] points@[k]).1 <= 100,
        decreases n - i,
    {
        let line = parts[i];
        let ghost before = points@;
        let ghost fenced = in_code_fence;
        proof {
            assert(line@ == lines::views(parts@)[i as int]);
            assert(ls.skip(i as int)[0] == line@);
            assert(ls.skip(i as int).skip(1) =~= ls.skip(i + 1));
        }
        let len: usize = text::byte_len(line);
        let fence = is_fence_line(line);
        if fence {
            in_code_fence = !in_code_fence;
            points.push((pos, 80));
        } else if !in_code_fence {
            points.push((pos, line_break_score(line)));
        }
        proof {
            let tail = break_points(ls.skip(i + 1), pos + len + 1, in_code_fence);
            let here = point_ints(points@).skip(before.len() as int);
            assert(point_ints(points@) =~= point_ints(before) + here);
            if is_fence(line@) {
                assert(here =~= seq![(pos as int, 80int)]);
            } else if !fenced {
                assert(here =~= seq![(pos as int, line_score(line@))]);
            } else {
                assert(here =~= Seq::<(int, int)>::empty());
            }
            assert(break_points(ls.skip(i as int), pos as int, fenced) == here + tail);
            assert(break_points(ls, 0, false) == point_ints(before) + (here + tail));
            assert(point_ints(before) + (here + tail) =~= point_ints(points@) + tail);
            if i + 1 == n {
                assert(tail =~= Seq::<(int, int)>::empty());
                assert(point_ints(points@) + tail =~= point_ints(points@));
            } else {
                assert(extent(ls.skip(i + 1)) >= 1) by {
                    lemma_extent_nonneg(ls.skip(i + 1));
                }
            }
        }
        i += 1;
        if i < n {
            pos = pos + len + 1;
        }
    }
    points
}

proof fn lemma_extent_nonneg(ls: Seq<Seq<char>>)
    ensures
        extent(ls) >= ls.len(),
    decreases ls.len(),
{
    if ls.len() > 0 {
        lemma_extent_nonneg(ls.skip(1));
    }
}

/// The first character boundary at or after `p`; `p` itself from the end of the encoding on.
pub open spec fn aligned(bytes: Seq<u8>, p: int) -> int
    decreases bytes.len() - p,
{
    if p >= bytes.len() || is_char_boundary(bytes, p) {
        p
    } else {
        aligned(bytes, p + 1)
    }
}

/// Start of the window before `target` in which a break is searched.
pub open spec fn window_start(start: int, target: int) -> int {
    if target - BREAK_WINDOW_CHARS > start {
        target - BREAK_WINDOW_CHARS
    } else {
        start
    }
}

/// A break point that may end the chunk: inside the window, and not before `min_pos`.
pub open spec fn qualifies(point: (int, int), start: int, target: int, min_pos: int) -> bool {
    window_start(start, target) < point.0 <= target && min_pos <= point.0
}

/// The decayed score of a break point, `score * (1 - (distance / window)^2 * 0.7)`, times
/// `10 * window^2`: an integer, in which the points of one window are compared.
pub open spec fn decayed(point: (int, int), start: int, target: int) -> int {
    let window = target - window_start(start, target);
    let distance = target - point.0;
    point.1 * (10 * (window * window) - 7 * (distance * distance))
}

/// Index of the qualifying break point with the highest decayed score, the last one of several.
pub open spec fn best_point(
    points: Seq<(int, int)>,
    start: int,
    target: int,
    min_pos: int,
) -> Option<int>
    decreases points.len(),
{
    if points.len() == 0 {
        None
    } else {
        let before = best_point(points.drop_last(), start, target, min_pos);
        let point = points.last();
        if !qualifies(point, start, target, min_pos) {
            before
        } else {
            match before {
                Some(i) if decayed(points[i], start, target) > decayed(
                    point,
                    start,
                    target,
                ) => before,
                _ => Some(points.len() - 1),
            }
        }
    }
}

/// Where a chunk is cut that should end at `target`.
pub open spec fn break_pos(
    bytes: Seq<u8>,
    points: Seq<(int, int)>,
    start: int,
    target: int,
    min_pos: int,
) -> int {
    match best_point(points, start, target, min_pos) {
        Some(i) => aligned(bytes, points[i].0),
        None => aligned(bytes, target),
    }
}

/// Aligning moves forward to a character boundary, and past none.
pub proof fn lemma_aligned(bytes: Seq<u8>, p: int)
    requires
        valid_utf8(bytes),
        0 <= p <= bytes.len(),
    ensures
        p <= aligned(bytes, p) <= bytes.len(),
        is_char_boundary(bytes, aligned(bytes, p)),
        forall|q: int| p <= q <= bytes.len() && is_char_boundary(bytes, q) ==> aligned(bytes, p)
            <= q,
    decreases bytes.len() - p,
{
    if p == bytes.len() {
        is_char_boundary_start_end_of_seq(bytes);
    } else if !is_char_boundary(bytes, p) {
        lemma_aligned(bytes, p + 1);
    }
}

/// `best_point` gives a qualifying point that no other beats, and is absent only if none
/// qualifies.
pub proof fn law_best_break_point(points: Seq<(int, int)>, start: int, target: int, min_pos: int)
    ensures
        match best_point(points, start, target, min_pos) {
            Some(i) => {
                &&& 0 <= i < points.len()
                &&& qualifies(points[i], start, target, min_pos)
                &&& forall|j: int|
                    0 <= j < points.len() && qualifies(#[trigger] points[j], start, target, min_pos)
                        ==> decayed(points[j], start, target) <= decayed(points[i], start, target)
                        && (j > i ==> decayed(points[j], start, target) < decayed(
                        points[i],
                        start,
                        target,
                    ))
            },
            None => forall|j: int|
                0 <= j < points.len() ==> !qualifies(#[trigger] points[j], start, target, min_pos),
        },
    decreases points.len(),
{
    if points.len() > 0 {
        let front = points.drop_last();
        law_best_break_point(front, start, target, min_pos);
        assert forall|j: int| 0 <= j < front.len() implies front[j] == points[j] by {}
        assert(points.last() == points[points.len() - 1]);
        match best_point(points, start, target, min_pos) {
            Some(i) => {
                assert forall|j: int|
                    0 <= j < points.len() && qualifies(
                        #[trigger] points[j],
                        start,
                        target,
                        min_pos,
                    ) implies decayed(points[j], start, target) <= decayed(
                    points[i],
                    start,
                    target,
                ) && (j > i ==> decayed(points[j], start, target) < decayed(
                    points[i],
                    start,
                    target,
                )) by {
                    if j < front.len() {
                        assert(front[j] == points[j]);
                    }
                }
            },
            None => {
                assert forall|j: int| 0 <= j < points.len() implies !qualifies(
                    #[trigger] points[j],
                    start,
                    target,
                    min_pos,
                ) by {
                    if j < front.len() {
                        assert(front[j] == points[j]);
                    }
                }
            },
        }
    }
}

/// A break lies after the start of the window, at a character boundary; it is at least `min_pos`
/// or at least the target.
pub proof fn lemma_break_pos(
    bytes: Seq<u8>,
    points: Seq<(int, int)>,
    start: int,
    target: int,
    min_pos: int,
)
    requires
        valid_utf8(bytes),
        0 <= start < target <= bytes.len(),
    ensures
        start < break_pos(bytes, points, start, target, min_pos) <= bytes.len(),
        is_char_boundary(bytes, break_pos(bytes, points, start, target, min_pos)),
        break_pos(bytes, points, start, target, min_pos) >= min_pos || break_pos(
            bytes,
            points,
            start,
            target,
            min_pos,
        ) >= target,
        break_pos(bytes, points, start, target, min_pos) <= aligned(bytes, target),
        break_pos(bytes, points, start, target, min_pos) > window_start(start, target),
{
    law_best_break_point(points, start, target, min_pos);
    lemma_aligned(bytes, target);
    match best_point(points, start, target, min_pos) {
        Some(i) => {
            lemma_aligned(bytes, points[i].0);
        },
        None => {},
    }
}

/// The first character boundary at or after a byte offset.
pub fn align(doc: &str, from: usize) -> (p: usize)
    ensures
        p == aligned(encode_utf8(doc@), from as int),
{
    let len: usize = text::byte_len(doc);
    let mut p: usize = from;
    while p < len && !doc.is_char_boundary(p)
        invariant
            p <= len || p == from,
            len == text::utf8_len(doc@),
            aligned(encode_utf8(doc@), from as int) == aligned(encode_utf8(doc@), p as int),
        decreases len - p,
    {
        p += 1;
    }
    p
}

/// Finds the best split position within `BREAK_WINDOW_CHARS` before `target_end`.
/// Only break points at or after `min_break_pos` count, which prevents chunks below the minimum
/// size and a second use of the boundary of the chunk before. Falls back to a character boundary
/// at `target_end` if there is no qualifying break point.
pub fn best_break(
    doc: &str,
    points: &Vec<(usize, u32)>,
    start: usize,
    target_end: usize,
    min_break_pos: usize,
) -> (p: usize)
    requires
        start <= target_end,
    ensures
        p == break_pos(
            encode_utf8(doc@),
            point_ints(points@),
            start as int,
            target_end as int,
            min_break_pos as int,
        ),
{
    let ws: usize = if target_end - start > BREAK_WINDOW_CHARS {
        target_end - BREAK_WINDOW_CHARS
    } else {
        start
    };
    let window: u64 = (target_end - ws) as u64;
    let ghost all = point_ints(points@);
    let mut best: Option<usize> = None;
    let mut best_value: u64 = 0;
    let mut i: usize = 0;
    while i < points.len()
        invariant
            i <= points@.len(),
            all == point_ints(points@),
            start <= ws <= target_end,
            ws == window_start(start as int, target_end as int),
            window == target_end - ws,
            window <= 800,
            match best {
                Some(b) => {
                    &&& b < i
                    &&& points@[b as int].0 <= target_end
                    &&& best_point(
                        all.take(i as int),
                        start as int,
                        target_end as int,
                        min_break_pos as int,
                    ) == Some(b as int)
                    &&& best_value == decayed(all[b as int], start as int, target_end as int)
                },
                None => best_point(
                    all.take(i as int),
                    start as int,
                    target_end as int,
                    min_break_pos as int,
                ) is None,
            },
        decreases points.len() - i,
    {
        let (pos, score) = points[i];
        proof {
            assert(all[i as int] == (pos as int, score as int));
            assert(all.take(i + 1).drop_last() =~= all.take(i as int));
            assert(all.take(i + 1).last() == all[i as int]);
        }
        if ws < pos && pos <= target_end && min_break_pos <= pos {
            let dist: u64 = (target_end - pos) as u64;
            proof {
                lemma_decayed_bounds(score as int, dist as int, window as int);
            }
            let value: u64 = score as u64 * (10 * (window * window) - 7 * (dist * dist));
            let better = match best {
                Some(_) => best_value <= value,
                None => true,
            };
            if better {
                best = Some(i);
                best_value = value;
            }
        }
        i += 1;
    }
    proof {
        assert(all.take(points@.len() as int) =~= all);
    }
    match best {
        Some(b) => align(doc, points[b].0),
        None => align(doc, target_end),
    }
}

/// The decayed score fits in 64 bits.
proof fn lemma_decayed_bounds(score: int, dist: int, window: int)
    requires
        0 <= score <= u32::MAX,
        0 <= dist < window <= 800,
    ensures
        0 <= dist * dist <= window * window <= 640000,
        0 <= score * (10 * (window * window) - 7 * (dist * dist)) <= u64::MAX,
{
    assert(0 <= dist * dist <= window * window <= 640000) by (nonlinear_arith)
        requires
            0 <= dist < window <= 800,
    ;
    let d = 10 * (window * window) - 7 * (dist * dist);
    assert(0 <= score * d <= u64::MAX) by (nonlinear_arith)
        requires
            0 <= score <= u32::MAX,
            0 <= d <= 6400000,
    ;
}

/// `p` is the offset at which a line of the encoding starts.
pub open spec fn is_line_start(bytes: Seq<u8>, p: int) -> bool {
    0 <= p < bytes.len() && (p == 0 || bytes[p - 1] == 10)
}

/// No line but the last ends in a carriage return and a line feed.
pub open spec fn has_plain_line_ends(s: Seq<char>) -> bool {
    forall|i: int, j: int|
        #![trigger s[i], s[j]]
        0 <= i && j == i + 1 && j < s.len() - 1 ==> !(s[i] == '\r' && s[j] == '\n')
}

proof fn lemma_points_at_line_starts(front: Seq<char>, s: Seq<char>, fenced: bool)
    requires
        has_plain_line_ends(s),
        front.len() == 0 || front.last() == '\n',
    ensures
        forall|i: int|
            0 <= i < break_points(lines::lines(s), text::utf8_len(front) as int, fenced).len()
                ==> is_line_start(
                encode_utf8(front + s),
                (#[trigger] break_points(
                    lines::lines(s),
                    text::utf8_len(front) as int,
                    fenced,
                )[i]).0,
            ),
    decreases s.len(),
{
    let pos = text::utf8_len(front) as int;
    let ls = lines::lines(s);
    let bytes = encode_utf8(front + s);
    let points = break_points(ls, pos, fenced);
    lines::lemma_find(s, '\n');
    let i = lines::find(s, '\n');
    text::lemma_encode_concat(front, s);
    if s.len() > 0 {
        encode_utf8_first_scalar(s);
        assert(is_line_start(bytes, pos)) by {
            if front.len() > 0 {
                lines::lemma_ascii_byte(front, front.len() - 1);
                assert(front.take(front.len() - 1 + 1) =~= front);
                assert(bytes[pos - 1] == encode_utf8(front)[pos - 1]);
            } else {
                assert(encode_utf8(front).len() == 0);
            }
        }
        if i >= s.len() - 1 {
            if i == s.len() - 1 {
                assert(lines::lines(s.skip(i + 1)).len() == 0);
            }
            let flag = fenced != is_fence(ls[0]);
            let more = break_points(ls.skip(1), pos + text::utf8_len(ls[0]) + 1, flag);
            assert(ls.skip(1).len() == 0);
            assert(more.len() == 0);
            assert forall|j: int| 0 <= j < points.len() implies is_line_start(
                bytes,
                (#[trigger] points[j]).0,
            ) by {
                assert(points[j].0 == pos);
            }
        } else {
            let line = s.take(i);
            let rest = s.skip(i + 1);
            if line.len() > 0 {
                assert(line.last() == s[i - 1]);
                assert(!(s[i - 1] == '\r' && s[i] == '\n'));
            }
            assert(ls[0] == line);
            assert forall|a: int, b: int|
                #![trigger rest[a], rest[b]]
                0 <= a && b == a + 1 && b < rest.len() - 1 implies !(rest[a] == '\r' && rest[b]
                == '\n') by {
                assert(rest[a] == s[i + 1 + a] && rest[b] == s[i + 1 + b]);
            }
            assert(ls.skip(1) =~= lines::lines(rest));
            let next = front + line + seq!['\n'];
            text::lemma_encode_concat(front, line);
            text::lemma_encode_concat(front + line, seq!['\n']);
            lines::lemma_ascii_char('\n');
            assert(text::utf8_len(next) == pos + text::utf8_len(line) + 1);
            assert(next + rest =~= front + s);
            let flag = fenced != is_fence(ls[0]);
            lemma_points_at_line_starts(next, rest, flag);
            let more = break_points(lines::lines(rest), text::utf8_len(next) as int, flag);
            let here = points.len() - more.len();
            assert forall|j: int| 0 <= j < points.len() implies is_line_start(
                bytes,
                (#[trigger] points[j]).0,
            ) by {
                if j >= here {
                    assert(points[j] == more[j - here]);
                }
            }
        }
    }
}

/// Every break point is the start of a line, in a text in which no line but the last ends in a
/// carriage return and a line feed.
pub proof fn law_break_points_are_line_starts(s: Seq<char>)
    requires
        has_plain_line_ends(s),
    ensures
        forall|i: int|
            0 <= i < break_points(lines::lines(s), 0, false).len() ==> is_line_start(
                encode_utf8(s),
                (#[trigger] break_points(lines::lines(s), 0, false)[i]).0,
            ),
{
    let none = Seq::<char>::empty();
    assert(none + s =~= s);
    assert(encode_utf8(none).len() == 0);
    assert(text::utf8_len(none) as int == 0);
    lemma_points_at_line_starts(none, s, false);
}

/// Number of line feeds in `s` with a carriage return before them.
pub open spec fn double_line_ends(s: Seq<char>) -> nat
    decreases s.len(),
{
    if s.len() < 2 {
        0
    } else if s.last() == '\n' && s[s.len() - 2] == '\r' {
        double_line_ends(s.drop_last()) + 1
    } else {
        double_line_ends(s.drop_last())
    }
}

/// `p` is the offset at which a line of `s` starts, less one byte for each line before it that ends
/// in a carriage return and a line feed.
pub open spec fn is_short_of_line_start(s: Seq<char>, p: int) -> bool {
    exists|k: int|
        0 <= k < s.len() && (k == 0 || s[k - 1] == '\n') && p == text::utf8_len(
            #[trigger] s.take(k),
        ) - double_line_ends(s.take(k))
}

proof fn lemma_double_line_ends(front: Seq<char>, line: Seq<char>)
    requires
        forall|i: int| 0 <= i < line.len() ==> line[i] != '\n',
    ensures
        double_line_ends(front + line) == double_line_ends(front),
    decreases line.len(),
{
    if line.len() == 0 {
        assert(front + line =~= front);
    } else {
        assert((front + line).drop_last() =~= front + line.drop_last());
        assert((front + line).last() == line[line.len() - 1]);
        lemma_double_line_ends(front, line.drop_last());
    }
}

#[verifier::rlimit(40)]
proof fn lemma_points_near_line_starts(front: Seq<char>, s: Seq<char>, fenced: bool)
    requires
        front.len() == 0 || front.last() == '\n',
    ensures
        forall|i: int|
            0 <= i < break_points(
                lines::lines(s),
                text::utf8_len(front) - double_line_ends(front),
                fenced,
            ).len() ==> is_short_of_line_start(
                front + s,
                (#[trigger] break_points(
                    lines::lines(s),
                    text::utf8_len(front) - double_line_ends(front),
                    fenced,
                )[i]).0,
            ),
    decreases s.len(),
{
    let pos = text::utf8_len(front) - double_line_ends(front);
    let ls = lines::lines(s);
    let all = front + s;
    let points = break_points(ls, pos, fenced);
    lines::lemma_find(s, '\n');
    let i = lines::find(s, '\n');
    if s.len() > 0 {
        assert(is_short_of_line_start(all, pos)) by {
            let k = front.len() as int;
            assert(all.take(k) =~= front);
            assert(k > 0 ==> all[k - 1] == front.last());
        }
        let flag = fenced != is_fence(ls[0]);
        let line = s.take(i);
        let rest = s.skip(i + 1);
        let next = front + line + seq!['\n'];
        let more = break_points(ls.skip(1), pos + text::utf8_len(ls[0]) + 1, flag);
        if i >= s.len() {
            assert(ls.skip(1).len() == 0);
        } else {
            assert(ls[0] == lines::strip_carriage_return(line));
            assert(ls.skip(1) =~= lines::lines(rest));
            assert forall|j: int| 0 <= j < line.len() implies line[j] != '\n' by {
                assert(line[j] == s[j]);
            }
            lemma_double_line_ends(front, line);
            assert(next.drop_last() =~= front + line);
            text::lemma_encode_concat(front, line);
            text::lemma_encode_concat(front + line, seq!['\n']);
            lines::lemma_ascii_char('\n');
            if line.len() > 0 {
                assert(next[next.len() - 2] == line.last());
                assert(line =~= line.drop_last() + seq![line.last()]);
                text::lemma_encode_concat(line.drop_last(), seq![line.last()]);
                lines::lemma_ascii_char('\r');
            } else if front.len() > 0 {
                assert(next[next.len() - 2] == front.last());
            }
            assert(text::utf8_len(next) - double_line_ends(next) == pos + text::utf8_len(ls[0])
                + 1);
            assert(next + rest =~= all);
            lemma_points_near_line_starts(next, rest, flag);
        }
        let here = points.len() - more.len();
        assert forall|j: int| 0 <= j < points.len() implies is_short_of_line_start(
            all,
            (#[trigger] points[j]).0,
        ) by {
            if j >= here {
                assert(points[j] == more[j - here]);
            } else {
                assert(points[j].0 == pos);
            }
        }
    }
}

/// Every break point is the start of a line, less one byte for each line before it that ends in a
/// carriage return and a line feed.
pub proof fn law_break_points_fall_short_of_line_starts(s: Seq<char>)
    ensures
        forall|i: int|
            0 <= i < break_points(lines::lines(s), 0, false).len() ==> is_short_of_line_start(
                s,
                (#[trigger] break_points(lines::lines(s), 0, false)[i]).0,
            ),
{
    let none = Seq::<char>::empty();
    assert(none + s =~= s);
    assert(encode_utf8(none).len() == 0);
    assert(text::utf8_len(none) - double_line_ends(none) == 0);
    lemma_points_near_line_starts(none, s, false);
}

} // verus!
