//! Which break is chosen and how a line scores, said of positions and characters.

use vstd::prelude::*;
use vstd::utf8::*;

use crate::index::breaks;
use crate::text;
use crate::text::laws;
use crate::text::words;

verus! {

/// Width of the window in which a break is searched: 800 bytes, or what there is.
pub open spec fn window(start: int, target: int) -> int {
    if target - start <= 800 {
        target - start
    } else {
        800
    }
}

/// The chosen break lies in the window before the target and not before the least position. Of
/// all points there, it has the highest score after the decay by `1 - 0.7 * (distance /
/// window)^2`, and the last one of several has it. There is none only if no point lies there.
pub proof fn law_break_has_highest_decayed_score(
    points: Seq<(int, int)>,
    start: int,
    target: int,
    min_pos: int,
)
    requires
        start <= target,
    ensures
        ({
            let w = window(start, target);
            match breaks::best_point(points, start, target, min_pos) {
                Some(i) => {
                    &&& 0 <= i < points.len()
                    &&& target - w < points[i].0 <= target
                    &&& points[i].0 >= min_pos
                    &&& forall|j: int|
                        0 <= j < points.len() && target - w < (#[trigger] points[j]).0 <= target
                            && points[j].0 >= min_pos ==> {
                            let di = target - points[i].0;
                            let dj = target - points[j].0;
                            &&& points[j].1 * (10 * (w * w) - 7 * (dj * dj)) <= points[i].1 * (10
                                * (w * w) - 7 * (di * di))
                            &&& j > i ==> points[j].1 * (10 * (w * w) - 7 * (dj * dj))
                                < points[i].1 * (10 * (w * w) - 7 * (di * di))
                        }
                },
                None => forall|j: int|
                    0 <= j < points.len() ==> !(target - w < (#[trigger] points[j]).0 <= target
                        && points[j].0 >= min_pos),
            }
        }),
{
    breaks::law_best_break_point(points, start, target, min_pos);
    let w = window(start, target);
    assert(breaks::window_start(start, target) == target - w);
    match breaks::best_point(points, start, target, min_pos) {
        Some(i) => {
            assert forall|j: int|
                0 <= j < points.len() && target - w < (#[trigger] points[j]).0 <= target
                    && points[j].0 >= min_pos implies {
                let di = target - points[i].0;
                let dj = target - points[j].0;
                &&& points[j].1 * (10 * (w * w) - 7 * (dj * dj)) <= points[i].1 * (10 * (w * w) - 7
                    * (di * di))
                &&& j > i ==> points[j].1 * (10 * (w * w) - 7 * (dj * dj)) < points[i].1 * (10 * (w
                    * w) - 7 * (di * di))
            } by {
                assert(breaks::qualifies(points[j], start, target, min_pos));
            }
        },
        None => {
            assert forall|j: int| 0 <= j < points.len() implies !(target - w < (
            #[trigger] points[j]).0 <= target && points[j].0 >= min_pos) by {
                assert(!breaks::qualifies(points[j], start, target, min_pos));
            }
        },
    }
}

/// Of two points in the window with the same positive score, the farther one is never chosen.
pub proof fn law_nearer_break_wins(
    points: Seq<(int, int)>,
    start: int,
    target: int,
    min_pos: int,
    near: int,
    far: int,
)
    requires
        start <= target,
        0 <= near < points.len(),
        0 <= far < points.len(),
        points[near].1 == points[far].1,
        points[near].1 > 0,
        points[far].0 < points[near].0 <= target,
        min_pos <= points[near].0,
    ensures
        breaks::best_point(points, start, target, min_pos) != Some(far),
{
    if breaks::best_point(points, start, target, min_pos) == Some(far) {
        law_break_has_highest_decayed_score(points, start, target, min_pos);
        let w = window(start, target);
        let s = points[near].1;
        let d = target - points[near].0;
        let e = target - points[far].0;
        assert(s * (10 * (w * w) - 7 * (d * d)) > s * (10 * (w * w) - 7 * (e * e)))
            by (nonlinear_arith)
            requires
                s > 0,
                0 <= d < e,
        ;
        assert(target - w < points[near].0);
    }
}

/// The nearer of two points of one positive score has the strictly higher decayed score; at the
/// far end of the window three tenths of a score are left, and at the target all of it.
pub proof fn law_decay(score: int, start: int, target: int, near: int, far: int)
    requires
        start < target,
        score > 0,
        target - window(start, target) <= far < near <= target,
    ensures
        breaks::decayed((far, score), start, target) < breaks::decayed(
            (near, score),
            start,
            target,
        ),
        10 * breaks::decayed((target - window(start, target), score), start, target) == 3
            * breaks::decayed((target, score), start, target),
        breaks::decayed((target, score), start, target) == 10 * (window(start, target) * window(
            start,
            target,
        )) * score,
{
    let w = window(start, target);
    assert(breaks::window_start(start, target) == target - w);
    let d = target - near;
    let e = target - far;
    assert(score * (10 * (w * w) - 7 * (d * d)) > score * (10 * (w * w) - 7 * (e * e)))
        by (nonlinear_arith)
        requires
            score > 0,
            0 <= d < e,
    ;
    let s = score;
    let zero = target - target;
    assert(10 * (s * (10 * (w * w) - 7 * (w * w))) == 3 * (s * (10 * (w * w) - 7 * (0 * 0))))
        by (nonlinear_arith);
    assert(s * (10 * (w * w) - 7 * (0 * 0)) == 10 * (w * w) * s) by (nonlinear_arith);
    assert(zero == 0);
    assert(target - (target - w) == w);
}

/// A chunk is cut at the first character boundary at or after the chosen point, or after the
/// target if no point is chosen; at that place itself where it lies past the end of the document.
pub proof fn law_break_is_at_chosen_point(
    bytes: Seq<u8>,
    points: Seq<(int, int)>,
    start: int,
    target: int,
    min_pos: int,
)
    requires
        valid_utf8(bytes),
        0 <= start <= target,
    ensures
        ({
            let from = match breaks::best_point(points, start, target, min_pos) {
                Some(i) => points[i].0,
                None => target,
            };
            let p = breaks::break_pos(bytes, points, start, target, min_pos);
            &&& from <= bytes.len() ==> {
                &&& from <= p <= bytes.len()
                &&& is_char_boundary(bytes, p)
                &&& forall|q: int| from <= q < p ==> !is_char_boundary(bytes, q)
            }
            &&& from > bytes.len() ==> p == from
        }),
{
    law_break_has_highest_decayed_score(points, start, target, min_pos);
    let from = match breaks::best_point(points, start, target, min_pos) {
        Some(i) => points[i].0,
        None => target,
    };
    if from <= bytes.len() {
        breaks::lemma_aligned(bytes, from);
    }
}

/// A line of blanks scores 20.
pub proof fn law_blank_line_score(line: Seq<char>)
    requires
        forall|i: int| 0 <= i < line.len() ==> words::is_blank(#[trigger] line[i]),
    ensures
        breaks::line_score(line) == 20,
{
    words::law_blank_texts_trim_to_nothing(line);
    assert(words::all_blank(line));
}

/// `t` starts with `k` characters `#`, and what follows, if anything does, is no other `#`.
pub open spec fn starts_with_hashes(t: Seq<char>, k: int) -> bool {
    &&& 0 <= k <= t.len()
    &&& forall|j: int| 0 <= j < k ==> #[trigger] t[j] == '#'
    &&& k < t.len() ==> t[k] != '#'
}

proof fn lemma_hashes_are(t: Seq<char>) -> (k: int)
    ensures
        breaks::hashes(t) == k,
        starts_with_hashes(t, k),
    decreases t.len(),
{
    if t.len() > 0 && t[0] == '#' {
        let rest = t.skip(1);
        let k = lemma_hashes_are(rest);
        assert forall|j: int| 0 <= j < k + 1 implies #[trigger] t[j] == '#' by {
            if j > 0 {
                assert(t[j] == rest[j - 1]);
            }
        }
        k + 1
    } else {
        0
    }
}

proof fn lemma_hashes_once(t: Seq<char>, a: int, b: int)
    requires
        starts_with_hashes(t, a),
        starts_with_hashes(t, b),
    ensures
        a == b,
{
    if a < b {
        assert(t[a] == '#');
    } else if b < a {
        assert(t[b] == '#');
    }
}

/// What stands between the blanks around a line decides its score. One to six `#` that a space
/// follows, or nothing, score 100 for one and 10 less for each more. A `-`, `*` or `+` with a
/// space after it, or digits with a dot and a space after them, score 5. All else scores 1.
pub proof fn law_line_scores(front: Seq<char>, t: Seq<char>, back: Seq<char>)
    requires
        forall|i: int| 0 <= i < front.len() ==> words::is_blank(#[trigger] front[i]),
        forall|i: int| 0 <= i < back.len() ==> words::is_blank(#[trigger] back[i]),
        t.len() > 0 && !words::is_blank(t[0]) && !words::is_blank(t.last()),
    ensures
        forall|k: int|
            1 <= k <= 6 && #[trigger] starts_with_hashes(t, k) && (k == t.len() || t[k] == ' ')
                ==> breaks::line_score(front + t + back) == 110 - 10 * k,
        forall|k: int| #[trigger]
            starts_with_hashes(t, k) && (k > 6 || 1 <= k < t.len() && t[k] != ' ')
                ==> breaks::line_score(front + t + back) == 1,
        t.len() >= 2 && t[1] == ' ' && (t[0] == '-' || t[0] == '*' || t[0] == '+')
            ==> breaks::line_score(front + t + back) == 5,
        forall|k: int|
            0 <= k && k + 1 < t.len() && #[trigger] t[k] == '.' && t[k + 1] == ' ' && (forall|
                j: int,
            |
                0 <= j < k ==> '0' <= #[trigger] t[j] <= '9')
                ==> breaks::line_score(front + t + back) == 5,
        t[0] != '#' && !(t.len() >= 2 && t[1] == ' ' && (t[0] == '-' || t[0] == '*' || t[0] == '+'))
            && (forall|k: int|
            0 <= k && k + 1 < t.len() && #[trigger] t[k] == '.' && t[k + 1] == ' ' ==> exists|
                j: int,
            |
                0 <= j < k && !('0' <= #[trigger] t[j] <= '9'))
            ==> breaks::line_score(front + t + back) == 1,
{
    let line = front + t + back;
    laws::law_trim_of_padded(front, t, back);
    let h = lemma_hashes_are(t);
    assert forall|k: int|
        1 <= k <= 6 && #[trigger] starts_with_hashes(t, k) && (k == t.len() || t[k]
            == ' ') implies breaks::line_score(line) == 110 - 10 * k by {
        lemma_hashes_once(t, h, k);
    }
    assert forall|k: int| #[trigger]
        starts_with_hashes(t, k) && (k > 6 || 1 <= k < t.len() && t[k]
            != ' ') implies breaks::line_score(line) == 1 by {
        lemma_hashes_once(t, h, k);
        assert(t[0] == '#');
        assert forall|i: int| !breaks::is_number_end(t, i) by {
            if breaks::is_number_end(t, i) && i > 0 {
                assert('0' <= t[0] <= '9');
            }
        }
    }
    assert forall|k: int|
        0 <= k && k + 1 < t.len() && #[trigger] t[k] == '.' && t[k + 1] == ' ' && (forall|j: int|
            0 <= j < k ==> '0' <= #[trigger] t[j] <= '9') implies breaks::line_score(line) == 5 by {
        assert forall|j: int| 0 <= j < k implies '0' <= #[trigger] t[j] <= '9' by {
            assert('0' <= t[j] <= '9');
        }
        assert(breaks::is_number_end(t, k));
        if h > 0 {
            assert(t[0] == '#');
            if k > 0 {
                assert('0' <= t[0] <= '9');
            }
        }
    }
    if t[0] != '#' && !(t.len() >= 2 && t[1] == ' ' && (t[0] == '-' || t[0] == '*' || t[0] == '+'))
        && (forall|k: int|
        0 <= k && k + 1 < t.len() && #[trigger] t[k] == '.' && t[k + 1] == ' ' ==> exists|j: int|
            0 <= j < k && !('0' <= #[trigger] t[j] <= '9')) {
        assert(h == 0);
        assert forall|i: int| !breaks::is_number_end(t, i) by {
            if breaks::is_number_end(t, i) {
                assert(t[i] == '.');
                let j = choose|j: int|
                    0 <= j < i && !('0' <= #[trigger] t[j] <= '9');
                assert('0' <= t[j] <= '9');
            }
        }
        assert(breaks::line_score(line) == 1);
    }
    if t.len() >= 2 && t[1] == ' ' && (t[0] == '-' || t[0] == '*' || t[0] == '+') {
        assert(h == 0);
    }
}

/// A fence is a line whose first three characters are backticks, or are tildes.
pub proof fn law_fence(line: Seq<char>)
    ensures
        breaks::is_fence(line) <==> line.len() >= 3 && (line[0] == '`' && line[1] == '`' && line[2]
            == '`' || line[0] == '~' && line[1] == '~' && line[2] == '~'),
{
    let ticks = seq!['`', '`', '`'];
    let tildes = seq!['~', '~', '~'];
    if line.len() >= 3 {
        let front = line.subrange(0, 3);
        assert(front[0] == line[0] && front[1] == line[1] && front[2] == line[2]);
        if line[0] == '`' && line[1] == '`' && line[2] == '`' {
            assert(front =~= ticks);
        }
        if line[0] == '~' && line[1] == '~' && line[2] == '~' {
            assert(front =~= tildes);
        }
    }
}

/// The lines that are fences.
pub open spec fn fences(ls: Seq<Seq<char>>) -> Seq<Seq<char>> {
    ls.filter(
        |l: Seq<char>|
            l.len() >= 3 && (l[0] == '`' && l[1] == '`' && l[2] == '`' || l[0] == '~' && l[1] == '~'
                && l[2] == '~'),
    )
}

/// The first line counts among the fences if it is one.
pub proof fn lemma_fences_first(ls: Seq<Seq<char>>)
    requires
        ls.len() > 0,
    ensures
        fences(ls).len() == fences(ls.skip(1)).len() + if breaks::is_fence(ls[0]) {
            1int
        } else {
            0
        },
    decreases ls.len(),
{
    reveal(Seq::filter);
    law_fence(ls[0]);
    law_fence(ls.last());
    let front = ls.drop_last();
    if ls.len() > 1 {
        lemma_fences_first(front);
        assert(front.skip(1) =~= ls.skip(1).drop_last());
        assert(ls.skip(1).last() == ls.last());
    } else {
        assert(front =~= Seq::<Seq<char>>::empty());
        assert(ls.skip(1) =~= Seq::<Seq<char>>::empty());
    }
}

proof fn lemma_next_point(ls: Seq<Seq<char>>, line: Seq<char>, pos: int, fenced: bool)
    ensures
        ({
            let outside = (fences(ls).len() % 2 == 0) != fenced;
            breaks::break_points(ls.push(line), pos, fenced) == breaks::break_points(
                ls,
                pos,
                fenced,
            ) + if breaks::is_fence(line) {
                seq![(pos + breaks::extent(ls), 80int)]
            } else if outside {
                seq![(pos + breaks::extent(ls), breaks::line_score(line))]
            } else {
                Seq::empty()
            }
        }),
    decreases ls.len(),
{
    reveal(Seq::filter);
    let all = ls.push(line);
    if ls.len() == 0 {
        assert(all.skip(1) =~= ls);
        assert(fences(ls).len() == 0);
        assert(all[0] == line);
        let tail = breaks::break_points(
            all.skip(1),
            pos + text::utf8_len(line) + 1,
            fenced != breaks::is_fence(line),
        );
        assert(tail =~= Seq::<(int, int)>::empty());
        assert(breaks::break_points(ls, pos, fenced) =~= Seq::<(int, int)>::empty());
        let here = if breaks::is_fence(line) {
            seq![(pos, 80int)]
        } else if !fenced {
            seq![(pos, breaks::line_score(line))]
        } else {
            Seq::empty()
        };
        assert(breaks::break_points(all, pos, fenced) == here + tail);
        assert(here + tail =~= here);
        assert(breaks::extent(ls) == 0);
        assert(Seq::<(int, int)>::empty() + here =~= here);
    } else {
        let rest = ls.skip(1);
        assert(all.skip(1) =~= rest.push(line));
        assert(all[0] == ls[0]);
        lemma_fences_first(ls);
        let next = pos + text::utf8_len(ls[0]) + 1;
        let flag = fenced != breaks::is_fence(ls[0]);
        lemma_next_point(rest, line, next, flag);
        let here = if breaks::is_fence(ls[0]) {
            seq![(pos, 80int)]
        } else if !fenced {
            seq![(pos, breaks::line_score(ls[0]))]
        } else {
            Seq::empty()
        };
        let last = if breaks::is_fence(line) {
            seq![(pos + breaks::extent(ls), 80int)]
        } else if (fences(ls).len() % 2 == 0) != fenced {
            seq![(pos + breaks::extent(ls), breaks::line_score(line))]
        } else {
            Seq::empty()
        };
        let middle = breaks::break_points(rest, next, flag);
        assert(breaks::break_points(rest.push(line), next, flag) =~= middle + last);
        assert(here + (middle + last) =~= (here + middle) + last);
    }
}

/// One line more adds at most one break point, and changes none of those before it. A fence adds
/// one of 80 points. Any other line adds one of its own score where an even number of fences stands
/// before it, and none where an odd number does. It lies past all lines before, with one byte for
/// the end of each.
pub proof fn law_break_point_of_last_line(ls: Seq<Seq<char>>, line: Seq<char>)
    ensures
        breaks::break_points(Seq::<Seq<char>>::empty(), 0, false).len() == 0,
        ({
            let before = breaks::break_points(ls, 0, false);
            let after = breaks::break_points(ls.push(line), 0, false);
            if line.len() >= 3 && (line[0] == '`' && line[1] == '`' && line[2] == '`' || line[0]
                == '~' && line[1] == '~' && line[2] == '~') {
                after == before.push((breaks::extent(ls), 80int))
            } else if fences(ls).len() % 2 == 0 {
                after == before.push((breaks::extent(ls), breaks::line_score(line)))
            } else {
                after == before
            }
        }),
        breaks::extent(Seq::<Seq<char>>::empty()) == 0,
        breaks::extent(ls.push(line)) == breaks::extent(ls) + encode_utf8(line).len() + 1,
    decreases ls.len(),
{
    law_fence(line);
    lemma_next_point(ls, line, 0, false);
    let before = breaks::break_points(ls, 0, false);
    assert(before + seq![(breaks::extent(ls), 80int)] =~= before.push(
        (breaks::extent(ls), 80int),
    ));
    assert(before + seq![(breaks::extent(ls), breaks::line_score(line))] =~= before.push(
        (breaks::extent(ls), breaks::line_score(line)),
    ));
    assert(before + Seq::<(int, int)>::empty() =~= before);
    lemma_extent_of_last(ls, line);
}

proof fn lemma_extent_of_last(ls: Seq<Seq<char>>, line: Seq<char>)
    ensures
        breaks::extent(ls.push(line)) == breaks::extent(ls) + text::utf8_len(line) + 1,
    decreases ls.len(),
{
    let all = ls.push(line);
    if ls.len() == 0 {
        assert(all.skip(1) =~= ls);
        assert(breaks::extent(all) == text::utf8_len(line) + 1 + breaks::extent(all.skip(1)));
    } else {
        assert(all.skip(1) =~= ls.skip(1).push(line));
        lemma_extent_of_last(ls.skip(1), line);
    }
}

} // verus!
