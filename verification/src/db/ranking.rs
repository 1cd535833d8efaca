//! The neighbors of one content hash, ranked by similarity.
//!
//! A similarity is held as a whole number whose order is that of the similarities themselves, and
//! which is 0 where it makes no neighbor.

use vstd::prelude::*;

verus! {

/// Cap on chunks per document consulted during graph build.
/// Bounds build cost for long documents; chunks are taken in seq order.
pub const MAX_CHUNKS_PER_DOC: usize = 8;

/// Neighbor rows retained per chunk row.
pub open spec fn fetch_rows(k: nat) -> nat {
    (k + 2) * 3 + MAX_CHUNKS_PER_DOC as nat
}

/// Neighbor rows retained per chunk row during scoring (over-fetch so that duplicate hits of one
/// hash can be dropped before the top k are taken).
pub fn fetch_m(k: usize) -> (m: usize)
    requires
        fetch_rows(k as nat) <= usize::MAX,
    ensures
        m == fetch_rows(k as nat),
{
    (k + 2) * 3 + MAX_CHUNKS_PER_DOC
}

/// Number of leading entries whose weight is below `w`.
pub open spec fn below(top: Seq<(u32, usize)>, w: u32) -> int
    decreases top.len(),
{
    if top.len() == 0 || top[0].0 >= w {
        0
    } else {
        1 + below(top.skip(1), w)
    }
}

/// The entries in order of weight; entries of one weight keep their order.
pub open spec fn by_weight(top: Seq<(u32, usize)>) -> Seq<(u32, usize)>
    decreases top.len(),
{
    if top.len() == 0 {
        top
    } else {
        let sorted = by_weight(top.drop_last());
        sorted.insert(not_above(sorted, top.last().0), top.last())
    }
}

/// Number of leading entries whose weight is not above `w`.
pub open spec fn not_above(top: Seq<(u32, usize)>, w: u32) -> int
    decreases top.len(),
{
    if top.len() == 0 || top[0].0 > w {
        0
    } else {
        1 + not_above(top.skip(1), w)
    }
}

/// One more entry for a list that keeps `m`: while there is room it is added, and the list is
/// put in order of weight when it becomes full. After that an entry that outweighs the lightest
/// one takes its place, in front of the entries that are at least as heavy.
pub open spec fn offered(top: Seq<(u32, usize)>, m: nat, entry: (u32, usize)) -> Seq<(u32, usize)> {
    if top.len() + 1 < m {
        top.push(entry)
    } else if top.len() + 1 == m {
        by_weight(top.push(entry))
    } else if entry.0 > top[0].0 {
        top.skip(1).insert(below(top.skip(1), entry.0), entry)
    } else {
        top
    }
}

/// Row `c` is a neighbor: it belongs to another hash and is similar.
pub open spec fn is_candidate(weights: Seq<u32>, row_hash: Seq<usize>, own: int, c: int) -> bool {
    row_hash[c] != own && weights[c] > 0
}

/// The entries that are kept of the first `n` rows.
pub open spec fn top_of(
    weights: Seq<u32>,
    row_hash: Seq<usize>,
    own: int,
    m: nat,
    n: int,
) -> Seq<(u32, usize)>
    decreases n,
{
    if n <= 0 {
        Seq::empty()
    } else {
        let top = top_of(weights, row_hash, own, m, n - 1);
        if is_candidate(weights, row_hash, own, n - 1) {
            offered(top, m, (weights[n - 1], (n - 1) as usize))
        } else {
            top
        }
    }
}

/// The weights ascend.
pub open spec fn is_sorted(top: Seq<(u32, usize)>) -> bool {
    forall|i: int, j: int| 0 <= i <= j < top.len() ==> (#[trigger] top[i]).0 <= (#[trigger] top[j]).0
}

proof fn lemma_below(top: Seq<(u32, usize)>, w: u32)
    requires
        is_sorted(top),
    ensures
        0 <= below(top, w) <= top.len(),
        forall|i: int| 0 <= i < below(top, w) ==> (#[trigger] top[i]).0 < w,
        forall|i: int| below(top, w) <= i < top.len() ==> (#[trigger] top[i]).0 >= w,
    decreases top.len(),
{
    if top.len() > 0 && top[0].0 < w {
        let rest = top.skip(1);
        assert forall|i: int, j: int| 0 <= i <= j < rest.len() implies (#[trigger] rest[i]).0 <= (
        #[trigger] rest[j]).0 by {
            assert(top[i + 1].0 <= top[j + 1].0);
        }
        lemma_below(rest, w);
        assert forall|i: int| 0 <= i < below(top, w) implies (#[trigger] top[i]).0 < w by {
            if i > 0 {
                assert(rest[i - 1].0 < w);
            }
        }
        assert forall|i: int| below(top, w) <= i < top.len() implies (#[trigger] top[i]).0 >= w by {
            assert(rest[i - 1].0 >= w);
        }
    }
}

proof fn lemma_not_above(top: Seq<(u32, usize)>, w: u32)
    requires
        is_sorted(top),
    ensures
        0 <= not_above(top, w) <= top.len(),
        forall|i: int| 0 <= i < not_above(top, w) ==> (#[trigger] top[i]).0 <= w,
        forall|i: int| not_above(top, w) <= i < top.len() ==> (#[trigger] top[i]).0 > w,
    decreases top.len(),
{
    if top.len() > 0 && top[0].0 <= w {
        let rest = top.skip(1);
        assert forall|i: int, j: int| 0 <= i <= j < rest.len() implies (#[trigger] rest[i]).0 <= (
        #[trigger] rest[j]).0 by {
            assert(top[i + 1].0 <= top[j + 1].0);
        }
        lemma_not_above(rest, w);
        assert forall|i: int| 0 <= i < not_above(top, w) implies (#[trigger] top[i]).0 <= w by {
            if i > 0 {
                assert(rest[i - 1].0 <= w);
            }
        }
        assert forall|i: int| not_above(top, w) <= i < top.len() implies (#[trigger] top[i]).0
            > w by {
            assert(rest[i - 1].0 > w);
        }
    }
}

/// No row occurs twice.
pub open spec fn distinct_rows(top: Seq<(u32, usize)>) -> bool {
    forall|i: int, j: int|
        0 <= i < j < top.len() ==> (#[trigger] top[i]).1 != (#[trigger] top[j]).1
}

proof fn lemma_insert(top: Seq<(u32, usize)>, p: int, entry: (u32, usize))
    requires
        0 <= p <= top.len(),
        distinct_rows(top),
        forall|i: int| 0 <= i < top.len() ==> (#[trigger] top[i]).1 != entry.1,
    ensures
        distinct_rows(top.insert(p, entry)),
        forall|e: (u32, usize)| #[trigger]
            top.insert(p, entry).contains(e) <==> top.contains(e) || e == entry,
{
    let all = top.insert(p, entry);
    assert forall|i: int, j: int| 0 <= i < j < all.len() implies (#[trigger] all[i]).1 != (
    #[trigger] all[j]).1 by {
        let a = if i < p { i } else { i - 1 };
        let b = if j < p { j } else { j - 1 };
        if i != p && j != p {
            assert(all[i] == top[a] && all[j] == top[b]);
        } else if i != p {
            assert(all[i] == top[a]);
        } else {
            assert(all[j] == top[b]);
        }
    }
    assert forall|e: (u32, usize)| #[trigger] all.contains(e) <==> top.contains(e) || e == entry by {
        if all.contains(e) {
            let i = choose|i: int| 0 <= i < all.len() && all[i] == e;
            if i < p {
                assert(top[i] == e);
            } else if i > p {
                assert(top[i - 1] == e);
            }
        }
        if top.contains(e) {
            let i = choose|i: int| 0 <= i < top.len() && top[i] == e;
            assert(all[if i < p { i } else { i + 1 }] == e);
        }
        if e == entry {
            assert(all[p] == e);
        }
    }
}

/// Putting in order keeps the entries.
proof fn lemma_by_weight(top: Seq<(u32, usize)>)
    requires
        distinct_rows(top),
    ensures
        is_sorted(by_weight(top)),
        distinct_rows(by_weight(top)),
        by_weight(top).len() == top.len(),
        forall|e: (u32, usize)| #[trigger] by_weight(top).contains(e) <==> top.contains(e),
    decreases top.len(),
{
    if top.len() > 0 {
        let front = by_weight(top.drop_last());
        let last = top.last();
        lemma_by_weight(top.drop_last());
        lemma_not_above(front, last.0);
        let p = not_above(front, last.0);
        let all = by_weight(top);
        assert forall|i: int, j: int| 0 <= i <= j < all.len() implies (#[trigger] all[i]).0 <= (
        #[trigger] all[j]).0 by {
            let a = if i < p { i } else { i - 1 };
            let b = if j < p { j } else { j - 1 };
            if i != p && j != p {
                assert(all[i] == front[a] && all[j] == front[b]);
            } else if i != p {
                assert(all[i] == front[a]);
            } else if j != p {
                assert(all[j] == front[b]);
            }
        }
        assert forall|i: int| 0 <= i < front.len() implies (#[trigger] front[i]).1 != last.1 by {
            assert(by_weight(top.drop_last()).contains(front[i]));
            let q = choose|q: int|
                0 <= q < top.drop_last().len() && top.drop_last()[q] == front[i];
            assert(top[q].1 != top[top.len() - 1].1);
        }
        lemma_insert(front, p, last);
        assert forall|e: (u32, usize)| #[trigger] all.contains(e) <==> top.contains(e) by {
            if all.contains(e) && e != last {
                let q = choose|q: int| 0 <= q < top.drop_last().len() && top.drop_last()[q] == e;
                assert(top[q] == e);
            }
            if all.contains(e) && e == last {
                assert(top[top.len() - 1] == e);
            }
            if top.contains(e) && e != last {
                let q = choose|q: int| 0 <= q < top.len() && top[q] == e;
                assert(top.drop_last()[q] == e);
            }
        }
    }
}

/// What is kept of the first `n` rows: at most `m` entries of rows that are candidates, and
/// nothing is left out that outweighs one of them.
pub open spec fn keeps_greatest(
    top: Seq<(u32, usize)>,
    weights: Seq<u32>,
    row_hash: Seq<usize>,
    own: int,
    m: nat,
    n: int,
) -> bool {
    &&& top.len() <= m
    &&& distinct_rows(top)
    &&& forall|i: int|
        0 <= i < top.len() ==> (#[trigger] top[i]).1 < n && is_candidate(
            weights,
            row_hash,
            own,
            top[i].1 as int,
        ) && top[i].0 == weights[top[i].1 as int]
    &&& forall|c: int|
        0 <= c < n && #[trigger] is_candidate(weights, row_hash, own, c) ==> top.contains(
            (weights[c], c as usize),
        ) || top.len() == m && forall|i: int|
            0 <= i < top.len() ==> weights[c] <= (#[trigger] top[i]).0
}

/// The rows that are kept are the ones with the greatest weights.
pub proof fn law_greatest_rows_kept(
    weights: Seq<u32>,
    row_hash: Seq<usize>,
    own: int,
    m: nat,
    n: int,
)
    requires
        0 <= n <= weights.len() <= usize::MAX,
        m > 0,
    ensures
        keeps_greatest(
            top_of(weights, row_hash, own, m, n),
            weights,
            row_hash,
            own,
            m,
            n,
        ),
        top_of(weights, row_hash, own, m, n).len() == m ==> is_sorted(
            top_of(weights, row_hash, own, m, n),
        ),
    decreases n,
{
    if n > 0 {
        law_greatest_rows_kept(weights, row_hash, own, m, n - 1);
        let top = top_of(weights, row_hash, own, m, n - 1);
        if is_candidate(weights, row_hash, own, n - 1) {
            lemma_offered(top, weights, row_hash, own, m, n - 1);
        }
    }
}

proof fn lemma_offered(
    top: Seq<(u32, usize)>,
    weights: Seq<u32>,
    row_hash: Seq<usize>,
    own: int,
    m: nat,
    n: int,
)
    requires
        0 <= n < weights.len() <= usize::MAX,
        m > 0,
        keeps_greatest(top, weights, row_hash, own, m, n),
        top.len() == m ==> is_sorted(top),
        is_candidate(weights, row_hash, own, n),
    ensures
        keeps_greatest(
            offered(top, m, (weights[n], n as usize)),
            weights,
            row_hash,
            own,
            m,
            n + 1,
        ),
        offered(top, m, (weights[n], n as usize)).len() == m ==> is_sorted(
            offered(top, m, (weights[n], n as usize)),
        ),
{
    let entry = (weights[n], n as usize);
    let next = offered(top, m, entry);
    let pushed = top.push(entry);
    if top.len() < m {
        assert(pushed =~= top.insert(top.len() as int, entry));
        lemma_insert(top, top.len() as int, entry);
        if top.len() + 1 == m {
            lemma_by_weight(pushed);
        }
        assert forall|i: int| 0 <= i < next.len() implies (#[trigger] next[i]).1 < n + 1
            && is_candidate(weights, row_hash, own, next[i].1 as int) && next[i].0
            == weights[next[i].1 as int] by {
            assert(next.contains(next[i]));
            if next[i] != entry {
                assert(top.contains(next[i]));
                let q = choose|q: int| 0 <= q < top.len() && top[q] == next[i];
            }
        }
        assert forall|c: int|
            0 <= c < n + 1 && #[trigger] is_candidate(weights, row_hash, own, c) implies
            next.contains((weights[c], c as usize)) by {
            let e = (weights[c], c as usize);
            assert(c < n ==> top.contains(e));
            assert(top.insert(top.len() as int, entry).contains(e));
            assert(pushed.contains(e));
            assert(top.len() + 1 == m ==> by_weight(pushed).contains(e));
        }
    } else if entry.0 > top[0].0 {
        let rest = top.skip(1);
        assert forall|i: int, j: int| 0 <= i <= j < rest.len() implies (#[trigger] rest[i]).0 <= (
        #[trigger] rest[j]).0 by {
            assert(top[i + 1].0 <= top[j + 1].0);
        }
        assert forall|i: int, j: int| 0 <= i < j < rest.len() implies (#[trigger] rest[i]).1 != (
        #[trigger] rest[j]).1 by {
            assert(top[i + 1].1 != top[j + 1].1);
        }
        assert forall|i: int| 0 <= i < rest.len() implies (#[trigger] rest[i]).1 != entry.1 by {
            assert(top[i + 1].1 < n);
        }
        lemma_below(rest, entry.0);
        let p = below(rest, entry.0);
        lemma_insert(rest, p, entry);
        assert forall|i: int, j: int| 0 <= i <= j < next.len() implies (#[trigger] next[i]).0 <= (
        #[trigger] next[j]).0 by {
            let a = if i < p { i } else { i - 1 };
            let b = if j < p { j } else { j - 1 };
            if i != p && j != p {
                assert(next[i] == rest[a] && next[j] == rest[b]);
            } else if i != p {
                assert(next[i] == rest[a]);
            } else if j != p {
                assert(next[j] == rest[b]);
            }
        }
        assert forall|i: int| 0 <= i < next.len() implies top[0].0 <= (#[trigger] next[i]).0 by {
            assert(next.contains(next[i]));
            if next[i] != entry {
                let q = choose|q: int| 0 <= q < rest.len() && rest[q] == next[i];
                assert(top[q + 1] == next[i]);
            }
        }
        assert forall|i: int| 0 <= i < next.len() implies (#[trigger] next[i]).1 < n + 1
            && is_candidate(weights, row_hash, own, next[i].1 as int) && next[i].0
            == weights[next[i].1 as int] by {
            assert(next.contains(next[i]));
            if next[i] != entry {
                let q = choose|q: int| 0 <= q < rest.len() && rest[q] == next[i];
                assert(top[q + 1] == next[i]);
            }
        }
        assert forall|c: int|
            0 <= c < n + 1 && #[trigger] is_candidate(weights, row_hash, own, c) implies (
        next.contains((weights[c], c as usize)) || (forall|i: int|
            0 <= i < next.len() ==> weights[c] <= (#[trigger] next[i]).0)) by {
            let e = (weights[c], c as usize);
            assert(rest.insert(p, entry).contains(e) <==> rest.contains(e) || e == entry);
            if c < n {
                if top.contains(e) {
                    let q = choose|q: int| 0 <= q < top.len() && top[q] == e;
                    if q > 0 {
                        assert(rest[q - 1] == e);
                    }
                } else {
                    assert(weights[c] <= top[0].0);
                }
            }
        }
    } else {
        assert forall|i: int| 0 <= i < top.len() implies entry.0 <= (#[trigger] top[i]).0 by {
            assert(top[0].0 <= top[i].0);
        }
    }
}

fn count_below(top: &Vec<(u32, usize)>, from: usize, w: u32) -> (n: usize)
    requires
        from <= top@.len(),
    ensures
        n == below(top@.skip(from as int), w),
        from + n <= top@.len(),
{
    let mut i: usize = from;
    while i < top.len() && top[i].0 < w
        invariant
            from <= i <= top@.len(),
            below(top@.skip(from as int), w) == i - from + below(top@.skip(i as int), w),
        decreases top.len() - i,
    {
        proof {
            assert(top@.skip(i as int).skip(1) =~= top@.skip(i + 1));
            assert(top@.skip(i as int)[0] == top@[i as int]);
        }
        i += 1;
    }
    proof {
        if i < top@.len() {
            assert(top@.skip(i as int)[0] == top@[i as int]);
        }
    }
    i - from
}

fn count_not_above(top: &Vec<(u32, usize)>, w: u32) -> (n: usize)
    ensures
        n == not_above(top@, w),
        n <= top@.len(),
{
    let mut i: usize = 0;
    proof {
        assert(top@.skip(0) =~= top@);
    }
    while i < top.len() && top[i].0 <= w
        invariant
            i <= top@.len(),
            not_above(top@, w) == i + not_above(top@.skip(i as int), w),
        decreases top.len() - i,
    {
        proof {
            assert(top@.skip(i as int).skip(1) =~= top@.skip(i + 1));
            assert(top@.skip(i as int)[0] == top@[i as int]);
        }
        i += 1;
    }
    proof {
        if i < top@.len() {
            assert(top@.skip(i as int)[0] == top@[i as int]);
        }
    }
    i
}

fn sort_by_weight(top: &Vec<(u32, usize)>) -> (sorted: Vec<(u32, usize)>)
    ensures
        sorted@ == by_weight(top@),
{
    let mut sorted: Vec<(u32, usize)> = Vec::new();
    let mut i: usize = 0;
    proof {
        assert(top@.take(0) =~= Seq::<(u32, usize)>::empty());
        assert(sorted@ =~= by_weight(top@.take(0)));
    }
    while i < top.len()
        invariant
            i <= top@.len(),
            sorted@ == by_weight(top@.take(i as int)),
        decreases top.len() - i,
    {
        let entry = top[i];
        let p: usize = count_not_above(&sorted, entry.0);
        proof {
            assert(top@.take(i + 1).drop_last() =~= top@.take(i as int));
            assert(top@.take(i + 1).last() == entry);
        }
        sorted.insert(p, entry);
        i += 1;
    }
    proof {
        assert(top@.take(i as int) =~= top@);
    }
    sorted
}

/// Hands one more entry to a list that keeps `m`.
pub fn offer(top: &mut Vec<(u32, usize)>, m: usize, entry: (u32, usize))
    requires
        old(top)@.len() <= m,
        m > 0,
    ensures
        final(top)@ == offered(old(top)@, m as nat, entry),
        final(top)@.len() <= m,
{
    if top.len() < m {
        top.push(entry);
        if top.len() == m {
            let sorted = sort_by_weight(top);
            proof {
                lemma_by_weight_len(top@);
            }
            *top = sorted;
        }
    } else if entry.0 > top[0].0 {
        let p: usize = count_below(top, 1, entry.0);
        let ghost before = top@;
        top.remove(0);
        proof {
            assert(top@ =~= before.skip(1));
        }
        top.insert(p, entry);
    }
}

proof fn lemma_by_weight_len(top: Seq<(u32, usize)>)
    ensures
        by_weight(top).len() == top.len(),
    decreases top.len(),
{
    if top.len() > 0 {
        lemma_by_weight_len(top.drop_last());
        lemma_not_above_len(by_weight(top.drop_last()), top.last().0);
    }
}

proof fn lemma_not_above_len(top: Seq<(u32, usize)>, w: u32)
    ensures
        0 <= not_above(top, w) <= top.len(),
    decreases top.len(),
{
    if top.len() > 0 && top[0].0 <= w {
        lemma_not_above_len(top.skip(1), w);
    }
}

/// The `m` rows of other hashes that are most similar to one row, given its similarity to each.
pub fn top_rows(weights: &Vec<u32>, row_hash: &Vec<usize>, own: usize, m: usize) -> (top: Vec<
    (u32, usize),
>)
    requires
        weights@.len() == row_hash@.len(),
        m > 0,
    ensures
        top@ == top_of(weights@, row_hash@, own as int, m as nat, weights@.len() as int),
        keeps_greatest(
            top@,
            weights@,
            row_hash@,
            own as int,
            m as nat,
            weights@.len() as int,
        ),
{
    let mut top: Vec<(u32, usize)> = Vec::new();
    let mut c: usize = 0;
    while c < weights.len()
        invariant
            c <= weights@.len() == row_hash@.len(),
            m > 0,
            top@.len() <= m,
            top@ == top_of(weights@, row_hash@, own as int, m as nat, c as int),
        decreases weights.len() - c,
    {
        if row_hash[c] != own && weights[c] > 0 {
            offer(&mut top, m, (weights[c], c));
        }
        c += 1;
    }
    proof {
        law_greatest_rows_kept(
            weights@,
            row_hash@,
            own as int,
            m as nat,
            weights@.len() as int,
        );
    }
    top
}

pub open spec fn max(a: u32, b: u32) -> u32 {
    if a >= b {
        a
    } else {
        b
    }
}

/// The greatest weight of an entry whose row belongs to the hash `nb`; 0 when there is none.
pub open spec fn best_in(top: Seq<(u32, usize)>, row_hash: Seq<usize>, nb: int) -> u32
    decreases top.len(),
{
    if top.len() == 0 {
        0
    } else if row_hash[top.last().1 as int] == nb {
        max(best_in(top.drop_last(), row_hash, nb), top.last().0)
    } else {
        best_in(top.drop_last(), row_hash, nb)
    }
}

/// The greatest weight of the hash `nb` among the rows that are kept for each of the given chunks
/// of the hash `own`; 0 when none is kept.
pub open spec fn best_of(
    weights: Seq<Seq<u32>>,
    row_hash: Seq<usize>,
    own: int,
    m: nat,
    nb: int,
) -> u32
    decreases weights.len(),
{
    if weights.len() == 0 {
        0
    } else {
        max(
            best_of(weights.drop_last(), row_hash, own, m, nb),
            best_in(
                top_of(weights.last(), row_hash, own, m, row_hash.len() as int),
                row_hash,
                nb,
            ),
        )
    }
}

/// The weight of every hash as a neighbor of the hash `own`.
pub open spec fn neighbor_weights(
    weights: Seq<Seq<u32>>,
    row_hash: Seq<usize>,
    own: int,
    m: nat,
    n_hashes: nat,
) -> Seq<u32> {
    Seq::new(n_hashes, |nb: int| best_of(weights, row_hash, own, m, nb))
}

/// One neighbor ranks ahead of another: it weighs more, or as much and comes first in the order
/// of hashes.
pub open spec fn ahead(a: (usize, u32), b: (usize, u32)) -> bool {
    a.1 > b.1 || a.1 == b.1 && a.0 < b.0
}

/// `ranked` holds the `k` neighbors of positive weight that rank first, in order.
pub open spec fn is_ranking(ranked: Seq<(usize, u32)>, best: Seq<u32>, k: nat) -> bool {
    &&& ranked.len() <= k
    &&& forall|i: int|
        0 <= i < ranked.len() ==> (#[trigger] ranked[i]).0 < best.len() && ranked[i].1
            == best[ranked[i].0 as int] && ranked[i].1 > 0
    &&& forall|i: int, j: int|
        0 <= i < j < ranked.len() ==> ahead(#[trigger] ranked[i], #[trigger] ranked[j])
    &&& forall|nb: int|
        0 <= nb < best.len() && #[trigger] best[nb] > 0 ==> ranked.contains(
            (nb as usize, best[nb]),
        ) || ranked.len() == k && forall|i: int|
            0 <= i < ranked.len() ==> ahead(#[trigger] ranked[i], (nb as usize, best[nb]))
}

/// The similarities of the chunks as mathematical values.
pub open spec fn weight_views(weights: Seq<Vec<u32>>) -> Seq<Seq<u32>> {
    weights.map_values(|v: Vec<u32>| v@)
}

fn collect_weights(
    weights: &Vec<Vec<u32>>,
    row_hash: &Vec<usize>,
    own: usize,
    m: usize,
    n_hashes: usize,
) -> (best: Vec<u32>)
    requires
        m > 0,
        forall|r: int| 0 <= r < weights@.len() ==> (#[trigger] weights@[r])@.len() == row_hash@.len(),
        forall|c: int| 0 <= c < row_hash@.len() ==> #[trigger] row_hash@[c] < n_hashes,
    ensures
        best@ == neighbor_weights(
            weight_views(weights@),
            row_hash@,
            own as int,
            m as nat,
            n_hashes as nat,
        ),
{
    let ghost ws = weight_views(weights@);
    let mut best: Vec<u32> = Vec::new();
    while best.len() < n_hashes
        invariant
            best@.len() <= n_hashes,
            forall|nb: int| 0 <= nb < best@.len() ==> #[trigger] best@[nb] == 0,
        decreases n_hashes - best.len(),
    {
        best.push(0);
    }
    let mut r: usize = 0;
    while r < weights.len()
        invariant
            r <= weights@.len(),
            m > 0,
            forall|r: int|
                0 <= r < weights@.len() ==> (#[trigger] weights@[r])@.len() == row_hash@.len(),
            forall|c: int| 0 <= c < row_hash@.len() ==> #[trigger] row_hash@[c] < n_hashes,
            ws == weight_views(weights@),
            best@.len() == n_hashes,
            forall|nb: int|
                0 <= nb < n_hashes ==> #[trigger] best@[nb] == best_of(
                    ws.take(r as int),
                    row_hash@,
                    own as int,
                    m as nat,
                    nb,
                ),
        decreases weights.len() - r,
    {
        let top = top_rows(&weights[r], row_hash, own, m);
        let ghost before = best@;
        let mut i: usize = 0;
        while i < top.len()
            invariant
                i <= top@.len(),
                best@.len() == n_hashes == before.len(),
                forall|c: int| 0 <= c < row_hash@.len() ==> #[trigger] row_hash@[c] < n_hashes,
                forall|j: int| 0 <= j < top@.len() ==> (#[trigger] top@[j]).1 < row_hash@.len(),
                forall|nb: int|
                    0 <= nb < n_hashes ==> #[trigger] best@[nb] == max(
                        before[nb],
                        best_in(top@.take(i as int), row_hash@, nb),
                    ),
            decreases top.len() - i,
        {
            let (w, c) = top[i];
            let nb: usize = row_hash[c];
            proof {
                assert(top@.take(i + 1).drop_last() =~= top@.take(i as int));
                assert(top@.take(i + 1).last() == top@[i as int]);
            }
            if w > best[nb] {
                best[nb] = w;
            }
            i += 1;
        }
        proof {
            assert(top@.take(i as int) =~= top@);
            assert(ws.take(r + 1).drop_last() =~= ws.take(r as int));
            assert(ws.take(r + 1).last() == weights@[r as int]@);
        }
        r += 1;
    }
    proof {
        assert(ws.take(r as int) =~= ws);
    }
    best
}

/// Takes the hash `nb` with its weight into a ranking of the hashes before it.
fn insert_ranked(ranked: &mut Vec<(usize, u32)>, best: &Vec<u32>, nb: usize, k: usize)
    requires
        nb < best@.len(),
        is_ranking(old(ranked)@, best@.take(nb as int), k as nat),
    ensures
        is_ranking(final(ranked)@, best@.take(nb + 1), k as nat),
{
    let w: u32 = best[nb];
    let ghost old_ranked = ranked@;
    let ghost front = best@.take(nb as int);
    let ghost all = best@.take(nb + 1);
    proof {
        assert(forall|i: int| 0 <= i < nb ==> #[trigger] front[i] == all[i]);
        assert(all[nb as int] == w);
        assert(best.len() == best@.len());
    }
    if w == 0 {
        return;
    }
    let mut p: usize = 0;
    while p < ranked.len() && ranked[p].1 >= w
        invariant
            p <= ranked@.len(),
            forall|i: int| 0 <= i < p ==> (#[trigger] ranked@[i]).1 >= w,
        decreases ranked.len() - p,
    {
        p += 1;
    }
    if p >= k {
        proof {
            assert forall|i: int| 0 <= i < ranked@.len() implies ahead(
                #[trigger] ranked@[i],
                (nb, w),
            ) by {}
        }
        return;
    }
    ranked.insert(p, (nb, w));
    if ranked.len() > k {
        ranked.pop();
    }
    proof {
        lemma_insert_ranked(old_ranked, ranked@, front, all, p as int, k as nat);
    }
}

proof fn lemma_insert_ranked(
    before: Seq<(usize, u32)>,
    after: Seq<(usize, u32)>,
    front: Seq<u32>,
    all: Seq<u32>,
    p: int,
    k: nat,
)
    requires
        all.len() == front.len() + 1 <= usize::MAX,
        forall|i: int| 0 <= i < front.len() ==> #[trigger] front[i] == all[i],
        all.last() > 0,
        is_ranking(before, front, k),
        0 <= p <= before.len(),
        p < k,
        forall|i: int| 0 <= i < p ==> (#[trigger] before[i]).1 >= all.last(),
        p < before.len() ==> before[p].1 < all.last(),
        ({
            let grown = before.insert(p, (front.len() as usize, all.last()));
            after == if grown.len() > k {
                grown.drop_last()
            } else {
                grown
            }
        }),
    ensures
        is_ranking(after, all, k),
{
    let entry = (front.len() as usize, all.last());
    assert forall|i: int| 0 <= i < after.len() implies (#[trigger] after[i]).0 < all.len()
        && after[i].1 == all[after[i].0 as int] && after[i].1 > 0 by {
        if i != p {
            assert(after[i] == before[if i < p { i } else { i - 1 }]);
        }
    }
    assert forall|i: int| p <= i < before.len() implies ahead(entry, #[trigger] before[i]) by {
        if i > p {
            assert(ahead(before[p], before[i]));
        }
    }
    assert forall|i: int, j: int| 0 <= i < j < after.len() implies ahead(
        #[trigger] after[i],
        #[trigger] after[j],
    ) by {
        let a = if i < p { i } else { i - 1 };
        let b = if j < p { j } else { j - 1 };
        if i != p && j != p {
            assert(after[i] == before[a] && after[j] == before[b]);
            assert(ahead(before[a], before[b]));
        } else if i != p {
            assert(after[i] == before[a]);
        } else {
            assert(after[j] == before[b]);
        }
    }
    assert forall|nb: int| 0 <= nb < all.len() && #[trigger] all[nb] > 0 implies after.contains(
        (nb as usize, all[nb]),
    ) || after.len() == k && forall|i: int|
        0 <= i < after.len() ==> ahead(#[trigger] after[i], (nb as usize, all[nb])) by {
        let e = (nb as usize, all[nb]);
        if nb == front.len() {
            assert(after[p] == e);
        } else {
            assert(front[nb] == all[nb]);
            if before.contains(e) {
                let q = choose|q: int| 0 <= q < before.len() && before[q] == e;
                let q2 = if q < p { q } else { q + 1 };
                if q2 < after.len() {
                    assert(after[q2] == e);
                } else {
                    assert forall|i: int| 0 <= i < after.len() implies ahead(
                        #[trigger] after[i],
                        e,
                    ) by {
                        if i != p {
                            let a = if i < p { i } else { i - 1 };
                            assert(after[i] == before[a]);
                            assert(ahead(before[a], before[q]));
                        } else {
                            assert(ahead(entry, before[q]));
                        }
                    }
                }
            } else {
                assert forall|i: int| 0 <= i < after.len() implies ahead(#[trigger] after[i], e) by {
                    if i != p {
                        let a = if i < p { i } else { i - 1 };
                        assert(after[i] == before[a]);
                        assert(ahead(before[a], e));
                    } else {
                        assert(ahead(entry, before[p]));
                        assert(ahead(before[p], e));
                    }
                }
            }
        }
    }
}

/// The `k` hashes of positive weight that rank first.
pub fn rank(best: &Vec<u32>, k: usize) -> (ranked: Vec<(usize, u32)>)
    ensures
        is_ranking(ranked@, best@, k as nat),
{
    let mut ranked: Vec<(usize, u32)> = Vec::new();
    let mut nb: usize = 0;
    while nb < best.len()
        invariant
            nb <= best@.len(),
            is_ranking(ranked@, best@.take(nb as int), k as nat),
        decreases best.len() - nb,
    {
        insert_ranked(&mut ranked, best, nb, k);
        nb += 1;
    }
    proof {
        assert(best@.take(nb as int) =~= best@);
    }
    ranked
}

/// The `k` nearest neighbors of the hash `own`: per chunk row the most similar rows of other
/// hashes are taken, folded into the greatest weight per neighbor hash, and ranked.
pub fn rank_neighbors(
    weights: &Vec<Vec<u32>>,
    row_hash: &Vec<usize>,
    own: usize,
    n_hashes: usize,
    k: usize,
) -> (ranked: Vec<(usize, u32)>)
    requires
        fetch_rows(k as nat) <= usize::MAX,
        forall|r: int| 0 <= r < weights@.len() ==> (#[trigger] weights@[r])@.len() == row_hash@.len(),
        forall|c: int| 0 <= c < row_hash@.len() ==> #[trigger] row_hash@[c] < n_hashes,
    ensures
        is_ranking(
            ranked@,
            neighbor_weights(
                weight_views(weights@),
                row_hash@,
                own as int,
                fetch_rows(k as nat),
                n_hashes as nat,
            ),
            k as nat,
        ),
{
    let m: usize = fetch_m(k);
    let best = collect_weights(weights, row_hash, own, m, n_hashes);
    rank(&best, k)
}

proof fn lemma_rankings_agree(
    a: Seq<(usize, u32)>,
    b: Seq<(usize, u32)>,
    best: Seq<u32>,
    k: nat,
    i: int,
)
    requires
        is_ranking(a, best, k),
        is_ranking(b, best, k),
        0 <= i < a.len(),
        i <= b.len(),
        forall|j: int| 0 <= j < i ==> #[trigger] a[j] == b[j],
    ensures
        i < b.len(),
        !ahead(a[i], b[i]),
{
    let e = a[i];
    assert(best[e.0 as int] > 0);
    if b.contains(e) {
        let q = choose|q: int| 0 <= q < b.len() && b[q] == e;
        if q < i {
            assert(a[q] == b[q]);
            assert(ahead(a[q], a[i]));
        } else if q > i {
            assert(ahead(b[i], b[q]));
        }
    } else if i < b.len() {
        assert(ahead(b[i], e));
    }
}

/// The ranking is determined by the weights.
pub proof fn law_ranking_is_unique(
    a: Seq<(usize, u32)>,
    b: Seq<(usize, u32)>,
    best: Seq<u32>,
    k: nat,
)
    requires
        is_ranking(a, best, k),
        is_ranking(b, best, k),
    ensures
        a == b,
{
    let n = a.len() as int;
    lemma_same_front(a, b, best, k, n);
    if n < b.len() {
        lemma_rankings_agree(b, a, best, k, n);
    }
    assert(a =~= b);
}

proof fn lemma_same_front(
    a: Seq<(usize, u32)>,
    b: Seq<(usize, u32)>,
    best: Seq<u32>,
    k: nat,
    n: int,
)
    requires
        is_ranking(a, best, k),
        is_ranking(b, best, k),
        0 <= n <= a.len(),
    ensures
        n <= b.len(),
        forall|j: int| 0 <= j < n ==> #[trigger] a[j] == b[j],
    decreases n,
{
    if n > 0 {
        lemma_same_front(a, b, best, k, n - 1);
        lemma_rankings_agree(a, b, best, k, n - 1);
        lemma_rankings_agree(b, a, best, k, n - 1);
    }
}

} // verus!
