//! What the weights, the groups and the edges of a graph are, said of their inputs.

use vstd::prelude::*;

use crate::db::edge_laws;
use crate::db::graph;
use crate::db::groups;
use crate::db::nearest;
use crate::db::ranking;
use crate::db::rebuild;
use crate::db::row_laws;
use crate::db::rows;
use crate::text::words;

verus! {

/// Of the rows that are kept for a chunk, entry `i` of chunk `r` is one of the hash `nb`.
pub open spec fn is_hit(
    weights: Seq<Seq<u32>>,
    row_hash: Seq<usize>,
    own: int,
    m: nat,
    nb: int,
    r: int,
    i: int,
) -> bool {
    let top = ranking::top_of(weights[r], row_hash, own, m, row_hash.len() as int);
    0 <= r < weights.len() && 0 <= i < top.len() && row_hash[top[i].1 as int] == nb
}

proof fn lemma_best_in(top: Seq<(u32, usize)>, row_hash: Seq<usize>, nb: int) -> (i: int)
    ensures
        forall|j: int|
            0 <= j < top.len() && row_hash[(#[trigger] top[j]).1 as int] == nb ==> top[j].0
                <= ranking::best_in(top, row_hash, nb),
        ranking::best_in(top, row_hash, nb) > 0 ==> 0 <= i < top.len() && row_hash[top[i].1 as int]
            == nb && top[i].0 == ranking::best_in(top, row_hash, nb),
    decreases top.len(),
{
    if top.len() == 0 {
        0
    } else {
        let less = top.drop_last();
        let i = lemma_best_in(less, row_hash, nb);
        assert(forall|j: int| 0 <= j < less.len() ==> #[trigger] top[j] == less[j]);
        if row_hash[top.last().1 as int] == nb && top.last().0 >= ranking::best_in(
            less,
            row_hash,
            nb,
        ) {
            top.len() - 1
        } else {
            i
        }
    }
}

/// The weight of a neighbor is the greatest similarity among its rows that are kept for any of the
/// chunks; it is 0 exactly if none is kept or all are 0.
pub proof fn law_weight_is_the_greatest_hit(
    weights: Seq<Seq<u32>>,
    row_hash: Seq<usize>,
    own: int,
    m: nat,
    n_hashes: nat,
    nb: int,
)
    requires
        0 <= nb < n_hashes,
    ensures
        ({
            let w = ranking::neighbor_weights(weights, row_hash, own, m, n_hashes)[nb];
            &&& ranking::neighbor_weights(weights, row_hash, own, m, n_hashes).len() == n_hashes
            &&& forall|r: int, i: int| #[trigger]
                is_hit(weights, row_hash, own, m, nb, r, i) ==> ranking::top_of(
                    weights[r],
                    row_hash,
                    own,
                    m,
                    row_hash.len() as int,
                )[i].0 <= w
            &&& w > 0 ==> exists|r: int, i: int| #[trigger]
                is_hit(weights, row_hash, own, m, nb, r, i) && ranking::top_of(
                    weights[r],
                    row_hash,
                    own,
                    m,
                    row_hash.len() as int,
                )[i].0 == w
        }),
    decreases weights.len(),
{
    let n = row_hash.len() as int;
    if weights.len() > 0 {
        let less = weights.drop_last();
        let last = weights.len() - 1;
        law_weight_is_the_greatest_hit(less, row_hash, own, m, n_hashes, nb);
        let top = ranking::top_of(weights[last], row_hash, own, m, n);
        let k = lemma_best_in(top, row_hash, nb);
        let w = ranking::best_of(weights, row_hash, own, m, nb);
        let v = ranking::best_of(less, row_hash, own, m, nb);
        assert(ranking::neighbor_weights(less, row_hash, own, m, n_hashes)[nb] == v);
        assert forall|r: int, i: int|
            r < last implies is_hit(weights, row_hash, own, m, nb, r, i) == is_hit(
            less,
            row_hash,
            own,
            m,
            nb,
            r,
            i,
        ) by {
            if r >= 0 {
                assert(less[r] == weights[r]);
            }
        }
        assert forall|r: int, i: int| #[trigger]
            is_hit(weights, row_hash, own, m, nb, r, i) implies ranking::top_of(
            weights[r],
            row_hash,
            own,
            m,
            n,
        )[i].0 <= w by {
            if r < last {
                assert(is_hit(less, row_hash, own, m, nb, r, i));
                assert(less[r] == weights[r]);
            }
        }
        if w > 0 {
            if w == v {
                let (r, i) = choose|r: int, i: int| #[trigger]
                    is_hit(less, row_hash, own, m, nb, r, i) && ranking::top_of(
                        less[r],
                        row_hash,
                        own,
                        m,
                        n,
                    )[i].0 == v;
                assert(is_hit(weights, row_hash, own, m, nb, r, i));
            } else {
                assert(is_hit(weights, row_hash, own, m, nb, last, k));
            }
        }
    }
}

proof fn lemma_row_weight_bound(weights: Seq<u32>, row_hash: Seq<usize>, nb: int, n: int) -> (c: int)
    ensures
        forall|d: int|
            0 <= d < n && #[trigger] row_hash[d] == nb ==> weights[d] <= nearest::row_weight(
                weights,
                row_hash,
                nb,
                n,
            ),
        nearest::row_weight(weights, row_hash, nb, n) > 0 ==> 0 <= c < n && row_hash[c] == nb
            && weights[c] == nearest::row_weight(weights, row_hash, nb, n),
    decreases n,
{
    if n <= 0 {
        0
    } else {
        let c = lemma_row_weight_bound(weights, row_hash, nb, n - 1);
        if row_hash[n - 1] == nb && weights[n - 1] >= nearest::row_weight(
            weights,
            row_hash,
            nb,
            n - 1,
        ) {
            n - 1
        } else {
            c
        }
    }
}

/// The greatest similarity across chunk pairs is no less than that of any pair, and that of one.
pub proof fn law_pair_weight_is_the_greatest(
    weights: Seq<Seq<u32>>,
    row_hash: Seq<usize>,
    nb: int,
) -> (pair: (int, int))
    ensures
        forall|r: int, c: int|
            0 <= r < weights.len() && 0 <= c < row_hash.len() && row_hash[c] == nb ==> (
            #[trigger] weights[r][c]) <= nearest::pair_weight(weights, row_hash, nb),
        nearest::pair_weight(weights, row_hash, nb) > 0 ==> 0 <= pair.0 < weights.len() && 0
            <= pair.1 < row_hash.len() && row_hash[pair.1] == nb && weights[pair.0][pair.1]
            == nearest::pair_weight(weights, row_hash, nb),
    decreases weights.len(),
{
    if weights.len() == 0 {
        (0, 0)
    } else {
        let less = weights.drop_last();
        let pair = law_pair_weight_is_the_greatest(less, row_hash, nb);
        let n = row_hash.len() as int;
        let c = lemma_row_weight_bound(weights.last(), row_hash, nb, n);
        assert forall|r: int, d: int|
            0 <= r < weights.len() && 0 <= d < row_hash.len() && row_hash[d] == nb implies (
        #[trigger] weights[r][d]) <= nearest::pair_weight(weights, row_hash, nb) by {
            if r < less.len() {
                assert(weights[r][d] == less[r][d]);
            } else {
                assert(row_hash[d] == nb);
            }
        }
        if nearest::row_weight(weights.last(), row_hash, nb, n) > nearest::pair_weight(
            less,
            row_hash,
            nb,
        ) {
            (weights.len() - 1, c)
        } else {
            pair
        }
    }
}

/// A list that is not full takes a row in. A full one leaves out a row that is not more similar
/// than any of its own; any other row takes the place of the first, in front of those at least as
/// similar as itself.
pub proof fn law_offer(top: Seq<(u32, usize)>, m: nat, entry: (u32, usize))
    requires
        top.len() <= m,
        m > 0,
        top.len() == m ==> ranking::is_sorted(top),
    ensures
        top.len() + 1 < m ==> ranking::offered(top, m, entry) == top.push(entry),
        top.len() < m ==> ranking::offered(top, m, entry).len() == top.len() + 1 && ranking::offered(
            top,
            m,
            entry,
        ).to_multiset() =~= top.to_multiset().insert(entry),
        top.len() == m && (forall|i: int| 0 <= i < top.len() ==> entry.0 <= (#[trigger] top[i]).0)
            ==> ranking::offered(top, m, entry) == top,
        top.len() == m && (exists|i: int| 0 <= i < top.len() && entry.0 > (#[trigger] top[i]).0)
            ==> exists|p: int|
            {
                &&& 0 <= p < m
                &&& ranking::offered(top, m, entry) == #[trigger] top.skip(1).insert(p, entry)
                &&& forall|i: int| 0 < i <= p ==> (#[trigger] top[i]).0 < entry.0
                &&& forall|i: int| p < i < m ==> (#[trigger] top[i]).0 >= entry.0
            },
{
    broadcast use vstd::seq_lib::group_to_multiset_ensures;

    if top.len() < m {
        let pushed = top.push(entry);
        lemma_by_weight_keeps(pushed);
        assert(pushed.to_multiset() =~= top.to_multiset().insert(entry));
    } else {
        if forall|i: int| 0 <= i < top.len() ==> entry.0 <= (#[trigger] top[i]).0 {
            assert(entry.0 <= top[0].0);
        }
        if exists|i: int| 0 <= i < top.len() && entry.0 > (#[trigger] top[i]).0 {
            let i = choose|i: int| 0 <= i < top.len() && entry.0 > (#[trigger] top[i]).0;
            assert(top[0].0 <= top[i].0);
            let rest = top.skip(1);
            assert forall|i: int, j: int| 0 <= i <= j < rest.len() implies (#[trigger] rest[i]).0
                <= (#[trigger] rest[j]).0 by {
                assert(top[i + 1].0 <= top[j + 1].0);
            }
            let p = ranking::below(rest, entry.0);
            lemma_below_is(rest, entry.0);
            assert(ranking::offered(top, m, entry) == rest.insert(p, entry));
            assert forall|i: int| 0 < i <= p implies (#[trigger] top[i]).0 < entry.0 by {
                assert(rest[i - 1].0 < entry.0);
            }
            assert forall|i: int| p < i < m implies (#[trigger] top[i]).0 >= entry.0 by {
                assert(rest[i - 1].0 >= entry.0);
            }
        }
    }
}

proof fn lemma_below_is(top: Seq<(u32, usize)>, w: u32)
    requires
        ranking::is_sorted(top),
    ensures
        0 <= ranking::below(top, w) <= top.len(),
        forall|i: int| 0 <= i < ranking::below(top, w) ==> (#[trigger] top[i]).0 < w,
        forall|i: int| ranking::below(top, w) <= i < top.len() ==> (#[trigger] top[i]).0 >= w,
    decreases top.len(),
{
    if top.len() > 0 && top[0].0 < w {
        let rest = top.skip(1);
        assert forall|i: int, j: int| 0 <= i <= j < rest.len() implies (#[trigger] rest[i]).0 <= (
        #[trigger] rest[j]).0 by {
            assert(top[i + 1].0 <= top[j + 1].0);
        }
        lemma_below_is(rest, w);
        assert(forall|i: int| 0 < i < top.len() ==> #[trigger] top[i] == rest[i - 1]);
    } else if top.len() > 0 {
        assert forall|i: int| 0 <= i < top.len() implies (#[trigger] top[i]).0 >= w by {
            assert(top[0].0 <= top[i].0);
        }
    }
}

proof fn lemma_not_above_is(top: Seq<(u32, usize)>, w: u32)
    requires
        ranking::is_sorted(top),
    ensures
        0 <= ranking::not_above(top, w) <= top.len(),
        forall|i: int| 0 <= i < ranking::not_above(top, w) ==> (#[trigger] top[i]).0 <= w,
        forall|i: int| ranking::not_above(top, w) <= i < top.len() ==> (#[trigger] top[i]).0 > w,
    decreases top.len(),
{
    if top.len() > 0 && top[0].0 <= w {
        let rest = top.skip(1);
        assert forall|i: int, j: int| 0 <= i <= j < rest.len() implies (#[trigger] rest[i]).0 <= (
        #[trigger] rest[j]).0 by {
            assert(top[i + 1].0 <= top[j + 1].0);
        }
        lemma_not_above_is(rest, w);
        assert(forall|i: int| 0 < i < top.len() ==> #[trigger] top[i] == rest[i - 1]);
    } else if top.len() > 0 {
        assert forall|i: int| 0 <= i < top.len() implies (#[trigger] top[i]).0 > w by {
            assert(top[0].0 <= top[i].0);
        }
    }
}

proof fn lemma_by_weight_keeps(top: Seq<(u32, usize)>)
    ensures
        ranking::is_sorted(ranking::by_weight(top)),
        ranking::by_weight(top).len() == top.len(),
        ranking::by_weight(top).to_multiset() =~= top.to_multiset(),
    decreases top.len(),
{
    broadcast use vstd::seq_lib::group_to_multiset_ensures;

    if top.len() > 0 {
        let less = top.drop_last();
        let front = ranking::by_weight(less);
        let last = top.last();
        lemma_by_weight_keeps(less);
        lemma_not_above_is(front, last.0);
        let p = ranking::not_above(front, last.0);
        let all = front.insert(p, last);
        assert(all == ranking::by_weight(top));
        assert forall|i: int, j: int| 0 <= i <= j < all.len() implies (#[trigger] all[i]).0 <= (
        #[trigger] all[j]).0 by {
            let a = if i < p {
                i
            } else {
                i - 1
            };
            let b = if j < p {
                j
            } else {
                j - 1
            };
            if i != p && j != p {
                assert(all[i] == front[a] && all[j] == front[b]);
            } else if i != p {
                assert(all[i] == front[a]);
            } else if j != p {
                assert(all[j] == front[b]);
            }
        }
        assert(top =~= less.push(last));
        assert(all.to_multiset() =~= front.to_multiset().insert(last));
    }
}

/// Putting rows in order of their similarity keeps all of them, the least similar first; rows that
/// are equally similar and came in the order of their numbers stay in that order.
pub proof fn law_rows_in_order_of_weight(top: Seq<(u32, usize)>)
    requires
        forall|i: int, j: int|
            0 <= i < j < top.len() ==> (#[trigger] top[i]).1 < (#[trigger] top[j]).1,
    ensures
        ranking::by_weight(top).to_multiset() =~= top.to_multiset(),
        forall|i: int, j: int|
            0 <= i < j < top.len() ==> (#[trigger] ranking::by_weight(top)[i]).0 < (
            #[trigger] ranking::by_weight(top)[j]).0 || ranking::by_weight(top)[i].0
                == ranking::by_weight(top)[j].0 && ranking::by_weight(top)[i].1
                < ranking::by_weight(top)[j].1,
    decreases top.len(),
{
    broadcast use vstd::seq_lib::group_to_multiset_ensures;

    lemma_by_weight_keeps(top);
    if top.len() > 0 {
        let less = top.drop_last();
        let front = ranking::by_weight(less);
        let last = top.last();
        assert forall|i: int, j: int| 0 <= i < j < less.len() implies (#[trigger] less[i]).1 < (
        #[trigger] less[j]).1 by {
            assert(top[i].1 < top[j].1);
        }
        law_rows_in_order_of_weight(less);
        lemma_by_weight_keeps(less);
        lemma_not_above_is(front, last.0);
        let p = ranking::not_above(front, last.0);
        let all = front.insert(p, last);
        assert forall|i: int| 0 <= i < front.len() implies (#[trigger] front[i]).1 < last.1 by {
            assert(front.contains(front[i]));
            assert(less.to_multiset().count(front[i]) > 0);
            assert(less.contains(front[i]));
            let q = choose|q: int| 0 <= q < less.len() && less[q] == front[i];
            assert(top[q].1 < top[top.len() - 1].1);
        }
        assert forall|i: int, j: int| 0 <= i < j < top.len() implies (#[trigger] all[i]).0 < (
        #[trigger] all[j]).0 || all[i].0 == all[j].0 && all[i].1 < all[j].1 by {
            let a = if i < p {
                i
            } else {
                i - 1
            };
            let b = if j < p {
                j
            } else {
                j - 1
            };
            if i != p && j != p {
                assert(all[i] == front[a] && all[j] == front[b]);
            } else if i != p {
                assert(all[i] == front[a]);
            } else {
                assert(all[j] == front[b]);
            }
        }
    }
}

/// One of the rows has this text.
pub open spec fn has_text(rs: Seq<(Seq<char>, i64)>, name: Seq<char>) -> bool {
    exists|r: int| 0 <= r < rs.len() && (#[trigger] rs[r]).0 == name
}

/// There is one group for each text of the rows and for no other. The groups come in the order of
/// their texts, and each holds the numbers of all rows with its text, in row order.
pub proof fn law_groups_of_rows(gs: Seq<(Seq<char>, Seq<i64>)>, rs: Seq<(Seq<char>, i64)>)
    requires
        groups::is_grouping(gs, rs),
    ensures
        forall|i: int, j: int|
            0 <= i < j < gs.len() ==> words::precedes((#[trigger] gs[i]).0, (#[trigger] gs[j]).0),
        forall|name: Seq<char>| #[trigger]
            has_text(rs, name) <==> exists|i: int| 0 <= i < gs.len() && (#[trigger] gs[i]).0 == name,
        forall|i: int| 0 <= i < gs.len() ==> (#[trigger] gs[i]).1 == row_laws::numbers_of(rs, gs[i].0),
{
    assert forall|name: Seq<char>| #[trigger] has_text(rs, name) <==> exists|i: int|
        0 <= i < gs.len() && (#[trigger] gs[i]).0 == name by {
        if has_text(rs, name) {
            let r = choose|r: int| 0 <= r < rs.len() && (#[trigger] rs[r]).0 == name;
            assert(groups::names(gs, rs[r].0));
        }
        if exists|i: int| 0 <= i < gs.len() && (#[trigger] gs[i]).0 == name {
            let i = choose|i: int| 0 <= i < gs.len() && (#[trigger] gs[i]).0 == name;
            let r = edge_laws::lemma_id_row(rs, gs[i].0, 0);
            assert(rs[r].0 == name);
        }
    }
    assert forall|i: int| 0 <= i < gs.len() implies (#[trigger] gs[i]).1 == row_laws::numbers_of(
        rs,
        gs[i].0,
    ) by {
        row_laws::law_ids_are_those_of_the_rows(rs, gs[i].0);
    }
}

/// One of the rows is of this source.
pub open spec fn has_source(rs: Seq<(int, int)>, s: int) -> bool {
    exists|r: int| 0 <= r < rs.len() && (#[trigger] rs[r]).0 == s
}

/// The hashes are numbered in the order of the sources that have a row, without a gap, and each row
/// has the number of its source.
pub proof fn law_hashes_are_numbered(
    rs: Seq<(int, int)>,
    row_hash: Seq<usize>,
    hashes: Seq<usize>,
)
    requires
        rows::numbered(rs, row_hash, hashes),
    ensures
        row_hash.len() == rs.len(),
        forall|r: int|
            0 <= r < rs.len() ==> (#[trigger] row_hash[r]) < hashes.len()
                && hashes[row_hash[r] as int] == rs[r].0,
        forall|i: int, j: int|
            0 <= i < j < hashes.len() ==> (#[trigger] hashes[i]) < (#[trigger] hashes[j]),
        forall|h: int| 0 <= h < hashes.len() ==> has_source(rs, #[trigger] hashes[h] as int),
{
    assert forall|h: int| 0 <= h < hashes.len() implies has_source(
        rs,
        #[trigger] hashes[h] as int,
    ) by {
        assert(rows::has_row(row_hash, h));
        let r = choose|r: int| 0 <= r < row_hash.len() && #[trigger] row_hash[r] == h;
        assert(rs[r].0 == hashes[row_hash[r] as int]);
    }
}

/// There is an edge for every document of a hash and every document of a neighbor in its ranking,
/// with the weight that stands there, and there are no others.
pub proof fn law_edges_are_those_of_the_rankings(
    ids: Seq<Seq<i64>>,
    ranked: Seq<Seq<(usize, u32)>>,
    edge: (i64, i64, u32),
)
    ensures
        graph::graph_edges(ids, ranked, ranked.len() as int).contains(edge) <==> exists|
            h: int,
            j: int,
            a: int,
            b: int,
        |
            {
                &&& 0 <= h < ranked.len()
                &&& 0 <= j < ranked[h].len()
                &&& 0 <= a < ids[h].len()
                &&& 0 <= b < ids[ranked[h][j].0 as int].len()
                &&& edge == (
                    #[trigger] ids[h][a],
                    #[trigger] ids[ranked[h][j].0 as int][b],
                    ranked[h][j].1,
                )
            },
{
    let n = ranked.len() as int;
    let edges = graph::graph_edges(ids, ranked, n);
    if edges.contains(edge) {
        let i = choose|i: int| 0 <= i < edges.len() && edges[i] == edge;
        let (h, a, j, b) = edge_laws::lemma_graph_edge(ids, ranked, n, i);
        assert(edge == (ids[h][a], ids[ranked[h][j].0 as int][b], ranked[h][j].1));
    }
    if exists|h: int, j: int, a: int, b: int|
        {
            &&& 0 <= h < ranked.len()
            &&& 0 <= j < ranked[h].len()
            &&& 0 <= a < ids[h].len()
            &&& 0 <= b < ids[ranked[h][j].0 as int].len()
            &&& edge == (
                #[trigger] ids[h][a],
                #[trigger] ids[ranked[h][j].0 as int][b],
                ranked[h][j].1,
            )
        } {
        let (h, j, a, b) = choose|h: int, j: int, a: int, b: int|
            {
                &&& 0 <= h < ranked.len()
                &&& 0 <= j < ranked[h].len()
                &&& 0 <= a < ids[h].len()
                &&& 0 <= b < ids[ranked[h][j].0 as int].len()
                &&& edge == (
                    #[trigger] ids[h][a],
                    #[trigger] ids[ranked[h][j].0 as int][b],
                    ranked[h][j].1,
                )
            };
        rebuild::lemma_edge_exists(ids, ranked, n, h, a, j, b);
    }
}

/// The edges from one hash to another come document by document: all those of the first document
/// in the order of its neighbors, then those of the next.
pub proof fn law_edges_of_two_hashes(src: Seq<i64>, nbs: Seq<i64>, weight: u32, a: int, b: int)
    requires
        0 <= a < src.len(),
        0 <= b < nbs.len(),
    ensures
        graph::hash_edges(src, nbs, weight).len() == src.len() * nbs.len(),
        0 <= a * nbs.len() + b < src.len() * nbs.len(),
        graph::hash_edges(src, nbs, weight)[a * nbs.len() + b] == (src[a], nbs[b], weight),
    decreases src.len(),
{
    let n = nbs.len() as int;
    let less = src.drop_last();
    let m = less.len() as int;
    let front = graph::hash_edges(less, nbs, weight);
    lemma_hash_edges_len(less, nbs, weight);
    lemma_hash_edges_len(src, nbs, weight);
    assert(0 <= a * n + b < (m + 1) * n) by (nonlinear_arith)
        requires
            0 <= a <= m,
            0 <= b < n,
    ;
    if a < m {
        law_edges_of_two_hashes(less, nbs, weight, a, b);
        assert(less[a] == src[a]);
    } else {
        assert(a * n + b == m * n + b);
        assert(graph::hash_edges(src, nbs, weight)[front.len() + b] == graph::edge_row(
            src.last(),
            nbs,
            weight,
        )[b]);
    }
}

proof fn lemma_hash_edges_len(src: Seq<i64>, nbs: Seq<i64>, weight: u32)
    ensures
        graph::hash_edges(src, nbs, weight).len() == src.len() * nbs.len(),
    decreases src.len(),
{
    let n = nbs.len() as int;
    if src.len() > 0 {
        let m = src.drop_last().len() as int;
        lemma_hash_edges_len(src.drop_last(), nbs, weight);
        assert((m + 1) * n == m * n + n) by (nonlinear_arith);
    } else {
        assert(0 * n == 0) by (nonlinear_arith);
    }
}

/// The edges of a hash come in the order of its ranking, and those of a front part of the ranking
/// come first.
pub proof fn law_edges_in_order_of_ranking(
    ids: Seq<Seq<i64>>,
    h: int,
    a: Seq<(usize, u32)>,
    b: Seq<(usize, u32)>,
    one: (usize, u32),
)
    ensures
        graph::source_edges(ids, h, a + b) == graph::source_edges(ids, h, a) + graph::source_edges(
            ids,
            h,
            b,
        ),
        graph::source_edges(ids, h, seq![one]) == graph::hash_edges(
            ids[h],
            ids[one.0 as int],
            one.1,
        ),
        graph::source_edges(ids, h, Seq::empty()).len() == 0,
    decreases b.len(),
{
    let single = seq![one];
    assert(single.drop_last() =~= Seq::<(usize, u32)>::empty());
    assert(single.last() == one);
    let none = graph::source_edges(ids, h, single.drop_last());
    assert(none =~= Seq::<(i64, i64, u32)>::empty());
    let only = graph::hash_edges(ids[h], ids[one.0 as int], one.1);
    assert(none + only =~= only);
    let front = graph::source_edges(ids, h, a);
    if b.len() == 0 {
        assert(a + b =~= a);
        assert(front + graph::source_edges(ids, h, b) =~= front);
    } else {
        law_edges_in_order_of_ranking(ids, h, a, b.drop_last(), one);
        assert((a + b).drop_last() =~= a + b.drop_last());
        assert((a + b).last() == b.last());
        assert(graph::source_edges(ids, h, a + b) =~= front + graph::source_edges(ids, h, b));
    }
}

proof fn lemma_same_front(
    ids: Seq<Seq<i64>>,
    a: Seq<Seq<(usize, u32)>>,
    b: Seq<Seq<(usize, u32)>>,
    n: int,
)
    requires
        n <= a.len(),
        n <= b.len(),
        forall|h: int| 0 <= h < n ==> #[trigger] a[h] == b[h],
    ensures
        graph::graph_edges(ids, a, n) == graph::graph_edges(ids, b, n),
    decreases n,
{
    if n > 0 {
        lemma_same_front(ids, a, b, n - 1);
        assert(a[n - 1] == b[n - 1]);
    }
}

proof fn lemma_same_count(
    ids: Seq<Seq<i64>>,
    a: Seq<Seq<(usize, u32)>>,
    b: Seq<Seq<(usize, u32)>>,
    n: int,
)
    requires
        n <= a.len(),
        n <= b.len(),
        forall|h: int| 0 <= h < n ==> #[trigger] a[h] == b[h],
    ensures
        graph::linked_documents(ids, a, n) == graph::linked_documents(ids, b, n),
    decreases n,
{
    if n > 0 {
        lemma_same_count(ids, a, b, n - 1);
        assert(a[n - 1] == b[n - 1]);
    }
}

/// One hash more adds the number of its documents to the count if it has a neighbor.
pub proof fn law_count_of_one_hash_more(
    ids: Seq<Seq<i64>>,
    ranked: Seq<Seq<(usize, u32)>>,
    list: Seq<(usize, u32)>,
)
    ensures
        graph::linked_documents(ids, ranked, 0) == 0,
        list.len() == 0 ==> graph::linked_documents(ids, ranked.push(list), ranked.len() + 1int)
            == graph::linked_documents(ids, ranked, ranked.len() as int),
        list.len() > 0 ==> graph::linked_documents(ids, ranked.push(list), ranked.len() + 1int)
            == graph::linked_documents(ids, ranked, ranked.len() as int)
            + ids[ranked.len() as int].len(),
{
    lemma_same_count(ids, ranked.push(list), ranked, ranked.len() as int);
}

/// One hash more adds its edges after those of the hashes before it, which stay as they are.
pub proof fn law_edges_of_one_hash_more(
    ids: Seq<Seq<i64>>,
    ranked: Seq<Seq<(usize, u32)>>,
    list: Seq<(usize, u32)>,
)
    ensures
        graph::graph_edges(ids, ranked.push(list), ranked.len() + 1int) == graph::graph_edges(
            ids,
            ranked,
            ranked.len() as int,
        ) + graph::source_edges(ids, ranked.len() as int, list),
        graph::graph_edges(ids, ranked, 0).len() == 0,
{
    lemma_same_front(ids, ranked.push(list), ranked, ranked.len() as int);
}

/// While a list is not full, its rows stand in the order in which they were looked at.
proof fn lemma_rows_ascend(weights: Seq<u32>, row_hash: Seq<usize>, own: int, m: nat, n: int)
    requires
        0 <= n <= weights.len() <= usize::MAX,
        ranking::top_of(weights, row_hash, own, m, n).len() < m,
    ensures
        forall|i: int|
            0 <= i < ranking::top_of(weights, row_hash, own, m, n).len() ==> (
            #[trigger] ranking::top_of(weights, row_hash, own, m, n)[i]).1 < n,
        forall|i: int, j: int|
            0 <= i < j < ranking::top_of(weights, row_hash, own, m, n).len() ==> (
            #[trigger] ranking::top_of(weights, row_hash, own, m, n)[i]).1 < (
            #[trigger] ranking::top_of(weights, row_hash, own, m, n)[j]).1,
    decreases n,
{
    if n > 0 {
        ranking::law_greatest_rows_kept(weights, row_hash, own, m, n - 1);
        let top = ranking::top_of(weights, row_hash, own, m, n - 1);
        let entry = (weights[n - 1], (n - 1) as usize);
        if ranking::is_candidate(weights, row_hash, own, n - 1) {
            law_offer(top, m, entry);
            if top.len() == m {
                if forall|i: int| 0 <= i < top.len() ==> entry.0 <= (#[trigger] top[i]).0 {
                    assert(ranking::offered(top, m, entry) == top);
                } else {
                    let p = choose|p: int|
                        0 <= p < m && ranking::offered(top, m, entry)
                            == #[trigger] top.skip(1).insert(p, entry);
                    assert(top.skip(1).insert(p, entry).len() == m);
                }
            } else {
                lemma_rows_ascend(weights, row_hash, own, m, n - 1);
                if top.len() + 1 == m {
                    assert(ranking::offered(top, m, entry).len() == m);
                }
            }
        } else {
            lemma_rows_ascend(weights, row_hash, own, m, n - 1);
        }
    }
}

/// The rows are looked at in order. A row of the hash itself or without similarity changes nothing,
/// and so does, once the list is full, one that is not more similar than any in it. Any other row
/// comes in, and where the list is full the least similar one, which stands first, goes. A list
/// that becomes full is put in order of similarity, rows that are equally similar in row order.
pub proof fn law_rows_are_looked_at_in_order(
    weights: Seq<u32>,
    row_hash: Seq<usize>,
    own: int,
    m: nat,
    n: int,
)
    requires
        0 <= n < weights.len() <= usize::MAX,
        weights.len() == row_hash.len(),
        m > 0,
    ensures
        ({
            let top = ranking::top_of(weights, row_hash, own, m, n);
            let next = ranking::top_of(weights, row_hash, own, m, n + 1);
            let entry = (weights[n], n as usize);
            &&& row_hash[n] == own || weights[n] == 0 ==> next == top
            &&& row_hash[n] != own && weights[n] > 0 && top.len() < m ==> next.to_multiset()
                =~= top.to_multiset().insert(entry)
            &&& row_hash[n] != own && weights[n] > 0 && top.len() + 1 < m ==> next == top.push(
                entry,
            )
            &&& row_hash[n] != own && weights[n] > 0 && top.len() + 1 == m ==> forall|
                i: int,
                j: int,
            |
                0 <= i < j < m ==> (#[trigger] next[i]).0 < (#[trigger] next[j]).0 || next[i].0
                    == next[j].0 && next[i].1 < next[j].1
            &&& top.len() == m && (forall|i: int|
                0 <= i < top.len() ==> weights[n] <= (#[trigger] top[i]).0) ==> next == top
            &&& row_hash[n] != own && top.len() == m && (exists|i: int|
                0 <= i < top.len() && weights[n] > (#[trigger] top[i]).0) ==> exists|p: int|
                {
                    &&& 0 <= p < m
                    &&& next == #[trigger] top.skip(1).insert(p, entry)
                    &&& forall|i: int| 0 < i <= p ==> (#[trigger] top[i]).0 < weights[n]
                    &&& forall|i: int| p < i < m ==> (#[trigger] top[i]).0 >= weights[n]
                }
            &&& top.len() == m ==> forall|i: int, j: int|
                0 <= i < j < m ==> (#[trigger] top[i]).0 <= (#[trigger] top[j]).0
        }),
{
    ranking::law_greatest_rows_kept(weights, row_hash, own, m, n);
    let top = ranking::top_of(weights, row_hash, own, m, n);
    let entry = (weights[n], n as usize);
    law_offer(top, m, entry);
    if row_hash[n] != own && weights[n] > 0 && top.len() + 1 == m {
        let pushed = top.push(entry);
        lemma_rows_ascend(weights, row_hash, own, m, n);
        assert forall|i: int, j: int| 0 <= i < j < pushed.len() implies (#[trigger] pushed[i]).1 < (
        #[trigger] pushed[j]).1 by {
            if j < top.len() {
                assert(top[i].1 < top[j].1);
            } else {
                assert(top[i].1 < n);
            }
        }
        law_rows_in_order_of_weight(pushed);
        assert(ranking::offered(top, m, entry) == ranking::by_weight(pushed));
    }
}

} // verus!
