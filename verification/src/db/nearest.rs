//! What the ranking of neighbors says about the similarities themselves.

use vstd::prelude::*;

use crate::db::ranking;

verus! {

/// The greatest similarity of one chunk to a row of the hash `nb`, among the first `n` rows.
pub open spec fn row_weight(weights: Seq<u32>, row_hash: Seq<usize>, nb: int, n: int) -> u32
    decreases n,
{
    if n <= 0 {
        0
    } else if row_hash[n - 1] == nb {
        ranking::max(row_weight(weights, row_hash, nb, n - 1), weights[n - 1])
    } else {
        row_weight(weights, row_hash, nb, n - 1)
    }
}

/// The greatest similarity across the pairs of a given chunk and a chunk of the hash `nb`.
pub open spec fn pair_weight(weights: Seq<Seq<u32>>, row_hash: Seq<usize>, nb: int) -> u32
    decreases weights.len(),
{
    if weights.len() == 0 {
        0
    } else {
        ranking::max(
            pair_weight(weights.drop_last(), row_hash, nb),
            row_weight(weights.last(), row_hash, nb, row_hash.len() as int),
        )
    }
}

/// The rows that are kept for one chunk.
pub open spec fn kept(weights: Seq<u32>, row_hash: Seq<usize>, own: int, k: nat) -> Seq<
    (u32, usize),
> {
    ranking::top_of(
        weights,
        row_hash,
        own,
        ranking::fetch_rows(k),
        row_hash.len() as int,
    )
}

/// `picks` are places in `top` whose rows belong to hashes that all differ.
pub open spec fn picks_hashes(top: Seq<(u32, usize)>, row_hash: Seq<usize>, picks: Seq<int>) -> bool {
    &&& forall|i: int| 0 <= i < picks.len() ==> 0 <= (#[trigger] picks[i]) < top.len()
    &&& forall|i: int, j: int|
        0 <= i < j < picks.len() ==> row_hash[top[#[trigger] picks[i]].1 as int]
            != row_hash[top[#[trigger] picks[j]].1 as int]
}

/// The rows that are kept belong to at least `k` hashes.
pub open spec fn covers(top: Seq<(u32, usize)>, row_hash: Seq<usize>, k: nat) -> bool {
    exists|picks: Seq<int>| picks.len() == k && #[trigger] picks_hashes(top, row_hash, picks)
}

/// Similarities of some chunks of the hash `own` to all rows, which belong to `n_hashes` hashes.
pub open spec fn is_matrix(weights: Seq<Seq<u32>>, row_hash: Seq<usize>, n_hashes: nat) -> bool {
    &&& row_hash.len() <= usize::MAX
    &&& n_hashes <= usize::MAX
    &&& forall|r: int| 0 <= r < weights.len() ==> (#[trigger] weights[r]).len() == row_hash.len()
    &&& forall|c: int| 0 <= c < row_hash.len() ==> #[trigger] row_hash[c] < n_hashes
}

/// `ranked` holds nearest neighbors: every weight in it is the greatest similarity across all
/// chunk pairs, and a hash that is left out is not more similar than one that is in it.
pub open spec fn is_nearest(
    ranked: Seq<(usize, u32)>,
    weights: Seq<Seq<u32>>,
    row_hash: Seq<usize>,
    own: int,
    n_hashes: nat,
    k: nat,
) -> bool {
    &&& forall|i: int|
        0 <= i < ranked.len() ==> (#[trigger] ranked[i]).1 == pair_weight(
            weights,
            row_hash,
            ranked[i].0 as int,
        )
    &&& forall|nb: int|
        0 <= nb < n_hashes && nb != own && #[trigger] pair_weight(weights, row_hash, nb) > 0
            ==> ranked.contains((nb as usize, pair_weight(weights, row_hash, nb)))
            || ranked.len() == k && forall|i: int|
            0 <= i < ranked.len() ==> (#[trigger] ranked[i]).1 >= pair_weight(
                weights,
                row_hash,
                nb,
            )
}

proof fn lemma_row_weight(weights: Seq<u32>, row_hash: Seq<usize>, nb: int, n: int) -> (c: int)
    requires
        0 <= n <= row_hash.len(),
        row_weight(weights, row_hash, nb, n) > 0,
    ensures
        0 <= c < n,
        row_hash[c] == nb,
        weights[c] == row_weight(weights, row_hash, nb, n),
    decreases n,
{
    if row_hash[n - 1] == nb && weights[n - 1] >= row_weight(weights, row_hash, nb, n - 1) {
        n - 1
    } else {
        lemma_row_weight(weights, row_hash, nb, n - 1)
    }
}

proof fn lemma_row_weight_max(weights: Seq<u32>, row_hash: Seq<usize>, nb: int, n: int, c: int)
    requires
        0 <= c < n <= row_hash.len(),
        row_hash[c] == nb,
    ensures
        weights[c] <= row_weight(weights, row_hash, nb, n),
    decreases n,
{
    if c < n - 1 {
        lemma_row_weight_max(weights, row_hash, nb, n - 1, c);
    }
}

proof fn lemma_best_in(top: Seq<(u32, usize)>, row_hash: Seq<usize>, nb: int, i: int)
    requires
        0 <= i < top.len(),
        row_hash[top[i].1 as int] == nb,
    ensures
        top[i].0 <= ranking::best_in(top, row_hash, nb),
    decreases top.len(),
{
    if i < top.len() - 1 {
        lemma_best_in(top.drop_last(), row_hash, nb, i);
    }
}

/// The weight of a hash among kept rows is the weight of one of them.
proof fn lemma_best_in_attained(top: Seq<(u32, usize)>, row_hash: Seq<usize>, nb: int) -> (i: int)
    requires
        ranking::best_in(top, row_hash, nb) > 0,
    ensures
        0 <= i < top.len(),
        row_hash[top[i].1 as int] == nb,
        top[i].0 == ranking::best_in(top, row_hash, nb),
    decreases top.len(),
{
    if row_hash[top.last().1 as int] == nb && top.last().0 >= ranking::best_in(
        top.drop_last(),
        row_hash,
        nb,
    ) {
        top.len() - 1
    } else {
        lemma_best_in_attained(top.drop_last(), row_hash, nb)
    }
}

/// No hash weighs more as a neighbor than the greatest similarity across chunk pairs, and the
/// hash itself has no weight.
proof fn lemma_best_of_bound(
    weights: Seq<Seq<u32>>,
    row_hash: Seq<usize>,
    own: int,
    m: nat,
    n_hashes: nat,
    nb: int,
)
    requires
        is_matrix(weights, row_hash, n_hashes),
        m > 0,
    ensures
        ranking::best_of(weights, row_hash, own, m, nb) <= pair_weight(weights, row_hash, nb),
        nb == own ==> ranking::best_of(weights, row_hash, own, m, nb) == 0,
    decreases weights.len(),
{
    if weights.len() > 0 {
        let front = weights.drop_last();
        assert(is_matrix(front, row_hash, n_hashes)) by {
            assert forall|r: int| 0 <= r < front.len() implies (#[trigger] front[r]).len()
                == row_hash.len() by {
                assert(weights[r].len() == row_hash.len());
            }
        }
        lemma_best_of_bound(front, row_hash, own, m, n_hashes, nb);
        let last = weights.last();
        assert(last == weights[weights.len() - 1]);
        let n = row_hash.len() as int;
        let top = ranking::top_of(last, row_hash, own, m, n);
        ranking::law_greatest_rows_kept(last, row_hash, own, m, n);
        if ranking::best_in(top, row_hash, nb) > 0 {
            let i = lemma_best_in_attained(top, row_hash, nb);
            lemma_row_weight_max(last, row_hash, nb, n, top[i].1 as int);
        }
    }
}

/// What is kept for a chunk counts for every hash.
proof fn lemma_best_of_row(
    weights: Seq<Seq<u32>>,
    row_hash: Seq<usize>,
    own: int,
    m: nat,
    nb: int,
    r: int,
)
    requires
        0 <= r < weights.len(),
    ensures
        ranking::best_in(
            ranking::top_of(weights[r], row_hash, own, m, row_hash.len() as int),
            row_hash,
            nb,
        ) <= ranking::best_of(weights, row_hash, own, m, nb),
    decreases weights.len(),
{
    if r < weights.len() - 1 {
        assert(weights.drop_last()[r] == weights[r]);
        lemma_best_of_row(weights.drop_last(), row_hash, own, m, nb, r);
    }
}

/// The greatest similarity is that of some chunk.
proof fn lemma_pair_weight(weights: Seq<Seq<u32>>, row_hash: Seq<usize>, nb: int) -> (r: int)
    requires
        pair_weight(weights, row_hash, nb) > 0,
    ensures
        0 <= r < weights.len(),
        pair_weight(weights, row_hash, nb) == row_weight(
            weights[r],
            row_hash,
            nb,
            row_hash.len() as int,
        ),
    decreases weights.len(),
{
    let last = row_weight(weights.last(), row_hash, nb, row_hash.len() as int);
    if last >= pair_weight(weights.drop_last(), row_hash, nb) {
        weights.len() - 1
    } else {
        let r = lemma_pair_weight(weights.drop_last(), row_hash, nb);
        assert(weights.drop_last()[r] == weights[r]);
        r
    }
}

/// A hash that weighs less as a neighbor than its greatest similarity has been crowded out: there
/// are `k` other hashes that weigh at least that much.
proof fn lemma_crowded_out(
    weights: Seq<Seq<u32>>,
    row_hash: Seq<usize>,
    own: int,
    n_hashes: nat,
    k: nat,
    nb: int,
) -> (others: Seq<int>)
    requires
        is_matrix(weights, row_hash, n_hashes),
        forall|r: int|
            0 <= r < weights.len() && kept(#[trigger] weights[r], row_hash, own, k).len()
                == ranking::fetch_rows(k) ==> covers(
                kept(weights[r], row_hash, own, k),
                row_hash,
                k,
            ),
        nb != own,
        ranking::best_of(weights, row_hash, own, ranking::fetch_rows(k), nb) < pair_weight(
            weights,
            row_hash,
            nb,
        ),
    ensures
        others.len() == k,
        others.no_duplicates(),
        forall|i: int|
            0 <= i < k ==> 0 <= (#[trigger] others[i]) < n_hashes && ranking::best_of(
                weights,
                row_hash,
                own,
                ranking::fetch_rows(k),
                others[i],
            ) >= pair_weight(weights, row_hash, nb),
{
    let m = ranking::fetch_rows(k);
    let w = pair_weight(weights, row_hash, nb);
    let n = row_hash.len() as int;
    let r = lemma_pair_weight(weights, row_hash, nb);
    let c = lemma_row_weight(weights[r], row_hash, nb, n);
    let top = kept(weights[r], row_hash, own, k);
    assert(weights[r].len() == row_hash.len());
    ranking::law_greatest_rows_kept(weights[r], row_hash, own, m, n);
    assert(ranking::is_candidate(weights[r], row_hash, own, c));
    let entry = (weights[r][c], c as usize);
    if top.contains(entry) {
        let i = choose|i: int| 0 <= i < top.len() && top[i] == entry;
        lemma_best_in(top, row_hash, nb, i);
        lemma_best_of_row(weights, row_hash, own, m, nb, r);
    }
    assert(top.len() == m);
    assert(covers(top, row_hash, k));
    let picks = choose|picks: Seq<int>|
        picks.len() == k && #[trigger] picks_hashes(top, row_hash, picks);
    let others = Seq::new(k, |i: int| row_hash[top[picks[i]].1 as int] as int);
    assert forall|i: int| 0 <= i < k implies 0 <= (#[trigger] others[i]) < n_hashes
        && ranking::best_of(weights, row_hash, own, m, others[i]) >= w by {
        let p = picks[i];
        assert(0 <= p < top.len());
        assert(w <= top[p].0);
        lemma_best_in(top, row_hash, others[i], p);
        lemma_best_of_row(weights, row_hash, own, m, others[i], r);
    }
    assert forall|i: int, j: int| 0 <= i < others.len() && 0 <= j < others.len() && i != j implies (
    #[trigger] others[i]) != (#[trigger] others[j]) by {
        if i < j {
            assert(row_hash[top[picks[i]].1 as int] != row_hash[top[picks[j]].1 as int]);
        } else {
            assert(row_hash[top[picks[j]].1 as int] != row_hash[top[picks[i]].1 as int]);
        }
    }
    others
}

/// Distinct places in a list are no more than the list is long.
proof fn lemma_distinct_places(places: Seq<int>, n: nat)
    requires
        places.no_duplicates(),
        forall|i: int| 0 <= i < places.len() ==> 0 <= (#[trigger] places[i]) < n,
    ensures
        places.len() <= n,
{
    let all = vstd::set_lib::set_int_range(0, n as int);
    vstd::set_lib::lemma_int_range(0, n as int);
    places.unique_seq_to_set();
    assert(places.to_set().subset_of(all)) by {
        assert forall|p: int| places.to_set().contains(p) implies all.contains(p) by {
            let i = choose|i: int| 0 <= i < places.len() && places[i] == p;
        }
    }
    vstd::set_lib::lemma_len_subset(places.to_set(), all);
}

/// Where `k` hashes weigh at least `w`, the ranking is full and all in it weigh at least `w`.
proof fn lemma_heavy_ranking(
    ranked: Seq<(usize, u32)>,
    best: Seq<u32>,
    k: nat,
    others: Seq<int>,
    w: u32,
)
    requires
        best.len() <= usize::MAX,
        ranking::is_ranking(ranked, best, k),
        w > 0,
        others.len() == k,
        others.no_duplicates(),
        forall|i: int|
            0 <= i < k ==> 0 <= (#[trigger] others[i]) < best.len() && best[others[i]] >= w,
    ensures
        ranked.len() == k,
        forall|i: int| 0 <= i < ranked.len() ==> (#[trigger] ranked[i]).1 >= w,
{
    let light = exists|i: int| 0 <= i < ranked.len() && (#[trigger] ranked[i]).1 < w;
    if ranked.len() < k || light {
        assert forall|j: int| 0 <= j < k implies ranked.contains(
            (#[trigger] others[j] as usize, best[others[j]]),
        ) by {
            let o = others[j];
            assert(best[o] >= w);
            if light {
                let i = choose|i: int| 0 <= i < ranked.len() && (#[trigger] ranked[i]).1 < w;
                assert(!ranking::ahead(ranked[i], (o as usize, best[o])));
            }
        }
        let at = |j: int|
            choose|q: int|
                0 <= q < ranked.len() && ranked[q] == (others[j] as usize, best[others[j]]);
        let places = Seq::new(k, at);
        assert forall|j: int| 0 <= j < k implies 0 <= (#[trigger] places[j]) < ranked.len()
            && ranked[places[j]] == (others[j] as usize, best[others[j]]) by {
            assert(ranked.contains((others[j] as usize, best[others[j]])));
        }
        assert forall|i: int, j: int|
            0 <= i < places.len() && 0 <= j < places.len() && i != j implies (#[trigger] places[i])
            != (#[trigger] places[j]) by {
            assert(others[i] != others[j]);
        }
        if light {
            let i = choose|i: int| 0 <= i < ranked.len() && (#[trigger] ranked[i]).1 < w;
            let more = places.push(i);
            assert forall|j: int| 0 <= j < k implies (#[trigger] places[j]) != i by {
                assert(best[others[j]] >= w);
            }
            lemma_distinct_places(more, ranked.len());
        } else {
            lemma_distinct_places(places, ranked.len());
        }
    }
}

/// There are `k` hashes that weigh, as neighbors, at least as much as the greatest similarity to
/// the hash `nb`.
pub open spec fn outweighed(
    weights: Seq<Seq<u32>>,
    row_hash: Seq<usize>,
    own: int,
    n_hashes: nat,
    k: nat,
    nb: int,
) -> bool {
    exists|others: Seq<int>|
        #[trigger] others.len() == k && others.no_duplicates() && outweigh(
            weights,
            row_hash,
            own,
            n_hashes,
            k,
            nb,
            others,
        )
}

/// Each of `others` weighs, as a neighbor, at least as much as the greatest similarity to the hash
/// `nb`.
pub open spec fn outweigh(
    weights: Seq<Seq<u32>>,
    row_hash: Seq<usize>,
    own: int,
    n_hashes: nat,
    k: nat,
    nb: int,
    others: Seq<int>,
) -> bool {
    forall|i: int|
        0 <= i < others.len() ==> 0 <= (#[trigger] others[i]) < n_hashes && ranking::best_of(
            weights,
            row_hash,
            own,
            ranking::fetch_rows(k),
            others[i],
        ) >= pair_weight(weights, row_hash, nb)
}

/// The ranking holds the nearest neighbors exactly if every hash whose most similar rows were
/// dropped is outweighed by `k` others.
pub proof fn law_ranking_is_nearest(
    ranked: Seq<(usize, u32)>,
    weights: Seq<Seq<u32>>,
    row_hash: Seq<usize>,
    own: int,
    n_hashes: nat,
    k: nat,
)
    requires
        is_matrix(weights, row_hash, n_hashes),
        ranking::is_ranking(
            ranked,
            ranking::neighbor_weights(weights, row_hash, own, ranking::fetch_rows(k), n_hashes),
            k,
        ),
    ensures
        is_nearest(ranked, weights, row_hash, own, n_hashes, k) <==> forall|nb: int|
            0 <= nb < n_hashes && nb != own && ranking::best_of(
                weights,
                row_hash,
                own,
                ranking::fetch_rows(k),
                nb,
            ) < #[trigger] pair_weight(weights, row_hash, nb) ==> outweighed(
                weights,
                row_hash,
                own,
                n_hashes,
                k,
                nb,
            ),
{
    let m = ranking::fetch_rows(k);
    let best = ranking::neighbor_weights(weights, row_hash, own, m, n_hashes);
    let dropped_are_outweighed = forall|nb: int|
        0 <= nb < n_hashes && nb != own && ranking::best_of(weights, row_hash, own, m, nb)
            < #[trigger] pair_weight(weights, row_hash, nb) ==> outweighed(
            weights,
            row_hash,
            own,
            n_hashes,
            k,
            nb,
        );
    if dropped_are_outweighed {
        assert forall|i: int| 0 <= i < ranked.len() implies (#[trigger] ranked[i]).1 == pair_weight(
            weights,
            row_hash,
            ranked[i].0 as int,
        ) by {
            let nb = ranked[i].0 as int;
            lemma_best_of_bound(weights, row_hash, own, m, n_hashes, nb);
            if ranked[i].1 < pair_weight(weights, row_hash, nb) {
                lemma_outweighed(ranked, weights, row_hash, own, n_hashes, k, nb);
            }
        }
        assert forall|nb: int|
            0 <= nb < n_hashes && nb != own && #[trigger] pair_weight(weights, row_hash, nb)
                > 0 implies ranked.contains((nb as usize, pair_weight(weights, row_hash, nb)))
            || ranked.len() == k && forall|i: int|
            0 <= i < ranked.len() ==> (#[trigger] ranked[i]).1 >= pair_weight(
                weights,
                row_hash,
                nb,
            ) by {
            lemma_best_of_bound(weights, row_hash, own, m, n_hashes, nb);
            if best[nb] < pair_weight(weights, row_hash, nb) {
                lemma_outweighed(ranked, weights, row_hash, own, n_hashes, k, nb);
            } else {
                assert(best[nb] == pair_weight(weights, row_hash, nb));
            }
        }
    }
    if is_nearest(ranked, weights, row_hash, own, n_hashes, k) {
        assert forall|nb: int|
            0 <= nb < n_hashes && nb != own && ranking::best_of(weights, row_hash, own, m, nb)
                < #[trigger] pair_weight(weights, row_hash, nb) implies outweighed(
            weights,
            row_hash,
            own,
            n_hashes,
            k,
            nb,
        ) by {
            let w = pair_weight(weights, row_hash, nb);
            if ranked.contains((nb as usize, w)) {
                let i = choose|i: int| 0 <= i < ranked.len() && ranked[i] == (nb as usize, w);
                assert(ranked[i].1 == best[nb]);
            }
            let others = Seq::new(ranked.len(), |i: int| ranked[i].0 as int);
            assert forall|i: int, j: int|
                0 <= i < others.len() && 0 <= j < others.len() && i != j implies others[i]
                != others[j] by {
                if i < j {
                    assert(ranking::ahead(ranked[i], ranked[j]));
                } else {
                    assert(ranking::ahead(ranked[j], ranked[i]));
                }
            }
            assert forall|i: int| 0 <= i < others.len() implies 0 <= (#[trigger] others[i])
                < n_hashes && ranking::best_of(weights, row_hash, own, m, others[i]) >= w by {
                assert(ranked[i].1 == best[ranked[i].0 as int]);
                assert(ranked[i].1 >= w);
            }
            assert(others.len() == k);
            assert(outweigh(weights, row_hash, own, n_hashes, k, nb, others));
        }
    }
}

/// Where a hash is outweighed, the ranking is full of hashes that weigh more than it could.
proof fn lemma_outweighed(
    ranked: Seq<(usize, u32)>,
    weights: Seq<Seq<u32>>,
    row_hash: Seq<usize>,
    own: int,
    n_hashes: nat,
    k: nat,
    nb: int,
)
    requires
        is_matrix(weights, row_hash, n_hashes),
        ranking::is_ranking(
            ranked,
            ranking::neighbor_weights(weights, row_hash, own, ranking::fetch_rows(k), n_hashes),
            k,
        ),
        outweighed(weights, row_hash, own, n_hashes, k, nb),
        pair_weight(weights, row_hash, nb) > 0,
    ensures
        ranked.len() == k,
        forall|i: int|
            0 <= i < ranked.len() ==> (#[trigger] ranked[i]).1 >= pair_weight(
                weights,
                row_hash,
                nb,
            ),
{
    let best = ranking::neighbor_weights(
        weights,
        row_hash,
        own,
        ranking::fetch_rows(k),
        n_hashes,
    );
    let others = choose|others: Seq<int>|
        #[trigger] others.len() == k && others.no_duplicates() && outweigh(
            weights,
            row_hash,
            own,
            n_hashes,
            k,
            nb,
            others,
        );
    lemma_heavy_ranking(ranked, best, k, others, pair_weight(weights, row_hash, nb));
}

/// The ranking holds the nearest neighbors if the rows that are kept for a chunk belong to at
/// least `k` hashes wherever rows may have been dropped.
pub proof fn law_rows_of_k_hashes_suffice(
    ranked: Seq<(usize, u32)>,
    weights: Seq<Seq<u32>>,
    row_hash: Seq<usize>,
    own: int,
    n_hashes: nat,
    k: nat,
)
    requires
        is_matrix(weights, row_hash, n_hashes),
        forall|r: int|
            0 <= r < weights.len() && kept(#[trigger] weights[r], row_hash, own, k).len()
                == ranking::fetch_rows(k) ==> covers(
                kept(weights[r], row_hash, own, k),
                row_hash,
                k,
            ),
        ranking::is_ranking(
            ranked,
            ranking::neighbor_weights(weights, row_hash, own, ranking::fetch_rows(k), n_hashes),
            k,
        ),
    ensures
        is_nearest(ranked, weights, row_hash, own, n_hashes, k),
{
    assert forall|nb: int|
        0 <= nb < n_hashes && nb != own && ranking::best_of(
            weights,
            row_hash,
            own,
            ranking::fetch_rows(k),
            nb,
        ) < #[trigger] pair_weight(weights, row_hash, nb) implies outweighed(
        weights,
        row_hash,
        own,
        n_hashes,
        k,
        nb,
    ) by {
        let others = lemma_crowded_out(weights, row_hash, own, n_hashes, k, nb);
        assert(outweigh(weights, row_hash, own, n_hashes, k, nb, others));
    }
    law_ranking_is_nearest(ranked, weights, row_hash, own, n_hashes, k);
}

/// No hash is its own neighbor.
pub proof fn law_no_own_neighbor(
    ranked: Seq<(usize, u32)>,
    weights: Seq<Seq<u32>>,
    row_hash: Seq<usize>,
    own: int,
    n_hashes: nat,
    k: nat,
)
    requires
        is_matrix(weights, row_hash, n_hashes),
        ranking::is_ranking(
            ranked,
            ranking::neighbor_weights(weights, row_hash, own, ranking::fetch_rows(k), n_hashes),
            k,
        ),
    ensures
        forall|i: int| 0 <= i < ranked.len() ==> (#[trigger] ranked[i]).0 != own,
{
    lemma_best_of_bound(weights, row_hash, own, ranking::fetch_rows(k), n_hashes, own);
}

/// Number of rows among the first `n` that belong to one of the given hashes.
pub open spec fn count_rows(row_hash: Seq<usize>, hashes: Seq<int>, n: int) -> nat
    decreases n,
{
    if n <= 0 {
        0
    } else if hashes.contains(row_hash[n - 1] as int) {
        count_rows(row_hash, hashes, n - 1) + 1
    } else {
        count_rows(row_hash, hashes, n - 1)
    }
}

proof fn lemma_count_more(row_hash: Seq<usize>, hashes: Seq<int>, h: int, n: int)
    requires
        0 <= n <= row_hash.len(),
    ensures
        count_rows(row_hash, hashes.push(h), n) <= count_rows(row_hash, hashes, n) + count_rows(
            row_hash,
            seq![h],
            n,
        ),
    decreases n,
{
    if n > 0 {
        lemma_count_more(row_hash, hashes, h, n - 1);
        let x = row_hash[n - 1] as int;
        if hashes.push(h).contains(x) && !hashes.contains(x) {
            let i = choose|i: int| 0 <= i < hashes.push(h).len() && hashes.push(h)[i] == x;
            assert(i == hashes.len()) by {
                if i < hashes.len() {
                    assert(hashes[i] == x);
                }
            }
            assert(seq![h][0] == x);
        }
    }
}

proof fn lemma_count_bound(row_hash: Seq<usize>, hashes: Seq<int>, per_hash: nat)
    requires
        forall|h: int| #[trigger] count_rows(row_hash, seq![h], row_hash.len() as int) <= per_hash,
    ensures
        count_rows(row_hash, hashes, row_hash.len() as int) <= hashes.len() * per_hash,
    decreases hashes.len(),
{
    let n = row_hash.len() as int;
    if hashes.len() == 0 {
        lemma_count_none(row_hash, hashes, n);
    } else {
        let front = hashes.drop_last();
        lemma_count_bound(row_hash, front, per_hash);
        lemma_count_more(row_hash, front, hashes.last(), n);
        assert(front.push(hashes.last()) =~= hashes);
        assert(count_rows(row_hash, seq![hashes.last()], n) <= per_hash);
        assert((hashes.len() - 1) * per_hash + per_hash == hashes.len() * per_hash)
            by (nonlinear_arith);
    }
}

proof fn lemma_count_none(row_hash: Seq<usize>, hashes: Seq<int>, n: int)
    requires
        hashes.len() == 0,
    ensures
        count_rows(row_hash, hashes, n) == 0,
    decreases n,
{
    if n > 0 {
        lemma_count_none(row_hash, hashes, n - 1);
    }
}

/// Distinct rows that all belong to the given hashes are no more than there are such rows.
proof fn lemma_count_entries(
    top: Seq<(u32, usize)>,
    row_hash: Seq<usize>,
    hashes: Seq<int>,
    n: int,
)
    requires
        0 <= n <= row_hash.len(),
        ranking::distinct_rows(top),
        forall|i: int|
            0 <= i < top.len() ==> (#[trigger] top[i]).1 < n && hashes.contains(
                row_hash[top[i].1 as int] as int,
            ),
    ensures
        top.len() <= count_rows(row_hash, hashes, n),
    decreases n,
{
    if n <= 0 {
        if top.len() > 0 {
            assert(top[0].1 < n);
        }
    } else if exists|i: int| 0 <= i < top.len() && (#[trigger] top[i]).1 == n - 1 {
        let i = choose|i: int| 0 <= i < top.len() && (#[trigger] top[i]).1 == n - 1;
        let rest = top.remove(i);
        assert forall|j: int| 0 <= j < rest.len() implies (#[trigger] rest[j]).1 < n - 1
            && hashes.contains(row_hash[rest[j].1 as int] as int) by {
            let q = if j < i { j } else { j + 1 };
            assert(rest[j] == top[q]);
            assert(top[q].1 != top[i].1) by {
                if q < i {
                    assert(top[q].1 != top[i].1);
                } else {
                    assert(top[i].1 != top[q].1);
                }
            }
        }
        assert forall|a: int, b: int| 0 <= a < b < rest.len() implies (#[trigger] rest[a]).1 != (
        #[trigger] rest[b]).1 by {
            let x = if a < i { a } else { a + 1 };
            let y = if b < i { b } else { b + 1 };
            assert(rest[a] == top[x] && rest[b] == top[y]);
        }
        lemma_count_entries(rest, row_hash, hashes, n - 1);
        assert(hashes.contains(row_hash[top[i].1 as int] as int));
    } else {
        lemma_count_entries(top, row_hash, hashes, n - 1);
    }
}

/// Picks `j` rows of different hashes, which is possible while `j` hashes have fewer rows than
/// are kept.
proof fn lemma_pick(
    top: Seq<(u32, usize)>,
    row_hash: Seq<usize>,
    per_hash: nat,
    j: nat,
) -> (picks: Seq<int>)
    requires
        ranking::distinct_rows(top),
        forall|i: int| 0 <= i < top.len() ==> (#[trigger] top[i]).1 < row_hash.len(),
        forall|h: int| #[trigger] count_rows(row_hash, seq![h], row_hash.len() as int) <= per_hash,
        j > 0 ==> (j - 1) * per_hash < top.len(),
    ensures
        picks.len() == j,
        picks_hashes(top, row_hash, picks),
    decreases j,
{
    if j == 0 {
        Seq::empty()
    } else {
        assert((j - 2) * per_hash <= (j - 1) * per_hash) by (nonlinear_arith)
            requires
                per_hash >= 0,
        ;
        let front = lemma_pick(top, row_hash, per_hash, (j - 1) as nat);
        let hashes = Seq::new((j - 1) as nat, |i: int| row_hash[top[front[i]].1 as int] as int);
        lemma_count_bound(row_hash, hashes, per_hash);
        if forall|i: int|
            0 <= i < top.len() ==> hashes.contains(row_hash[(#[trigger] top[i]).1 as int] as int) {
            lemma_count_entries(top, row_hash, hashes, row_hash.len() as int);
        }
        let p = choose|i: int|
            0 <= i < top.len() && !hashes.contains(row_hash[(#[trigger] top[i]).1 as int] as int);
        let picks = front.push(p);
        assert forall|a: int, b: int| 0 <= a < b < picks.len() implies row_hash[top[
        #[trigger] picks[a]].1 as int] != row_hash[top[#[trigger] picks[b]].1 as int] by {
            if b == j - 1 {
                assert(hashes[a] == row_hash[top[picks[a]].1 as int]);
            } else {
                assert(front[a] == picks[a] && front[b] == picks[b]);
            }
        }
        picks
    }
}

/// The ranking holds the nearest neighbors where no hash has more rows than `per_hash` and `k`
/// such hashes have no more rows than are kept per chunk. That is so for every `k` where no hash
/// has more than 3 rows.
pub proof fn law_short_documents_rank_exactly(
    ranked: Seq<(usize, u32)>,
    weights: Seq<Seq<u32>>,
    row_hash: Seq<usize>,
    own: int,
    n_hashes: nat,
    k: nat,
    per_hash: nat,
)
    requires
        is_matrix(weights, row_hash, n_hashes),
        forall|h: int| #[trigger] count_rows(row_hash, seq![h], row_hash.len() as int) <= per_hash,
        per_hash <= 3 || k * per_hash <= ranking::fetch_rows(k),
        ranking::is_ranking(
            ranked,
            ranking::neighbor_weights(weights, row_hash, own, ranking::fetch_rows(k), n_hashes),
            k,
        ),
    ensures
        is_nearest(ranked, weights, row_hash, own, n_hashes, k),
{
    let m = ranking::fetch_rows(k);
    let n = row_hash.len() as int;
    assert(k * per_hash <= m) by {
        assert(per_hash <= 3 ==> k * per_hash <= k * 3) by (nonlinear_arith);
    }
    assert forall|r: int|
        0 <= r < weights.len() && kept(#[trigger] weights[r], row_hash, own, k).len()
            == m implies covers(kept(weights[r], row_hash, own, k), row_hash, k) by {
        let top = kept(weights[r], row_hash, own, k);
        assert(weights[r].len() == row_hash.len());
        ranking::law_greatest_rows_kept(weights[r], row_hash, own, m, n);
        if k > 0 {
            assert((k - 1) * per_hash <= k * per_hash) by (nonlinear_arith);
            if (k - 1) * per_hash == m {
                assert((k - 1) * per_hash + per_hash == k * per_hash) by (nonlinear_arith);
                assert(per_hash == 0);
                assert((k - 1) * per_hash == 0) by (nonlinear_arith)
                    requires
                        per_hash == 0,
                ;
            }
        }
        let picks = lemma_pick(top, row_hash, per_hash, k);
        assert(picks_hashes(top, row_hash, picks));
    }
    law_rows_of_k_hashes_suffice(ranked, weights, row_hash, own, n_hashes, k);
}

} // verus!
