//! What the rows of the similarity matrix, the sources and the rankings are, said of their inputs.

use vstd::prelude::*;

use crate::db::graph;
use crate::db::groups;
use crate::db::ranking;
use crate::db::rows;
use crate::db::rows::Embedding;
use crate::text::decimal;

verus! {

proof fn lemma_rows_in(found: Seq<Option<Embedding>>, dim: nat, s: int, n: int)
    requires
        0 <= n <= found.len(),
    ensures
        forall|t: int, i: int| #[trigger]
            rows::rows_in(found, dim, s, n).contains((t, i)) <==> t == s && 0 <= i < n && (found[i]
                matches Some(e) && e.len > 0 && e.len == dim && !e.zero),
        forall|a: int, b: int|
            0 <= a < b < rows::rows_in(found, dim, s, n).len() ==> (#[trigger] rows::rows_in(
                found,
                dim,
                s,
                n,
            )[a]).1 < (#[trigger] rows::rows_in(found, dim, s, n)[b]).1,
    decreases n,
{
    if n > 0 {
        lemma_rows_in(found, dim, s, n - 1);
        let front = rows::rows_in(found, dim, s, n - 1);
        let all = rows::rows_in(found, dim, s, n);
        assert forall|t: int, i: int| #[trigger] all.contains((t, i)) <==> t == s && 0 <= i < n && (
        found[i] matches Some(e) && e.len > 0 && e.len == dim && !e.zero) by {
            if all.contains((t, i)) {
                let a = choose|a: int| 0 <= a < all.len() && all[a] == (t, i);
                if a < front.len() {
                    assert(front[a] == (t, i));
                    assert(front.contains((t, i)));
                }
            }
            if front.contains((t, i)) {
                let a = choose|a: int| 0 <= a < front.len() && front[a] == (t, i);
                assert(all[a] == (t, i));
            }
            if all.len() > front.len() {
                assert(all[front.len() as int] == (s, n - 1));
            }
            if t == s && 0 <= i < n - 1 {
                assert(front.contains((t, i)) <==> (found[i] matches Some(e) && e.len > 0 && e.len
                    == dim && !e.zero));
            }
        }
        assert forall|a: int, b: int| 0 <= a < b < all.len() implies (#[trigger] all[a]).1 < (
        #[trigger] all[b]).1 by {
            if b < front.len() {
                assert(front[a].1 < front[b].1);
            } else {
                assert(front.contains((front[a].0, front[a].1)));
            }
        }
    }
}

/// One key comes before another: in an earlier source, or earlier in the same one.
pub open spec fn key_before(a: (int, int), b: (int, int)) -> bool {
    a.0 < b.0 || a.0 == b.0 && a.1 < b.1
}

proof fn lemma_rows_of(found: Seq<Seq<Option<Embedding>>>, dim: nat, n: int)
    requires
        0 <= n <= found.len(),
    ensures
        forall|s: int, i: int| #[trigger]
            rows::rows_of(found, dim, n).contains((s, i)) <==> 0 <= s < n && 0 <= i
                < found[s].len() && (found[s][i] matches Some(e) && e.len > 0 && e.len == dim
                && !e.zero),
        forall|a: int, b: int|
            0 <= a < b < rows::rows_of(found, dim, n).len() ==> key_before(
                #[trigger] rows::rows_of(found, dim, n)[a],
                #[trigger] rows::rows_of(found, dim, n)[b],
            ),
    decreases n,
{
    if n > 0 {
        lemma_rows_of(found, dim, n - 1);
        let keys = found[n - 1];
        lemma_rows_in(keys, dim, n - 1, keys.len() as int);
        let front = rows::rows_of(found, dim, n - 1);
        let back = rows::rows_in(keys, dim, n - 1, keys.len() as int);
        let all = rows::rows_of(found, dim, n);
        assert forall|s: int, i: int| #[trigger] all.contains((s, i)) <==> 0 <= s < n && 0 <= i
            < found[s].len() && (found[s][i] matches Some(e) && e.len > 0 && e.len == dim
            && !e.zero) by {
            assert(front.contains((s, i)) <==> 0 <= s < n - 1 && 0 <= i < found[s].len() && (
            found[s][i] matches Some(e) && e.len > 0 && e.len == dim && !e.zero));
            assert(back.contains((s, i)) <==> s == n - 1 && 0 <= i < keys.len() && (keys[i]
                matches Some(e) && e.len > 0 && e.len == dim && !e.zero));
            if all.contains((s, i)) {
                let a = choose|a: int| 0 <= a < all.len() && all[a] == (s, i);
                if a < front.len() {
                    assert(front[a] == (s, i));
                } else {
                    assert(back[a - front.len()] == (s, i));
                }
            }
            if front.contains((s, i)) {
                let a = choose|a: int| 0 <= a < front.len() && front[a] == (s, i);
                assert(all[a] == (s, i));
            }
            if back.contains((s, i)) {
                let a = choose|a: int| 0 <= a < back.len() && back[a] == (s, i);
                assert(all[front.len() + a] == (s, i));
            }
        }
        assert forall|a: int, b: int| 0 <= a < b < all.len() implies key_before(
            #[trigger] all[a],
            #[trigger] all[b],
        ) by {
            let m = front.len() as int;
            if b < m {
                assert(key_before(front[a], front[b]));
            } else {
                assert(back.contains((back[b - m].0, back[b - m].1)));
                if a < m {
                    assert(front.contains((front[a].0, front[a].1)));
                } else {
                    assert(back.contains((back[a - m].0, back[a - m].1)));
                    assert(back[a - m].1 < back[b - m].1);
                }
            }
        }
    }
}

/// Every embedding that was found makes a row exactly if it has as many numbers as the matrix has
/// columns and a norm that is not zero, however many there are of one source. The rows come in the
/// order of sources and keys, each once.
pub proof fn law_every_fitting_embedding_is_a_row(found: Seq<Seq<Option<Embedding>>>)
    ensures
        ({
            let dim = rows::dimension(found);
            let selected = rows::rows_of(found, dim, found.len() as int);
            &&& forall|s: int, i: int|
                0 <= s < found.len() && 0 <= i < found[s].len() ==> (#[trigger] selected.contains(
                    (s, i),
                ) <==> (found[s][i] matches Some(e) && e.len > 0 && e.len == dim && !e.zero))
            &&& forall|s: int, i: int| #[trigger]
                selected.contains((s, i)) ==> 0 <= s < found.len() && 0 <= i < found[s].len()
            &&& forall|a: int, b: int|
                0 <= a < b < selected.len() ==> (#[trigger] selected[a]).0 < (
                #[trigger] selected[b]).0 || selected[a].0 == selected[b].0 && selected[a].1
                    < selected[b].1
        }),
{
    let dim = rows::dimension(found);
    lemma_rows_of(found, dim, found.len() as int);
    let selected = rows::rows_of(found, dim, found.len() as int);
    assert forall|a: int, b: int| 0 <= a < b < selected.len() implies (#[trigger] selected[a]).0 < (
    #[trigger] selected[b]).0 || selected[a].0 == selected[b].0 && selected[a].1
        < selected[b].1 by {
        assert(key_before(selected[a], selected[b]));
    }
}

proof fn lemma_first_len(found: Seq<Option<Embedding>>) -> (i: int)
    ensures
        rows::first_len(found) > 0 ==> 0 <= i < found.len() && (found[i] matches Some(e) && e.len
            == rows::first_len(found)) && forall|j: int|
            0 <= j < i ==> ((#[trigger] found[j]) matches Some(e) ==> e.len == 0),
        rows::first_len(found) == 0 ==> forall|j: int|
            0 <= j < found.len() ==> ((#[trigger] found[j]) matches Some(e) ==> e.len == 0),
    decreases found.len(),
{
    if found.len() == 0 {
        0
    } else {
        let here = match found[0] {
            Some(e) => e.len > 0,
            None => false,
        };
        if here {
            0
        } else {
            let rest = found.skip(1);
            let i = lemma_first_len(rest);
            assert forall|j: int| 0 < j < found.len() implies #[trigger] found[j] == rest[j
                - 1] by {}
            i + 1
        }
    }
}

/// The dimension is the length of the first embedding that is not empty, in the order of sources
/// and keys; it is 0 exactly if there is none.
pub proof fn law_dimension_is_the_first_length(found: Seq<Seq<Option<Embedding>>>)
    ensures
        rows::dimension(found) > 0 ==> exists|s: int, i: int|
            0 <= s < found.len() && 0 <= i < found[s].len() && ((#[trigger] found[s][i]) matches
                Some(e) && e.len == rows::dimension(found)) && forall|t: int, j: int|
                0 <= t < found.len() && 0 <= j < found[t].len() && (t < s || t == s && j < i) ==> (
                (#[trigger] found[t][j]) matches Some(e) ==> e.len == 0),
        rows::dimension(found) == 0 ==> forall|t: int, j: int|
            0 <= t < found.len() && 0 <= j < found[t].len() ==> ((#[trigger] found[t][j]) matches
                Some(e) ==> e.len == 0),
    decreases found.len(),
{
    if found.len() > 0 {
        let head = found[0];
        let i = lemma_first_len(head);
        if rows::first_len(head) > 0 {
            assert(found[0][i] matches Some(e) && e.len == rows::dimension(found));
        } else {
            let rest = found.skip(1);
            law_dimension_is_the_first_length(rest);
            if rows::dimension(found) > 0 {
                let (s, k) = choose|s: int, k: int|
                    0 <= s < rest.len() && 0 <= k < rest[s].len() && ((#[trigger] rest[s][k])
                        matches Some(e) && e.len == rows::dimension(rest)) && forall|
                        t: int,
                        j: int,
                    |
                        0 <= t < rest.len() && 0 <= j < rest[t].len() && (t < s || t == s && j < k)
                            ==> ((#[trigger] rest[t][j]) matches Some(e) ==> e.len == 0);
                assert(found[s + 1][k] == rest[s][k]);
                assert forall|t: int, j: int|
                    0 <= t < found.len() && 0 <= j < found[t].len() && (t < s + 1 || t == s + 1 && j
                        < k) implies ((#[trigger] found[t][j]) matches Some(e) ==> e.len == 0) by {
                    if t > 0 {
                        assert(found[t][j] == rest[t - 1][j]);
                    } else {
                        assert(found[0][j] == head[j]);
                    }
                }
            } else {
                assert forall|t: int, j: int|
                    0 <= t < found.len() && 0 <= j < found[t].len() implies ((#[trigger] found[t][j])
                    matches Some(e) ==> e.len == 0) by {
                    if t > 0 {
                        assert(found[t][j] == rest[t - 1][j]);
                    } else {
                        assert(found[0][j] == head[j]);
                    }
                }
            }
        }
    }
}

/// The numbers of all rows with this text, in row order.
pub open spec fn numbers_of(rs: Seq<(Seq<char>, i64)>, name: Seq<char>) -> Seq<i64> {
    rs.filter(|r: (Seq<char>, i64)| r.0 == name).map_values(|r: (Seq<char>, i64)| r.1)
}

/// The numbers of a text are those of the rows with that text, all of them, in row order.
pub proof fn law_ids_are_those_of_the_rows(rows: Seq<(Seq<char>, i64)>, name: Seq<char>)
    ensures
        groups::ids_of(rows, name) == numbers_of(rows, name),
    decreases rows.len(),
{
    reveal(Seq::filter);
    if rows.len() > 0 {
        law_ids_are_those_of_the_rows(rows.drop_last(), name);
    }
    assert(groups::ids_of(rows, name) =~= numbers_of(rows, name));
}

/// A content hash is a source exactly if it has embedded chunks. Its keys are those of its first
/// eight chunks in seq order, or of all if there are fewer: the hash, an underscore and the seq.
pub proof fn law_sources_are_the_embedded_hashes(
    docs: Seq<(Seq<char>, Seq<i64>)>,
    seq_rows: Seq<(Seq<char>, i64)>,
    n: int,
)
    requires
        0 <= n <= docs.len(),
    ensures
        ({
            let sources = graph::sources_of(docs, seq_rows, n);
            &&& forall|g: int|
                0 <= g < n ==> (is_source(sources, g) <==> exists|r: int|
                    0 <= r < seq_rows.len() && (#[trigger] seq_rows[r]).0 == (
                    #[trigger] docs[g]).0)
            &&& forall|i: int|
                0 <= i < sources.len() ==> {
                    let hash = docs[(#[trigger] sources[i]).0].0;
                    let seqs = groups::ids_of(seq_rows, hash);
                    let keys = sources[i].1;
                    &&& 0 <= sources[i].0 < n
                    &&& keys.len() == if seqs.len() <= 8 {
                        seqs.len()
                    } else {
                        8
                    }
                    &&& forall|j: int|
                        0 <= j < keys.len() ==> #[trigger] keys[j] == hash + seq!['_']
                            + decimal::decimal(seqs[j] as int)
                }
            &&& forall|i: int, j: int|
                0 <= i < j < sources.len() ==> (#[trigger] sources[i]).0 < (
                #[trigger] sources[j]).0
        }),
    decreases n,
{
    if n > 0 {
        law_sources_are_the_embedded_hashes(docs, seq_rows, n - 1);
        let front = graph::sources_of(docs, seq_rows, n - 1);
        let all = graph::sources_of(docs, seq_rows, n);
        let hash = docs[n - 1].0;
        let seqs = groups::ids_of(seq_rows, hash);
        lemma_has_ids(seq_rows, hash);
        if seqs.len() > 0 {
            assert(all[front.len() as int] == (n - 1, graph::chunk_keys(hash, seqs)));
        }
        assert(forall|i: int| 0 <= i < front.len() ==> #[trigger] all[i] == front[i]);
        assert forall|g: int| 0 <= g < n implies (is_source(all, g) <==> exists|r: int|
            0 <= r < seq_rows.len() && (#[trigger] seq_rows[r]).0 == (#[trigger] docs[g]).0) by {
            if is_source(all, g) {
                let i = choose|i: int| 0 <= i < all.len() && (#[trigger] all[i]).0 == g;
                if i < front.len() {
                    assert(front[i].0 == g);
                    assert(is_source(front, g));
                }
            }
            if is_source(front, g) {
                let i = choose|i: int| 0 <= i < front.len() && (#[trigger] front[i]).0 == g;
                assert(all[i].0 == g);
            }
            if g < n - 1 {
                assert(is_source(front, g) <==> exists|r: int|
                    0 <= r < seq_rows.len() && (#[trigger] seq_rows[r]).0 == docs[g].0);
            }
        }
        assert forall|i: int| 0 <= i < all.len() implies {
            let hash = docs[(#[trigger] all[i]).0].0;
            let seqs = groups::ids_of(seq_rows, hash);
            let keys = all[i].1;
            &&& 0 <= all[i].0 < n
            &&& keys.len() == if seqs.len() <= 8 {
                seqs.len()
            } else {
                8
            }
            &&& forall|j: int|
                0 <= j < keys.len() ==> #[trigger] keys[j] == hash + seq!['_'] + decimal::decimal(
                    seqs[j] as int,
                )
        } by {
            if i < front.len() {
                assert(all[i] == front[i]);
            }
        }
    }
}

/// The group `g` is one of the sources.
pub open spec fn is_source(sources: Seq<(int, Seq<Seq<char>>)>, g: int) -> bool {
    exists|i: int| 0 <= i < sources.len() && (#[trigger] sources[i]).0 == g
}

proof fn lemma_has_ids(rows: Seq<(Seq<char>, i64)>, name: Seq<char>)
    ensures
        groups::ids_of(rows, name).len() > 0 <==> exists|r: int|
            0 <= r < rows.len() && (#[trigger] rows[r]).0 == name,
    decreases rows.len(),
{
    if rows.len() > 0 {
        let less = rows.drop_last();
        lemma_has_ids(less, name);
        if exists|r: int| 0 <= r < less.len() && (#[trigger] less[r]).0 == name {
            let r = choose|r: int| 0 <= r < less.len() && (#[trigger] less[r]).0 == name;
            assert(rows[r].0 == name);
        }
        if exists|r: int| 0 <= r < rows.len() && (#[trigger] rows[r]).0 == name {
            let r = choose|r: int| 0 <= r < rows.len() && (#[trigger] rows[r]).0 == name;
            if r < less.len() {
                assert(less[r].0 == name);
            }
        }
        if rows.last().0 == name {
            assert(rows[rows.len() - 1].0 == name);
        }
    }
}

/// A ranking is in order: the heavier neighbor first, of two that weigh the same the one whose
/// hash comes first. It lists only hashes of positive weight, with their weights. One that is left
/// out comes after `k` others.
pub proof fn law_ranking_is_in_order(ranked: Seq<(usize, u32)>, best: Seq<u32>, k: nat)
    requires
        ranking::is_ranking(ranked, best, k),
    ensures
        ranked.len() <= k,
        forall|i: int|
            0 <= i < ranked.len() ==> (#[trigger] ranked[i]).0 < best.len() && ranked[i].1
                == best[ranked[i].0 as int] && best[ranked[i].0 as int] > 0,
        forall|i: int, j: int|
            0 <= i < j < ranked.len() ==> (#[trigger] ranked[i]).1 > (#[trigger] ranked[j]).1
                || ranked[i].1 == ranked[j].1 && ranked[i].0 < ranked[j].0,
        forall|nb: int|
            0 <= nb < best.len() && #[trigger] best[nb] > 0 && !ranked.contains(
                (nb as usize, best[nb]),
            ) ==> ranked.len() == k && forall|i: int|
                0 <= i < k ==> (#[trigger] ranked[i]).1 > best[nb] || ranked[i].1 == best[nb]
                    && ranked[i].0 < nb as usize,
{
    assert forall|i: int, j: int| 0 <= i < j < ranked.len() implies (#[trigger] ranked[i]).1 > (
    #[trigger] ranked[j]).1 || ranked[i].1 == ranked[j].1 && ranked[i].0 < ranked[j].0 by {
        assert(ranking::ahead(ranked[i], ranked[j]));
    }
    assert forall|nb: int|
        0 <= nb < best.len() && #[trigger] best[nb] > 0 && !ranked.contains(
            (nb as usize, best[nb]),
        ) implies ranked.len() == k && forall|i: int|
        0 <= i < k ==> (#[trigger] ranked[i]).1 > best[nb] || ranked[i].1 == best[nb]
            && ranked[i].0 < nb as usize by {
        assert forall|i: int| 0 <= i < k implies (#[trigger] ranked[i]).1 > best[nb] || ranked[i].1
            == best[nb] && ranked[i].0 < nb as usize by {
            assert(ranking::ahead(ranked[i], (nb as usize, best[nb])));
        }
    }
}

/// Per chunk, three rows for each neighbor and two more neighbors are kept, and eight rows more.
pub proof fn law_rows_fetched(k: nat)
    ensures
        ranking::fetch_rows(k) == 3 * k + 14,
{
}

/// The rows that are kept for a chunk are rows of other hashes with a positive similarity, each
/// with that similarity; at most `m` are kept, and a row that is dropped is not more similar than
/// any that is kept.
pub proof fn law_kept_rows(weights: Seq<u32>, row_hash: Seq<usize>, own: int, m: nat)
    requires
        weights.len() == row_hash.len() <= usize::MAX,
        m > 0,
    ensures
        ({
            let top = ranking::top_of(weights, row_hash, own, m, weights.len() as int);
            &&& top.len() <= m
            &&& forall|i: int|
                0 <= i < top.len() ==> {
                    let c = (#[trigger] top[i]).1 as int;
                    c < weights.len() && row_hash[c] != own && weights[c] > 0 && top[i].0
                        == weights[c]
                }
            &&& forall|i: int, j: int|
                0 <= i < j < top.len() ==> (#[trigger] top[i]).1 != (#[trigger] top[j]).1
            &&& forall|c: int|
                0 <= c < weights.len() && row_hash[c] != own && #[trigger] weights[c] > 0
                    && !top.contains((weights[c], c as usize)) ==> top.len() == m && forall|i: int|
                    0 <= i < m ==> (#[trigger] top[i]).0 >= weights[c]
        }),
{
    let n = weights.len() as int;
    let top = ranking::top_of(weights, row_hash, own, m, n);
    ranking::law_greatest_rows_kept(weights, row_hash, own, m, n);
    assert forall|c: int|
        0 <= c < weights.len() && row_hash[c] != own && #[trigger] weights[c] > 0 && !top.contains(
            (weights[c], c as usize),
        ) implies top.len() == m && forall|i: int|
        0 <= i < m ==> (#[trigger] top[i]).0 >= weights[c] by {
        assert(ranking::is_candidate(weights, row_hash, own, c));
    }
}

/// `n` parameter marks are `n` question marks with a comma between neighbors.
pub proof fn law_marks(n: nat)
    ensures
        graph::marks(n).len() == if n == 0 {
            0
        } else {
            2 * n - 1
        },
        forall|i: int|
            0 <= i < graph::marks(n).len() ==> (#[trigger] graph::marks(n)[i]) == if i % 2 == 0 {
                '?'
            } else {
                ','
            },
    decreases n,
{
    if n > 1 {
        law_marks((n - 1) as nat);
        let less = graph::marks((n - 1) as nat);
        assert forall|i: int| 0 <= i < graph::marks(n).len() implies (#[trigger] graph::marks(n)[i])
            == if i % 2 == 0 {
            '?'
        } else {
            ','
        } by {
            if i < less.len() {
                assert(graph::marks(n)[i] == less[i]);
            }
        }
    }
}

} // verus!
