//! What holds of the edges of the similarity graph.

use vstd::prelude::*;

use crate::db::graph;
use crate::db::groups;
use crate::db::nearest;
use crate::db::ranking;
use crate::text::decimal;

verus! {

/// No number stands in two rows.
pub open spec fn distinct_ids(rows: Seq<(Seq<char>, i64)>) -> bool {
    forall|r: int, q: int| 0 <= r < q < rows.len() ==> (#[trigger] rows[r]).1 != (#[trigger] rows[q]).1
}

/// No two edges join the same pair of documents in the same direction.
pub open spec fn distinct_pairs(edges: Seq<(i64, i64, u32)>) -> bool {
    forall|i: int, j: int|
        0 <= i < j < edges.len() ==> !((#[trigger] edges[i]).0 == (#[trigger] edges[j]).0
            && edges[i].1 == edges[j].1)
}

/// No number stands in two places of `ids`.
pub open spec fn disjoint_ids(ids: Seq<Seq<i64>>) -> bool {
    forall|h: int, a: int, g: int, b: int|
        0 <= h < ids.len() && 0 <= a < ids[h].len() && 0 <= g < ids.len() && 0 <= b < ids[g].len()
            && #[trigger] ids[h][a] == #[trigger] ids[g][b] ==> h == g && a == b
}

/// The neighbors in every ranking differ from each other and from the source.
pub open spec fn proper_rankings(ranked: Seq<Seq<(usize, u32)>>, n_hashes: nat) -> bool {
    &&& forall|h: int, i: int|
        0 <= h < ranked.len() && 0 <= i < ranked[h].len() ==> (#[trigger] ranked[h][i]).0
            < n_hashes && ranked[h][i].0 != h
    &&& forall|h: int, i: int, j: int|
        0 <= h < ranked.len() && 0 <= i < j < ranked[h].len() ==> (#[trigger] ranked[h][i]).0 != (
        #[trigger] ranked[h][j]).0
}

/// Where a number of a group comes from.
pub proof fn lemma_id_row(rows: Seq<(Seq<char>, i64)>, name: Seq<char>, i: int) -> (r: int)
    requires
        0 <= i < groups::ids_of(rows, name).len(),
    ensures
        0 <= r < rows.len(),
        rows[r] == (name, groups::ids_of(rows, name)[i]),
    decreases rows.len(),
{
    let front = rows.drop_last();
    if rows.last().0 == name && i == groups::ids_of(rows, name).len() - 1 {
        rows.len() - 1
    } else {
        lemma_id_row(front, name, i)
    }
}

proof fn lemma_ids_distinct(rows: Seq<(Seq<char>, i64)>, name: Seq<char>, i: int, j: int)
    requires
        distinct_ids(rows),
        0 <= i < j < groups::ids_of(rows, name).len(),
    ensures
        groups::ids_of(rows, name)[i] != groups::ids_of(rows, name)[j],
    decreases rows.len(),
{
    let front = rows.drop_last();
    assert forall|r: int, q: int| 0 <= r < q < front.len() implies (#[trigger] front[r]).1 != (
    #[trigger] front[q]).1 by {
        assert(rows[r].1 != rows[q].1);
    }
    if rows.last().0 == name && j == groups::ids_of(rows, name).len() - 1 {
        let r = lemma_id_row(front, name, i);
        assert(rows[r].1 != rows[rows.len() - 1].1);
    } else {
        lemma_ids_distinct(front, name, i, j);
    }
}

/// The sources come in the order of the groups, each once.
pub proof fn lemma_sources_ascend(
    docs: Seq<(Seq<char>, Seq<i64>)>,
    seq_rows: Seq<(Seq<char>, i64)>,
    n: int,
)
    requires
        0 <= n <= docs.len(),
    ensures
        forall|i: int|
            0 <= i < graph::sources_of(docs, seq_rows, n).len() ==> 0 <= (
            #[trigger] graph::sources_of(docs, seq_rows, n)[i]).0 < n,
        forall|i: int, j: int|
            0 <= i < j < graph::sources_of(docs, seq_rows, n).len() ==> (
            #[trigger] graph::sources_of(docs, seq_rows, n)[i]).0 < (
            #[trigger] graph::sources_of(docs, seq_rows, n)[j]).0,
    decreases n,
{
    if n > 0 {
        lemma_sources_ascend(docs, seq_rows, n - 1);
        let front = graph::sources_of(docs, seq_rows, n - 1);
        let all = graph::sources_of(docs, seq_rows, n);
        assert(forall|i: int| 0 <= i < front.len() ==> #[trigger] all[i] == front[i]);
        assert(all.len() > front.len() ==> all[front.len() as int].0 == n - 1);
    }
}

pub proof fn lemma_hash_ids_disjoint(
    doc_rows: Seq<(Seq<char>, i64)>,
    docs: Seq<(Seq<char>, Seq<i64>)>,
    seq_rows: Seq<(Seq<char>, i64)>,
    hashes: Seq<usize>,
)
    requires
        distinct_ids(doc_rows),
        groups::is_grouping(docs, doc_rows),
        forall|h: int|
            0 <= h < hashes.len() ==> (#[trigger] hashes[h]) < graph::sources_of(
                docs,
                seq_rows,
                docs.len() as int,
            ).len(),
        forall|h: int, g: int|
            0 <= h < g < hashes.len() ==> (#[trigger] hashes[h]) < (#[trigger] hashes[g]),
    ensures
        disjoint_ids(
            graph::ids_by_hash(
                docs,
                graph::sources_of(docs, seq_rows, docs.len() as int),
                hashes,
            ),
        ),
{
    let sources = graph::sources_of(docs, seq_rows, docs.len() as int);
    let ids = graph::ids_by_hash(docs, sources, hashes);
    lemma_sources_ascend(docs, seq_rows, docs.len() as int);
    assert forall|h: int, a: int, g: int, b: int|
        0 <= h < ids.len() && 0 <= a < ids[h].len() && 0 <= g < ids.len() && 0 <= b < ids[g].len()
            && #[trigger] ids[h][a] == #[trigger] ids[g][b] implies h == g && a == b by {
        let x = sources[hashes[h] as int].0;
        let y = sources[hashes[g] as int].0;
        assert(hashes[h] < sources.len() && hashes[g] < sources.len());
        assert(docs[x].1 == groups::ids_of(doc_rows, docs[x].0));
        assert(docs[y].1 == groups::ids_of(doc_rows, docs[y].0));
        let r = lemma_id_row(doc_rows, docs[x].0, a);
        let q = lemma_id_row(doc_rows, docs[y].0, b);
        if r < q {
            assert(doc_rows[r].1 != doc_rows[q].1);
        } else if q < r {
            assert(doc_rows[q].1 != doc_rows[r].1);
        }
        assert(docs[x].0 == docs[y].0);
        if x < y {
            crate::text::words::lemma_order_total(docs[x].0, docs[y].0);
        } else if y < x {
            crate::text::words::lemma_order_total(docs[y].0, docs[x].0);
        }
        assert(x == y);
        if h < g {
            assert(hashes[h] < hashes[g]);
            assert(sources[hashes[h] as int].0 < sources[hashes[g] as int].0);
        } else if g < h {
            assert(hashes[g] < hashes[h]);
            assert(sources[hashes[g] as int].0 < sources[hashes[h] as int].0);
        }
        if a < b {
            lemma_ids_distinct(doc_rows, docs[x].0, a, b);
        } else if b < a {
            lemma_ids_distinct(doc_rows, docs[x].0, b, a);
        }
    }
}

/// The documents that an edge between two hashes joins.
proof fn lemma_hash_edge(src: Seq<i64>, nbs: Seq<i64>, weight: u32, i: int) -> (r: (int, int))
    requires
        0 <= i < graph::hash_edges(src, nbs, weight).len(),
    ensures
        0 <= r.0 < src.len(),
        0 <= r.1 < nbs.len(),
        graph::hash_edges(src, nbs, weight)[i] == (src[r.0], nbs[r.1], weight),
    decreases src.len(),
{
    let front = graph::hash_edges(src.drop_last(), nbs, weight);
    if i < front.len() {
        lemma_hash_edge(src.drop_last(), nbs, weight, i)
    } else {
        (src.len() - 1, i - front.len())
    }
}

proof fn lemma_concat_distinct(a: Seq<(i64, i64, u32)>, b: Seq<(i64, i64, u32)>)
    requires
        distinct_pairs(a),
        distinct_pairs(b),
        forall|i: int, j: int|
            0 <= i < a.len() && 0 <= j < b.len() ==> !((#[trigger] a[i]).0 == (#[trigger] b[j]).0
                && a[i].1 == b[j].1),
    ensures
        distinct_pairs(a + b),
{
    let all = a + b;
    assert forall|i: int, j: int| 0 <= i < j < all.len() implies !((#[trigger] all[i]).0 == (
    #[trigger] all[j]).0 && all[i].1 == all[j].1) by {
        if j < a.len() {
            assert(all[i] == a[i] && all[j] == a[j]);
        } else if i >= a.len() {
            assert(all[i] == b[i - a.len()] && all[j] == b[j - a.len()]);
        } else {
            assert(all[i] == a[i] && all[j] == b[j - a.len()]);
        }
    }
}

proof fn lemma_hash_edges_distinct(src: Seq<i64>, nbs: Seq<i64>, weight: u32)
    requires
        src.no_duplicates(),
        nbs.no_duplicates(),
    ensures
        distinct_pairs(graph::hash_edges(src, nbs, weight)),
    decreases src.len(),
{
    if src.len() > 0 {
        let front = graph::hash_edges(src.drop_last(), nbs, weight);
        let row = graph::edge_row(src.last(), nbs, weight);
        lemma_hash_edges_distinct(src.drop_last(), nbs, weight);
        assert forall|i: int, j: int| 0 <= i < front.len() && 0 <= j < row.len() implies !((
        #[trigger] front[i]).0 == (#[trigger] row[j]).0 && front[i].1 == row[j].1) by {
            let (a, b) = lemma_hash_edge(src.drop_last(), nbs, weight, i);
            assert(src[a] != src[src.len() - 1]);
        }
        lemma_concat_distinct(front, row);
    }
}

/// The documents that an edge from the hash `h` joins: their places, and that of the neighbor in
/// the ranking.
proof fn lemma_source_edge(ids: Seq<Seq<i64>>, h: int, ranked: Seq<(usize, u32)>, i: int) -> (r: (
    int,
    int,
    int,
))
    requires
        0 <= i < graph::source_edges(ids, h, ranked).len(),
    ensures
        0 <= r.0 < ids[h].len(),
        0 <= r.1 < ranked.len(),
        0 <= r.2 < ids[ranked[r.1].0 as int].len(),
        graph::source_edges(ids, h, ranked)[i].0 == ids[h][r.0],
        graph::source_edges(ids, h, ranked)[i].1 == ids[ranked[r.1].0 as int][r.2],
        graph::source_edges(ids, h, ranked)[i].2 == ranked[r.1].1,
    decreases ranked.len(),
{
    let front = graph::source_edges(ids, h, ranked.drop_last());
    if i < front.len() {
        lemma_source_edge(ids, h, ranked.drop_last(), i)
    } else {
        let nb = ranked.last();
        let (a, b) = lemma_hash_edge(ids[h], ids[nb.0 as int], nb.1, i - front.len());
        (a, ranked.len() - 1, b)
    }
}

pub proof fn lemma_no_duplicates(ids: Seq<Seq<i64>>, h: int)
    requires
        disjoint_ids(ids),
        0 <= h < ids.len(),
    ensures
        ids[h].no_duplicates(),
{
    assert forall|a: int, b: int|
        0 <= a < ids[h].len() && 0 <= b < ids[h].len() && a != b implies ids[h][a] != ids[h][b] by {
        if ids[h][a] == ids[h][b] {
            assert(a == b);
        }
    }
}

proof fn lemma_source_edges_distinct(ids: Seq<Seq<i64>>, h: int, ranked: Seq<(usize, u32)>)
    requires
        disjoint_ids(ids),
        0 <= h < ids.len(),
        forall|i: int| 0 <= i < ranked.len() ==> (#[trigger] ranked[i]).0 < ids.len(),
        forall|i: int, j: int|
            0 <= i < j < ranked.len() ==> (#[trigger] ranked[i]).0 != (#[trigger] ranked[j]).0,
    ensures
        distinct_pairs(graph::source_edges(ids, h, ranked)),
    decreases ranked.len(),
{
    if ranked.len() > 0 {
        let less = ranked.drop_last();
        let nb = ranked.last();
        assert(nb == ranked[ranked.len() - 1]);
        assert(forall|i: int| 0 <= i < less.len() ==> #[trigger] less[i] == ranked[i]);
        lemma_source_edges_distinct(ids, h, less);
        lemma_no_duplicates(ids, h);
        lemma_no_duplicates(ids, nb.0 as int);
        lemma_hash_edges_distinct(ids[h], ids[nb.0 as int], nb.1);
        let front = graph::source_edges(ids, h, less);
        let back = graph::hash_edges(ids[h], ids[nb.0 as int], nb.1);
        assert forall|i: int, j: int| 0 <= i < front.len() && 0 <= j < back.len() implies !((
        #[trigger] front[i]).0 == (#[trigger] back[j]).0 && front[i].1 == back[j].1) by {
            let (a, q, b) = lemma_source_edge(ids, h, less, i);
            let (c, d) = lemma_hash_edge(ids[h], ids[nb.0 as int], nb.1, j);
            assert(ranked[q].0 != ranked[ranked.len() - 1].0);
            if ids[ranked[q].0 as int][b] == ids[nb.0 as int][d] {
                assert(ranked[q].0 as int == nb.0 as int);
            }
        }
        lemma_concat_distinct(front, back);
    }
}

/// The documents that an edge of the graph joins.
pub proof fn lemma_graph_edge(ids: Seq<Seq<i64>>, ranked: Seq<Seq<(usize, u32)>>, n: int, i: int) -> (r:
    (int, int, int, int))
    requires
        0 <= i < graph::graph_edges(ids, ranked, n).len(),
    ensures
        0 <= r.0 < n,
        0 <= r.1 < ids[r.0].len(),
        0 <= r.2 < ranked[r.0].len(),
        0 <= r.3 < ids[ranked[r.0][r.2].0 as int].len(),
        graph::graph_edges(ids, ranked, n)[i].0 == ids[r.0][r.1],
        graph::graph_edges(ids, ranked, n)[i].1 == ids[ranked[r.0][r.2].0 as int][r.3],
        graph::graph_edges(ids, ranked, n)[i].2 == ranked[r.0][r.2].1,
    decreases n,
{
    let front = graph::graph_edges(ids, ranked, n - 1);
    if i < front.len() {
        lemma_graph_edge(ids, ranked, n - 1, i)
    } else {
        let (a, q, b) = lemma_source_edge(ids, n - 1, ranked[n - 1], i - front.len());
        (n - 1, a, q, b)
    }
}

proof fn lemma_graph_edges_distinct(ids: Seq<Seq<i64>>, ranked: Seq<Seq<(usize, u32)>>, n: int)
    requires
        disjoint_ids(ids),
        0 <= n <= ranked.len() <= ids.len(),
        proper_rankings(ranked, ids.len()),
    ensures
        distinct_pairs(graph::graph_edges(ids, ranked, n)),
    decreases n,
{
    if n > 0 {
        lemma_graph_edges_distinct(ids, ranked, n - 1);
        lemma_source_edges_distinct(ids, n - 1, ranked[n - 1]);
        let front = graph::graph_edges(ids, ranked, n - 1);
        let back = graph::source_edges(ids, n - 1, ranked[n - 1]);
        assert forall|i: int, j: int| 0 <= i < front.len() && 0 <= j < back.len() implies !((
        #[trigger] front[i]).0 == (#[trigger] back[j]).0 && front[i].1 == back[j].1) by {
            let (h, a, q, b) = lemma_graph_edge(ids, ranked, n - 1, i);
            let (c, d, e) = lemma_source_edge(ids, n - 1, ranked[n - 1], j);
            if ids[h][a] == ids[n - 1][c] {
                assert(h == n - 1);
            }
        }
        lemma_concat_distinct(front, back);
    }
}

/// The rankings of all content hashes, each made from the similarities of its own chunks.
pub open spec fn are_rankings(
    ranked: Seq<Seq<(usize, u32)>>,
    weights: Seq<Seq<Seq<u32>>>,
    row_hash: Seq<usize>,
    k: nat,
) -> bool {
    &&& ranked.len() == weights.len()
    &&& forall|h: int|
        0 <= h < ranked.len() ==> nearest::is_matrix(weights[h], row_hash, ranked.len())
            && ranking::is_ranking(
            #[trigger] ranked[h],
            ranking::neighbor_weights(
                weights[h],
                row_hash,
                h,
                ranking::fetch_rows(k),
                ranked.len(),
            ),
            k,
        )
}

pub proof fn lemma_rankings_proper(
    ranked: Seq<Seq<(usize, u32)>>,
    weights: Seq<Seq<Seq<u32>>>,
    row_hash: Seq<usize>,
    k: nat,
)
    requires
        are_rankings(ranked, weights, row_hash, k),
    ensures
        proper_rankings(ranked, ranked.len()),
{
    assert forall|h: int, i: int| 0 <= h < ranked.len() && 0 <= i < ranked[h].len() implies (
    #[trigger] ranked[h][i]).0 < ranked.len() && ranked[h][i].0 != h by {
        nearest::law_no_own_neighbor(ranked[h], weights[h], row_hash, h, ranked.len(), k);
    }
    assert forall|h: int, i: int, j: int|
        0 <= h < ranked.len() && 0 <= i < j < ranked[h].len() implies (#[trigger] ranked[h][i]).0
        != (#[trigger] ranked[h][j]).0 by {
        assert(ranking::ahead(ranked[h][i], ranked[h][j]));
    }
}

/// No document is joined to itself, and no pair of documents is joined twice: the number of edges
/// is the number of rows that storing them leaves.
pub proof fn law_edges_join_distinct_documents(
    doc_rows: Seq<(Seq<char>, i64)>,
    docs: Seq<(Seq<char>, Seq<i64>)>,
    seq_rows: Seq<(Seq<char>, i64)>,
    hashes: Seq<usize>,
    ranked: Seq<Seq<(usize, u32)>>,
    weights: Seq<Seq<Seq<u32>>>,
    row_hash: Seq<usize>,
    k: nat,
)
    requires
        distinct_ids(doc_rows),
        groups::is_grouping(docs, doc_rows),
        forall|h: int|
            0 <= h < hashes.len() ==> (#[trigger] hashes[h]) < graph::sources_of(
                docs,
                seq_rows,
                docs.len() as int,
            ).len(),
        forall|h: int, g: int|
            0 <= h < g < hashes.len() ==> (#[trigger] hashes[h]) < (#[trigger] hashes[g]),
        ranked.len() == hashes.len(),
        are_rankings(ranked, weights, row_hash, k),
    ensures
        ({
            let edges = graph::graph_edges(
                graph::ids_by_hash(
                    docs,
                    graph::sources_of(docs, seq_rows, docs.len() as int),
                    hashes,
                ),
                ranked,
                ranked.len() as int,
            );
            &&& distinct_pairs(edges)
            &&& forall|i: int| 0 <= i < edges.len() ==> (#[trigger] edges[i]).0 != edges[i].1
        }),
{
    let sources = graph::sources_of(docs, seq_rows, docs.len() as int);
    let ids = graph::ids_by_hash(docs, sources, hashes);
    let n = ranked.len() as int;
    lemma_hash_ids_disjoint(doc_rows, docs, seq_rows, hashes);
    lemma_rankings_proper(ranked, weights, row_hash, k);
    lemma_graph_edges_distinct(ids, ranked, n);
    let edges = graph::graph_edges(ids, ranked, n);
    assert forall|i: int| 0 <= i < edges.len() implies (#[trigger] edges[i]).0 != edges[i].1 by {
        let (h, a, q, b) = lemma_graph_edge(ids, ranked, n, i);
        assert(ranked[h][q].0 != h);
        if ids[h][a] == ids[ranked[h][q].0 as int][b] {
            assert(h == ranked[h][q].0 as int);
        }
    }
}

/// Every edge weighs something, and no content hash has more than `k` neighbors.
pub proof fn law_edges_weigh(
    ids: Seq<Seq<i64>>,
    ranked: Seq<Seq<(usize, u32)>>,
    weights: Seq<Seq<Seq<u32>>>,
    row_hash: Seq<usize>,
    k: nat,
)
    requires
        are_rankings(ranked, weights, row_hash, k),
    ensures
        forall|i: int|
            0 <= i < graph::graph_edges(ids, ranked, ranked.len() as int).len() ==> (
            #[trigger] graph::graph_edges(ids, ranked, ranked.len() as int)[i]).2 > 0,
        forall|h: int| 0 <= h < ranked.len() ==> (#[trigger] ranked[h]).len() <= k,
{
    let n = ranked.len() as int;
    let edges = graph::graph_edges(ids, ranked, n);
    assert forall|i: int| 0 <= i < edges.len() implies (#[trigger] edges[i]).2 > 0 by {
        let (h, a, q, b) = lemma_graph_edge(ids, ranked, n, i);
        assert(ranked[h][q].1 > 0);
    }
}

proof fn lemma_digits_no_underscore(n: nat, i: int)
    requires
        0 <= i < decimal::digits(n).len(),
    ensures
        decimal::digits(n)[i] != '_',
    decreases n,
{
    if n >= 10 {
        if i < decimal::digits(n).len() - 1 {
            lemma_digits_no_underscore(n / 10, i);
        }
    }
}

/// Chunks of different hashes, and different chunks of one hash, have different keys.
pub proof fn law_chunk_keys_differ(hash: Seq<char>, seq: int, other_hash: Seq<char>, other_seq: int)
    ensures
        graph::chunk_key(hash, seq) == graph::chunk_key(other_hash, other_seq) ==> hash
            == other_hash && seq == other_seq,
{
    let a = graph::chunk_key(hash, seq);
    let b = graph::chunk_key(other_hash, other_seq);
    let x = decimal::decimal(seq);
    let y = decimal::decimal(other_seq);
    if a == b {
        let p = hash.len() as int;
        let q = other_hash.len() as int;
        assert(a.len() == p + 1 + x.len() && b.len() == q + 1 + y.len());
        assert(a[p] == '_' && b[q] == '_');
        if p < q {
            assert(a[q] == x[q - p - 1]);
            lemma_decimal_no_underscore(seq, q - p - 1);
        } else if q < p {
            assert(b[p] == y[p - q - 1]);
            lemma_decimal_no_underscore(other_seq, p - q - 1);
        }
        assert(hash =~= a.take(p));
        assert(other_hash =~= b.take(q));
        assert(x =~= a.skip(p + 1));
        assert(y =~= b.skip(q + 1));
        decimal::law_decimal_round_trip(seq);
        decimal::law_decimal_round_trip(other_seq);
    }
}

proof fn lemma_decimal_no_underscore(n: int, i: int)
    requires
        0 <= i < decimal::decimal(n).len(),
    ensures
        decimal::decimal(n)[i] != '_',
{
    if n < 0 {
        if i > 0 {
            lemma_digits_no_underscore((-n) as nat, i - 1);
        }
    } else {
        lemma_digits_no_underscore(n as nat, i);
    }
}

} // verus!
