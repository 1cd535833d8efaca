//! What holds of building the graph as a whole.

use vstd::prelude::*;

use crate::db::edge_laws;
use crate::db::graph;
use crate::db::groups;
use crate::db::ranking;
use crate::db::rewrite;
use crate::db::rewrite::Tables;
use crate::db::rows;
use crate::db::rows::Embedding;
use crate::text::words;

verus! {

/// What a graph is built from: the active documents (hash and id), the embedded chunks (hash and
/// seq), what was found in the vector table, the similarities of the chunks of each hash to all
/// rows, and the number of neighbors.
pub ghost struct Input {
    pub doc_rows: Seq<(Seq<char>, i64)>,
    pub seq_rows: Seq<(Seq<char>, i64)>,
    pub found: Seq<Seq<Option<Embedding>>>,
    pub weights: Seq<Seq<Seq<u32>>>,
    pub k: nat,
}

/// What the steps of a build give, one after the other.
#[verifier::ext_equal]
pub ghost struct Stages {
    pub docs: Seq<(Seq<char>, Seq<i64>)>,
    pub row_hash: Seq<usize>,
    pub hashes: Seq<usize>,
    pub ranked: Seq<Seq<(usize, u32)>>,
}

impl Input {
    /// The sources, given the groups of documents.
    pub open spec fn sources(self, docs: Seq<(Seq<char>, Seq<i64>)>) -> Seq<
        (int, Seq<Seq<char>>),
    > {
        graph::sources_of(docs, self.seq_rows, docs.len() as int)
    }

    /// The source and the key of each row.
    pub open spec fn rows(self) -> Seq<(int, int)> {
        rows::rows_of(self.found, rows::dimension(self.found), self.found.len() as int)
    }
}

impl Stages {
    /// The documents of each hash.
    pub open spec fn ids(self, input: Input) -> Seq<Seq<i64>> {
        graph::ids_by_hash(self.docs, input.sources(self.docs), self.hashes)
    }

    /// The edges.
    pub open spec fn edges(self, input: Input) -> Seq<(i64, i64, u32)> {
        graph::graph_edges(self.ids(input), self.ranked, self.ranked.len() as int)
    }

    /// The number of documents that have an edge.
    pub open spec fn count(self, input: Input) -> nat {
        graph::linked_documents(self.ids(input), self.ranked, self.ranked.len() as int)
    }
}

/// The steps of a build were taken, each from the result of the one before it: `group_rows`,
/// `plan_sources`, `select_rows` and `rank_neighbors`.
pub open spec fn are_stages(stages: Stages, input: Input) -> bool {
    &&& groups::is_grouping(stages.docs, input.doc_rows)
    &&& input.found.len() == input.sources(stages.docs).len()
    &&& rows::numbered(input.rows(), stages.row_hash, stages.hashes)
    &&& forall|h: int|
        0 <= h < stages.hashes.len() ==> (#[trigger] stages.hashes[h]) < input.found.len()
    &&& stages.ranked.len() == stages.hashes.len()
    &&& edge_laws::are_rankings(stages.ranked, input.weights, stages.row_hash, input.k)
}

/// Building again from the same rows gives the same edges and the same counts.
pub proof fn law_rebuild_gives_the_same_graph(input: Input, first: Stages, second: Stages)
    requires
        are_stages(first, input),
        are_stages(second, input),
    ensures
        first.edges(input) == second.edges(input),
        first.count(input) == second.count(input),
{
    groups::law_grouping_is_unique(first.docs, second.docs, input.doc_rows);
    rows::law_numbering_is_unique(
        input.rows(),
        first.row_hash,
        first.hashes,
        second.row_hash,
        second.hashes,
    );
    let n = first.ranked.len();
    assert forall|h: int| 0 <= h < n implies first.ranked[h] == second.ranked[h] by {
        assert(ranking::is_ranking(
            first.ranked[h],
            ranking::neighbor_weights(
                input.weights[h],
                first.row_hash,
                h,
                ranking::fetch_rows(input.k),
                n,
            ),
            input.k,
        ));
        ranking::law_ranking_is_unique(
            first.ranked[h],
            second.ranked[h],
            ranking::neighbor_weights(
                input.weights[h],
                first.row_hash,
                h,
                ranking::fetch_rows(input.k),
                n,
            ),
            input.k,
        );
    }
    assert(first.ranked =~= second.ranked);
}

/// Storing a graph that was built again from the same rows leaves the same edges as the first
/// time, whatever happened to the stored edges in between: as many as were counted, each with
/// its weight. The number of neighbors is noted.
pub proof fn law_rebuild_leaves_the_same_table(
    input: Input,
    first: Stages,
    second: Stages,
    before: Tables,
    between: Tables,
)
    requires
        edge_laws::distinct_ids(input.doc_rows),
        are_stages(first, input),
        are_stages(second, input),
    ensures
        ({
            let edges = first.edges(input);
            let stored = rewrite::after_rewrite(before, edges, input.k);
            let again = rewrite::after_rewrite(between, second.edges(input), input.k);
            &&& again.edges == stored.edges
            &&& stored.edges.dom().finite()
            &&& stored.edges.len() == edges.len()
            &&& forall|d: i64, n: i64, w: u32|
                edges.contains((d, n, w)) <==> #[trigger] stored.edges.contains_pair((d, n), w)
            &&& again.meta == between.meta.insert(
                "graph_k"@,
                crate::text::decimal::digits(input.k),
            )
        }),
{
    law_rebuild_gives_the_same_graph(input, first, second);
    rewrite::law_rewrite_leaves_only_the_edges(before, first.edges(input), input.k);
    rewrite::law_rewrite_leaves_only_the_edges(between, second.edges(input), input.k);
    edge_laws::law_edges_join_distinct_documents(
        input.doc_rows,
        first.docs,
        input.seq_rows,
        first.hashes,
        first.ranked,
        input.weights,
        first.row_hash,
        input.k,
    );
    rewrite::law_table_holds_each_edge(first.edges(input));
}

/// Two of the rows are the same if their numbers are.
proof fn lemma_row_of_id(rows: Seq<(Seq<char>, i64)>, r: int, q: int)
    requires
        edge_laws::distinct_ids(rows),
        0 <= r < rows.len(),
        0 <= q < rows.len(),
        rows[r].1 == rows[q].1,
    ensures
        r == q,
{
    if r < q {
        assert(rows[r].1 != rows[q].1);
    } else if q < r {
        assert(rows[q].1 != rows[r].1);
    }
}

/// The content hash of a document that stands in `ids` is that of its group.
proof fn lemma_content_of(input: Input, stages: Stages, h: int, a: int, r: int) -> (g: int)
    requires
        edge_laws::distinct_ids(input.doc_rows),
        are_stages(stages, input),
        0 <= h < stages.hashes.len(),
        0 <= a < stages.ids(input)[h].len(),
        0 <= r < input.doc_rows.len(),
        input.doc_rows[r].1 == stages.ids(input)[h][a],
    ensures
        g == input.sources(stages.docs)[stages.hashes[h] as int].0,
        0 <= g < stages.docs.len(),
        stages.docs[g].0 == input.doc_rows[r].0,
        stages.ids(input)[h] == groups::ids_of(input.doc_rows, input.doc_rows[r].0),
{
    let sources = input.sources(stages.docs);
    edge_laws::lemma_sources_ascend(stages.docs, input.seq_rows, stages.docs.len() as int);
    assert(stages.hashes[h] < sources.len());
    let g = sources[stages.hashes[h] as int].0;
    assert(stages.docs[g].1 == groups::ids_of(input.doc_rows, stages.docs[g].0));
    let q = edge_laws::lemma_id_row(input.doc_rows, stages.docs[g].0, a);
    lemma_row_of_id(input.doc_rows, r, q);
    g
}

/// No edge joins two documents of the same content.
pub proof fn law_edges_join_different_contents(
    input: Input,
    stages: Stages,
    i: int,
    r: int,
    q: int,
)
    requires
        edge_laws::distinct_ids(input.doc_rows),
        are_stages(stages, input),
        0 <= i < stages.edges(input).len(),
        0 <= r < input.doc_rows.len(),
        0 <= q < input.doc_rows.len(),
        input.doc_rows[r].1 == stages.edges(input)[i].0,
        input.doc_rows[q].1 == stages.edges(input)[i].1,
    ensures
        input.doc_rows[r].0 != input.doc_rows[q].0,
{
    let ids = stages.ids(input);
    let ranked = stages.ranked;
    let sources = input.sources(stages.docs);
    let (h, a, j, b) = edge_laws::lemma_graph_edge(ids, ranked, ranked.len() as int, i);
    edge_laws::lemma_rankings_proper(ranked, input.weights, stages.row_hash, input.k);
    let nb = ranked[h][j].0 as int;
    assert(nb != h);
    let x = lemma_content_of(input, stages, h, a, r);
    let y = lemma_content_of(input, stages, nb, b, q);
    edge_laws::lemma_sources_ascend(stages.docs, input.seq_rows, stages.docs.len() as int);
    if h < nb {
        assert(stages.hashes[h] < stages.hashes[nb]);
        assert(sources[stages.hashes[h] as int].0 < sources[stages.hashes[nb] as int].0);
        assert(words::precedes(stages.docs[x].0, stages.docs[y].0));
    } else {
        assert(stages.hashes[nb] < stages.hashes[h]);
        assert(sources[stages.hashes[nb] as int].0 < sources[stages.hashes[h] as int].0);
        assert(words::precedes(stages.docs[y].0, stages.docs[x].0));
    }
    words::lemma_order_total(stages.docs[x].0, stages.docs[y].0);
}

proof fn lemma_hash_edge_exists(src: Seq<i64>, nbs: Seq<i64>, weight: u32, a: int, b: int)
    requires
        0 <= a < src.len(),
        0 <= b < nbs.len(),
    ensures
        graph::hash_edges(src, nbs, weight).contains((src[a], nbs[b], weight)),
    decreases src.len(),
{
    let less = src.drop_last();
    let front = graph::hash_edges(less, nbs, weight);
    let all = graph::hash_edges(src, nbs, weight);
    if a < less.len() {
        lemma_hash_edge_exists(less, nbs, weight, a, b);
        let e = (less[a], nbs[b], weight);
        let i = choose|i: int| 0 <= i < front.len() && front[i] == e;
        assert(all[i] == e);
    } else {
        assert(all[front.len() + b] == (src[a], nbs[b], weight));
    }
}

proof fn lemma_source_edge_exists(
    ids: Seq<Seq<i64>>,
    h: int,
    ranked: Seq<(usize, u32)>,
    a: int,
    j: int,
    b: int,
)
    requires
        0 <= a < ids[h].len(),
        0 <= j < ranked.len(),
        0 <= b < ids[ranked[j].0 as int].len(),
    ensures
        graph::source_edges(ids, h, ranked).contains(
            (ids[h][a], ids[ranked[j].0 as int][b], ranked[j].1),
        ),
    decreases ranked.len(),
{
    let less = ranked.drop_last();
    let front = graph::source_edges(ids, h, less);
    let all = graph::source_edges(ids, h, ranked);
    let e = (ids[h][a], ids[ranked[j].0 as int][b], ranked[j].1);
    if j < less.len() {
        assert(less[j] == ranked[j]);
        lemma_source_edge_exists(ids, h, less, a, j, b);
        let i = choose|i: int| 0 <= i < front.len() && front[i] == e;
        assert(all[i] == e);
    } else {
        let nbs = ids[ranked[j].0 as int];
        lemma_hash_edge_exists(ids[h], nbs, ranked[j].1, a, b);
        let back = graph::hash_edges(ids[h], nbs, ranked[j].1);
        let i = choose|i: int| 0 <= i < back.len() && back[i] == e;
        assert(all[front.len() + i] == e);
    }
}

/// Every document of a hash is joined to every document of its neighbors.
pub proof fn lemma_edge_exists(
    ids: Seq<Seq<i64>>,
    ranked: Seq<Seq<(usize, u32)>>,
    n: int,
    h: int,
    a: int,
    j: int,
    b: int,
)
    requires
        0 <= h < n,
        0 <= a < ids[h].len(),
        0 <= j < ranked[h].len(),
        0 <= b < ids[ranked[h][j].0 as int].len(),
    ensures
        graph::graph_edges(ids, ranked, n).contains(
            (ids[h][a], ids[ranked[h][j].0 as int][b], ranked[h][j].1),
        ),
    decreases n,
{
    let front = graph::graph_edges(ids, ranked, n - 1);
    let all = graph::graph_edges(ids, ranked, n);
    let e = (ids[h][a], ids[ranked[h][j].0 as int][b], ranked[h][j].1);
    if h < n - 1 {
        lemma_edge_exists(ids, ranked, n - 1, h, a, j, b);
        let i = choose|i: int| 0 <= i < front.len() && front[i] == e;
        assert(all[i] == e);
    } else {
        lemma_source_edge_exists(ids, h, ranked[h], a, j, b);
        let back = graph::source_edges(ids, h, ranked[h]);
        let i = choose|i: int| 0 <= i < back.len() && back[i] == e;
        assert(all[front.len() + i] == e);
    }
}

/// The number of a row stands among those of its text.
proof fn lemma_id_in_group(rows: Seq<(Seq<char>, i64)>, r: int) -> (a: int)
    requires
        0 <= r < rows.len(),
    ensures
        0 <= a < groups::ids_of(rows, rows[r].0).len(),
        groups::ids_of(rows, rows[r].0)[a] == rows[r].1,
    decreases rows.len(),
{
    if r == rows.len() - 1 {
        groups::ids_of(rows, rows[r].0).len() - 1
    } else {
        assert(rows.drop_last()[r] == rows[r]);
        lemma_id_in_group(rows.drop_last(), r)
    }
}

proof fn lemma_copy_has_edges(input: Input, stages: Stages, r: int, q: int, other: i64, weight: u32)
    requires
        edge_laws::distinct_ids(input.doc_rows),
        are_stages(stages, input),
        0 <= r < input.doc_rows.len(),
        0 <= q < input.doc_rows.len(),
        input.doc_rows[r].0 == input.doc_rows[q].0,
    ensures
        stages.edges(input).contains((input.doc_rows[r].1, other, weight)) ==> stages.edges(
            input,
        ).contains((input.doc_rows[q].1, other, weight)),
        stages.edges(input).contains((other, input.doc_rows[r].1, weight)) ==> stages.edges(
            input,
        ).contains((other, input.doc_rows[q].1, weight)),
{
    let ids = stages.ids(input);
    let ranked = stages.ranked;
    let n = ranked.len() as int;
    let edges = stages.edges(input);
    let id = input.doc_rows[r].1;
    edge_laws::lemma_rankings_proper(ranked, input.weights, stages.row_hash, input.k);
    let c = lemma_id_in_group(input.doc_rows, q);
    if edges.contains((id, other, weight)) {
        let i = choose|i: int| 0 <= i < edges.len() && edges[i] == (id, other, weight);
        let (h, a, j, b) = edge_laws::lemma_graph_edge(ids, ranked, n, i);
        let g = lemma_content_of(input, stages, h, a, r);
        lemma_edge_exists(ids, ranked, n, h, c, j, b);
    }
    if edges.contains((other, id, weight)) {
        let i = choose|i: int| 0 <= i < edges.len() && edges[i] == (other, id, weight);
        let (h, a, j, b) = edge_laws::lemma_graph_edge(ids, ranked, n, i);
        assert(ranked[h][j].0 < ranked.len());
        let g = lemma_content_of(input, stages, ranked[h][j].0 as int, b, r);
        lemma_edge_exists(ids, ranked, n, h, a, j, c);
    }
}

/// Documents of the same content have the same edges, in both directions.
pub proof fn law_copies_have_the_same_edges(
    input: Input,
    stages: Stages,
    r: int,
    q: int,
    other: i64,
    weight: u32,
)
    requires
        edge_laws::distinct_ids(input.doc_rows),
        are_stages(stages, input),
        0 <= r < input.doc_rows.len(),
        0 <= q < input.doc_rows.len(),
        input.doc_rows[r].0 == input.doc_rows[q].0,
    ensures
        stages.edges(input).contains((input.doc_rows[r].1, other, weight)) <==> stages.edges(
            input,
        ).contains((input.doc_rows[q].1, other, weight)),
        stages.edges(input).contains((other, input.doc_rows[r].1, weight)) <==> stages.edges(
            input,
        ).contains((other, input.doc_rows[q].1, weight)),
{
    lemma_copy_has_edges(input, stages, r, q, other, weight);
    lemma_copy_has_edges(input, stages, q, r, other, weight);
}

/// The documents that edges start from.
pub open spec fn source_documents(edges: Seq<(i64, i64, u32)>) -> Set<i64> {
    edges.map_values(|e: (i64, i64, u32)| e.0).to_set()
}

/// The documents of the first `n` hashes that have a neighbor.
spec fn documents_of(ids: Seq<Seq<i64>>, ranked: Seq<Seq<(usize, u32)>>, n: int) -> Set<i64>
    decreases n,
{
    if n <= 0 {
        Set::empty()
    } else if ranked[n - 1].len() > 0 {
        documents_of(ids, ranked, n - 1).union(ids[n - 1].to_set())
    } else {
        documents_of(ids, ranked, n - 1)
    }
}

proof fn lemma_documents_of(ids: Seq<Seq<i64>>, ranked: Seq<Seq<(usize, u32)>>, n: int)
    requires
        edge_laws::disjoint_ids(ids),
        0 <= n <= ranked.len() <= ids.len(),
    ensures
        documents_of(ids, ranked, n).finite(),
        documents_of(ids, ranked, n).len() == graph::linked_documents(ids, ranked, n),
        forall|d: i64| #[trigger]
            documents_of(ids, ranked, n).contains(d) <==> exists|h: int, a: int|
                0 <= h < n && ranked[h].len() > 0 && 0 <= a < ids[h].len() && #[trigger] ids[h][a]
                    == d,
    decreases n,
{
    if n > 0 {
        lemma_documents_of(ids, ranked, n - 1);
        let less = documents_of(ids, ranked, n - 1);
        let all = documents_of(ids, ranked, n);
        let last = ids[n - 1];
        let own = last.to_set();
        if ranked[n - 1].len() > 0 {
            edge_laws::lemma_no_duplicates(ids, n - 1);
            ids[n - 1].unique_seq_to_set();
            assert(less.disjoint(own)) by {
                assert forall|d: i64| !(less.contains(d) && own.contains(d)) by {
                    if less.contains(d) && own.contains(d) {
                        let (h, a) = choose|h: int, a: int|
                            0 <= h < n - 1 && ranked[h].len() > 0 && 0 <= a < ids[h].len()
                                && #[trigger] ids[h][a] == d;
                        let b = choose|b: int| 0 <= b < last.len() && last[b] == d;
                        assert(ids[h][a] == ids[n - 1][b]);
                    }
                }
            }
            vstd::set_lib::lemma_set_disjoint_lens(less, own);
        }
        assert forall|d: i64| #[trigger] all.contains(d) <==> exists|h: int, a: int|
            0 <= h < n && ranked[h].len() > 0 && 0 <= a < ids[h].len() && #[trigger] ids[h][a]
                == d by {
            if all.contains(d) {
                if less.contains(d) {
                    let (h, a) = choose|h: int, a: int|
                        0 <= h < n - 1 && ranked[h].len() > 0 && 0 <= a < ids[h].len()
                            && #[trigger] ids[h][a] == d;
                    assert(ids[h][a] == d);
                } else {
                    let a = choose|a: int| 0 <= a < last.len() && last[a] == d;
                    assert(ids[n - 1][a] == d);
                }
            }
            if exists|h: int, a: int|
                0 <= h < n && ranked[h].len() > 0 && 0 <= a < ids[h].len() && #[trigger] ids[h][a]
                    == d {
                let (h, a) = choose|h: int, a: int|
                    0 <= h < n && ranked[h].len() > 0 && 0 <= a < ids[h].len()
                        && #[trigger] ids[h][a] == d;
                if h < n - 1 {
                    assert(less.contains(d));
                } else {
                    assert(own.contains(d));
                }
            }
        }
    }
}

/// The first count is the number of documents that have an edge.
pub proof fn law_count_is_of_source_documents(input: Input, stages: Stages)
    requires
        edge_laws::distinct_ids(input.doc_rows),
        are_stages(stages, input),
    ensures
        source_documents(stages.edges(input)).finite(),
        source_documents(stages.edges(input)).len() == stages.count(input),
{
    let ids = stages.ids(input);
    let ranked = stages.ranked;
    let n = ranked.len() as int;
    let edges = stages.edges(input);
    let heads = edges.map_values(|e: (i64, i64, u32)| e.0);
    edge_laws::lemma_hash_ids_disjoint(
        input.doc_rows,
        stages.docs,
        input.seq_rows,
        stages.hashes,
    );
    edge_laws::lemma_rankings_proper(ranked, input.weights, stages.row_hash, input.k);
    lemma_documents_of(ids, ranked, n);
    let documents = documents_of(ids, ranked, n);
    assert forall|d: i64| source_documents(edges).contains(d) <==> documents.contains(d) by {
        if source_documents(edges).contains(d) {
            let i = choose|i: int| 0 <= i < heads.len() && heads[i] == d;
            let (h, a, j, b) = edge_laws::lemma_graph_edge(ids, ranked, n, i);
            assert(ids[h][a] == d);
        }
        if documents.contains(d) {
            let (h, a) = choose|h: int, a: int|
                0 <= h < n && ranked[h].len() > 0 && 0 <= a < ids[h].len() && #[trigger] ids[h][a]
                    == d;
            let nb = ranked[h][0].0 as int;
            let sources = input.sources(stages.docs);
            edge_laws::lemma_sources_ascend(
                stages.docs,
                input.seq_rows,
                stages.docs.len() as int,
            );
            assert(stages.hashes[nb] < sources.len());
            assert(stages.docs[sources[stages.hashes[nb] as int].0].1.len() > 0);
            lemma_edge_exists(ids, ranked, n, h, a, 0, 0);
            let e = (ids[h][a], ids[nb][0], ranked[h][0].1);
            let i = choose|i: int| 0 <= i < edges.len() && edges[i] == e;
            assert(heads[i] == d);
        }
    }
    assert(source_documents(edges) =~= documents);
}

} // verus!
