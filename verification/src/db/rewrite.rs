//! How the stored graph is replaced by a new one.

use vstd::prelude::*;

use crate::db::edge_laws;
use crate::text::decimal;

verus! {

/// One step of storing a graph. All steps make up one transaction.
#[derive(Debug, Clone)]
pub enum GraphStep {
    /// Delete all edges.
    ClearEdges,
    /// Write an edge, in place of one that joins the same documents.
    PutEdge { doc_id: i64, neighbor_id: i64, weight: u32 },
    /// Write an entry of the `meta` table, in place of one with the same key.
    PutMeta { key: String, value: String },
}

/// A step as a mathematical value.
pub ghost enum Rewrite {
    ClearEdges,
    PutEdge(i64, i64, u32),
    PutMeta(Seq<char>, Seq<char>),
}

impl View for GraphStep {
    type V = Rewrite;

    open spec fn view(&self) -> Rewrite {
        match *self {
            GraphStep::ClearEdges => Rewrite::ClearEdges,
            GraphStep::PutEdge { doc_id, neighbor_id, weight } => Rewrite::PutEdge(
                doc_id,
                neighbor_id,
                weight,
            ),
            GraphStep::PutMeta { key, value } => Rewrite::PutMeta(key@, value@),
        }
    }
}

/// Steps as mathematical values.
pub open spec fn step_views(steps: Seq<GraphStep>) -> Seq<Rewrite> {
    steps.map_values(|s: GraphStep| s@)
}

/// The steps that write some edges.
pub open spec fn edge_steps(edges: Seq<(i64, i64, u32)>) -> Seq<Rewrite> {
    edges.map_values(|e: (i64, i64, u32)| Rewrite::PutEdge(e.0, e.1, e.2))
}

/// The steps that store a graph: the old edges go, the new ones come, and the number of neighbors
/// that were asked for is noted.
pub open spec fn rewrite(edges: Seq<(i64, i64, u32)>, k: nat) -> Seq<Rewrite> {
    seq![Rewrite::ClearEdges] + edge_steps(edges) + seq![
        Rewrite::PutMeta("graph_k"@, decimal::digits(k)),
    ]
}

/// The steps that store a graph.
pub fn rewrite_steps(edges: &Vec<(i64, i64, u32)>, k: usize) -> (steps: Vec<GraphStep>)
    ensures
        step_views(steps@) == rewrite(edges@, k as nat),
{
    let mut steps: Vec<GraphStep> = Vec::new();
    steps.push(GraphStep::ClearEdges);
    let mut i: usize = 0;
    proof {
        assert(step_views(steps@) =~= seq![Rewrite::ClearEdges] + edge_steps(edges@).take(0));
    }
    while i < edges.len()
        invariant
            i <= edges@.len(),
            step_views(steps@) == seq![Rewrite::ClearEdges] + edge_steps(edges@).take(i as int),
        decreases edges.len() - i,
    {
        let (doc_id, neighbor_id, weight) = edges[i];
        let ghost before = step_views(steps@);
        steps.push(GraphStep::PutEdge { doc_id, neighbor_id, weight });
        proof {
            let all = edge_steps(edges@);
            assert(step_views(steps@) =~= before.push(all[i as int]));
            assert(all.take(i + 1) =~= all.take(i as int).push(all[i as int]));
        }
        i += 1;
    }
    let mut value = "".to_owned();
    decimal::append_digits(&mut value, k as u64);
    proof {
        reveal_strlit("");
        assert(value@ =~= decimal::digits(k as nat));
    }
    let ghost before = step_views(steps@);
    steps.push(GraphStep::PutMeta { key: "graph_k".to_owned(), value });
    proof {
        assert(edge_steps(edges@).take(i as int) =~= edge_steps(edges@));
        assert(step_views(steps@) =~= before.push(
            Rewrite::PutMeta("graph_k"@, decimal::digits(k as nat)),
        ));
        assert(step_views(steps@) =~= rewrite(edges@, k as nat));
    }
    steps
}

/// The tables that storing a graph changes: the weight of each pair of documents, and the entries
/// of the `meta` table.
#[verifier::ext_equal]
pub ghost struct Tables {
    pub edges: Map<(i64, i64), u32>,
    pub meta: Map<Seq<char>, Seq<char>>,
}

/// The tables after one step.
pub open spec fn after_step(tables: Tables, step: Rewrite) -> Tables {
    match step {
        Rewrite::ClearEdges => Tables { edges: Map::empty(), ..tables },
        Rewrite::PutEdge(doc_id, neighbor_id, weight) => Tables {
            edges: tables.edges.insert((doc_id, neighbor_id), weight),
            ..tables
        },
        Rewrite::PutMeta(key, value) => Tables { meta: tables.meta.insert(key, value), ..tables },
    }
}

/// The tables after some steps.
pub open spec fn after_steps(tables: Tables, steps: Seq<Rewrite>) -> Tables
    decreases steps.len(),
{
    if steps.len() == 0 {
        tables
    } else {
        after_step(after_steps(tables, steps.drop_last()), steps.last())
    }
}

/// The tables after a graph was stored.
pub open spec fn after_rewrite(tables: Tables, edges: Seq<(i64, i64, u32)>, k: nat) -> Tables {
    after_steps(tables, rewrite(edges, k))
}

/// The table that holds some edges.
pub open spec fn edge_table(edges: Seq<(i64, i64, u32)>) -> Map<(i64, i64), u32>
    decreases edges.len(),
{
    if edges.len() == 0 {
        Map::empty()
    } else {
        edge_table(edges.drop_last()).insert((edges.last().0, edges.last().1), edges.last().2)
    }
}

proof fn lemma_after_edges(tables: Tables, edges: Seq<(i64, i64, u32)>)
    ensures
        after_steps(tables, seq![Rewrite::ClearEdges] + edge_steps(edges)) == (Tables {
            edges: edge_table(edges),
            meta: tables.meta,
        }),
    decreases edges.len(),
{
    let steps = seq![Rewrite::ClearEdges] + edge_steps(edges);
    if edges.len() == 0 {
        assert(steps.drop_last() =~= Seq::<Rewrite>::empty());
        assert(steps.last() == Rewrite::ClearEdges);
        assert(after_steps(tables, steps.drop_last()) == tables);
    } else {
        let front = edges.drop_last();
        assert(steps.drop_last() =~= seq![Rewrite::ClearEdges] + edge_steps(front));
        assert(steps.last() == Rewrite::PutEdge(
            edges.last().0,
            edges.last().1,
            edges.last().2,
        ));
        lemma_after_edges(tables, front);
    }
}

/// Storing a graph leaves its edges and no older ones, and notes the number of neighbors; the
/// other entries of the `meta` table stay.
pub proof fn law_rewrite_leaves_only_the_edges(
    tables: Tables,
    edges: Seq<(i64, i64, u32)>,
    k: nat,
)
    ensures
        after_rewrite(tables, edges, k) == (Tables {
            edges: edge_table(edges),
            meta: tables.meta.insert("graph_k"@, decimal::digits(k)),
        }),
{
    let steps = rewrite(edges, k);
    assert(steps.drop_last() =~= seq![Rewrite::ClearEdges] + edge_steps(edges));
    assert(steps.last() == Rewrite::PutMeta("graph_k"@, decimal::digits(k)));
    lemma_after_edges(tables, edges);
}

/// A graph is stored in as many steps as it has edges, and two more: the old edges go first, then
/// each edge is written, in order and with its weight, and the note comes last.
pub proof fn law_rewrite_steps(edges: Seq<(i64, i64, u32)>, k: nat)
    ensures
        ({
            let steps = rewrite(edges, k);
            &&& steps.len() == edges.len() + 2
            &&& steps[0] == Rewrite::ClearEdges
            &&& forall|i: int|
                0 <= i < edges.len() ==> #[trigger] steps[i + 1] == Rewrite::PutEdge(
                    edges[i].0,
                    edges[i].1,
                    edges[i].2,
                )
            &&& steps.last() == Rewrite::PutMeta("graph_k"@, decimal::decimal(k as int))
        }),
{
}

/// Where no two edges join the same pair of documents, the table holds each edge with its weight
/// and has as many rows as there are edges.
pub proof fn law_table_holds_each_edge(edges: Seq<(i64, i64, u32)>)
    requires
        edge_laws::distinct_pairs(edges),
    ensures
        edge_table(edges).dom().finite(),
        edge_table(edges).len() == edges.len(),
        forall|d: i64, n: i64, w: u32|
            edges.contains((d, n, w)) <==> #[trigger] edge_table(edges).contains_pair((d, n), w),
    decreases edges.len(),
{
    let table = edge_table(edges);
    if edges.len() > 0 {
        let front = edges.drop_last();
        let last = edges.last();
        assert forall|i: int, j: int| 0 <= i < j < front.len() implies !((#[trigger] front[i]).0
            == (#[trigger] front[j]).0 && front[i].1 == front[j].1) by {
            assert(!(edges[i].0 == edges[j].0 && edges[i].1 == edges[j].1));
        }
        law_table_holds_each_edge(front);
        let before = edge_table(front);
        if before.contains_key((last.0, last.1)) {
            let w = before[(last.0, last.1)];
            assert(before.contains_pair((last.0, last.1), w));
            let i = choose|i: int| 0 <= i < front.len() && front[i] == (last.0, last.1, w);
            assert(edges[i] == front[i]);
            assert(edges[edges.len() - 1] == last);
            assert(!(edges[i].0 == edges[edges.len() - 1].0 && edges[i].1 == edges[edges.len()
                - 1].1));
        }
        assert forall|d: i64, n: i64, w: u32|
            edges.contains((d, n, w)) <==> #[trigger] table.contains_pair((d, n), w) by {
            if edges.contains((d, n, w)) {
                let i = choose|i: int| 0 <= i < edges.len() && edges[i] == (d, n, w);
                if i < front.len() {
                    assert(front[i] == (d, n, w));
                    assert(before.contains_pair((d, n), w));
                }
            }
            if table.contains_pair((d, n), w) {
                if (d, n) == (last.0, last.1) {
                    assert(edges[edges.len() - 1] == (d, n, w));
                } else {
                    assert(before.contains_pair((d, n), w));
                    let i = choose|i: int| 0 <= i < front.len() && front[i] == (d, n, w);
                    assert(edges[i] == (d, n, w));
                }
            }
        }
    }
}

} // verus!
