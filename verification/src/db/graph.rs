//! kNN document similarity graph over stored chunk embeddings.
//!
//! Edges are doc-level: for each active content hash, every chunk embedding is compared with the
//! embeddings of all other hashes and the hits are aggregated per neighbor hash (weight = max
//! cosine similarity across chunk pairs). Top-k neighbor hashes are then expanded to doc_id pairs
//! (content-addressed: one hash may back multiple documents). Deterministic given the contents of
//! the vector table.

use vstd::prelude::*;

use crate::db::groups;
use crate::db::groups::Group;
use crate::db::ranking::MAX_CHUNKS_PER_DOC;
use crate::text::decimal;

verus! {

/// A content hash whose embeddings are to be read: the group of documents with that content, and
/// the keys of its chunks in the vector table.
#[derive(Debug, Clone)]
pub struct Source {
    pub group: usize,
    pub keys: Vec<String>,
}

impl View for Source {
    type V = (int, Seq<Seq<char>>);

    open spec fn view(&self) -> (int, Seq<Seq<char>>) {
        (self.group as int, crate::text::lines::texts(self.keys@))
    }
}

/// The key of a chunk in the vector table.
pub open spec fn chunk_key(hash: Seq<char>, seq: int) -> Seq<char> {
    hash + seq!['_'] + decimal::decimal(seq)
}

/// The keys of the first chunks of a content hash.
pub open spec fn chunk_keys(hash: Seq<char>, seqs: Seq<i64>) -> Seq<Seq<char>> {
    Seq::new(
        if seqs.len() < MAX_CHUNKS_PER_DOC {
            seqs.len()
        } else {
            MAX_CHUNKS_PER_DOC as nat
        },
        |i: int| chunk_key(hash, seqs[i] as int),
    )
}

/// The sources among the first `n` groups of documents: those with embedded chunks, in the order
/// of their hashes.
pub open spec fn sources_of(
    docs: Seq<(Seq<char>, Seq<i64>)>,
    seq_rows: Seq<(Seq<char>, i64)>,
    n: int,
) -> Seq<(int, Seq<Seq<char>>)>
    decreases n,
{
    if n <= 0 {
        Seq::empty()
    } else {
        let front = sources_of(docs, seq_rows, n - 1);
        let hash = docs[n - 1].0;
        let seqs = groups::ids_of(seq_rows, hash);
        if seqs.len() > 0 {
            front.push((n - 1, chunk_keys(hash, seqs)))
        } else {
            front
        }
    }
}

/// Sources as mathematical values.
pub open spec fn source_views(sources: Seq<Source>) -> Seq<(int, Seq<Seq<char>>)> {
    sources.map_values(|s: Source| s@)
}

fn key_of(hash: &str, seq: i64) -> (key: String)
    ensures
        key@ == chunk_key(hash@, seq as int),
{
    let mut key = hash.to_owned();
    proof {
        reveal_strlit("_");
        assert("_"@ =~= seq!['_']);
    }
    key.append("_");
    decimal::append_decimal(&mut key, seq);
    key
}

fn keys_of(hash: &str, seqs: &Vec<i64>) -> (keys: Vec<String>)
    ensures
        crate::text::lines::texts(keys@) == chunk_keys(hash@, seqs@),
{
    let mut keys: Vec<String> = Vec::new();
    while keys.len() < seqs.len() && keys.len() < MAX_CHUNKS_PER_DOC
        invariant
            keys@.len() <= chunk_keys(hash@, seqs@).len(),
            forall|i: int|
                0 <= i < keys@.len() ==> (#[trigger] keys@[i])@ == chunk_key(
                    hash@,
                    seqs@[i] as int,
                ),
        decreases seqs.len() - keys.len(),
    {
        let key = key_of(hash, seqs[keys.len()]);
        keys.push(key);
    }
    keys
}

proof fn lemma_no_ids(gs: Seq<(Seq<char>, Seq<i64>)>, rows: Seq<(Seq<char>, i64)>, name: Seq<char>)
    requires
        groups::is_grouping(gs, rows),
        !groups::names(gs, name),
    ensures
        groups::ids_of(rows, name).len() == 0,
{
    assert forall|r: int| 0 <= r < rows.len() implies (#[trigger] rows[r]).0 != name by {
        assert(groups::names(gs, rows[r].0));
    }
    groups::lemma_ids_of_other(rows, name);
}

/// The content hashes to read embeddings of, given the groups of active documents and the rows of
/// embedded chunks (hash and seq, in seq order).
pub fn plan_sources(docs: &Vec<Group>, seq_rows: &Vec<(String, i64)>) -> (sources: Vec<Source>)
    ensures
        source_views(sources@) == sources_of(
            groups::group_views(docs@),
            groups::row_views(seq_rows@),
            docs@.len() as int,
        ),
        forall|s: int| 0 <= s < sources@.len() ==> (#[trigger] sources@[s]).group < docs@.len(),
{
    let ghost ds = groups::group_views(docs@);
    let ghost rs = groups::row_views(seq_rows@);
    let seqs = groups::group_rows(seq_rows);
    let ghost gs = groups::group_views(seqs@);
    let mut sources: Vec<Source> = Vec::new();
    let mut d: usize = 0;
    proof {
        assert(source_views(sources@) =~= sources_of(ds, rs, 0));
    }
    while d < docs.len()
        invariant
            d <= docs@.len(),
            ds == groups::group_views(docs@),
            gs == groups::group_views(seqs@),
            groups::is_grouping(gs, rs),
            source_views(sources@) == sources_of(ds, rs, d as int),
            forall|s: int| 0 <= s < sources@.len() ==> (#[trigger] sources@[s]).group < d,
        decreases docs.len() - d,
    {
        let hash = docs[d].name.as_str();
        proof {
            assert(ds[d as int].0 == hash@);
        }
        match groups::find_group(&seqs, hash) {
            Some(g) => {
                let keys = keys_of(hash, &seqs[g].ids);
                let ghost before = source_views(sources@);
                sources.push(Source { group: d, keys });
                proof {
                    assert(gs[g as int].1 == groups::ids_of(rs, hash@));
                    assert(gs[g as int].1 == seqs@[g as int].ids@);
                    assert(source_views(sources@) =~= before.push(
                        (d as int, chunk_keys(hash@, seqs@[g as int].ids@)),
                    ));
                }
            },
            None => {
                proof {
                    lemma_no_ids(gs, rs, hash@);
                }
            },
        }
        d += 1;
    }
    sources
}

/// An edge: document, neighbor and weight.
pub open spec fn edge_row(doc_id: i64, neighbor_ids: Seq<i64>, weight: u32) -> Seq<(i64, i64, u32)> {
    neighbor_ids.map_values(|n: i64| (doc_id, n, weight))
}

/// The edges from every document of one content hash to every document of another.
pub open spec fn hash_edges(
    source_ids: Seq<i64>,
    neighbor_ids: Seq<i64>,
    weight: u32,
) -> Seq<(i64, i64, u32)>
    decreases source_ids.len(),
{
    if source_ids.len() == 0 {
        Seq::empty()
    } else {
        hash_edges(source_ids.drop_last(), neighbor_ids, weight) + edge_row(
            source_ids.last(),
            neighbor_ids,
            weight,
        )
    }
}

/// The edges from one content hash to its neighbors, where `ids` gives the documents of each hash.
pub open spec fn source_edges(ids: Seq<Seq<i64>>, h: int, ranked: Seq<(usize, u32)>) -> Seq<
    (i64, i64, u32),
>
    decreases ranked.len(),
{
    if ranked.len() == 0 {
        Seq::empty()
    } else {
        source_edges(ids, h, ranked.drop_last()) + hash_edges(
            ids[h],
            ids[ranked.last().0 as int],
            ranked.last().1,
        )
    }
}

/// The edges from the first `n` content hashes to their neighbors.
pub open spec fn graph_edges(ids: Seq<Seq<i64>>, ranked: Seq<Seq<(usize, u32)>>, n: int) -> Seq<
    (i64, i64, u32),
>
    decreases n,
{
    if n <= 0 {
        Seq::empty()
    } else {
        graph_edges(ids, ranked, n - 1) + source_edges(ids, n - 1, ranked[n - 1])
    }
}

/// Number of documents whose content hash has a neighbor, among the first `n` hashes.
pub open spec fn linked_documents(
    ids: Seq<Seq<i64>>,
    ranked: Seq<Seq<(usize, u32)>>,
    n: int,
) -> nat
    decreases n,
{
    if n <= 0 {
        0
    } else if ranked[n - 1].len() > 0 {
        linked_documents(ids, ranked, n - 1) + ids[n - 1].len()
    } else {
        linked_documents(ids, ranked, n - 1)
    }
}

/// More hashes have no fewer documents.
proof fn lemma_linked_documents_grow(
    ids: Seq<Seq<i64>>,
    ranked: Seq<Seq<(usize, u32)>>,
    m: int,
    n: int,
)
    requires
        m <= n,
    ensures
        linked_documents(ids, ranked, m) <= linked_documents(ids, ranked, n),
    decreases n - m,
{
    if m < n {
        lemma_linked_documents_grow(ids, ranked, m, n - 1);
    }
}

/// The documents of each content hash that has a row.
pub open spec fn ids_by_hash(
    docs: Seq<(Seq<char>, Seq<i64>)>,
    sources: Seq<(int, Seq<Seq<char>>)>,
    hashes: Seq<usize>,
) -> Seq<Seq<i64>> {
    Seq::new(hashes.len(), |h: int| docs[sources[hashes[h] as int].0].1)
}

/// Rankings as mathematical values.
pub open spec fn ranking_views(ranked: Seq<Vec<(usize, u32)>>) -> Seq<Seq<(usize, u32)>> {
    ranked.map_values(|v: Vec<(usize, u32)>| v@)
}

fn push_hash_edges(
    edges: &mut Vec<(i64, i64, u32)>,
    source_ids: &Vec<i64>,
    neighbor_ids: &Vec<i64>,
    weight: u32,
)
    ensures
        final(edges)@ == old(edges)@ + hash_edges(source_ids@, neighbor_ids@, weight),
{
    let ghost before = edges@;
    let mut i: usize = 0;
    proof {
        assert(source_ids@.take(0) =~= Seq::<i64>::empty());
        assert(before + hash_edges(source_ids@.take(0), neighbor_ids@, weight) =~= before);
    }
    while i < source_ids.len()
        invariant
            i <= source_ids@.len(),
            edges@ == before + hash_edges(source_ids@.take(i as int), neighbor_ids@, weight),
        decreases source_ids.len() - i,
    {
        let doc_id: i64 = source_ids[i];
        let ghost start = edges@;
        let ghost row = edge_row(doc_id, neighbor_ids@, weight);
        let mut j: usize = 0;
        while j < neighbor_ids.len()
            invariant
                j <= neighbor_ids@.len(),
                row == edge_row(doc_id, neighbor_ids@, weight),
                edges@ == start + row.take(j as int),
            decreases neighbor_ids.len() - j,
        {
            edges.push((doc_id, neighbor_ids[j], weight));
            proof {
                assert(row.take(j + 1) =~= row.take(j as int).push(row[j as int]));
            }
            j += 1;
        }
        proof {
            assert(row.take(j as int) =~= row);
            assert(source_ids@.take(i + 1).drop_last() =~= source_ids@.take(i as int));
            assert(source_ids@.take(i + 1).last() == doc_id);
            assert(edges@ =~= before + hash_edges(
                source_ids@.take(i + 1),
                neighbor_ids@,
                weight,
            ));
        }
        i += 1;
    }
    proof {
        assert(source_ids@.take(i as int) =~= source_ids@);
    }
}

/// Expands the rankings of the content hashes to edges between documents. Also gives the number
/// of documents that have an edge.
pub fn expand_edges(
    docs: &Vec<Group>,
    sources: &Vec<Source>,
    hashes: &Vec<usize>,
    ranked: &Vec<Vec<(usize, u32)>>,
) -> (r: (Vec<(i64, i64, u32)>, usize))
    requires
        forall|h: int| 0 <= h < hashes@.len() ==> (#[trigger] hashes@[h]) < sources@.len(),
        forall|s: int| 0 <= s < sources@.len() ==> (#[trigger] sources@[s]).group < docs@.len(),
        ranked@.len() == hashes@.len(),
        forall|h: int, i: int|
            0 <= h < ranked@.len() && 0 <= i < ranked@[h]@.len() ==> (
            #[trigger] ranked@[h]@[i]).0 < hashes@.len(),
        linked_documents(
            ids_by_hash(
                groups::group_views(docs@),
                source_views(sources@),
                hashes@,
            ),
            ranking_views(ranked@),
            ranked@.len() as int,
        ) <= usize::MAX,
    ensures
        r.0@ == graph_edges(
            ids_by_hash(
                groups::group_views(docs@),
                source_views(sources@),
                hashes@,
            ),
            ranking_views(ranked@),
            ranked@.len() as int,
        ),
        r.1 == linked_documents(
            ids_by_hash(
                groups::group_views(docs@),
                source_views(sources@),
                hashes@,
            ),
            ranking_views(ranked@),
            ranked@.len() as int,
        ),
{
    let ghost ids = ids_by_hash(groups::group_views(docs@), source_views(sources@), hashes@);
    let ghost rs = ranking_views(ranked@);
    let mut edges: Vec<(i64, i64, u32)> = Vec::new();
    let mut count: usize = 0;
    let mut h: usize = 0;
    while h < ranked.len()
        invariant
            h <= ranked@.len() == hashes@.len(),
            linked_documents(ids, rs, ranked@.len() as int) <= usize::MAX,
            forall|h: int| 0 <= h < hashes@.len() ==> (#[trigger] hashes@[h]) < sources@.len(),
            forall|s: int| 0 <= s < sources@.len() ==> (#[trigger] sources@[s]).group < docs@.len(),
            forall|h: int, i: int|
                0 <= h < ranked@.len() && 0 <= i < ranked@[h]@.len() ==> (
                #[trigger] ranked@[h]@[i]).0 < hashes@.len(),
            ids == ids_by_hash(groups::group_views(docs@), source_views(sources@), hashes@),
            rs == ranking_views(ranked@),
            edges@ == graph_edges(ids, rs, h as int),
            count == linked_documents(ids, rs, h as int),
        decreases ranked.len() - h,
    {
        let list = &ranked[h];
        let source_ids = &docs[sources[hashes[h]].group].ids;
        proof {
            assert(rs[h as int] == list@);
            assert(ids[h as int] == source_ids@);
            lemma_linked_documents_grow(ids, rs, h + 1, ranked@.len() as int);
        }
        if list.len() > 0 {
            count += source_ids.len();
        }
        let ghost before = edges@;
        let mut i: usize = 0;
        proof {
            assert(list@.take(0) =~= Seq::<(usize, u32)>::empty());
            assert(before + source_edges(ids, h as int, list@.take(0)) =~= before);
        }
        while i < list.len()
            invariant
                i <= list@.len(),
                h < ranked@.len() == hashes@.len(),
                list@ == ranked@[h as int]@,
                forall|h: int| 0 <= h < hashes@.len() ==> (#[trigger] hashes@[h]) < sources@.len(),
                forall|s: int|
                    0 <= s < sources@.len() ==> (#[trigger] sources@[s]).group < docs@.len(),
                forall|h: int, i: int|
                    0 <= h < ranked@.len() && 0 <= i < ranked@[h]@.len() ==> (
                    #[trigger] ranked@[h]@[i]).0 < hashes@.len(),
                ids == ids_by_hash(groups::group_views(docs@), source_views(sources@), hashes@),
                ids[h as int] == source_ids@,
                edges@ == before + source_edges(ids, h as int, list@.take(i as int)),
            decreases list.len() - i,
        {
            let (nb, weight) = list[i];
            proof {
                assert(ranked@[h as int]@[i as int].0 < hashes@.len());
            }
            let neighbor_ids = &docs[sources[hashes[nb]].group].ids;
            push_hash_edges(&mut edges, source_ids, neighbor_ids, weight);
            proof {
                assert(ids[nb as int] == neighbor_ids@);
                assert(list@.take(i + 1).drop_last() =~= list@.take(i as int));
                assert(list@.take(i + 1).last() == list@[i as int]);
                assert(edges@ =~= before + source_edges(ids, h as int, list@.take(i + 1)));
            }
            i += 1;
        }
        proof {
            assert(list@.take(i as int) =~= list@);
        }
        h += 1;
    }
    (edges, count)
}

/// A list of SQL parameter marks.
pub open spec fn marks(n: nat) -> Seq<char>
    decreases n,
{
    if n == 0 {
        Seq::empty()
    } else if n == 1 {
        seq!['?']
    } else {
        marks((n - 1) as nat) + seq![',', '?']
    }
}

/// A list of `n` SQL parameter marks.
pub fn placeholders(n: usize) -> (r: String)
    ensures
        r@ == marks(n as nat),
{
    let mut r = "".to_owned();
    let mut i: usize = 0;
    proof {
        reveal_strlit("");
        reveal_strlit("?");
        reveal_strlit(",?");
        assert("?"@ =~= seq!['?']);
        assert(",?"@ =~= seq![',', '?']);
        assert(r@ =~= marks(0));
    }
    while i < n
        invariant
            i <= n,
            r@ == marks(i as nat),
            "?"@ == seq!['?'],
            ",?"@ == seq![',', '?'],
        decreases n - i,
    {
        if i == 0 {
            r.append("?");
            proof {
                assert(r@ =~= marks(1));
            }
        } else {
            r.append(",?");
        }
        i += 1;
    }
    r
}

} // verus!
