use ir::db::graph::{expand_edges, placeholders, plan_sources};
use ir::db::groups::{find_group, group_rows};
use ir::db::ranking::{fetch_m, offer, rank, rank_neighbors, top_rows};
use ir::db::rewrite::{rewrite_steps, GraphStep};
use ir::db::rows::{row_ranges, select_rows, Embedding};
use std::collections::{BTreeMap, HashMap};

/// A document with its content hash and the embeddings of its chunks.
struct Document {
    path: String,
    hash: String,
    chunks: Vec<Vec<f32>>,
}

fn document(path: &str, hash: &str, embedding: &[f32]) -> Document {
    Document {
        path: path.to_string(),
        hash: hash.to_string(),
        chunks: vec![embedding.to_vec()],
    }
}

/// The order-preserving number of a similarity: 0 unless it is positive, 1 if it is not a number.
fn weight_key(similarity: f32) -> u32 {
    if similarity <= 0.0 {
        0
    } else if similarity.is_nan() {
        1
    } else {
        similarity.to_bits() + 1
    }
}

fn edge_weight(key: u32) -> f64 {
    if key <= 1 {
        0.0
    } else {
        f64::from(f32::from_bits(key - 1))
    }
}

/// The number of documents with an edge, and the edges by document id.
fn build(docs: &[Document], k: usize) -> (usize, Vec<(i64, i64, f64)>) {
    let doc_rows: Vec<(String, i64)> =
        docs.iter().enumerate().map(|(i, d)| (d.hash.clone(), i as i64 + 1)).collect();
    let mut seq_rows: Vec<(String, i64)> = Vec::new();
    let mut vectors: HashMap<String, Vec<f32>> = HashMap::new();
    for d in docs {
        for (seq, v) in d.chunks.iter().enumerate() {
            seq_rows.push((d.hash.clone(), seq as i64));
            vectors.insert(format!("{}_{}", d.hash, seq), v.clone());
        }
    }
    seq_rows.sort();
    seq_rows.dedup();
    let groups = group_rows(&doc_rows);
    let sources = plan_sources(&groups, &seq_rows);
    let found: Vec<Vec<Option<Vec<f32>>>> = sources
        .iter()
        .map(|s| s.keys.iter().map(|key| vectors.get(key).cloned()).collect())
        .collect();
    let norm = |v: &Vec<f32>| v.iter().map(|x| x * x).sum::<f32>().sqrt();
    let shapes: Vec<Vec<Option<Embedding>>> = found
        .iter()
        .map(|vs| {
            vs.iter()
                .map(|v| v.as_ref().map(|v| Embedding { len: v.len(), zero: norm(v) <= 0.0 }))
                .collect()
        })
        .collect();
    let selection = select_rows(&shapes);
    let unit: Vec<Vec<f32>> = selection
        .rows
        .iter()
        .map(|&(s, i)| {
            let v = found[s][i].as_ref().unwrap();
            let n = norm(v);
            v.iter().map(|x| x / n).collect()
        })
        .collect();
    let n_hashes = selection.hashes.len();
    let ranges = row_ranges(&selection.row_hash, n_hashes);
    let mut ranked = Vec::new();
    for (h, &(from, to)) in ranges.iter().enumerate() {
        let weights: Vec<Vec<u32>> = (from..to)
            .map(|r| {
                unit.iter()
                    .map(|c| weight_key(unit[r].iter().zip(c).map(|(a, b)| a * b).sum()))
                    .collect()
            })
            .collect();
        ranked.push(rank_neighbors(&weights, &selection.row_hash, h, n_hashes, k));
    }
    let (edges, count) = expand_edges(&groups, &sources, &selection.hashes, &ranked);
    let edges = edges.iter().map(|&(d, n, w)| (d, n, edge_weight(w))).collect();
    (count, edges)
}

/// The neighbors of a document: path, hash and weight.
fn neighbors(
    docs: &[Document],
    edges: &[(i64, i64, f64)],
    path: &str,
) -> Vec<(String, String, f64)> {
    edges
        .iter()
        .filter(|e| docs[e.0 as usize - 1].path == path)
        .map(|e| {
            let n = &docs[e.1 as usize - 1];
            (n.path.clone(), n.hash.clone(), e.2)
        })
        .collect()
}

#[test]
fn build_creates_topk_edges_excluding_self() {
    let docs = vec![
        document("a.md", "hasha", &[1.0, 0.0, 0.0, 0.0]),
        document("b.md", "hashb", &[0.99, 0.14, 0.0, 0.0]),
        document("c.md", "hashc", &[0.0, 0.0, 1.0, 0.0]),
    ];
    let (count, edges) = build(&docs, 2);
    assert_eq!(count, 2);
    assert!(edges.len() >= 2, "a and b should link to each other, got {}", edges.len());
    let a_nbrs = neighbors(&docs, &edges, "a.md");
    assert!(a_nbrs.iter().all(|n| n.0 != "a.md"), "no self-edges");
    let best = a_nbrs.iter().max_by(|x, y| x.2.partial_cmp(&y.2).unwrap()).unwrap();
    assert_eq!(best.0, "b.md");
    assert!(best.2 > 0.9);
}

#[test]
fn build_is_idempotent() {
    let docs = vec![
        document("a.md", "hasha", &[1.0, 0.0, 0.0, 0.0]),
        document("b.md", "hashb", &[0.9, 0.43, 0.0, 0.0]),
    ];
    let (_, e1) = build(&docs, 5);
    let (_, e2) = build(&docs, 5);
    assert_eq!(e1.len(), e2.len(), "rebuild should produce identical edge count");
    let mut stored: BTreeMap<(i64, i64), f64> = BTreeMap::new();
    for (d, n, w) in &e2 {
        stored.insert((*d, *n), *w);
    }
    assert_eq!(stored.len(), e2.len());
}

#[test]
fn build_matches_bruteforce_reference() {
    let mut state = 0x243f_6a88u64;
    let mut next = move || {
        state = state.wrapping_mul(6364136223846793005).wrapping_add(1442695040888963407);
        ((state >> 33) as f32 / (u32::MAX >> 1) as f32) - 1.0
    };
    let mut vecs: Vec<[f32; 4]> = Vec::new();
    let mut docs: Vec<Document> = Vec::new();
    for i in 0..40 {
        let v = [next(), next(), next(), next()];
        docs.push(document(&format!("d{i:02}.md"), &format!("h{i:02}"), &v));
        vecs.push(v);
    }
    let k = 5;
    let (_, edges) = build(&docs, k);
    let norm = |v: &[f32; 4]| {
        let n = v.iter().map(|x| x * x).sum::<f32>().sqrt();
        [v[0] / n, v[1] / n, v[2] / n, v[3] / n]
    };
    let unit: Vec<[f32; 4]> = vecs.iter().map(norm).collect();
    for i in 0..40 {
        let mut sims: Vec<(String, f32)> = (0..40)
            .filter(|&j| j != i)
            .map(|j| {
                let d: f32 = (0..4).map(|x| unit[i][x] * unit[j][x]).sum();
                (format!("h{j:02}"), d)
            })
            .filter(|(_, d)| *d > 0.0)
            .collect();
        sims.sort_by(|a, b| b.1.partial_cmp(&a.1).unwrap().then_with(|| a.0.cmp(&b.0)));
        sims.truncate(k);
        let expected: Vec<&String> = sims.iter().map(|(h, _)| h).collect();
        let mut got: Vec<(String, f64)> = neighbors(&docs, &edges, &format!("d{i:02}.md"))
            .into_iter()
            .map(|n| (n.1, n.2))
            .collect();
        got.sort_by(|a, b| b.1.partial_cmp(&a.1).unwrap().then_with(|| a.0.cmp(&b.0)));
        let got_hashes: Vec<&String> = got.iter().map(|(h, _)| h).collect();
        assert_eq!(got_hashes, expected, "doc d{i:02} neighbor set/order");
    }
}

#[test]
fn unembedded_docs_produce_no_edges() {
    let docs = vec![Document {
        path: "lone.md".to_string(),
        hash: "h1".to_string(),
        chunks: vec![],
    }];
    let (count, edges) = build(&docs, 5);
    assert_eq!((count, edges.len()), (0, 0));
}

#[test]
fn shared_content_links_all_documents() {
    let docs = vec![
        document("a1.md", "a", &[1.0, 0.0]),
        document("b1.md", "b", &[1.0, 0.1]),
        document("a2.md", "a", &[1.0, 0.0]),
    ];
    let (count, edges) = build(&docs, 3);
    assert_eq!(count, 3);
    let pairs: Vec<(i64, i64)> = edges.iter().map(|e| (e.0, e.1)).collect();
    assert_eq!(pairs, vec![(1, 2), (3, 2), (2, 1), (2, 3)]);
}

#[test]
fn counts_are_of_documents_and_edges() {
    let docs = vec![
        document("a1.md", "ha", &[1.0, 0.0, 0.0, 0.0]),
        document("a2.md", "ha", &[1.0, 0.0, 0.0, 0.0]),
        document("b.md", "hb", &[0.6, 0.8, 0.0, 0.0]),
    ];
    let (count, edges) = build(&docs, 5);
    assert_eq!((count, edges.len()), (3, 4));
    let mut pairs: Vec<(i64, i64)> = edges.iter().map(|e| (e.0, e.1)).collect();
    pairs.sort();
    assert_eq!(pairs, vec![(1, 3), (2, 3), (3, 1), (3, 2)]);
    assert!(edges.iter().all(|e| (e.2 - 0.6).abs() < 1e-6));
}

#[test]
fn copies_have_the_same_edges() {
    let docs = vec![
        document("a1.md", "a", &[1.0, 0.0]),
        document("b.md", "b", &[1.0, 0.2]),
        document("a2.md", "a", &[1.0, 0.0]),
        document("c.md", "c", &[0.3, 1.0]),
    ];
    let (_, edges) = build(&docs, 1);
    let from = |id: i64| edges.iter().filter(|e| e.0 == id).map(|e| (e.1, e.2)).collect::<Vec<_>>();
    let to = |id: i64| edges.iter().filter(|e| e.1 == id).map(|e| (e.0, e.2)).collect::<Vec<_>>();
    assert!(!from(1).is_empty());
    assert_eq!(from(1), from(3));
    assert_eq!(to(1), to(3));
    assert!(edges.iter().all(|e| docs[e.0 as usize - 1].hash != docs[e.1 as usize - 1].hash));
}

#[test]
fn similarity_that_is_no_number_has_no_weight() {
    let docs = vec![
        document("a.md", "a", &[1.0, 0.0]),
        document("b.md", "b", &[f32::NAN, 0.0]),
        document("c.md", "c", &[1.0, 1.0]),
    ];
    let (count, edges) = build(&docs, 5);
    assert_eq!(count, 3);
    let pairs: Vec<(i64, i64, bool)> = edges.iter().map(|e| (e.0, e.1, e.2 > 0.0)).collect();
    assert_eq!(
        pairs,
        vec![
            (1, 3, true),
            (1, 2, false),
            (2, 1, false),
            (2, 3, false),
            (3, 1, true),
            (3, 2, false),
        ]
    );
}

#[test]
fn storing_replaces_the_old_graph() {
    let mut table: BTreeMap<(i64, i64), u32> = BTreeMap::new();
    table.insert((7, 8), 9);
    let mut meta: BTreeMap<String, String> = BTreeMap::new();
    meta.insert("graph_k".to_string(), "3".to_string());
    meta.insert("collection".to_string(), "notes".to_string());
    for _ in 0..2 {
        for step in rewrite_steps(&vec![(1, 2, 5), (2, 1, 6)], 20) {
            match step {
                GraphStep::ClearEdges => table.clear(),
                GraphStep::PutEdge { doc_id, neighbor_id, weight } => {
                    table.insert((doc_id, neighbor_id), weight);
                }
                GraphStep::PutMeta { key, value } => {
                    meta.insert(key, value);
                }
            }
        }
        assert_eq!(
            table.iter().map(|(p, w)| (*p, *w)).collect::<Vec<_>>(),
            vec![((1, 2), 5), ((2, 1), 6)]
        );
        assert_eq!(meta["graph_k"], "20");
        assert_eq!(meta["collection"], "notes");
    }
}

#[test]
fn the_best_chunk_pair_counts() {
    let mut docs = vec![
        document("a.md", "a", &[1.0, 0.0]),
        document("b.md", "b", &[0.0, 1.0]),
    ];
    docs[1].chunks.push(vec![1.0, 0.0]);
    let (_, edges) = build(&docs, 3);
    assert_eq!(edges, vec![(1, 2, 1.0), (2, 1, 1.0)]);
}

#[test]
fn odd_embeddings_are_left_out() {
    let mut docs = vec![
        document("a.md", "a", &[1.0, 0.0]),
        document("b.md", "b", &[1.0, 0.0, 0.0]),
        document("c.md", "c", &[0.0, 0.0]),
        document("d.md", "d", &[]),
        document("e.md", "e", &[1.0, 1.0]),
    ];
    docs[4].chunks.push(vec![2.0]);
    let (count, edges) = build(&docs, 3);
    assert_eq!(count, 2);
    assert_eq!(edges.iter().map(|e| (e.0, e.1)).collect::<Vec<_>>(), vec![(1, 5), (5, 1)]);
}

#[test]
fn fetch_count() {
    assert_eq!(fetch_m(0), 14);
    assert_eq!(fetch_m(5), 29);
}

#[test]
fn rows_are_grouped_by_text() {
    let rows = vec![
        ("b".to_string(), 1),
        ("a".to_string(), 2),
        ("b".to_string(), 3),
        ("ab".to_string(), 4),
        ("b".to_string(), 1),
    ];
    let groups = group_rows(&rows);
    let views: Vec<(&str, &[i64])> =
        groups.iter().map(|g| (g.name.as_str(), g.ids.as_slice())).collect();
    assert_eq!(views, vec![("a", &[2][..]), ("ab", &[4][..]), ("b", &[1, 3, 1][..])]);
    assert_eq!(find_group(&groups, "ab"), Some(1));
    assert_eq!(find_group(&groups, "abc"), None);
    assert!(group_rows(&vec![]).is_empty());
}

#[test]
fn sources_have_at_most_eight_chunks() {
    let docs = group_rows(&vec![
        ("h".to_string(), 1),
        ("none".to_string(), 2),
        ("x".to_string(), 3),
    ]);
    let mut seqs: Vec<(String, i64)> = (0..12).map(|s| ("h".to_string(), s)).collect();
    seqs.push(("gone".to_string(), 0));
    seqs.push(("x".to_string(), -7));
    let sources = plan_sources(&docs, &seqs);
    assert_eq!(sources.len(), 2);
    assert_eq!(sources[0].group, 0);
    assert_eq!(
        sources[0].keys,
        vec!["h_0", "h_1", "h_2", "h_3", "h_4", "h_5", "h_6", "h_7"]
    );
    assert_eq!((sources[1].group, sources[1].keys.clone()), (2, vec!["x_-7".to_string()]));
}

#[test]
fn rows_are_numbered_by_hash() {
    let e = |len: usize| Some(Embedding { len, zero: false });
    let zero = Some(Embedding { len: 4, zero: true });
    let found = vec![
        vec![None, e(0)],
        vec![zero, e(4), e(3)],
        vec![],
        vec![e(4), None, e(4)],
    ];
    let s = select_rows(&found);
    assert_eq!(s.dim, 4);
    assert_eq!(s.rows, vec![(1, 1), (3, 0), (3, 2)]);
    assert_eq!(s.row_hash, vec![0, 1, 1]);
    assert_eq!(s.hashes, vec![1, 3]);
    assert_eq!(row_ranges(&s.row_hash, 2), vec![(0, 1), (1, 3)]);
    assert_eq!(row_ranges(&vec![], 1), vec![(0, 0)]);
}

#[test]
fn lightest_row_gives_way() {
    let mut top = Vec::new();
    for (w, c) in [(5, 0), (3, 1), (4, 2)] {
        offer(&mut top, 3, (w, c));
    }
    assert_eq!(top, vec![(3, 1), (4, 2), (5, 0)]);
    offer(&mut top, 3, (3, 3));
    assert_eq!(top, vec![(3, 1), (4, 2), (5, 0)]);
    offer(&mut top, 3, (5, 4));
    assert_eq!(top, vec![(4, 2), (5, 4), (5, 0)]);
    offer(&mut top, 3, (9, 5));
    assert_eq!(top, vec![(5, 4), (5, 0), (9, 5)]);
}

#[test]
fn greatest_rows_are_kept() {
    let weights: Vec<u32> = vec![7, 0, 9, 2, 8, 6, 9, 1];
    let row_hash: Vec<usize> = vec![0, 1, 2, 3, 4, 5, 5, 6];
    let top = top_rows(&weights, &row_hash, 2, 3);
    assert_eq!(top, vec![(7, 0), (8, 4), (9, 6)]);
}

#[test]
fn neighbors_rank_by_weight_and_then_by_hash() {
    assert_eq!(rank(&vec![3, 0, 5, 3, 5], 3), vec![(2, 5), (4, 5), (0, 3)]);
    assert_eq!(rank(&vec![3, 0, 5], 9), vec![(2, 5), (0, 3)]);
    assert_eq!(rank(&vec![1], 0), vec![]);
}

#[test]
fn parameter_marks() {
    assert_eq!(placeholders(0), "");
    assert_eq!(placeholders(1), "?");
    assert_eq!(placeholders(3), "?,?,?");
}

#[test]
fn chunk_keys_differ() {
    let docs = group_rows(&vec![("a".to_string(), 1), ("a_1".to_string(), 2)]);
    let seqs = vec![("a".to_string(), 1), ("a".to_string(), 12), ("a_1".to_string(), 2)];
    let keys: Vec<String> =
        plan_sources(&docs, &seqs).into_iter().flat_map(|s| s.keys).collect();
    assert_eq!(keys, vec!["a_1", "a_12", "a_1_2"]);
}

#[test]
fn edges_weigh_something() {
    let docs = vec![
        document("a.md", "a", &[1.0, 0.0]),
        document("b.md", "b", &[-1.0, 0.0]),
        document("c.md", "c", &[0.5, 0.5]),
        document("d.md", "d", &[0.6, 0.4]),
    ];
    let (count, edges) = build(&docs, 1);
    assert_eq!(count, 3);
    assert_eq!(edges.iter().map(|e| (e.0, e.1)).collect::<Vec<_>>(), vec![(1, 4), (3, 4), (4, 3)]);
    assert!(edges.iter().all(|e| e.2 > 0.0));
}

/// The neighbors of a hash where four others have `rows` rows of weight 10 each, and a fifth has
/// one row of weight 5.
fn rank_beside_long_documents(rows: usize) -> Vec<(usize, u32)> {
    let mut row_hash: Vec<usize> = vec![0];
    let mut weights: Vec<u32> = vec![99];
    for h in 1..=4 {
        for _ in 0..rows {
            row_hash.push(h);
            weights.push(10);
        }
    }
    row_hash.push(5);
    weights.push(5);
    rank_neighbors(&vec![weights], &row_hash, 0, 6, 5)
}

#[test]
fn long_neighbors_can_crowd_out_others() {
    assert_eq!(rank_beside_long_documents(7), vec![(1, 10), (2, 10), (3, 10), (4, 10), (5, 5)]);
    assert_eq!(rank_beside_long_documents(8), vec![(1, 10), (2, 10), (3, 10), (4, 10)]);
}
