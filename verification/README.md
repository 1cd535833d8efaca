# ir

Local search over markdown collections: the parts of it that decide something, written in
[Verus](https://github.com/verus-lang/verus) and proved.

- `src/index/` splits documents into chunks at scored break points (`chunker.rs`, `breaks.rs`),
  states how the chunks cover a document (`coverage.rs`) and finds titles (`title.rs`).
- `src/frontmatter.rs`, `src/yaml.rs`, `src/dates/` read the YAML frontmatter of a document and
  bring dates to UTC RFC 3339, whose texts sort as the times do (`dates/order.rs`).
- `src/db/` plans the schema of a collection's database (`schema.rs`) and computes the similarity
  graph: which embeddings make up the matrix (`graph.rs`, `rows.rs`), the ranking of neighbors
  (`ranking.rs`), what it says about the similarities (`nearest.rs`) and about the edges
  (`edge_laws.rs`), how it is stored (`rewrite.rs`) and what a rebuild gives (`rebuild.rs`).
- `src/search/` filters search results (`filter.rs`, `filter_laws.rs`).
- `src/preprocess.rs` is the protocol by which text goes through preprocessor subprocesses;
  `src/preprocess_laws.rs` states what comes out.
- `src/text/` holds what the others need of texts.
- `app/` runs the databases, the subprocesses and the floating-point arithmetic around the library.

What is believed without proof are the contracts of the few functions that call `chrono` and
`serde_yaml`; they are marked `external_body`, in `src/dates/mod.rs` and `src/yaml.rs`.
