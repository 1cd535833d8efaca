use ir::search::filter::{
    apply, document_passes, eval_clause, match_op, needs_metadata, over_fetch_multiplier, paths_in,
    CollectionRows, DocumentRow, Fields, Filter, FilterClause, FilterOp, MetadataRow, SearchResult,
};

fn fields(pairs: &[(&str, &[&str])]) -> Fields {
    let mut fields = Fields::new();
    for (name, values) in pairs {
        for value in values.iter() {
            fields.push(name, value);
        }
    }
    fields
}

fn clause(field: &str, op: FilterOp, value: &str) -> FilterClause {
    FilterClause { field: field.to_string(), op, value: value.to_string() }
}

#[test]
fn eq_case_sensitive() {
    assert!(match_op("rust", FilterOp::Eq, "rust"));
    assert!(!match_op("Rust", FilterOp::Eq, "rust"));
}

#[test]
fn ne_basic() {
    assert!(match_op("go", FilterOp::Ne, "rust"));
    assert!(!match_op("rust", FilterOp::Ne, "rust"));
}

#[test]
fn lex_comparisons() {
    assert!(match_op("2026-01-02T00:00:00Z", FilterOp::Gt, "2026-01-01T00:00:00Z"));
    assert!(match_op("2026-01-01T00:00:00Z", FilterOp::Gte, "2026-01-01T00:00:00Z"));
    assert!(match_op("2024-01-01T00:00:00Z", FilterOp::Lt, "2025-01-01T00:00:00Z"));
    assert!(match_op("2025-01-01T00:00:00Z", FilterOp::Lte, "2025-01-01T00:00:00Z"));
    assert!(!match_op("2024-01-01T00:00:00Z", FilterOp::Gt, "2025-01-01T00:00:00Z"));
}

#[test]
fn contains_case_insensitive() {
    assert!(match_op("Rust Language", FilterOp::Contains, "rust"));
    assert!(match_op("RUST", FilterOp::Contains, "rust"));
    assert!(!match_op("go", FilterOp::Contains, "rust"));
}

#[test]
fn not_contains_case_insensitive() {
    assert!(match_op("go", FilterOp::NotContains, "rust"));
    assert!(!match_op("Rust Language", FilterOp::NotContains, "rust"));
}

#[test]
fn eval_single_value_eq() {
    let f = fields(&[("path", &["notes/foo.md"])]);
    assert!(eval_clause(&clause("path", FilterOp::Eq, "notes/foo.md"), &f));
    assert!(!eval_clause(&clause("path", FilterOp::Eq, "notes/bar.md"), &f));
}

#[test]
fn eval_missing_field_returns_false() {
    let f = fields(&[("path", &["notes/foo.md"])]);
    assert!(!eval_clause(&clause("meta.tags", FilterOp::Eq, "rust"), &f));
}

#[test]
fn eval_multi_valued_any_match() {
    let f = fields(&[("meta.tags", &["rust", "go"])]);
    assert!(eval_clause(&clause("meta.tags", FilterOp::Eq, "rust"), &f));
    assert!(eval_clause(&clause("meta.tags", FilterOp::Eq, "go"), &f));
    assert!(!eval_clause(&clause("meta.tags", FilterOp::Eq, "python"), &f));
}

#[test]
fn eval_ne_multi_valued_any_semantics() {
    let f = fields(&[("meta.tags", &["rust", "go"])]);
    assert!(eval_clause(&clause("meta.tags", FilterOp::Ne, "rust"), &f));
    let f_single = fields(&[("meta.tags", &["rust"])]);
    assert!(!eval_clause(&clause("meta.tags", FilterOp::Ne, "rust"), &f_single));
}

#[test]
fn eval_contains_on_path() {
    let f = fields(&[("path", &["notes/knowledge/foo.md"])]);
    assert!(eval_clause(&clause("path", FilterOp::Contains, "knowledge"), &f));
    assert!(!eval_clause(&clause("path", FilterOp::Contains, "archive"), &f));
}

fn filter(clauses: Vec<FilterClause>) -> Filter {
    Filter { clauses }
}

fn result(collection: &str, path: &str, rank: u32) -> SearchResult<u32> {
    SearchResult { collection: collection.to_string(), path: path.to_string(), rest: rank }
}

fn document(path: &str, modified_at: &str, created_at: &str) -> DocumentRow {
    DocumentRow {
        path: path.to_string(),
        modified_at: modified_at.to_string(),
        created_at: created_at.to_string(),
    }
}

fn metadata(path: &str, key: &str, value: &str) -> MetadataRow {
    MetadataRow { path: path.to_string(), key: key.to_string(), value: value.to_string() }
}

fn tables() -> Vec<CollectionRows> {
    vec![
        CollectionRows {
            name: "notes".to_string(),
            documents: vec![
                document("a.md", "2026-01-02", "2025-01-01"),
                document("b.md", "2024-01-02", "2023-01-01"),
            ],
            metadata: vec![
                metadata("a.md", "tags", "rust"),
                metadata("b.md", "tags", "Go"),
                metadata("a.md", "tags", "cli"),
            ],
        },
        CollectionRows {
            name: "wiki".to_string(),
            documents: vec![document("a.md", "2020-01-01", "2019-01-01")],
            metadata: vec![],
        },
    ]
}

fn candidates() -> Vec<SearchResult<u32>> {
    vec![
        result("notes", "a.md", 1),
        result("wiki", "a.md", 2),
        result("notes", "b.md", 3),
        result("notes", "gone.md", 4),
        result("other", "a.md", 5),
    ]
}

fn kept(clauses: Vec<FilterClause>) -> Vec<u32> {
    let mut c = candidates();
    apply(&mut c, &filter(clauses), &tables());
    c.iter().map(|r| r.rest).collect()
}

#[test]
fn no_clause_keeps_everything() {
    assert_eq!(kept(vec![]), vec![1, 2, 3, 4, 5]);
}

#[test]
fn clauses_on_built_in_fields() {
    assert_eq!(kept(vec![clause("modified_at", FilterOp::Gte, "2024-01-02")]), vec![1, 3]);
    assert_eq!(kept(vec![clause("created_at", FilterOp::Lt, "2020")]), vec![2]);
    assert_eq!(kept(vec![clause("path", FilterOp::Ne, "b.md")]), vec![1, 2]);
}

#[test]
fn clauses_on_metadata() {
    assert_eq!(kept(vec![clause("meta.tags", FilterOp::Eq, "cli")]), vec![1]);
    assert_eq!(kept(vec![clause("meta.tags", FilterOp::Contains, "go")]), vec![3]);
    assert_eq!(kept(vec![clause("meta.tags", FilterOp::Ne, "rust")]), vec![1, 3]);
    assert_eq!(kept(vec![clause("meta.author", FilterOp::Ne, "x")]), vec![]);
}

#[test]
fn unknown_fields_match_nothing() {
    assert_eq!(kept(vec![clause("title", FilterOp::Ne, "x")]), vec![]);
    assert_eq!(kept(vec![clause("meta", FilterOp::Ne, "x")]), vec![]);
}

#[test]
fn all_clauses_have_to_hold() {
    let first = clause("path", FilterOp::Eq, "a.md");
    let second = clause("modified_at", FilterOp::Gt, "2025");
    assert_eq!(kept(vec![first.clone(), second.clone()]), vec![1]);
    let mut c = candidates();
    apply(&mut c, &filter(vec![first]), &tables());
    apply(&mut c, &filter(vec![second]), &tables());
    assert_eq!(c.iter().map(|r| r.rest).collect::<Vec<_>>(), vec![1]);
}

#[test]
fn filtering_again_changes_nothing() {
    let f = filter(vec![clause("meta.tags", FilterOp::Ne, "rust")]);
    let mut c = candidates();
    apply(&mut c, &f, &tables());
    let once: Vec<u32> = c.iter().map(|r| r.rest).collect();
    apply(&mut c, &f, &tables());
    assert_eq!(c.iter().map(|r| r.rest).collect::<Vec<_>>(), once);
}

#[test]
fn later_rows_of_a_document_win() {
    let mut t = tables();
    t.push(CollectionRows {
        name: "notes".to_string(),
        documents: vec![document("a.md", "2030-01-01", "2029-01-01")],
        metadata: vec![metadata("a.md", "tags", "late")],
    });
    let newer = filter(vec![clause("modified_at", FilterOp::Eq, "2030-01-01")]);
    assert!(document_passes(&t, &newer, "notes", "a.md"));
    let older = filter(vec![clause("modified_at", FilterOp::Eq, "2026-01-02")]);
    assert!(!document_passes(&t, &older, "notes", "a.md"));
    for tag in ["rust", "cli", "late"] {
        let f = filter(vec![clause("meta.tags", FilterOp::Eq, tag)]);
        assert!(document_passes(&t, &f, "notes", "a.md"));
    }
}

#[test]
fn multiplier_depends_on_the_filter() {
    assert_eq!(over_fetch_multiplier(&filter(vec![])), 3);
    assert_eq!(over_fetch_multiplier(&filter(vec![clause("path", FilterOp::Eq, "x")])), 5);
}

#[test]
fn metadata_is_needed_for_its_fields_only() {
    assert!(!needs_metadata(&filter(vec![])));
    assert!(!needs_metadata(&filter(vec![clause("path", FilterOp::Eq, "x")])));
    assert!(needs_metadata(&filter(vec![
        clause("path", FilterOp::Eq, "x"),
        clause("meta.tags", FilterOp::Eq, "x"),
    ])));
}

#[test]
fn paths_are_listed_per_collection() {
    assert_eq!(paths_in(&candidates(), "notes"), vec!["a.md", "b.md", "gone.md"]);
    assert_eq!(paths_in(&candidates(), "none"), Vec::<String>::new());
}

#[test]
fn fields_are_set_and_extended() {
    let mut f = Fields::new();
    assert!(f.get("a").is_none());
    f.push("a", "1");
    f.push("a", "2");
    f.set("b", "x");
    f.set("b", "y");
    assert_eq!(f.get("a").unwrap(), &vec!["1".to_string(), "2".to_string()]);
    assert_eq!(f.get("b").unwrap(), &vec!["y".to_string()]);
}

#[test]
fn opposite_operators() {
    for (a, b) in [("x", "x"), ("a", "b"), ("b", "a"), ("", "x"), ("Abc", "b"), ("ä", "z")] {
        for (op, opposite) in [
            (FilterOp::Eq, FilterOp::Ne),
            (FilterOp::Gt, FilterOp::Lte),
            (FilterOp::Lt, FilterOp::Gte),
            (FilterOp::Contains, FilterOp::NotContains),
        ] {
            assert_ne!(match_op(a, op, b), match_op(a, opposite, b));
        }
        assert_eq!(match_op(a, FilterOp::Lt, b), a < b);
        assert_eq!(match_op(a, FilterOp::Gte, b), a >= b);
        assert_eq!(
            match_op(a, FilterOp::Contains, b),
            a.to_ascii_lowercase().contains(b)
        );
    }
}

#[test]
fn metadata_does_not_matter_for_other_fields() {
    let f = filter(vec![clause("path", FilterOp::Contains, "a")]);
    let mut bare = tables();
    for t in bare.iter_mut() {
        t.metadata.clear();
    }
    for r in candidates() {
        assert_eq!(
            document_passes(&tables(), &f, &r.collection, &r.path),
            document_passes(&bare, &f, &r.collection, &r.path)
        );
    }
}
