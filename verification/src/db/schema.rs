//! Per-collection schema: the steps that bring a database to the current version.
//! Each collection gets its own database file, so no collection column is needed.

use vstd::prelude::*;

use crate::frontmatter;
use crate::text::decimal;

verus! {

/// The version of the schema that the steps lead to.
pub const SCHEMA_VERSION: i64 = 2;

/// One step of setting up a database.
#[derive(Debug, Clone)]
pub enum SchemaStep {
    /// Create the tables that are missing.
    CreateTables,
    /// Drop the triggers that fill the full-text index: the index pipeline manages it.
    DropTriggers,
    /// Create the triggers that fill the full-text index.
    CreateTriggers,
    /// Fill the metadata table from the stored documents.
    BackfillMetadata,
    /// Write an entry of the `meta` table; one that is there stays unless `replace` is set.
    PutMeta { key: String, value: String, replace: bool },
}

/// A step as a mathematical value.
pub ghost enum Step {
    CreateTables,
    DropTriggers,
    CreateTriggers,
    BackfillMetadata,
    PutMeta(Seq<char>, Seq<char>, bool),
}

impl View for SchemaStep {
    type V = Step;

    open spec fn view(&self) -> Step {
        match *self {
            SchemaStep::CreateTables => Step::CreateTables,
            SchemaStep::DropTriggers => Step::DropTriggers,
            SchemaStep::CreateTriggers => Step::CreateTriggers,
            SchemaStep::BackfillMetadata => Step::BackfillMetadata,
            SchemaStep::PutMeta { key, value, replace } => Step::PutMeta(key@, value@, replace),
        }
    }
}

/// Steps as mathematical values.
pub open spec fn step_views(steps: Seq<SchemaStep>) -> Seq<Step> {
    steps.map_values(|s: SchemaStep| s@)
}

/// The version that a stored value stands for; 0 when there is none or it is not a number.
pub open spec fn version_of(stored: Option<Seq<char>>) -> int {
    match stored {
        Some(text) => match decimal::i64_value(text) {
            Some(n) => n,
            None => 0,
        },
        None => 0,
    }
}

/// Reads a stored version.
pub fn stored_version(stored: Option<&str>) -> (n: i64)
    ensures
        n == version_of(
            match stored {
                Some(text) => Some(text@),
                None => None,
            },
        ),
{
    match stored {
        Some(text) => match decimal::parse_i64(text) {
            Some(n) => n,
            None => 0,
        },
        None => 0,
    }
}

/// The steps before the stored version is read. A new database gets version 0, so that the check
/// for migration is the same for all.
pub open spec fn opening(has_preprocessor: bool) -> Seq<Step> {
    seq![
        Step::CreateTables,
        if has_preprocessor {
            Step::DropTriggers
        } else {
            Step::CreateTriggers
        },
        Step::PutMeta("schema_version"@, "0"@, false),
    ]
}

/// The steps after the stored version was read.
pub open spec fn closing(
    stored: Option<Seq<char>>,
    collection: Seq<char>,
    has_preprocessor: bool,
) -> Seq<Step> {
    let writes = seq![
        Step::PutMeta("schema_version"@, decimal::decimal(SCHEMA_VERSION as int), true),
        Step::PutMeta("collection"@, collection, false),
        Step::PutMeta(
            "has_preprocessor"@,
            if has_preprocessor {
                "1"@
            } else {
                "0"@
            },
            true,
        ),
    ];
    if version_of(stored) < 2 {
        seq![Step::BackfillMetadata] + writes
    } else {
        writes
    }
}

/// The steps before the stored version is read.
pub fn opening_steps(has_preprocessor: bool) -> (steps: Vec<SchemaStep>)
    ensures
        step_views(steps@) == opening(has_preprocessor),
{
    let mut steps: Vec<SchemaStep> = Vec::new();
    steps.push(SchemaStep::CreateTables);
    if has_preprocessor {
        steps.push(SchemaStep::DropTriggers);
    } else {
        steps.push(SchemaStep::CreateTriggers);
    }
    steps.push(
        SchemaStep::PutMeta {
            key: "schema_version".to_owned(),
            value: "0".to_owned(),
            replace: false,
        },
    );
    proof {
        assert(step_views(steps@) =~= opening(has_preprocessor));
    }
    steps
}

/// The steps after the stored version was read.
pub fn closing_steps(stored: Option<&str>, collection: &str, has_preprocessor: bool) -> (steps: Vec<
    SchemaStep,
>)
    ensures
        step_views(steps@) == closing(
            match stored {
                Some(text) => Some(text@),
                None => None,
            },
            collection@,
            has_preprocessor,
        ),
{
    let mut steps: Vec<SchemaStep> = Vec::new();
    if stored_version(stored) < 2 {
        steps.push(SchemaStep::BackfillMetadata);
    }
    let mut version = "".to_owned();
    decimal::append_decimal(&mut version, SCHEMA_VERSION);
    proof {
        reveal_strlit("");
        assert(version@ =~= decimal::decimal(SCHEMA_VERSION as int));
    }
    steps.push(
        SchemaStep::PutMeta { key: "schema_version".to_owned(), value: version, replace: true },
    );
    steps.push(
        SchemaStep::PutMeta {
            key: "collection".to_owned(),
            value: collection.to_owned(),
            replace: false,
        },
    );
    let flag = if has_preprocessor {
        "1"
    } else {
        "0"
    };
    steps.push(
        SchemaStep::PutMeta {
            key: "has_preprocessor".to_owned(),
            value: flag.to_owned(),
            replace: true,
        },
    );
    proof {
        assert(step_views(steps@) =~= closing(
            match stored {
                Some(text) => Some(text@),
                None => None,
            },
            collection@,
            has_preprocessor,
        ));
    }
    steps
}

/// The `meta` table after one step.
pub open spec fn after_step(meta: Map<Seq<char>, Seq<char>>, step: Step) -> Map<
    Seq<char>,
    Seq<char>,
> {
    match step {
        Step::PutMeta(key, value, replace) => if replace || !meta.contains_key(key) {
            meta.insert(key, value)
        } else {
            meta
        },
        _ => meta,
    }
}

/// The `meta` table after some steps.
pub open spec fn after_steps(meta: Map<Seq<char>, Seq<char>>, steps: Seq<Step>) -> Map<
    Seq<char>,
    Seq<char>,
>
    decreases steps.len(),
{
    if steps.len() == 0 {
        meta
    } else {
        after_step(after_steps(meta, steps.drop_last()), steps.last())
    }
}

/// The version that is read from the `meta` table between the steps.
pub open spec fn version_entry(meta: Map<Seq<char>, Seq<char>>, has_preprocessor: bool) -> Option<
    Seq<char>,
> {
    let opened = after_steps(meta, opening(has_preprocessor));
    if opened.contains_key("schema_version"@) {
        Some(opened["schema_version"@])
    } else {
        None
    }
}

/// The `meta` table after a database was set up.
pub open spec fn after_init(
    meta: Map<Seq<char>, Seq<char>>,
    collection: Seq<char>,
    has_preprocessor: bool,
) -> Map<Seq<char>, Seq<char>> {
    after_steps(
        after_steps(meta, opening(has_preprocessor)),
        closing(version_entry(meta, has_preprocessor), collection, has_preprocessor),
    )
}

proof fn lemma_meta_keys()
    ensures
        "schema_version"@ != "collection"@,
        "schema_version"@ != "has_preprocessor"@,
        "collection"@ != "has_preprocessor"@,
{
    reveal_strlit("schema_version");
    reveal_strlit("collection");
    reveal_strlit("has_preprocessor");
    assert("schema_version"@.len() == 14);
    assert("collection"@.len() == 10);
    assert("has_preprocessor"@.len() == 16);
}

proof fn lemma_after_opening(meta: Map<Seq<char>, Seq<char>>, has_preprocessor: bool)
    ensures
        after_steps(meta, opening(has_preprocessor)) == (if meta.contains_key("schema_version"@) {
            meta
        } else {
            meta.insert("schema_version"@, "0"@)
        }),
{
    let s = opening(has_preprocessor);
    reveal_with_fuel(after_steps, 4);
    assert(s.drop_last().drop_last().drop_last().len() == 0);
    assert(s.drop_last().drop_last().last() == s[0]);
    assert(s.drop_last().last() == s[1]);
    assert(s.last() == s[2]);
}

proof fn lemma_after_closing(
    meta: Map<Seq<char>, Seq<char>>,
    stored: Option<Seq<char>>,
    collection: Seq<char>,
    has_preprocessor: bool,
)
    ensures
        after_steps(meta, closing(stored, collection, has_preprocessor)) == ({
            let m = meta.insert("schema_version"@, decimal::decimal(SCHEMA_VERSION as int));
            let named = if meta.contains_key("collection"@) {
                m
            } else {
                m.insert("collection"@, collection)
            };
            named.insert(
                "has_preprocessor"@,
                if has_preprocessor {
                    "1"@
                } else {
                    "0"@
                },
            )
        }),
{
    lemma_meta_keys();
    let s = closing(stored, collection, has_preprocessor);
    let n = s.len() as int;
    let a = s.drop_last();
    let b = a.drop_last();
    let c = b.drop_last();
    assert(s.last() == s[n - 1] && a.last() == s[n - 2] && b.last() == s[n - 3]);
    if version_of(stored) < 2 {
        assert(n == 4);
        assert(c.last() == s[0]);
        assert(c.drop_last().len() == 0);
        assert(after_steps(meta, c.drop_last()) == meta);
        assert(after_steps(meta, c) == meta);
    } else {
        assert(n == 3);
        assert(c.len() == 0);
        assert(after_steps(meta, c) == meta);
    }
    let m = meta.insert("schema_version"@, decimal::decimal(SCHEMA_VERSION as int));
    assert(after_steps(meta, b) == m);
    let named = if meta.contains_key("collection"@) {
        m
    } else {
        m.insert("collection"@, collection)
    };
    assert(m.contains_key("collection"@) == meta.contains_key("collection"@));
    assert(after_steps(meta, a) == named);
    assert(after_steps(meta, s) == after_step(named, s.last()));
}

/// After a database was set up, its version is the current one, its collection is the one it was
/// first set up for, and whether it has a preprocessor is what was said last.
pub proof fn law_init_writes_meta(
    meta: Map<Seq<char>, Seq<char>>,
    collection: Seq<char>,
    has_preprocessor: bool,
)
    ensures
        ({
            let m = after_init(meta, collection, has_preprocessor);
            &&& m.contains_key("schema_version"@)
            &&& m["schema_version"@] == "2"@
            &&& version_of(Some(m["schema_version"@])) == SCHEMA_VERSION
            &&& m.contains_key("collection"@)
            &&& m["collection"@] == (if meta.contains_key("collection"@) {
                meta["collection"@]
            } else {
                collection
            })
            &&& m.contains_key("has_preprocessor"@)
            &&& m["has_preprocessor"@] == (if has_preprocessor {
                "1"@
            } else {
                "0"@
            })
            &&& forall|key: Seq<char>|
                key != "schema_version"@ && key != "collection"@ && key != "has_preprocessor"@ ==> (
                #[trigger] m.contains_key(key) <==> meta.contains_key(key)) && m[key] == meta[key]
        }),
{
    lemma_meta_keys();
    lemma_after_opening(meta, has_preprocessor);
    lemma_after_closing(
        after_steps(meta, opening(has_preprocessor)),
        version_entry(meta, has_preprocessor),
        collection,
        has_preprocessor,
    );
    decimal::law_decimal_round_trip(SCHEMA_VERSION as int);
    reveal_strlit("2");
    assert("2"@ =~= decimal::decimal(SCHEMA_VERSION as int));
}

/// Setting a database up again, with a preprocessor or without one as before, leaves the `meta`
/// table as it is, whatever collection is named.
pub proof fn law_second_init_changes_nothing(
    meta: Map<Seq<char>, Seq<char>>,
    collection: Seq<char>,
    has_preprocessor: bool,
    later_collection: Seq<char>,
)
    ensures
        after_init(
            after_init(meta, collection, has_preprocessor),
            later_collection,
            has_preprocessor,
        ) == after_init(meta, collection, has_preprocessor),
{
    let m = after_init(meta, collection, has_preprocessor);
    let again = after_init(m, later_collection, has_preprocessor);
    law_init_writes_meta(meta, collection, has_preprocessor);
    lemma_meta_keys();
    lemma_after_opening(m, has_preprocessor);
    lemma_after_closing(
        m,
        version_entry(m, has_preprocessor),
        later_collection,
        has_preprocessor,
    );
    reveal_strlit("2");
    assert("2"@ =~= decimal::decimal(SCHEMA_VERSION as int));
    assert(again =~= m);
}

/// A database that was set up once is not migrated again, and one that never was is.
pub proof fn law_migration_runs_once(
    meta: Map<Seq<char>, Seq<char>>,
    collection: Seq<char>,
    has_preprocessor: bool,
    later_collection: Seq<char>,
    later_preprocessor: bool,
)
    ensures
        ({
            let m = after_init(meta, collection, has_preprocessor);
            !closing(
                version_entry(m, later_preprocessor),
                later_collection,
                later_preprocessor,
            ).contains(Step::BackfillMetadata)
        }),
        !meta.contains_key("schema_version"@) ==> closing(
            version_entry(meta, has_preprocessor),
            collection,
            has_preprocessor,
        ).contains(Step::BackfillMetadata),
{
    let m = after_init(meta, collection, has_preprocessor);
    law_init_writes_meta(meta, collection, has_preprocessor);
    lemma_after_opening(m, later_preprocessor);
    assert(version_entry(m, later_preprocessor) == Some(m["schema_version"@]));
    let steps = closing(
        version_entry(m, later_preprocessor),
        later_collection,
        later_preprocessor,
    );
    assert(steps.len() == 3);
    assert(steps[0] is PutMeta && steps[1] is PutMeta && steps[2] is PutMeta);
    if !meta.contains_key("schema_version"@) {
        lemma_after_opening(meta, has_preprocessor);
        assert(version_entry(meta, has_preprocessor) == Some("0"@));
        reveal_strlit("0");
        assert("0"@ =~= decimal::decimal(0));
        decimal::law_decimal_round_trip(0);
        let first = closing(version_entry(meta, has_preprocessor), collection, has_preprocessor);
        assert(first[0] == Step::BackfillMetadata);
    }
}

/// The rows of the metadata table that one document gives: its frontmatter, flattened.
pub open spec fn document_metadata(id: i64, doc: Seq<char>) -> Seq<(i64, Seq<char>, Seq<char>)> {
    match frontmatter::frontmatter(doc) {
        Some(entries) => frontmatter::mapping_pairs(entries).map_values(
            |p: (Seq<char>, Seq<char>)| (id, p.0, p.1),
        ),
        None => Seq::empty(),
    }
}

/// The rows of the metadata table that some documents give.
pub open spec fn all_metadata(docs: Seq<(i64, Seq<char>)>) -> Seq<(i64, Seq<char>, Seq<char>)>
    decreases docs.len(),
{
    if docs.len() == 0 {
        Seq::empty()
    } else {
        all_metadata(docs.drop_last()) + document_metadata(docs.last().0, docs.last().1)
    }
}

/// Documents as mathematical values.
pub open spec fn doc_views(docs: Seq<(i64, String)>) -> Seq<(i64, Seq<char>)> {
    docs.map_values(|d: (i64, String)| (d.0, d.1@))
}

/// Rows of the metadata table as mathematical values.
pub open spec fn metadata_views(rows: Seq<(i64, String, String)>) -> Seq<
    (i64, Seq<char>, Seq<char>),
> {
    rows.map_values(|r: (i64, String, String)| (r.0, r.1@, r.2@))
}

/// The rows that fill the metadata table from stored documents.
pub fn metadata_rows(docs: &Vec<(i64, String)>) -> (rows: Vec<(i64, String, String)>)
    ensures
        metadata_views(rows@) == all_metadata(doc_views(docs@)),
{
    let ghost ds = doc_views(docs@);
    let mut rows: Vec<(i64, String, String)> = Vec::new();
    let mut d: usize = 0;
    proof {
        assert(ds.take(0) =~= Seq::empty());
        assert(metadata_views(rows@) =~= all_metadata(ds.take(0)));
    }
    while d < docs.len()
        invariant
            d <= docs@.len(),
            ds == doc_views(docs@),
            metadata_views(rows@) == all_metadata(ds.take(d as int)),
        decreases docs.len() - d,
    {
        let (id, doc) = &docs[d];
        let id: i64 = *id;
        let ghost before = metadata_views(rows@);
        proof {
            assert(ds.take(d + 1).drop_last() =~= ds.take(d as int));
            assert(ds.take(d + 1).last() == (id, doc@));
        }
        match frontmatter::extract(doc.as_str()) {
            Some(mapping) => {
                let pairs = frontmatter::flatten(&mapping);
                let ghost ps = frontmatter::pair_views(pairs@);
                let ghost more = document_metadata(id, doc@);
                let mut i: usize = 0;
                while i < pairs.len()
                    invariant
                        i <= pairs@.len(),
                        ps == frontmatter::pair_views(pairs@),
                        more == ps.map_values(|p: (Seq<char>, Seq<char>)| (id, p.0, p.1)),
                        metadata_views(rows@) == before + more.take(i as int),
                    decreases pairs.len() - i,
                {
                    let (key, value) = &pairs[i];
                    let ghost now = metadata_views(rows@);
                    rows.push((id, key.clone(), value.clone()));
                    proof {
                        assert(ps[i as int] == (key@, value@));
                        assert(metadata_views(rows@) =~= now.push((id, key@, value@)));
                        assert(more.take(i + 1) =~= more.take(i as int).push(more[i as int]));
                    }
                    i += 1;
                }
                proof {
                    assert(more.take(i as int) =~= more);
                }
            },
            None => {
                proof {
                    assert(before + document_metadata(id, doc@) =~= before);
                }
            },
        }
        d += 1;
    }
    proof {
        assert(ds.take(d as int) =~= ds);
    }
    rows
}

/// A row of the metadata table: document, key and value.
pub type Row = (i64, Seq<char>, Seq<char>);

/// The table holds a row with the same key, where `key` gives the columns that must not occur
/// twice.
pub open spec fn holds_key<K>(table: Set<Row>, row: Row, key: spec_fn(Row) -> K) -> bool {
    exists|held: Row| #[trigger] table.contains(held) && key(held) == key(row)
}

/// A table after a row was inserted that is ignored where the table holds one with the same key.
pub open spec fn after_insert_or_ignore<K>(
    table: Set<Row>,
    row: Row,
    key: spec_fn(Row) -> K,
) -> Set<Row> {
    if holds_key(table, row, key) {
        table
    } else {
        table.insert(row)
    }
}

/// A table after rows were inserted one by one.
pub open spec fn after_inserts<K>(
    table: Set<Row>,
    rows: Seq<Row>,
    key: spec_fn(Row) -> K,
) -> Set<Row>
    decreases rows.len(),
{
    if rows.len() == 0 {
        table
    } else {
        after_insert_or_ignore(after_inserts(table, rows.drop_last(), key), rows.last(), key)
    }
}

/// The metadata table after it was filled from stored documents.
pub open spec fn after_backfill<K>(
    table: Set<Row>,
    docs: Seq<(i64, Seq<char>)>,
    key: spec_fn(Row) -> K,
) -> Set<Row> {
    after_inserts(table, all_metadata(docs), key)
}

/// Inserting keeps the rows that are there, and leaves a row with the key of each inserted one.
proof fn lemma_after_inserts<K>(table: Set<Row>, rows: Seq<Row>, key: spec_fn(Row) -> K)
    ensures
        table.subset_of(after_inserts(table, rows, key)),
        forall|i: int|
            0 <= i < rows.len() ==> holds_key(
                after_inserts(table, rows, key),
                #[trigger] rows[i],
                key,
            ),
        forall|row: Row| #[trigger]
            after_inserts(table, rows, key).contains(row) ==> table.contains(row) || rows.contains(
                row,
            ),
    decreases rows.len(),
{
    if rows.len() > 0 {
        let less = rows.drop_last();
        let before = after_inserts(table, less, key);
        let after = after_inserts(table, rows, key);
        lemma_after_inserts(table, less, key);
        assert(before.subset_of(after));
        assert forall|i: int| 0 <= i < rows.len() implies holds_key(
            after,
            #[trigger] rows[i],
            key,
        ) by {
            if i < less.len() {
                assert(less[i] == rows[i]);
                assert(holds_key(before, less[i], key));
                let held = choose|held: Row| #[trigger]
                    before.contains(held) && key(held) == key(rows[i]);
                assert(after.contains(held));
            } else if after != before {
                assert(after.contains(rows.last()));
            }
        }
        assert forall|row: Row| #[trigger] after.contains(row) implies table.contains(row)
            || rows.contains(row) by {
            if before.contains(row) {
                if less.contains(row) {
                    let i = choose|i: int| 0 <= i < less.len() && less[i] == row;
                    assert(rows[i] == row);
                }
            } else {
                assert(rows[rows.len() - 1] == row);
            }
        }
    }
}

proof fn lemma_inserts_of_held<K>(table: Set<Row>, rows: Seq<Row>, key: spec_fn(Row) -> K)
    requires
        forall|i: int| 0 <= i < rows.len() ==> holds_key(table, #[trigger] rows[i], key),
    ensures
        after_inserts(table, rows, key) == table,
    decreases rows.len(),
{
    if rows.len() > 0 {
        let less = rows.drop_last();
        assert forall|i: int| 0 <= i < less.len() implies holds_key(
            table,
            #[trigger] less[i],
            key,
        ) by {
            assert(holds_key(table, rows[i], key));
        }
        lemma_inserts_of_held(table, less, key);
        assert(holds_key(table, rows[rows.len() - 1], key));
    }
}

/// Filling the metadata table keeps the rows that are there, and filling it from the same
/// documents again adds nothing, whatever columns of a row have to be unique.
pub proof fn law_backfill_is_idempotent<K>(
    table: Set<Row>,
    docs: Seq<(i64, Seq<char>)>,
    key: spec_fn(Row) -> K,
)
    ensures
        table.subset_of(after_backfill(table, docs, key)),
        after_backfill(after_backfill(table, docs, key), docs, key) == after_backfill(
            table,
            docs,
            key,
        ),
{
    let rows = all_metadata(docs);
    lemma_after_inserts(table, rows, key);
    lemma_inserts_of_held(after_inserts(table, rows, key), rows, key);
}

/// Where rows are only kept from being the same, the table ends up with its old rows and those of
/// the documents, and no others.
pub proof fn law_backfill_adds_the_metadata(
    table: Set<Row>,
    docs: Seq<(i64, Seq<char>)>,
    row: Row,
)
    ensures
        after_backfill(table, docs, |r: Row| r).contains(row) <==> table.contains(row)
            || all_metadata(docs).contains(row),
{
    let rows = all_metadata(docs);
    let key = |r: Row| r;
    let after = after_inserts(table, rows, key);
    lemma_after_inserts(table, rows, key);
    if rows.contains(row) {
        let i = choose|i: int| 0 <= i < rows.len() && rows[i] == row;
        assert(holds_key(after, rows[i], key));
        let held = choose|held: Row| #[trigger] after.contains(held) && key(held) == key(rows[i]);
        assert(held == row);
    }
}

/// A document gives only rows of its own, and none if it has no frontmatter.
pub proof fn law_metadata_belongs_to_its_document(docs: Seq<(i64, Seq<char>)>, row: Row)
    ensures
        all_metadata(docs).contains(row) <==> exists|d: int|
            0 <= d < docs.len() && document_metadata(
                (#[trigger] docs[d]).0,
                docs[d].1,
            ).contains(row),
    decreases docs.len(),
{
    if docs.len() > 0 {
        let less = docs.drop_last();
        let front = all_metadata(less);
        let back = document_metadata(docs.last().0, docs.last().1);
        let all = all_metadata(docs);
        law_metadata_belongs_to_its_document(less, row);
        if all.contains(row) {
            let i = choose|i: int| 0 <= i < all.len() && all[i] == row;
            if i < front.len() {
                assert(front[i] == row);
                let d = choose|d: int|
                    0 <= d < less.len() && document_metadata(
                        (#[trigger] less[d]).0,
                        less[d].1,
                    ).contains(row);
                assert(docs[d] == less[d]);
            } else {
                assert(back[i - front.len()] == row);
                assert(docs[docs.len() - 1] == docs.last());
            }
        }
        if exists|d: int|
            0 <= d < docs.len() && document_metadata(
                (#[trigger] docs[d]).0,
                docs[d].1,
            ).contains(row) {
            let d = choose|d: int|
                0 <= d < docs.len() && document_metadata(
                    (#[trigger] docs[d]).0,
                    docs[d].1,
                ).contains(row);
            if d < less.len() {
                assert(less[d] == docs[d]);
                let i = choose|i: int| 0 <= i < front.len() && front[i] == row;
                assert(all[i] == row);
            } else {
                let i = choose|i: int| 0 <= i < back.len() && back[i] == row;
                assert(all[front.len() + i] == row);
            }
        }
    }
}

} // verus!
