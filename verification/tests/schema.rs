use ir::db::schema::{
    closing_steps, metadata_rows, opening_steps, stored_version, SchemaStep, SCHEMA_VERSION,
};
use std::collections::BTreeMap;

/// Sets up a database of which only the `meta` table is kept; gives the steps by name.
fn init(meta: &mut BTreeMap<String, String>, collection: &str, has: bool) -> Vec<String> {
    let mut names = Vec::new();
    let mut run = |steps: Vec<SchemaStep>, meta: &mut BTreeMap<String, String>| {
        for step in steps {
            match step {
                SchemaStep::CreateTables => names.push("tables".to_string()),
                SchemaStep::DropTriggers => names.push("drop".to_string()),
                SchemaStep::CreateTriggers => names.push("triggers".to_string()),
                SchemaStep::BackfillMetadata => names.push("backfill".to_string()),
                SchemaStep::PutMeta { key, value, replace } => {
                    names.push(key.clone());
                    if replace || !meta.contains_key(&key) {
                        meta.insert(key, value);
                    }
                }
            }
        }
    };
    run(opening_steps(has), meta);
    let stored = meta.get("schema_version").cloned();
    run(closing_steps(stored.as_deref(), collection, has), meta);
    names
}

#[test]
fn new_database_is_migrated_once() {
    let mut meta = BTreeMap::new();
    assert_eq!(
        init(&mut meta, "notes", false),
        vec![
            "tables",
            "triggers",
            "schema_version",
            "backfill",
            "schema_version",
            "collection",
            "has_preprocessor",
        ]
    );
    assert_eq!(meta["schema_version"], "2");
    assert_eq!(meta["collection"], "notes");
    assert_eq!(meta["has_preprocessor"], "0");
    assert_eq!(
        init(&mut meta, "renamed", true),
        vec![
            "tables",
            "drop",
            "schema_version",
            "schema_version",
            "collection",
            "has_preprocessor",
        ]
    );
    assert_eq!(meta["schema_version"], "2");
    assert_eq!(meta["collection"], "notes");
    assert_eq!(meta["has_preprocessor"], "1");
}

#[test]
fn older_versions_are_migrated() {
    for (version, migrated) in [("0", true), ("1", true), ("2", false), ("3", false), ("x", true)] {
        let mut meta = BTreeMap::new();
        meta.insert("schema_version".to_string(), version.to_string());
        let steps = init(&mut meta, "c", false);
        assert_eq!(steps.contains(&"backfill".to_string()), migrated, "version {version}");
        assert_eq!(meta["schema_version"], SCHEMA_VERSION.to_string());
    }
}

#[test]
fn versions_are_read_as_numbers() {
    assert_eq!(stored_version(None), 0);
    for text in ["2", "+2", "-1", "007", "", "two", "2 ", "9223372036854775808", "-", "+"] {
        assert_eq!(stored_version(Some(text)), text.parse::<i64>().unwrap_or(0), "{text:?}");
    }
}

#[test]
fn metadata_comes_from_the_frontmatter() {
    let docs = vec![
        (7, "---\ntags: [a, b]\ndate: 2024-01-02\n---\nText".to_string()),
        (8, "No frontmatter".to_string()),
        (9, "---\n[bad\n---\n".to_string()),
        (10, "---\nn: 1\n---".to_string()),
    ];
    let row = |id: i64, key: &str, value: &str| (id, key.to_string(), value.to_string());
    assert_eq!(
        metadata_rows(&docs),
        vec![
            row(7, "tags", "a"),
            row(7, "tags", "b"),
            row(7, "date", "2024-01-02T00:00:00+00:00"),
            row(10, "n", "1"),
        ]
    );
}

#[test]
fn setting_up_again_changes_nothing() {
    for has in [false, true] {
        let mut meta = BTreeMap::new();
        meta.insert("graph_k".to_string(), "5".to_string());
        init(&mut meta, "notes", has);
        let once = meta.clone();
        init(&mut meta, "other", has);
        assert_eq!(meta, once);
        assert_eq!(meta["schema_version"], "2");
    }
}

#[test]
fn filling_the_metadata_again_adds_nothing() {
    let docs = vec![
        (1, "---\ntags: [a, a, b]\n---\n".to_string()),
        (2, "---\ntags: a\n---\n".to_string()),
    ];
    let mut table = std::collections::BTreeSet::new();
    table.insert((9, "old".to_string(), "row".to_string()));
    table.extend(metadata_rows(&docs));
    assert_eq!(table.len(), 4);
    let once = table.clone();
    table.extend(metadata_rows(&docs));
    assert_eq!(table, once);
}
