use ir::dates::{normalize_date, write_date, UtcTime};
use ir::frontmatter::{extract, find_block, flatten, flatten_value, nested_keys};
use ir::yaml::{parse_yaml, YamlValue};

fn pairs(doc: &str) -> Vec<(String, String)> {
    flatten(&extract(doc).unwrap())
}

fn pair(key: &str, value: &str) -> (String, String) {
    (key.to_string(), value.to_string())
}

#[test]
fn block_between_dashes() {
    let doc = "---\ntitle: x\n---\nbody";
    assert_eq!(find_block(doc), Some(("title: x\n", 17)));
    assert_eq!(&doc[17..], "body");
}

#[test]
fn block_ends_at_dots_or_at_the_end() {
    assert_eq!(find_block("---\na: 1\n...\nbody"), Some(("a: 1\n", 13)));
    assert_eq!(find_block("---\na: 1\n---"), Some(("a: 1\n", 12)));
    assert_eq!(find_block("---\n---\n"), Some(("", 8)));
}

#[test]
fn block_with_carriage_returns() {
    let doc = "---\r\na: 1\r\n---\r\nbody";
    assert_eq!(find_block(doc), Some(("a: 1\r\n", 16)));
    assert_eq!(&doc[16..], "body");
}

#[test]
fn no_block() {
    assert_eq!(find_block(""), None);
    assert_eq!(find_block("---"), None);
    assert_eq!(find_block("--- x\na: 1\n---\n"), None);
    assert_eq!(find_block(" ---\na: 1\n---\n"), None);
    assert_eq!(find_block("---\na: 1\n"), None);
    assert_eq!(find_block("---\na: 1\n----\n"), None);
}

#[test]
fn extract_needs_a_mapping() {
    assert!(extract("---\na: 1\n---\n").is_some());
    assert!(extract("---\n- a\n---\n").is_none());
    assert!(extract("---\n[unclosed\n---\n").is_none());
    assert!(extract("no block").is_none());
}

#[test]
fn scalars_are_stringified() {
    let doc = "---\nb: true\ni: 42\nf: 1.5\ns: text\nn: null\nempty:\n---\n";
    assert_eq!(
        pairs(doc),
        vec![pair("b", "true"), pair("i", "42"), pair("f", "1.5"), pair("s", "text")]
    );
}

#[test]
fn sequences_give_one_pair_per_scalar() {
    let doc = "---\ntags: [rust, 2, false, null, [nested], {a: 1}, 2024-05-06]\n---\n";
    assert_eq!(
        pairs(doc),
        vec![
            pair("tags", "rust"),
            pair("tags", "2"),
            pair("tags", "false"),
            pair("tags", "2024-05-06T00:00:00+00:00"),
        ]
    );
}

#[test]
fn nested_mappings_and_other_keys_are_skipped() {
    let doc = "---\nouter:\n  inner: 1\n7: seven\nkept: yes it is\n---\n";
    assert_eq!(pairs(doc), vec![pair("kept", "yes it is")]);
}

#[test]
fn values_are_flattened_one_by_one() {
    let mut out = Vec::new();
    flatten_value("k", &YamlValue::Bool(false), &mut out);
    flatten_value("k", &YamlValue::Null, &mut out);
    flatten_value("k", &YamlValue::Tagged, &mut out);
    flatten_value("k", &YamlValue::Number("-3".to_string()), &mut out);
    flatten_value("k", &YamlValue::Mapping(vec![]), &mut out);
    assert_eq!(out, vec![pair("k", "false"), pair("k", "-3")]);
}

#[test]
fn dates_become_utc() {
    assert_eq!(normalize_date("2024-01-02"), "2024-01-02T00:00:00+00:00");
    assert_eq!(normalize_date("2024-01-02T03:04:05Z"), "2024-01-02T03:04:05+00:00");
    assert_eq!(normalize_date("2024-01-01T00:30:00+02:00"), "2023-12-31T22:30:00+00:00");
    assert_eq!(normalize_date("2024-01-02T03:04:05.250Z"), "2024-01-02T03:04:05.250+00:00");
    assert_eq!(normalize_date("2024-02-29"), "2024-02-29T00:00:00+00:00");
}

#[test]
fn other_texts_stay() {
    for text in ["", "hello", "2024", "2024-13-01", "2023-02-29", "01.02.2024"] {
        assert_eq!(normalize_date(text), text);
    }
}

#[test]
fn normalizing_twice_is_normalizing_once() {
    for text in ["2024-01-02", "2024-01-01T00:30:00+02:00", "+12024-01-02", "-0044-03-15", "x"] {
        let once = normalize_date(text);
        assert_eq!(normalize_date(&once), once);
    }
}

#[test]
fn given_times_are_written_out() {
    let leap = UtcTime {
        year: 2016,
        month: 12,
        day: 31,
        hour: 23,
        minute: 59,
        second: 59,
        nanosecond: 1_000_000_000,
    };
    assert_eq!(write_date("x", Some(leap), None), "2016-12-31T23:59:60+00:00");
    let fine = UtcTime { nanosecond: 1_002_003, ..leap };
    assert_eq!(write_date("x", Some(fine), None), "2016-12-31T23:59:59.001002003+00:00");
    assert_eq!(write_date("x", None, Some((12024, 1, 2))), "+12024-01-02T00:00:00+00:00");
    assert_eq!(write_date("x", None, Some((-44, 3, 15))), "-0044-03-15T00:00:00+00:00");
    assert_eq!(write_date("x", None, None), "x");
}

#[test]
fn normalized_dates_sort_by_time() {
    let mut texts: Vec<String> = ["2024-01-01T00:30:00+02:00", "2024-01-01", "2023-12-31T23:00:00Z"]
        .iter()
        .map(|t| normalize_date(t))
        .collect();
    texts.sort();
    assert_eq!(
        texts,
        vec![
            "2023-12-31T22:30:00+00:00",
            "2023-12-31T23:00:00+00:00",
            "2024-01-01T00:00:00+00:00",
        ]
    );
}

#[test]
fn yaml_is_parsed() {
    match parse_yaml("a: [1, x]") {
        Some(YamlValue::Mapping(entries)) => {
            assert_eq!(entries.len(), 1);
            assert!(matches!(&entries[0].0, YamlValue::String(k) if k == "a"));
            match &entries[0].1 {
                YamlValue::Sequence(items) => {
                    assert!(matches!(&items[0], YamlValue::Number(n) if n == "1"));
                    assert!(matches!(&items[1], YamlValue::String(s) if s == "x"));
                }
                other => panic!("{other:?}"),
            }
        }
        other => panic!("{other:?}"),
    }
    assert!(matches!(parse_yaml(""), Some(YamlValue::Null)));
    assert!(matches!(parse_yaml("!thing x"), Some(YamlValue::Tagged)));
    assert!(parse_yaml("a: [").is_none());
}

#[test]
fn text_after_the_block_has_no_influence() {
    for head in ["---\na: 1\n---\n", "---\r\na: 1\r\n...\r\n", "---\n---\r\r\n"] {
        let block = find_block(head);
        assert_eq!(block.unwrap().1, head.len());
        for body in ["", "x", "---\n", "\n...\n", "\r"] {
            let doc = format!("{head}{body}");
            assert_eq!(find_block(&doc), block);
        }
    }
}

#[test]
fn nested_mappings_are_named() {
    let doc = "---\na: {x: 1}\nb: 2\nc:\n  y: 3\n4: {z: 5}\nd: [{e: 6}]\n---\n";
    assert_eq!(nested_keys(&extract(doc).unwrap()), vec!["a", "c"]);
}
