use ir::index::title::{choose_title, extract_title, file_stem_of};
use ir::yaml::YamlValue;

#[test]
fn extract_title_from_heading() {
    let doc = "# My Title\n\nContent here.";
    assert_eq!(extract_title(doc, "file.md"), "My Title");
}

#[test]
fn extract_title_fallback_to_filename() {
    let doc = "";
    assert_eq!(extract_title(doc, "my-note.md"), "my-note");
}

#[test]
fn frontmatter_title_comes_first() {
    let doc = "---\nname: The Name\ntitle: The Title\n---\n# Heading\n";
    assert_eq!(extract_title(doc, "file.md"), "The Title");
}

#[test]
fn frontmatter_name_stands_in_for_a_missing_title() {
    let doc = "---\nname: The Name\n---\n# Heading\n";
    assert_eq!(extract_title(doc, "file.md"), "The Name");
    let doc = "---\ntitle: ''\nname: The Name\n---\n# Heading\n";
    assert_eq!(extract_title(doc, "file.md"), "The Name");
    let doc = "---\ntitle: 12\nname: The Name\n---\n# Heading\n";
    assert_eq!(extract_title(doc, "file.md"), "The Name");
}

#[test]
fn frontmatter_without_title_leaves_the_body() {
    let doc = "---\ntags: [a]\n---\n\n# Heading\n";
    assert_eq!(extract_title(doc, "file.md"), "Heading");
    // Malformed YAML: the block still does not belong to the body.
    let doc = "---\n[unclosed\n---\nFirst line\n";
    assert_eq!(extract_title(doc, "file.md"), "First line");
}

#[test]
fn heading_comes_before_the_first_line() {
    let doc = "Intro text\n\n## Not this one\n  # Real Title  \n# Later\n";
    assert_eq!(extract_title(doc, "file.md"), "Real Title");
}

#[test]
fn first_line_without_a_heading() {
    let doc = "\n   \n  Some text \nMore\n#NoBlank\n";
    assert_eq!(extract_title(doc, "file.md"), "Some text");
}

#[test]
fn title_of_given_frontmatter() {
    let entries = vec![
        (YamlValue::Number("1".to_string()), YamlValue::String("one".to_string())),
        (YamlValue::String("title".to_string()), YamlValue::String("T".to_string())),
    ];
    assert_eq!(choose_title(&Some(entries), "# H", "f.md"), "T");
    assert_eq!(choose_title(&Some(vec![]), "# H", "f.md"), "H");
    assert_eq!(choose_title(&None, "", "dir/f.md"), "f");
}

#[test]
fn stems_are_those_of_the_standard_library() {
    for path in [
        "my-note.md",
        "dir/sub/a.b.c",
        "dir/",
        "dir//.",
        "dir/./x.md/.",
        "..",
        "a/..",
        "a/../b.txt",
        ".hidden",
        ".hidden.md",
        "..md",
        "...",
        "a.",
        "a..",
        "noext",
        "/",
        "//x.y",
        "",
        ".",
        "./",
        "ä/ö.ü.md",
    ] {
        let expected = std::path::Path::new(path)
            .file_stem()
            .map(|s| s.to_string_lossy().into_owned());
        assert_eq!(file_stem_of(path), expected, "stem of {path:?}");
    }
}

#[test]
fn path_without_a_name_is_the_title() {
    assert_eq!(extract_title("", ".."), "..");
    assert_eq!(extract_title("\n", "/"), "/");
}

#[test]
fn code_blocks_hold_no_heading() {
    assert_eq!(extract_title("intro\n```\n# x\n```\n", "f.md"), "intro");
    assert_eq!(extract_title("intro\n```sh\n# x\n```\n# Real\n", "f.md"), "Real");
    assert_eq!(extract_title("~~~\n# x", "f.md"), "~~~");
    assert_eq!(extract_title("# Real\n```\n# x\n```\n", "f.md"), "Real");
}
