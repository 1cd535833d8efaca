//! YAML values, as far as the frontmatter of a document makes use of them.

use vstd::prelude::*;

verus! {

/// A YAML value: what a parsed document consists of.
pub enum YamlTree {
    Null,
    Bool(bool),
    /// A number, in its decimal notation.
    Number(Seq<char>),
    Text(Seq<char>),
    Sequence(Seq<YamlTree>),
    /// Keys with their values, in the order of the document.
    Mapping(Seq<(YamlTree, YamlTree)>),
    /// A value with an explicit tag.
    Tagged,
}

/// A YAML value.
#[derive(Debug)]
pub enum YamlValue {
    Null,
    Bool(bool),
    /// A number, in its decimal notation.
    Number(String),
    String(String),
    Sequence(Vec<YamlValue>),
    /// Keys with their values, in the order of the document.
    Mapping(Vec<(YamlValue, YamlValue)>),
    /// A value with an explicit tag.
    Tagged,
}

impl YamlValue {
    /// What the value consists of.
    pub open spec fn tree(self) -> YamlTree
        decreases self,
    {
        match self {
            YamlValue::Null => YamlTree::Null,
            YamlValue::Bool(b) => YamlTree::Bool(b),
            YamlValue::Number(n) => YamlTree::Number(n@),
            YamlValue::String(s) => YamlTree::Text(s@),
            YamlValue::Sequence(items) => YamlTree::Sequence(
                Seq::new(
                    items@.len(),
                    |i: int|
                        if 0 <= i < items@.len() {
                            items@[i].tree()
                        } else {
                            YamlTree::Null
                        },
                ),
            ),
            YamlValue::Mapping(entries) => YamlTree::Mapping(
                Seq::new(
                    entries@.len(),
                    |i: int|
                        if 0 <= i < entries@.len() {
                            (entries@[i].0.tree(), entries@[i].1.tree())
                        } else {
                            (YamlTree::Null, YamlTree::Null)
                        },
                ),
            ),
            YamlValue::Tagged => YamlTree::Tagged,
        }
    }
}

/// A parsed YAML value of the `serde_yaml` crate.
#[verifier::external_type_specification]
#[verifier::external_body]
pub struct ExYamlValue(serde_yaml::Value);

/// What a value of the `serde_yaml` crate consists of.
pub uninterp spec fn yaml_tree(value: serde_yaml::Value) -> YamlTree;

/// What `serde_yaml::from_str` makes of a text; `None` where it reports an error.
pub uninterp spec fn yaml_document(text: Seq<char>) -> Option<YamlTree>;

/// One level of a value of the `serde_yaml` crate.
pub(crate) enum YamlNode<'a> {
    Null,
    Bool(bool),
    Number(String),
    String(&'a String),
    Sequence(&'a Vec<serde_yaml::Value>),
    Mapping(Vec<(&'a serde_yaml::Value, &'a serde_yaml::Value)>),
    Tagged,
}

/// Calls `serde_yaml::from_str`. What it returns depends on the text alone: the value that the
/// text stands for, or an error, which is not kept.
#[verifier::external_body]
fn parse_value(text: &str) -> (r: Option<serde_yaml::Value>)
    ensures
        r is None <==> yaml_document(text@) is None,
        r matches Some(value) ==> yaml_document(text@) == Some(yaml_tree(value)),
{
    serde_yaml::from_str::<serde_yaml::Value>(text).ok()
}

/// Takes a `serde_yaml::Value` apart by one level: its variant, with the items of a sequence, the
/// entries that `Mapping::iter` gives in their order of insertion, and the `Display` form of a
/// number.
#[verifier::external_body]
fn node_of<'a>(value: &'a serde_yaml::Value) -> (r: YamlNode<'a>)
    ensures
        match r {
            YamlNode::Null => yaml_tree(*value) == YamlTree::Null,
            YamlNode::Bool(b) => yaml_tree(*value) == YamlTree::Bool(b),
            YamlNode::Number(n) => yaml_tree(*value) == YamlTree::Number(n@),
            YamlNode::String(s) => yaml_tree(*value) == YamlTree::Text(s@),
            YamlNode::Sequence(items) => yaml_tree(*value) == YamlTree::Sequence(
                items@.map_values(|v: serde_yaml::Value| yaml_tree(v)),
            ),
            YamlNode::Mapping(entries) => yaml_tree(*value) == YamlTree::Mapping(
                entries@.map_values(
                    |e: (&serde_yaml::Value, &serde_yaml::Value)| (yaml_tree(*e.0), yaml_tree(*e.1)),
                ),
            ),
            YamlNode::Tagged => yaml_tree(*value) == YamlTree::Tagged,
        },
{
    match value {
        serde_yaml::Value::Null => YamlNode::Null,
        serde_yaml::Value::Bool(b) => YamlNode::Bool(*b),
        serde_yaml::Value::Number(n) => YamlNode::Number(n.to_string()),
        serde_yaml::Value::String(s) => YamlNode::String(s),
        serde_yaml::Value::Sequence(items) => YamlNode::Sequence(items),
        serde_yaml::Value::Mapping(m) => YamlNode::Mapping(m.iter().collect()),
        serde_yaml::Value::Tagged(_) => YamlNode::Tagged,
    }
}

/// The value that a value of the `serde_yaml` crate stands for.
fn convert(value: &serde_yaml::Value) -> (r: YamlValue)
    ensures
        r.tree() == yaml_tree(*value),
    decreases yaml_tree(*value),
{
    match node_of(value) {
        YamlNode::Null => YamlValue::Null,
        YamlNode::Bool(b) => YamlValue::Bool(b),
        YamlNode::Number(n) => YamlValue::Number(n),
        YamlNode::String(s) => YamlValue::String(s.clone()),
        YamlNode::Sequence(items) => {
            let ghost trees = yaml_tree(*value)->Sequence_0;
            let mut out: Vec<YamlValue> = Vec::new();
            let mut i: usize = 0;
            while i < items.len()
                invariant
                    i <= items@.len(),
                    out@.len() == i,
                    yaml_tree(*value) == YamlTree::Sequence(trees),
                    trees == items@.map_values(|v: serde_yaml::Value| yaml_tree(v)),
                    forall|j: int| 0 <= j < i ==> (#[trigger] out@[j]).tree() == trees[j],
                decreases items.len() - i,
            {
                proof {
                    assert(trees[i as int] == yaml_tree(items@[i as int]));
                    let tree = yaml_tree(*value);
                    assert(decreases_to!(tree => tree->Sequence_0));
                    assert(decreases_to!(trees => trees[i as int]));
                    assert(decreases_to!(yaml_tree(*value) => trees[i as int]));
                }
                out.push(convert(&items[i]));
                i += 1;
            }
            let r = YamlValue::Sequence(out);
            proof {
                assert(r.tree()->Sequence_0 =~= trees);
            }
            r
        },
        YamlNode::Mapping(entries) => {
            let ghost trees = yaml_tree(*value)->Mapping_0;
            let mut out: Vec<(YamlValue, YamlValue)> = Vec::new();
            let mut i: usize = 0;
            while i < entries.len()
                invariant
                    i <= entries@.len(),
                    out@.len() == i,
                    yaml_tree(*value) == YamlTree::Mapping(trees),
                    trees == entries@.map_values(
                        |e: (&serde_yaml::Value, &serde_yaml::Value)|
                            (yaml_tree(*e.0), yaml_tree(*e.1)),
                    ),
                    forall|j: int|
                        0 <= j < i ==> ((#[trigger] out@[j]).0.tree(), out@[j].1.tree())
                            == trees[j],
                decreases entries.len() - i,
            {
                let (key, entry) = entries[i];
                proof {
                    assert(trees[i as int] == (yaml_tree(*key), yaml_tree(*entry)));
                    let tree = yaml_tree(*value);
                    assert(decreases_to!(tree => tree->Mapping_0));
                    assert(decreases_to!(trees => trees[i as int]));
                    assert(decreases_to!(trees[i as int] => trees[i as int].0));
                    assert(decreases_to!(trees[i as int] => trees[i as int].1));
                    assert(decreases_to!(yaml_tree(*value) => trees[i as int]));
                    assert(decreases_to!(yaml_tree(*value) => trees[i as int].0));
                    assert(decreases_to!(yaml_tree(*value) => trees[i as int].1));
                }
                let k = convert(key);
                let v = convert(entry);
                out.push((k, v));
                i += 1;
            }
            let r = YamlValue::Mapping(out);
            proof {
                assert(r.tree()->Mapping_0 =~= trees);
            }
            r
        },
        YamlNode::Tagged => YamlValue::Tagged,
    }
}

/// Parses a YAML text.
pub fn parse_yaml(text: &str) -> (r: Option<YamlValue>)
    ensures
        r is None <==> yaml_document(text@) is None,
        r matches Some(value) ==> yaml_document(text@) == Some(value.tree()),
{
    match parse_value(text) {
        Some(value) => Some(convert(&value)),
        None => None,
    }
}

} // verus!
