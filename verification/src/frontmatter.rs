//! YAML frontmatter: the block at the front of a document, and what is stored of it.

use vstd::prelude::*;
use vstd::utf8::*;

use crate::dates;
use crate::text;
use crate::text::lines;
use crate::text::words;
use crate::yaml;
use crate::yaml::{YamlTree, YamlValue};

verus! {

broadcast use vstd::utf8::encode_utf8_valid_utf8;

/// `s` without the carriage returns at its end.
pub open spec fn strip_carriage_returns(s: Seq<char>) -> Seq<char>
    decreases s.len(),
{
    if s.len() > 0 && s.last() == '\r' {
        strip_carriage_returns(s.drop_last())
    } else {
        s
    }
}

/// `line` closes a frontmatter block.
pub open spec fn is_closing(line: Seq<char>) -> bool {
    let l = strip_carriage_returns(line);
    l == seq!['-', '-', '-'] || l == seq!['.', '.', '.']
}

/// `line` opens a frontmatter block: nothing may follow the dashes on it.
pub open spec fn is_opening(line: Seq<char>) -> bool {
    line == seq!['-', '-', '-'] || line == seq!['-', '-', '-', '\r']
}

/// The first closing line of `content`: the index of its first character, and the index after its
/// line feed, or after the line if the text ends there.
pub open spec fn closing_line(content: Seq<char>) -> Option<(int, int)>
    decreases content.len(),
    via closing_line_decreases
{
    let i = lines::find(content, '\n');
    if is_closing(content.take(i)) {
        Some((
            0,
            if i < content.len() {
                i + 1
            } else {
                i
            },
        ))
    } else if i >= content.len() {
        None
    } else {
        match closing_line(content.skip(i + 1)) {
            Some((from, to)) => Some((from + i + 1, to + i + 1)),
            None => None,
        }
    }
}

#[via_fn]
proof fn closing_line_decreases(content: Seq<char>) {
    lines::lemma_find(content, '\n');
}

/// The frontmatter block of a document: the text between the opening line and the closing line,
/// and the byte offset after the closing line with its line feed.
pub open spec fn block(doc: Seq<char>) -> Option<(Seq<char>, int)> {
    let i = lines::find(doc, '\n');
    if i >= doc.len() || !is_opening(doc.take(i)) {
        None
    } else {
        let content = doc.skip(i + 1);
        match closing_line(content) {
            Some((from, to)) => Some((
                content.take(from),
                text::utf8_len(doc.take(i + 1 + to)) as int,
            )),
            None => None,
        }
    }
}

/// A closing line lies inside the text.
proof fn lemma_closing_line(content: Seq<char>)
    ensures
        closing_line(content) matches Some((from, to)) ==> 0 <= from <= to <= content.len(),
    decreases content.len(),
{
    lines::lemma_find(content, '\n');
    let i = lines::find(content, '\n');
    if i < content.len() {
        lemma_closing_line(content.skip(i + 1));
    }
}

/// Whether a line closes a frontmatter block.
fn closes(line: &str) -> (b: bool)
    ensures
        b == is_closing(line@),
{
    let v = text::chars_of(line);
    let mut n: usize = v.len();
    proof {
        assert(line@.take(n as int) =~= line@);
    }
    while n > 0 && v[n - 1] == '\r'
        invariant
            n <= v@.len(),
            v@ == line@,
            strip_carriage_returns(line@) == strip_carriage_returns(line@.take(n as int)),
        decreases n,
    {
        proof {
            assert(line@.take(n as int).drop_last() =~= line@.take(n - 1));
            assert(line@.take(n as int).last() == line@[n - 1]);
        }
        n -= 1;
    }
    let ghost l = line@.take(n as int);
    proof {
        if n > 0 {
            assert(l.last() == line@[n - 1]);
        }
        assert(strip_carriage_returns(line@) == l);
        assert(n == 3 ==> l =~= seq![v@[0], v@[1], v@[2]]);
        assert(l.len() == n);
    }
    let dashes = n == 3 && v[0] == '-' && v[1] == '-' && v[2] == '-';
    let dots = n == 3 && v[0] == '.' && v[1] == '.' && v[2] == '.';
    proof {
        if l == seq!['-', '-', '-'] {
            assert(l.len() == 3 && l[0] == '-' && l[1] == '-' && l[2] == '-');
        }
        if l == seq!['.', '.', '.'] {
            assert(l.len() == 3 && l[0] == '.' && l[1] == '.' && l[2] == '.');
        }
    }
    dashes || dots
}

/// Whether a line opens a frontmatter block.
fn opens(line: &str) -> (b: bool)
    ensures
        b == is_opening(line@),
{
    let plain = words::same(line, "---");
    let with_return = words::same(line, "---\r");
    proof {
        reveal_strlit("---");
        reveal_strlit("---\r");
        assert("---"@ =~= seq!['-', '-', '-']);
        assert("---\r"@ =~= seq!['-', '-', '-', '\r']);
    }
    plain || with_return
}

/// Finds the YAML frontmatter block of a document.
/// Returns the YAML text and the byte offset in `doc` immediately after the closing delimiter
/// line, its line feed included.
pub fn find_block(doc: &str) -> (r: Option<(&str, usize)>)
    ensures
        r is None <==> block(doc@) is None,
        r matches Some((yaml, end)) ==> block(doc@) == Some((yaml@, end as int)) && end
            <= text::utf8_len(doc@) && is_char_boundary(encode_utf8(doc@), end as int),
{
    let total: usize = text::byte_len(doc);
    let (first, content) = match lines::split_once(doc, '\n') {
        Some(cut) => cut,
        None => {
            return None;
        },
    };
    if !opens(first) {
        return None;
    }
    let ghost i0 = lines::find(doc@, '\n');
    proof {
        assert(doc@ =~= doc@.take(i0 + 1) + content@);
        text::lemma_encode_concat(doc@.take(i0 + 1), content@);
        assert(content@.take(0) =~= Seq::<char>::empty());
        assert(content@.skip(0) =~= content@);
    }
    let content_len: usize = text::byte_len(content);
    let content_start: usize = total - content_len;
    let ghost mut k: int = 0;
    let mut off: usize = 0;
    let mut rest: &str = content;
    loop
        invariant
            i0 == lines::find(doc@, '\n'),
            0 <= i0 < doc@.len(),
            is_opening(doc@.take(i0)),
            content@ == doc@.skip(i0 + 1),
            total == text::utf8_len(doc@),
            content_len == text::utf8_len(content@),
            content_start == total - content_len,
            content_start == text::utf8_len(doc@.take(i0 + 1)),
            0 <= k <= content@.len(),
            rest@ == content@.skip(k),
            off == text::utf8_len(content@.take(k)),
            off + text::utf8_len(rest@) == content_len,
            match closing_line(rest@) {
                Some((from, to)) => closing_line(content@) == Some((from + k, to + k)),
                None => closing_line(content@) is None,
            },
        decreases rest@.len(),
    {
        let cut = lines::split_once(rest, '\n');
        let (line, last) = match cut {
            Some((a, _)) => (a, false),
            None => (rest, true),
        };
        let ghost e = lines::find(rest@, '\n');
        proof {
            lines::lemma_find(rest@, '\n');
            assert(rest@.take(rest@.len() as int) =~= rest@);
            assert(line@ == rest@.take(e));
            lemma_closing_line(rest@);
            lemma_step(content@, k, e);
        }
        let line_len: usize = text::byte_len(line);
        if closes(line) {
            proof {
                text::lemma_prefix_boundary(content@, k);
            }
            let (yaml, tail) = text::split_str(content, off);
            proof {
                text::lemma_same_prefix(content@, yaml@, tail@, k);
                let to = if e < rest@.len() {
                    e + 1
                } else {
                    e
                };
                assert(closing_line(rest@) == Some((0int, to)));
                let upto = doc@.take(i0 + 1 + (to + k));
                assert(upto =~= doc@.take(i0 + 1) + content@.take(k + to));
                text::lemma_encode_concat(doc@.take(i0 + 1), content@.take(k + to));
                text::lemma_prefix_boundary(doc@, i0 + 1 + (to + k));
                if e < rest@.len() {
                    assert(content@.take(k + to) =~= content@.take(k + e + 1));
                }
            }
            let end: usize = if last {
                content_start + off + line_len
            } else {
                content_start + off + line_len + 1
            };
            return Some((yaml, end));
        }
        match cut {
            Some((_, tail)) => {
                proof {
                    assert(tail@ =~= content@.skip(k + e + 1));
                    k = k + e + 1;
                }
                off = off + line_len + 1;
                rest = tail;
            },
            None => {
                return None;
            },
        }
    }
}

/// Byte lengths around the line of `content` that starts at the character `k` and is `e`
/// characters long.
proof fn lemma_step(content: Seq<char>, k: int, e: int)
    requires
        0 <= k <= content.len(),
        0 <= e <= content.len() - k,
        e < content.len() - k ==> content[k + e] == '\n',
    ensures
        text::utf8_len(content.take(k + e)) == text::utf8_len(content.take(k)) + text::utf8_len(
            content.skip(k).take(e),
        ),
        e < content.len() - k ==> {
            &&& text::utf8_len(content.take(k + e + 1)) == text::utf8_len(content.take(k + e)) + 1
            &&& text::utf8_len(content) == text::utf8_len(content.take(k + e + 1))
                + text::utf8_len(content.skip(k + e + 1))
        },
{
    assert(content.take(k + e) =~= content.take(k) + content.skip(k).take(e));
    text::lemma_encode_concat(content.take(k), content.skip(k).take(e));
    if e < content.len() - k {
        assert(content.take(k + e + 1) =~= content.take(k + e) + seq!['\n']);
        text::lemma_encode_concat(content.take(k + e), seq!['\n']);
        lines::lemma_ascii_char('\n');
        assert(content =~= content.take(k + e + 1) + content.skip(k + e + 1));
        text::lemma_encode_concat(content.take(k + e + 1), content.skip(k + e + 1));
    }
}

/// `s` consists of whole lines, none of which closes a frontmatter block.
pub open spec fn is_block_text(s: Seq<char>) -> bool {
    &&& s.len() == 0 || s.last() == '\n'
    &&& forall|i: int|
        0 <= i < lines::split(s, '\n').len() ==> !is_closing(#[trigger] lines::split(s, '\n')[i])
}

/// What carriage returns at the end leave is the front of the text.
proof fn lemma_strip_carriage_returns(s: Seq<char>)
    ensures
        strip_carriage_returns(s).len() <= s.len(),
        forall|i: int|
            0 <= i < s.len() ==> (#[trigger] s[i]) == (if i < strip_carriage_returns(s).len() {
                strip_carriage_returns(s)[i]
            } else {
                '\r'
            }),
    decreases s.len(),
{
    if s.len() > 0 && s.last() == '\r' {
        lemma_strip_carriage_returns(s.drop_last());
        assert forall|i: int| 0 <= i < s.len() implies (#[trigger] s[i]) == (if i
            < strip_carriage_returns(s).len() {
            strip_carriage_returns(s)[i]
        } else {
            '\r'
        }) by {
            if i < s.len() - 1 {
                assert(s[i] == s.drop_last()[i]);
            }
        }
    }
}

/// A closing line holds no line feed.
proof fn lemma_closing_is_one_line(line: Seq<char>)
    requires
        is_closing(line),
    ensures
        line.len() >= 3,
        forall|i: int| 0 <= i < line.len() ==> (#[trigger] line[i]) != '\n',
{
    lemma_strip_carriage_returns(line);
    let l = strip_carriage_returns(line);
    assert(l.len() == 3);
    assert((l[0] == '-' && l[1] == '-' && l[2] == '-') || (l[0] == '.' && l[1] == '.' && l[2]
        == '.'));
}

proof fn lemma_first_closing_line(yaml_text: Seq<char>, closing: Seq<char>, body: Seq<char>)
    requires
        is_block_text(yaml_text),
        is_closing(closing),
    ensures
        closing_line(yaml_text + closing + seq!['\n'] + body) == Some(
            (yaml_text.len() as int, yaml_text.len() + closing.len() + 1int),
        ),
    decreases yaml_text.len(),
{
    let whole = yaml_text + closing + seq!['\n'] + body;
    lines::lemma_find(yaml_text, '\n');
    if yaml_text.len() == 0 {
        let n = closing.len() as int;
        lemma_closing_is_one_line(closing);
        assert forall|j: int| 0 <= j < n implies whole[j] != '\n' by {
            assert(whole[j] == closing[j]);
        }
        assert(whole[n] == '\n');
        lines::lemma_find_is(whole, '\n', n);
        assert(whole.take(n) =~= closing);
    } else {
        let i = lines::find(yaml_text, '\n');
        if i == yaml_text.len() {
            assert(yaml_text[yaml_text.len() - 1] != '\n');
        }
        assert forall|j: int| 0 <= j < i implies whole[j] != '\n' by {
            assert(whole[j] == yaml_text[j]);
        }
        assert(whole[i] == yaml_text[i]);
        lines::lemma_find_is(whole, '\n', i);
        let pieces = lines::split(yaml_text, '\n');
        assert(pieces[0] == yaml_text.take(i));
        assert(whole.take(i) =~= yaml_text.take(i));
        assert(!is_closing(pieces[0]));
        let rest = yaml_text.skip(i + 1);
        assert(whole.skip(i + 1) =~= rest + closing + seq!['\n'] + body);
        assert forall|j: int| 0 <= j < lines::split(rest, '\n').len() implies !is_closing(
            #[trigger] lines::split(rest, '\n')[j],
        ) by {
            assert(pieces[j + 1] == lines::split(rest, '\n')[j]);
        }
        if rest.len() > 0 {
            assert(rest.last() == yaml_text.last());
        }
        lemma_first_closing_line(rest, closing, body);
    }
}

/// A document made of an opening line, some YAML lines, a closing line and a body has these YAML
/// lines as its frontmatter block, and the block ends where the body starts.
pub proof fn law_block_of_document(
    opening: Seq<char>,
    yaml_text: Seq<char>,
    closing: Seq<char>,
    body: Seq<char>,
)
    requires
        is_opening(opening),
        is_block_text(yaml_text),
        is_closing(closing),
    ensures
        block(opening + seq!['\n'] + yaml_text + closing + seq!['\n'] + body) == Some(
            (
                yaml_text,
                text::utf8_len(
                    opening + seq!['\n'] + yaml_text + closing + seq!['\n'],
                ) as int,
            ),
        ),
{
    let head = opening + seq!['\n'] + yaml_text + closing + seq!['\n'];
    let doc = head + body;
    let n = opening.len() as int;
    assert forall|j: int| 0 <= j < n implies doc[j] != '\n' by {
        assert(doc[j] == opening[j]);
    }
    assert(doc[n] == '\n');
    lines::lemma_find_is(doc, '\n', n);
    assert(doc.take(n) =~= opening);
    let content = yaml_text + closing + seq!['\n'] + body;
    assert(doc.skip(n + 1) =~= content);
    lemma_first_closing_line(yaml_text, closing, body);
    assert(content.take(yaml_text.len() as int) =~= yaml_text);
    assert(doc.take(n + 1 + (yaml_text.len() + closing.len() + 1int)) =~= head);
}

proof fn lemma_closing_line_alone(content: Seq<char>, other: Seq<char>)
    requires
        closing_line(content) matches Some((_, to)) && to > 0 && content[to - 1] == '\n',
    ensures
        closing_line(content.take((closing_line(content)->0).1) + other) == closing_line(content),
    decreases content.len(),
{
    lines::lemma_find(content, '\n');
    lemma_closing_line(content);
    let i = lines::find(content, '\n');
    let to = (closing_line(content)->0).1;
    let changed = content.take(to) + other;
    if is_closing(content.take(i)) {
        lemma_closing_is_one_line(content.take(i));
        if i >= content.len() {
            assert(content.take(i)[to - 1] == content[to - 1]);
        }
        assert forall|j: int| 0 <= j < i implies changed[j] != '\n' by {
            assert(content.take(i)[j] == content[j]);
        }
        assert(changed[i] == '\n');
        lines::lemma_find_is(changed, '\n', i);
        assert(changed.take(i) =~= content.take(i));
    } else {
        let rest = content.skip(i + 1);
        lemma_closing_line(rest);
        let below = (closing_line(rest)->0).1;
        assert(to == below + i + 1);
        lemma_closing_line_not_empty(rest);
        assert(rest[below - 1] == content[to - 1]);
        lemma_closing_line_alone(rest, other);
        assert forall|j: int| 0 <= j < i implies changed[j] != '\n' by {
            assert(changed[j] == content[j]);
        }
        assert(changed[i] == content[i]);
        lines::lemma_find_is(changed, '\n', i);
        assert(changed.take(i) =~= content.take(i));
        assert(changed.skip(i + 1) =~= rest.take(below) + other);
    }
}

proof fn lemma_closing_line_not_empty(content: Seq<char>)
    ensures
        closing_line(content) matches Some((_, to)) ==> to > 0,
    decreases content.len(),
{
    lines::lemma_find(content, '\n');
    let i = lines::find(content, '\n');
    if is_closing(content.take(i)) {
        lemma_closing_is_one_line(content.take(i));
    } else if i < content.len() {
        lemma_closing_line_not_empty(content.skip(i + 1));
    }
}

/// What follows a closing line with its line feed has no influence on the frontmatter block, where
/// `k` is the number of characters up to there.
pub proof fn law_body_has_no_influence(doc: Seq<char>, k: int, other: Seq<char>)
    requires
        0 < k <= doc.len(),
        doc[k - 1] == '\n',
        block(doc) matches Some((_, end)) && end == text::utf8_len(doc.take(k)),
    ensures
        block(doc.take(k) + other) == block(doc),
{
    lines::lemma_find(doc, '\n');
    let i = lines::find(doc, '\n');
    let content = doc.skip(i + 1);
    lemma_closing_line(content);
    lemma_closing_line_not_empty(content);
    let (from, to) = closing_line(content)->0;
    let upto = i + 1 + to;
    lemma_same_length(doc, k, upto);
    assert(content[to - 1] == doc[k - 1]);
    lemma_closing_line_alone(content, other);
    let changed = doc.take(k) + other;
    assert forall|j: int| 0 <= j < i implies changed[j] != '\n' by {
        assert(changed[j] == doc[j]);
    }
    assert(changed[i] == doc[i]);
    lines::lemma_find_is(changed, '\n', i);
    assert(changed.take(i) =~= doc.take(i));
    assert(changed.skip(i + 1) =~= content.take(to) + other);
    assert(changed.skip(i + 1).take(from) =~= content.take(from));
    assert(changed.take(upto) =~= doc.take(upto));
}

/// Front parts of a text that have the same number of bytes are the same.
proof fn lemma_same_length(s: Seq<char>, i: int, j: int)
    requires
        0 <= i <= s.len(),
        0 <= j <= s.len(),
        text::utf8_len(s.take(i)) == text::utf8_len(s.take(j)),
    ensures
        i == j,
{
    if i < j {
        assert(s.take(j) =~= s.take(i) + s.subrange(i, j));
        text::lemma_encode_concat(s.take(i), s.subrange(i, j));
        encode_utf8_first_scalar(s.subrange(i, j));
    } else if j < i {
        assert(s.take(i) =~= s.take(j) + s.subrange(j, i));
        text::lemma_encode_concat(s.take(j), s.subrange(j, i));
        encode_utf8_first_scalar(s.subrange(j, i));
    }
}

/// The mapping that a parsed frontmatter block consists of; `None` if it is anything else.
pub open spec fn mapping_tree(parsed: Option<YamlTree>) -> Option<Seq<(YamlTree, YamlTree)>> {
    match parsed {
        Some(YamlTree::Mapping(entries)) => Some(entries),
        _ => None,
    }
}

/// The frontmatter of a document: the mapping in its frontmatter block.
pub open spec fn frontmatter(doc: Seq<char>) -> Option<Seq<(YamlTree, YamlTree)>> {
    match block(doc) {
        Some((yaml_text, _)) => mapping_tree(yaml::yaml_document(yaml_text)),
        None => None,
    }
}

/// The entries of the mapping that a YAML value is, if it is one.
pub fn mapping_of(parsed: Option<YamlValue>) -> (r: Option<Vec<(YamlValue, YamlValue)>>)
    ensures
        r is Some <==> parsed is Some && parsed->0 is Mapping,
        r matches Some(entries) ==> parsed == Some(YamlValue::Mapping(entries)),
{
    match parsed {
        Some(YamlValue::Mapping(entries)) => Some(entries),
        _ => None,
    }
}

/// Parses the YAML frontmatter of a document.
/// Returns the mapping if frontmatter is present and valid; `None` otherwise, malformed YAML
/// included.
pub fn extract(doc: &str) -> (r: Option<Vec<(YamlValue, YamlValue)>>)
    ensures
        r is None <==> frontmatter(doc@) is None,
        r matches Some(entries) ==> frontmatter(doc@) == Some(entry_trees(entries@)),
{
    match find_block(doc) {
        Some((yaml_text, _)) => {
            let parsed = yaml::parse_yaml(yaml_text);
            let r = mapping_of(parsed);
            proof {
                if r is Some {
                    assert(YamlValue::Mapping(r->0).tree()->Mapping_0 =~= entry_trees(r->0@));
                }
            }
            r
        },
        None => None,
    }
}

/// What the keys and values of a mapping consist of.
pub open spec fn entry_trees(entries: Seq<(YamlValue, YamlValue)>) -> Seq<(YamlTree, YamlTree)> {
    entries.map_values(|e: (YamlValue, YamlValue)| (e.0.tree(), e.1.tree()))
}

/// The text that is stored of a scalar: `true` or `false`, a number in decimal notation, a string
/// as it is or, if it reads as a date, in UTC RFC 3339. Nothing is stored of other values.
pub open spec fn scalar_text(value: YamlTree) -> Option<Seq<char>> {
    match value {
        YamlTree::Bool(true) => Some(seq!['t', 'r', 'u', 'e']),
        YamlTree::Bool(false) => Some(seq!['f', 'a', 'l', 's', 'e']),
        YamlTree::Number(n) => Some(n),
        YamlTree::Text(s) => Some(dates::normalized(s)),
        _ => None,
    }
}

/// The pairs for the items of a sequence: one for each scalar.
pub open spec fn item_pairs(key: Seq<char>, items: Seq<YamlTree>) -> Seq<(Seq<char>, Seq<char>)>
    decreases items.len(),
{
    if items.len() == 0 {
        Seq::empty()
    } else {
        let rest = item_pairs(key, items.drop_last());
        match scalar_text(items.last()) {
            Some(t) => rest.push((key, t)),
            None => rest,
        }
    }
}

/// The pairs for one entry: one for a scalar, one for each scalar of a sequence, none for a nested
/// mapping.
pub open spec fn value_pairs(key: Seq<char>, value: YamlTree) -> Seq<(Seq<char>, Seq<char>)> {
    match value {
        YamlTree::Sequence(items) => item_pairs(key, items),
        _ => match scalar_text(value) {
            Some(t) => seq![(key, t)],
            None => Seq::empty(),
        },
    }
}

/// The pairs for the entries of a mapping. Only string keys count.
pub open spec fn mapping_pairs(entries: Seq<(YamlTree, YamlTree)>) -> Seq<(Seq<char>, Seq<char>)>
    decreases entries.len(),
{
    if entries.len() == 0 {
        Seq::empty()
    } else {
        let rest = mapping_pairs(entries.drop_last());
        match entries.last() {
            (YamlTree::Text(key), value) => rest + value_pairs(key, value),
            _ => rest,
        }
    }
}

/// The characters of keys and values.
pub open spec fn pair_views(pairs: Seq<(String, String)>) -> Seq<(Seq<char>, Seq<char>)> {
    pairs.map_values(|p: (String, String)| (p.0@, p.1@))
}

/// What is stored of the strings in a value is in normal form: normalizing it again changes
/// nothing.
pub open spec fn stores_normal_forms(value: YamlTree) -> bool {
    match value {
        YamlTree::Text(s) => dates::normalized(dates::normalized(s)) == dates::normalized(s),
        YamlTree::Sequence(items) => forall|i: int|
            0 <= i < items.len() ==> ((#[trigger] items[i]) matches YamlTree::Text(s)
                ==> dates::normalized(dates::normalized(s)) == dates::normalized(s)),
        _ => true,
    }
}

/// The text that is stored of a scalar.
fn scalar(value: &YamlValue) -> (r: Option<String>)
    ensures
        r is None <==> scalar_text(value.tree()) is None,
        r matches Some(t) ==> scalar_text(value.tree()) == Some(t@),
        value.tree() is Text ==> r is Some && dates::normalized(r->0@) == r->0@,
{
    match value {
        YamlValue::Bool(b) => {
            let t: &str = if *b {
                "true"
            } else {
                "false"
            };
            proof {
                reveal_strlit("true");
                reveal_strlit("false");
                assert("true"@ =~= seq!['t', 'r', 'u', 'e']);
                assert("false"@ =~= seq!['f', 'a', 'l', 's', 'e']);
            }
            Some(t.to_owned())
        },
        YamlValue::Number(n) => Some(n.clone()),
        YamlValue::String(s) => Some(dates::normalize_date(s.as_str())),
        _ => None,
    }
}

/// Adds the pairs for one entry of a mapping to `out`.
pub fn flatten_value(key: &str, value: &YamlValue, out: &mut Vec<(String, String)>)
    ensures
        pair_views(final(out)@) == pair_views(old(out)@) + value_pairs(key@, value.tree()),
        stores_normal_forms(value.tree()),
{
    match value {
        YamlValue::Sequence(items) => {
            let ghost trees = value.tree()->Sequence_0;
            let mut i: usize = 0;
            proof {
                assert(trees.take(0) =~= Seq::<YamlTree>::empty());
                assert(pair_views(out@) =~= pair_views(out@) + item_pairs(key@, trees.take(0)));
            }
            while i < items.len()
                invariant
                    i <= items@.len(),
                    trees.len() == items@.len(),
                    forall|j: int| 0 <= j < items@.len() ==> (#[trigger] items@[j]).tree() == trees[j],
                    pair_views(out@) == pair_views(old(out)@) + item_pairs(
                        key@,
                        trees.take(i as int),
                    ),
                    forall|j: int|
                        0 <= j < i ==> ((#[trigger] trees[j]) matches YamlTree::Text(s)
                            ==> dates::normalized(dates::normalized(s)) == dates::normalized(s)),
                decreases items.len() - i,
            {
                let ghost before = out@;
                proof {
                    assert(items@[i as int].tree() == trees[i as int]);
                    assert(trees.take(i + 1).drop_last() =~= trees.take(i as int));
                    assert(trees.take(i + 1).last() == trees[i as int]);
                }
                match scalar(&items[i]) {
                    Some(t) => {
                        let ghost pair = (key@, t@);
                        out.push((key.to_owned(), t));
                        proof {
                            assert(pair_views(out@) =~= pair_views(before).push(pair));
                            assert(pair_views(out@) =~= pair_views(old(out)@) + item_pairs(
                                key@,
                                trees.take(i + 1),
                            ));
                        }
                    },
                    None => {},
                }
                i += 1;
            }
            proof {
                assert(trees.take(items@.len() as int) =~= trees);
            }
        },
        _ => match scalar(value) {
            Some(t) => {
                let ghost before = out@;
                let ghost pair = (key@, t@);
                out.push((key.to_owned(), t));
                proof {
                    assert(pair_views(out@) =~= pair_views(before) + seq![pair]);
                }
            },
            None => {
                proof {
                    assert(pair_views(out@) =~= pair_views(out@) + Seq::empty());
                }
            },
        },
    }
}

/// Flattens a YAML mapping into pairs of key and value for storage.
///
/// - Scalars: one pair (null: none, booleans `true` or `false`, numbers in decimal notation,
///   strings as they are)
/// - Strings that read as dates (YYYY-MM-DD, or RFC 3339 with an offset): UTC RFC 3339
/// - Sequences: one pair for each scalar element, all with the same key
/// - Nested mappings: skipped
pub fn flatten(mapping: &Vec<(YamlValue, YamlValue)>) -> (r: Vec<(String, String)>)
    ensures
        pair_views(r@) == mapping_pairs(entry_trees(mapping@)),
        forall|i: int|
            0 <= i < mapping@.len() && (#[trigger] mapping@[i]).0.tree() is Text
                ==> stores_normal_forms(mapping@[i].1.tree()),
{
    let mut r: Vec<(String, String)> = Vec::new();
    let ghost trees = entry_trees(mapping@);
    let mut i: usize = 0;
    proof {
        assert(trees.take(0) =~= Seq::<(YamlTree, YamlTree)>::empty());
        assert(pair_views(r@) =~= mapping_pairs(trees.take(0)));
    }
    while i < mapping.len()
        invariant
            i <= mapping@.len(),
            trees == entry_trees(mapping@),
            pair_views(r@) == mapping_pairs(trees.take(i as int)),
            forall|j: int|
                0 <= j < i && (#[trigger] mapping@[j]).0.tree() is Text ==> stores_normal_forms(
                    mapping@[j].1.tree(),
                ),
        decreases mapping.len() - i,
    {
        let (key, value) = &mapping[i];
        proof {
            assert(trees[i as int] == (key.tree(), value.tree()));
            assert(trees.take(i + 1).drop_last() =~= trees.take(i as int));
            assert(trees.take(i + 1).last() == trees[i as int]);
        }
        match key {
            YamlValue::String(k) => {
                flatten_value(k.as_str(), value, &mut r);
            },
            _ => {},
        }
        i += 1;
    }
    proof {
        assert(trees.take(mapping@.len() as int) =~= trees);
    }
    r
}

/// The keys of a mapping under which another mapping stands.
pub open spec fn nested(entries: Seq<(YamlTree, YamlTree)>) -> Seq<Seq<char>>
    decreases entries.len(),
{
    if entries.len() == 0 {
        Seq::empty()
    } else {
        match entries.last() {
            (YamlTree::Text(key), YamlTree::Mapping(_)) => nested(entries.drop_last()).push(key),
            _ => nested(entries.drop_last()),
        }
    }
}

/// The keys of a mapping under which another mapping stands, which `flatten` skips.
pub fn nested_keys(mapping: &Vec<(YamlValue, YamlValue)>) -> (keys: Vec<String>)
    ensures
        lines::texts(keys@) == nested(entry_trees(mapping@)),
{
    let mut keys: Vec<String> = Vec::new();
    let ghost trees = entry_trees(mapping@);
    let mut i: usize = 0;
    proof {
        assert(trees.take(0) =~= Seq::<(YamlTree, YamlTree)>::empty());
        assert(lines::texts(keys@) =~= nested(trees.take(0)));
    }
    while i < mapping.len()
        invariant
            i <= mapping@.len(),
            trees == entry_trees(mapping@),
            lines::texts(keys@) == nested(trees.take(i as int)),
        decreases mapping.len() - i,
    {
        let (key, value) = &mapping[i];
        let ghost before = lines::texts(keys@);
        proof {
            assert(trees[i as int] == (key.tree(), value.tree()));
            assert(trees.take(i + 1).drop_last() =~= trees.take(i as int));
            assert(trees.take(i + 1).last() == trees[i as int]);
        }
        match (key, value) {
            (YamlValue::String(k), YamlValue::Mapping(_)) => {
                keys.push(k.clone());
                proof {
                    assert(lines::texts(keys@) =~= before.push(k@));
                }
            },
            _ => {},
        }
        i += 1;
    }
    proof {
        assert(trees.take(i as int) =~= trees);
    }
    keys
}

} // verus!
