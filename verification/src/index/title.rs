//! The title of a document.

use vstd::prelude::*;
use vstd::utf8::*;

use crate::frontmatter;
use crate::index::breaks;
use crate::text;
use crate::text::lines;
use crate::text::words;
use crate::yaml::{YamlTree, YamlValue};

verus! {

broadcast use vstd::utf8::encode_utf8_valid_utf8;

/// The value that a mapping has under a string key.
pub open spec fn lookup(entries: Seq<(YamlTree, YamlTree)>, key: Seq<char>) -> Option<YamlTree>
    decreases entries.len(),
{
    if entries.len() == 0 {
        None
    } else if entries[0].0 == YamlTree::Text(key) {
        Some(entries[0].1)
    } else {
        lookup(entries.skip(1), key)
    }
}

/// The text that a mapping has under a string key, if it is not empty.
pub open spec fn lookup_text(entries: Seq<(YamlTree, YamlTree)>, key: Seq<char>) -> Option<
    Seq<char>,
> {
    match lookup(entries, key) {
        Some(YamlTree::Text(s)) if s.len() > 0 => Some(s),
        _ => None,
    }
}

/// The title that frontmatter gives: its `title`, or else its `name`.
pub open spec fn frontmatter_title(entries: Seq<(YamlTree, YamlTree)>) -> Option<Seq<char>> {
    match lookup_text(entries, seq!['t', 'i', 't', 'l', 'e']) {
        Some(s) => Some(s),
        None => lookup_text(entries, seq!['n', 'a', 'm', 'e']),
    }
}

/// `line` is a heading of the first level.
pub open spec fn is_top_heading(line: Seq<char>) -> bool {
    words::occurs_at(words::trim(line), seq!['#', ' '], 0)
}

/// The text of the first heading of the first level; what stands in a code block is no heading.
pub open spec fn first_heading(ls: Seq<Seq<char>>, fenced: bool) -> Option<Seq<char>>
    decreases ls.len(),
{
    if ls.len() == 0 {
        None
    } else if !fenced && is_top_heading(ls[0]) {
        Some(words::trim(words::trim(ls[0]).skip(2)))
    } else {
        first_heading(ls.skip(1), fenced != breaks::is_fence(ls[0]))
    }
}

/// The first line that does not consist of blanks, without the blanks at its ends.
pub open spec fn first_text(ls: Seq<Seq<char>>) -> Option<Seq<char>>
    decreases ls.len(),
{
    if ls.len() == 0 {
        None
    } else if words::trim(ls[0]).len() > 0 {
        Some(words::trim(ls[0]))
    } else {
        first_text(ls.skip(1))
    }
}

/// Index of the last `c` in `s`; -1 when there is none.
pub open spec fn last_index(s: Seq<char>, c: char) -> int
    decreases s.len(),
{
    if s.len() == 0 {
        -1
    } else if s.last() == c {
        s.len() - 1
    } else {
        last_index(s.drop_last(), c)
    }
}

/// The last component of a path, or `None`: empty components and `.` do not count.
pub open spec fn last_component(parts: Seq<Seq<char>>) -> Option<Seq<char>>
    decreases parts.len(),
{
    if parts.len() == 0 {
        None
    } else if parts.last().len() == 0 || parts.last() == seq!['.'] {
        last_component(parts.drop_last())
    } else {
        Some(parts.last())
    }
}

/// The file name at the end of a path without its extension: what comes before its last dot, if
/// that is not its first character. A path that ends in `..` has no file name.
pub open spec fn file_stem(path: Seq<char>) -> Option<Seq<char>> {
    match last_component(lines::split(path, '/')) {
        Some(name) => if name == seq!['.', '.'] {
            None
        } else if last_index(name, '.') > 0 {
            Some(name.take(last_index(name, '.')))
        } else {
            Some(name)
        },
        None => None,
    }
}

/// The title of a document with the given frontmatter and body. In order of priority: the `title`
/// or `name` of the frontmatter, the first heading of the first level, the first line that is
/// not blank, the file name.
pub open spec fn title(
    entries: Option<Seq<(YamlTree, YamlTree)>>,
    body: Seq<char>,
    path_hint: Seq<char>,
) -> Seq<char> {
    let from_frontmatter = match entries {
        Some(es) => frontmatter_title(es),
        None => None,
    };
    match from_frontmatter {
        Some(t) => t,
        None => match first_heading(lines::lines(body), false) {
            Some(t) => t,
            None => match first_text(lines::lines(body)) {
                Some(t) => t,
                None => match file_stem(path_hint) {
                    Some(t) => t,
                    None => path_hint,
                },
            },
        },
    }
}

/// What follows the frontmatter block of a document.
pub open spec fn body(doc: Seq<char>) -> Seq<char> {
    match frontmatter::block(doc) {
        Some((_, end)) => decode_utf8(
            encode_utf8(doc).subrange(end, text::utf8_len(doc) as int),
        ),
        None => doc,
    }
}

/// The text that a mapping has under a string key, if it is not empty.
fn text_under(entries: &Vec<(YamlValue, YamlValue)>, key: &str) -> (r: Option<String>)
    ensures
        r is None <==> lookup_text(frontmatter::entry_trees(entries@), key@) is None,
        r matches Some(s) ==> lookup_text(frontmatter::entry_trees(entries@), key@) == Some(s@),
{
    let ghost trees = frontmatter::entry_trees(entries@);
    let mut i: usize = 0;
    proof {
        assert(trees.skip(0) =~= trees);
    }
    while i < entries.len()
        invariant
            i <= entries@.len(),
            trees == frontmatter::entry_trees(entries@),
            lookup(trees, key@) == lookup(trees.skip(i as int), key@),
        decreases entries.len() - i,
    {
        let (k, value) = &entries[i];
        proof {
            assert(trees[i as int] == (k.tree(), value.tree()));
            assert(trees.skip(i as int)[0] == trees[i as int]);
            assert(trees.skip(i as int).skip(1) =~= trees.skip(i + 1));
        }
        let found = match k {
            YamlValue::String(s) => words::same(s.as_str(), key),
            _ => false,
        };
        if found {
            return match value {
                YamlValue::String(s) => if s.as_str().is_empty() {
                    None
                } else {
                    Some(s.clone())
                },
                _ => None,
            };
        }
        i += 1;
    }
    None
}

/// The text of the first heading of the first level.
fn find_heading(parts: &Vec<&str>) -> (r: Option<String>)
    ensures
        r is None <==> first_heading(lines::views(parts@), false) is None,
        r matches Some(s) ==> first_heading(lines::views(parts@), false) == Some(s@),
{
    let ghost ls = lines::views(parts@);
    let mut fenced = false;
    let mut i: usize = 0;
    proof {
        assert(ls.skip(0) =~= ls);
    }
    while i < parts.len()
        invariant
            i <= parts@.len(),
            ls == lines::views(parts@),
            first_heading(ls, false) == first_heading(ls.skip(i as int), fenced),
        decreases parts.len() - i,
    {
        let line = parts[i];
        let trimmed = words::trimmed(line);
        proof {
            assert(ls[i as int] == line@);
            assert(ls.skip(i as int)[0] == line@);
            assert(ls.skip(i as int).skip(1) =~= ls.skip(i + 1));
            reveal_strlit("# ");
            assert("# "@ =~= seq!['#', ' ']);
        }
        if !fenced && words::starts_with(trimmed, "# ") {
            proof {
                let t = trimmed@;
                assert(t.subrange(0, 2)[0] == '#' && t.subrange(0, 2)[1] == ' ');
                assert(t.take(0) =~= Seq::<char>::empty());
                lines::lemma_ascii_byte(t, 0);
                lines::lemma_ascii_byte(t, 1);
                text::lemma_prefix_boundary(t, 2);
            }
            let (mark, heading) = text::split_str(trimmed, 2);
            proof {
                text::lemma_same_prefix(trimmed@, mark@, heading@, 2);
            }
            return Some(words::trimmed(heading).to_owned());
        }
        if breaks::is_fence_line(line) {
            fenced = !fenced;
        }
        i += 1;
    }
    None
}

/// The first line that does not consist of blanks.
fn find_text(parts: &Vec<&str>) -> (r: Option<String>)
    ensures
        r is None <==> first_text(lines::views(parts@)) is None,
        r matches Some(s) ==> first_text(lines::views(parts@)) == Some(s@),
{
    let ghost ls = lines::views(parts@);
    let mut i: usize = 0;
    proof {
        assert(ls.skip(0) =~= ls);
    }
    while i < parts.len()
        invariant
            i <= parts@.len(),
            ls == lines::views(parts@),
            first_text(ls) == first_text(ls.skip(i as int)),
        decreases parts.len() - i,
    {
        let line = parts[i];
        let trimmed = words::trimmed(line);
        proof {
            assert(ls[i as int] == line@);
            assert(ls.skip(i as int)[0] == line@);
            assert(ls.skip(i as int).skip(1) =~= ls.skip(i + 1));
        }
        if !trimmed.is_empty() {
            return Some(trimmed.to_owned());
        }
        i += 1;
    }
    None
}

proof fn lemma_last_index(s: Seq<char>, c: char, i: int)
    requires
        0 <= i < s.len(),
        s[i] == c,
        forall|j: int| i < j < s.len() ==> s[j] != c,
    ensures
        last_index(s, c) == i,
    decreases s.len(),
{
    if i < s.len() - 1 {
        lemma_last_index(s.drop_last(), c, i);
    }
}

proof fn lemma_no_last_index(s: Seq<char>, c: char)
    requires
        forall|j: int| 0 <= j < s.len() ==> s[j] != c,
    ensures
        last_index(s, c) == -1,
    decreases s.len(),
{
    if s.len() > 0 {
        lemma_no_last_index(s.drop_last(), c);
    }
}

/// What comes before the last dot of a name, if that is not its first character; the name itself
/// otherwise.
fn without_extension(name: &str) -> (r: &str)
    ensures
        r@ == (if last_index(name@, '.') > 0 {
            name@.take(last_index(name@, '.'))
        } else {
            name@
        }),
{
    let bytes = name.as_bytes();
    let mut p: usize = bytes.len();
    while p > 0 && bytes[p - 1] != 46
        invariant
            p <= bytes@.len(),
            bytes@ == encode_utf8(name@),
            forall|q: int| p <= q < bytes@.len() ==> bytes@[q] != 46,
        decreases p,
    {
        p -= 1;
    }
    if p == 0 {
        proof {
            assert forall|j: int| 0 <= j < name@.len() implies name@[j] != '.' by {
                if name@[j] == '.' {
                    lines::lemma_ascii_byte(name@, j);
                }
            }
            lemma_no_last_index(name@, '.');
        }
        return name;
    }
    let at: usize = p - 1;
    let ghost mut i: int = 0;
    proof {
        i = lines::lemma_ascii_at(name@, at as int);
        assert forall|j: int| i < j < name@.len() implies name@[j] != '.' by {
            if name@[j] == '.' {
                lines::lemma_ascii_byte(name@, j);
                lines::lemma_ascii_byte(name@, i);
                assert(name@.take(j) =~= name@.take(i + 1) + name@.subrange(i + 1, j));
                text::lemma_encode_concat(name@.take(i + 1), name@.subrange(i + 1, j));
            }
        }
        lemma_last_index(name@, '.', i);
        if i == 0 {
            assert(name@.take(0) =~= Seq::<char>::empty());
        } else {
            assert(name@.take(i) =~= name@.take(1) + name@.subrange(1, i));
            text::lemma_encode_concat(name@.take(1), name@.subrange(1, i));
            encode_utf8_first_scalar(name@.take(1));
        }
    }
    if at == 0 {
        return name;
    }
    let (front, back) = text::split_str(name, at);
    proof {
        text::lemma_same_prefix(name@, front@, back@, i);
    }
    front
}

/// The file name at the end of a path, without its extension.
pub fn file_stem_of(path: &str) -> (r: Option<String>)
    ensures
        r is None <==> file_stem(path@) is None,
        r matches Some(s) ==> file_stem(path@) == Some(s@),
{
    let parts = lines::split_on(path, '/');
    let ghost ps = lines::views(parts@);
    let mut n: usize = parts.len();
    proof {
        assert(ps.take(n as int) =~= ps);
        reveal_strlit(".");
        reveal_strlit("..");
        assert("."@ =~= seq!['.']);
        assert(".."@ =~= seq!['.', '.']);
    }
    while n > 0
        invariant
            n <= parts@.len(),
            ps == lines::views(parts@),
            ps == lines::split(path@, '/'),
            last_component(ps) == last_component(ps.take(n as int)),
            "."@ == seq!['.'],
            ".."@ == seq!['.', '.'],
        decreases n,
    {
        let part = parts[n - 1];
        proof {
            assert(ps[n - 1] == part@);
            assert(ps.take(n as int).last() == part@);
            assert(ps.take(n as int).drop_last() =~= ps.take(n - 1));
        }
        if !part.is_empty() && !words::same(part, ".") {
            if words::same(part, "..") {
                return None;
            }
            return Some(without_extension(part).to_owned());
        }
        n -= 1;
    }
    None
}

/// The title of a document with the given frontmatter and body.
pub fn choose_title(
    entries: &Option<Vec<(YamlValue, YamlValue)>>,
    body: &str,
    path_hint: &str,
) -> (r: String)
    ensures
        r@ == title(
            match *entries {
                Some(es) => Some(frontmatter::entry_trees(es@)),
                None => None,
            },
            body@,
            path_hint@,
        ),
{
    proof {
        reveal_strlit("title");
        reveal_strlit("name");
        assert("title"@ =~= seq!['t', 'i', 't', 'l', 'e']);
        assert("name"@ =~= seq!['n', 'a', 'm', 'e']);
    }
    match entries {
        Some(es) => {
            if let Some(t) = text_under(es, "title") {
                return t;
            }
            if let Some(t) = text_under(es, "name") {
                return t;
            }
        },
        None => {},
    }
    let parts = lines::split_lines(body);
    if let Some(t) = find_heading(&parts) {
        return t;
    }
    if let Some(t) = find_text(&parts) {
        return t;
    }
    match file_stem_of(path_hint) {
        Some(t) => t,
        None => path_hint.to_owned(),
    }
}

/// Extracts a title from a document.
/// Priority: YAML frontmatter `title` or `name` field, first `# Heading`, first non-empty line,
/// file name.
pub fn extract_title(doc: &str, path_hint: &str) -> (r: String)
    ensures
        r@ == title(frontmatter::frontmatter(doc@), body(doc@), path_hint@),
{
    let entries = frontmatter::extract(doc);
    let rest: &str = match frontmatter::find_block(doc) {
        Some((_, end)) => {
            let (_, after) = text::split_str(doc, end);
            proof {
                encode_utf8_decode_utf8(after@);
            }
            after
        },
        None => doc,
    };
    choose_title(&entries, rest, path_hint)
}

} // verus!
