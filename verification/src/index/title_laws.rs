//! Where the title of a document comes from, said of its entries, lines and path.

use vstd::prelude::*;
use vstd::utf8::*;

use crate::frontmatter;
use crate::frontmatter_laws;
use crate::index::break_laws;
use crate::index::breaks;
use crate::index::title;
use crate::text;
use crate::text::laws;
use crate::text::lines;
use crate::text::words;
use crate::yaml::YamlTree;

verus! {

broadcast use vstd::utf8::encode_utf8_valid_utf8;

/// The entry `i` is the first with this string key.
pub open spec fn is_first_under(
    entries: Seq<(YamlTree, YamlTree)>,
    key: Seq<char>,
    i: int,
) -> bool {
    &&& 0 <= i < entries.len()
    &&& entries[i].0 == YamlTree::Text(key)
    &&& forall|j: int| 0 <= j < i ==> (#[trigger] entries[j]).0 != YamlTree::Text(key)
}

/// The first entry with this key holds this text, which is not empty.
pub open spec fn holds_text(
    entries: Seq<(YamlTree, YamlTree)>,
    key: Seq<char>,
    s: Seq<char>,
) -> bool {
    s.len() > 0 && exists|i: int| #[trigger]
        is_first_under(entries, key, i) && entries[i].1 == YamlTree::Text(s)
}

/// The mapping holds no text under this key, or an empty one.
pub open spec fn holds_none(entries: Seq<(YamlTree, YamlTree)>, key: Seq<char>) -> bool {
    forall|s: Seq<char>| !#[trigger] holds_text(entries, key, s)
}

proof fn lemma_lookup(entries: Seq<(YamlTree, YamlTree)>, key: Seq<char>) -> (i: int)
    ensures
        match title::lookup(entries, key) {
            Some(v) => is_first_under(entries, key, i) && entries[i].1 == v,
            None => forall|j: int| !is_first_under(entries, key, j),
        },
    decreases entries.len(),
{
    if entries.len() == 0 {
        0
    } else if entries[0].0 == YamlTree::Text(key) {
        assert(is_first_under(entries, key, 0));
        0
    } else {
        let rest = entries.skip(1);
        let i = lemma_lookup(rest, key);
        match title::lookup(entries, key) {
            Some(v) => {
                assert forall|j: int| 0 <= j < i + 1 implies (#[trigger] entries[j]).0
                    != YamlTree::Text(key) by {
                    if j > 0 {
                        assert(entries[j] == rest[j - 1]);
                    }
                }
                assert(entries[i + 1] == rest[i]);
            },
            None => {
                assert forall|j: int| !is_first_under(entries, key, j) by {
                    if is_first_under(entries, key, j) {
                        assert forall|k: int| 0 <= k < j - 1 implies (#[trigger] rest[k]).0
                            != YamlTree::Text(key) by {
                            assert(rest[k] == entries[k + 1]);
                        }
                        assert(rest[j - 1] == entries[j]);
                        assert(is_first_under(rest, key, j - 1));
                    }
                }
            },
        }
        i + 1
    }
}

proof fn lemma_lookup_text(entries: Seq<(YamlTree, YamlTree)>, key: Seq<char>)
    ensures
        forall|s: Seq<char>| #[trigger]
            holds_text(entries, key, s) <==> title::lookup_text(entries, key) == Some(s),
{
    let i = lemma_lookup(entries, key);
    assert forall|s: Seq<char>| #[trigger]
        holds_text(entries, key, s) <==> title::lookup_text(entries, key) == Some(s) by {
        if holds_text(entries, key, s) {
            let j = choose|j: int| #[trigger]
                is_first_under(entries, key, j) && entries[j].1 == YamlTree::Text(s);
            assert(title::lookup(entries, key) is Some);
            if i < j {
                assert(entries[i].0 != YamlTree::Text(key));
            } else if j < i {
                assert(entries[j].0 != YamlTree::Text(key));
            }
        }
        if title::lookup_text(entries, key) == Some(s) {
            assert(is_first_under(entries, key, i));
        }
    }
}

/// A text that the frontmatter holds under `title` is the title, whatever else the document holds.
/// One under `name` is, where there is none under `title`.
pub proof fn law_title_of_frontmatter(
    entries: Seq<(YamlTree, YamlTree)>,
    body: Seq<char>,
    path_hint: Seq<char>,
    s: Seq<char>,
)
    ensures
        holds_text(entries, seq!['t', 'i', 't', 'l', 'e'], s) ==> title::title(
            Some(entries),
            body,
            path_hint,
        ) == s,
        holds_text(entries, seq!['n', 'a', 'm', 'e'], s) && holds_none(
            entries,
            seq!['t', 'i', 't', 'l', 'e'],
        ) ==> title::title(
            Some(entries),
            body,
            path_hint,
        ) == s,
{
    let key = seq!['t', 'i', 't', 'l', 'e'];
    lemma_lookup_text(entries, key);
    lemma_lookup_text(entries, seq!['n', 'a', 'm', 'e']);
    if title::lookup_text(entries, key) is Some {
        assert(holds_text(entries, key, title::lookup_text(entries, key)->0));
    }
}

/// The line `k` is a heading of the first level: a `#` and a space stand before its text, with
/// nothing but blanks before them, and an even number of fences stands before the line.
pub open spec fn is_heading_at(ls: Seq<Seq<char>>, k: int) -> bool {
    &&& 0 <= k < ls.len()
    &&& words::trim(ls[k]).len() >= 2
    &&& words::trim(ls[k])[0] == '#'
    &&& words::trim(ls[k])[1] == ' '
    &&& break_laws::fences(ls.take(k)).len() % 2 == 0
}

proof fn lemma_top_heading(line: Seq<char>)
    ensures
        title::is_top_heading(line) <==> words::trim(line).len() >= 2 && words::trim(line)[0] == '#'
            && words::trim(line)[1] == ' ',
{
    let t = words::trim(line);
    let mark = seq!['#', ' '];
    if t.len() >= 2 {
        let front = t.subrange(0, 2);
        assert(front[0] == t[0] && front[1] == t[1]);
        if t[0] == '#' && t[1] == ' ' {
            assert(front =~= mark);
        }
    }
}

proof fn lemma_fences_after_first(ls: Seq<Seq<char>>, k: int)
    requires
        0 < k <= ls.len(),
    ensures
        break_laws::fences(ls.take(k)).len() == break_laws::fences(ls.skip(1).take(k - 1)).len()
            + if breaks::is_fence(ls[0]) {
            1int
        } else {
            0
        },
{
    break_laws::lemma_fences_first(ls.take(k));
    assert(ls.take(k).skip(1) =~= ls.skip(1).take(k - 1));
}

/// A heading with the state of the fences at the front.
spec fn is_heading_from(ls: Seq<Seq<char>>, k: int, fenced: bool) -> bool {
    &&& 0 <= k < ls.len()
    &&& title::is_top_heading(ls[k])
    &&& (break_laws::fences(ls.take(k)).len() % 2 == 0) != fenced
}

proof fn lemma_first_heading(ls: Seq<Seq<char>>, fenced: bool) -> (k: int)
    ensures
        match title::first_heading(ls, fenced) {
            Some(t) => {
                &&& is_heading_from(ls, k, fenced)
                &&& t == words::trim(words::trim(ls[k]).skip(2))
                &&& forall|j: int| 0 <= j < k ==> !is_heading_from(ls, j, fenced)
            },
            None => forall|j: int| !is_heading_from(ls, j, fenced),
        },
    decreases ls.len(),
{
    reveal(Seq::filter);
    if ls.len() == 0 {
        0
    } else {
        assert(ls.take(0) =~= Seq::<Seq<char>>::empty());
        assert(break_laws::fences(ls.take(0)).len() == 0);
        if !fenced && title::is_top_heading(ls[0]) {
            0
        } else {
            let rest = ls.skip(1);
            let flag = fenced != breaks::is_fence(ls[0]);
            let k = lemma_first_heading(rest, flag);
            assert(!is_heading_from(ls, 0, fenced));
            assert forall|j: int| 0 < j < ls.len() implies is_heading_from(ls, j, fenced)
                == is_heading_from(rest, j - 1, flag) by {
                lemma_fences_after_first(ls, j);
                assert(rest[j - 1] == ls[j]);
            }
            k + 1
        }
    }
}

/// Without a title in the frontmatter, the text of the first heading of the first level outside of
/// code blocks is the title.
pub proof fn law_title_of_heading(
    entries: Option<Seq<(YamlTree, YamlTree)>>,
    body: Seq<char>,
    path_hint: Seq<char>,
    k: int,
)
    requires
        entries matches Some(es) ==> holds_none(es, seq!['t', 'i', 't', 'l', 'e']) && holds_none(
            es,
            seq!['n', 'a', 'm', 'e'],
        ),
        is_heading_at(lines::lines(body), k),
        forall|j: int| 0 <= j < k ==> !is_heading_at(lines::lines(body), j),
    ensures
        title::title(entries, body, path_hint) == words::trim(
            words::trim(lines::lines(body)[k]).skip(2),
        ),
{
    lemma_no_frontmatter_title(entries);
    let ls = lines::lines(body);
    let i = lemma_first_heading(ls, false);
    assert forall|j: int| is_heading_at(ls, j) == is_heading_from(ls, j, false) by {
        if 0 <= j < ls.len() {
            lemma_top_heading(ls[j]);
        }
    }
    assert(is_heading_from(ls, k, false));
    if i < k {
        assert(is_heading_at(ls, i));
    }
}

proof fn lemma_no_frontmatter_title(entries: Option<Seq<(YamlTree, YamlTree)>>)
    requires
        entries matches Some(es) ==> holds_none(es, seq!['t', 'i', 't', 'l', 'e']) && holds_none(
            es,
            seq!['n', 'a', 'm', 'e'],
        ),
    ensures
        entries matches Some(es) ==> title::frontmatter_title(es) is None,
{
    match entries {
        Some(es) => {
            let a = seq!['t', 'i', 't', 'l', 'e'];
            let b = seq!['n', 'a', 'm', 'e'];
            lemma_lookup_text(es, a);
            lemma_lookup_text(es, b);
            if title::lookup_text(es, a) is Some {
                assert(holds_text(es, a, title::lookup_text(es, a)->0));
            }
            if title::lookup_text(es, b) is Some {
                assert(holds_text(es, b, title::lookup_text(es, b)->0));
            }
        },
        None => {},
    }
}

proof fn lemma_first_text(ls: Seq<Seq<char>>) -> (k: int)
    ensures
        match title::first_text(ls) {
            Some(t) => 0 <= k < ls.len() && !words::all_blank(ls[k]) && t == words::trim(ls[k])
                && forall|j: int| 0 <= j < k ==> words::all_blank(#[trigger] ls[j]),
            None => forall|j: int| 0 <= j < ls.len() ==> words::all_blank(#[trigger] ls[j]),
        },
    decreases ls.len(),
{
    if ls.len() == 0 {
        0
    } else {
        words::law_blank_texts_trim_to_nothing(ls[0]);
        if words::trim(ls[0]).len() > 0 {
            0
        } else {
            let rest = ls.skip(1);
            let k = lemma_first_text(rest);
            assert(forall|j: int| 0 < j < ls.len() ==> #[trigger] ls[j] == rest[j - 1]);
            k + 1
        }
    }
}

/// Without a title in the frontmatter and without a heading, the first line that is not blank is
/// the title, without the blanks around it. Where all lines are blank, the file name is, and the
/// path where that names no file.
pub proof fn law_title_of_text(
    entries: Option<Seq<(YamlTree, YamlTree)>>,
    body: Seq<char>,
    path_hint: Seq<char>,
)
    requires
        entries matches Some(es) ==> holds_none(es, seq!['t', 'i', 't', 'l', 'e']) && holds_none(
            es,
            seq!['n', 'a', 'm', 'e'],
        ),
        forall|j: int| !is_heading_at(lines::lines(body), j),
    ensures
        forall|k: int|
            0 <= k < lines::lines(body).len() && !words::all_blank(#[trigger] lines::lines(body)[k])
                && (forall|j: int|
                0 <= j < k ==> words::all_blank(#[trigger] lines::lines(body)[j])) ==> title::title(
                entries,
                body,
                path_hint,
            ) == words::trim(lines::lines(body)[k]),
        (forall|j: int|
            0 <= j < lines::lines(body).len() ==> words::all_blank(
                #[trigger] lines::lines(body)[j],
            )) ==> title::title(entries, body, path_hint) == match title::file_stem(path_hint) {
            Some(stem) => stem,
            None => path_hint,
        },
{
    lemma_no_frontmatter_title(entries);
    let ls = lines::lines(body);
    let i = lemma_first_heading(ls, false);
    if title::first_heading(ls, false) is Some {
        lemma_top_heading(ls[i]);
        assert(is_heading_at(ls, i));
    }
    let t = lemma_first_text(ls);
    assert forall|k: int|
        0 <= k < ls.len() && !words::all_blank(#[trigger] ls[k]) && (forall|j: int|
            0 <= j < k ==> words::all_blank(#[trigger] ls[j])) implies title::title(
        entries,
        body,
        path_hint,
    ) == words::trim(ls[k]) by {
        if t < k {
            assert(words::all_blank(ls[t]));
        } else if k < t {
            assert(words::all_blank(ls[k]));
        }
    }
}

proof fn lemma_last_index_is(s: Seq<char>, c: char)
    ensures
        -1 <= title::last_index(s, c) < s.len(),
        title::last_index(s, c) >= 0 ==> s[title::last_index(s, c)] == c,
        forall|j: int| title::last_index(s, c) < j < s.len() ==> #[trigger] s[j] != c,
    decreases s.len(),
{
    if s.len() > 0 && s.last() != c {
        let t = s.drop_last();
        lemma_last_index_is(t, c);
        assert forall|j: int| title::last_index(s, c) < j < s.len() implies #[trigger] s[j]
            != c by {
            if j < t.len() {
                assert(s[j] == t[j]);
            }
        }
    }
}

proof fn lemma_name_at_end(dir: Seq<char>, name: Seq<char>)
    requires
        dir.len() == 0 || dir.last() == '/',
        name.len() > 0,
        forall|i: int| 0 <= i < name.len() ==> #[trigger] name[i] != '/',
        name != seq!['.'],
    ensures
        title::last_component(lines::split(dir + name, '/')) == Some(name),
{
    let path = dir + name;
    laws::law_first_piece(name, '/', name);
    if dir.len() == 0 {
        assert(path =~= name);
    } else {
        let front = dir.drop_last();
        assert(path =~= front + seq!['/'] + name);
        laws::law_pieces_of_two(front, '/', name);
    }
    assert(lines::split(path, '/').last() == name);
}

/// The file name after the last slash counts without its extension: what stands before its last
/// dot. A name without a dot, or with one only at its front, counts whole.
pub proof fn law_file_stem(dir: Seq<char>, stem: Seq<char>, extension: Seq<char>)
    requires
        dir.len() == 0 || dir.last() == '/',
        stem.len() > 0,
        forall|i: int| 0 <= i < stem.len() ==> #[trigger] stem[i] != '/',
        forall|i: int|
            0 <= i < extension.len() ==> #[trigger] extension[i] != '/' && extension[i] != '.',
    ensures
        stem != seq!['.'] || extension.len() > 0 ==> title::file_stem(
            dir + stem + seq!['.'] + extension,
        ) == Some(stem),
        stem != seq!['.'] && (forall|i: int| 0 < i < stem.len() ==> #[trigger] stem[i] != '.')
            ==> title::file_stem(dir + stem) == Some(stem),
{
    let name = stem + seq!['.'] + extension;
    if stem != seq!['.'] || extension.len() > 0 {
        assert forall|i: int| 0 <= i < name.len() implies #[trigger] name[i] != '/' by {
            if i < stem.len() {
                assert(name[i] == stem[i]);
            } else if i > stem.len() {
                assert(name[i] == extension[i - stem.len() - 1]);
            }
        }
        assert(name.len() > 1);
        assert(dir + name =~= dir + stem + seq!['.'] + extension);
        lemma_name_at_end(dir, name);
        lemma_last_index_is(name, '.');
        let k = title::last_index(name, '.');
        let n = stem.len() as int;
        assert(name[n] == '.');
        if k < n {
            assert(name[n] != '.');
        }
        if k > n {
            assert(name[k] == extension[k - n - 1]);
        }
        assert(name.take(n) =~= stem);
        if name == seq!['.', '.'] {
            assert(stem.len() == 1 && extension.len() == 0);
            assert(name[0] == stem[0]);
            assert(stem =~= seq!['.']);
        }
    }
    if stem != seq!['.'] && (forall|i: int| 0 < i < stem.len() ==> #[trigger] stem[i] != '.') {
        lemma_name_at_end(dir, stem);
        lemma_last_index_is(stem, '.');
        let k = title::last_index(stem, '.');
        if k > 0 {
            assert(stem[k] != '.');
        }
        if stem == seq!['.', '.'] {
            assert(stem[1] == '.');
        }
    }
}

/// A slash at the end of a path, alone or with a dot after it, changes nothing. A path that ends in
/// two dots names no file, nor does an empty path or a single dot.
pub proof fn law_file_stem_of_directory(path: Seq<char>)
    ensures
        title::file_stem(path + seq!['/']) == title::file_stem(path),
        title::file_stem(path + seq!['/', '.']) == title::file_stem(path),
        title::file_stem(path + seq!['/', '.', '.']) is None,
        title::file_stem(Seq::empty()) is None,
        title::file_stem(seq!['.']) is None,
        title::file_stem(seq!['.', '.']) is None,
{
    let none = Seq::<char>::empty();
    let one = seq!['.'];
    let two = seq!['.', '.'];
    let parts = lines::split(path, '/');
    laws::law_first_piece(none, '/', none);
    laws::law_first_piece(one, '/', none);
    laws::law_first_piece(two, '/', none);
    laws::law_pieces_of_two(path, '/', none);
    laws::law_pieces_of_two(path, '/', one);
    laws::law_pieces_of_two(path, '/', two);
    assert(path + seq!['/'] + none =~= path + seq!['/']);
    assert(path + seq!['/'] + one =~= path + seq!['/', '.']);
    assert(path + seq!['/'] + two =~= path + seq!['/', '.', '.']);
    assert((parts + seq![none]).drop_last() =~= parts);
    assert((parts + seq![one]).drop_last() =~= parts);
    assert((parts + seq![none]).last() == none);
    assert((parts + seq![one]).last() == one);
    assert((parts + seq![two]).last() == two);
    assert(one.len() == 1);
    assert(two.len() == 2);
    assert(seq![none].drop_last() =~= Seq::<Seq<char>>::empty());
    assert(title::last_component(seq![none].drop_last()) is None);
    assert(seq![one].drop_last() =~= Seq::<Seq<char>>::empty());
    assert(title::last_component(seq![one].drop_last()) is None);
    assert(seq![one].last() == one);
    assert(seq![two].last() == two);
}

/// The body of a document is what follows the closing line of its frontmatter block and the line
/// feed there; the whole document where it has no block.
pub proof fn law_body_follows_the_block(
    opening: Seq<char>,
    yaml_text: Seq<char>,
    closing: Seq<char>,
    rest: Seq<char>,
    doc: Seq<char>,
)
    requires
        frontmatter::is_opening(opening),
        frontmatter::is_block_text(yaml_text),
        frontmatter::is_closing(closing),
        frontmatter::block(doc) is None,
    ensures
        title::body(opening + seq!['\n'] + yaml_text + closing + seq!['\n'] + rest) == rest,
        title::body(opening + seq!['\n'] + yaml_text + closing).len() == 0,
        title::body(doc) == doc,
{
    let head = opening + seq!['\n'] + yaml_text + closing + seq!['\n'];
    frontmatter::law_block_of_document(opening, yaml_text, closing, rest);
    text::lemma_encode_concat(head, rest);
    let bytes = encode_utf8(head + rest);
    assert(bytes.subrange(text::utf8_len(head) as int, bytes.len() as int) =~= encode_utf8(rest));
    encode_utf8_decode_utf8(rest);
    let short = opening + seq!['\n'] + yaml_text + closing;
    frontmatter_laws::law_block_at_end_of_document(opening, yaml_text, closing);
    let none = Seq::<char>::empty();
    assert(encode_utf8(none) =~= Seq::<u8>::empty());
    let end = text::utf8_len(short) as int;
    assert(encode_utf8(short).subrange(end, end) =~= encode_utf8(none));
    encode_utf8_decode_utf8(none);
}

} // verus!
