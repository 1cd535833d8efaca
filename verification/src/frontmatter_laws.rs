//! What is a frontmatter block and what is stored of it, said of lines and values.

use vstd::prelude::*;

use crate::dates;
use crate::dates::UtcTime;
use crate::frontmatter;
use crate::text;
use crate::text::laws;
use crate::text::lines;
use crate::yaml;
use crate::yaml::YamlTree;

verus! {

/// The normal form of a text that reads as an RFC 3339 time is the text of that time in UTC. That
/// of a plain date is the text of its midnight. Any other text is its own normal form.
pub proof fn law_normal_form(s: Seq<char>)
    ensures
        dates::rfc3339_time(s) matches Some(t) ==> dates::normalized(s) == dates::rfc3339_text(t),
        dates::rfc3339_time(s) is None ==> (dates::formatted_date(s, "%Y-%m-%d"@) matches Some(
            (year, month, day),
        ) ==> dates::normalized(s) == dates::rfc3339_text(
            UtcTime { year, month, day, hour: 0, minute: 0, second: 0, nanosecond: 0 },
        )),
        dates::rfc3339_time(s) is None && dates::formatted_date(s, "%Y-%m-%d"@) is None
            ==> dates::normalized(s) == s,
{
}

/// Of a string under a string key, its normal form is stored, under that key, and nothing else.
/// This holds of strings of any length, alone and as the item of a sequence.
pub proof fn law_string_is_stored_in_normal_form(key: Seq<char>, s: Seq<char>)
    ensures
        frontmatter::mapping_pairs(seq![(YamlTree::Text(key), YamlTree::Text(s))]) == seq![
            (key, dates::normalized(s)),
        ],
        frontmatter::mapping_pairs(
            seq![(YamlTree::Text(key), YamlTree::Sequence(seq![YamlTree::Text(s)]))],
        ) == seq![(key, dates::normalized(s))],
        dates::rfc3339_time(s) matches Some(t) ==> frontmatter::mapping_pairs(
            seq![(YamlTree::Text(key), YamlTree::Text(s))],
        ) == seq![(key, dates::rfc3339_text(t))],
        dates::rfc3339_time(s) is None ==> (dates::formatted_date(s, "%Y-%m-%d"@) matches Some(
            (year, month, day),
        ) ==> frontmatter::mapping_pairs(seq![(YamlTree::Text(key), YamlTree::Text(s))]) == seq![
            (
                key,
                dates::rfc3339_text(
                    UtcTime { year, month, day, hour: 0, minute: 0, second: 0, nanosecond: 0 },
                ),
            ),
        ]),
        dates::rfc3339_time(s) is None && dates::formatted_date(s, "%Y-%m-%d"@) is None
            ==> frontmatter::mapping_pairs(seq![(YamlTree::Text(key), YamlTree::Text(s))]) == seq![
            (key, s),
        ],
{
    law_normal_form(s);
    lemma_single_entry(key, YamlTree::Text(s));
    law_sequence_item_is_stored_alone(key, YamlTree::Text(s));
}

proof fn lemma_single_entry(key: Seq<char>, value: YamlTree)
    ensures
        frontmatter::mapping_pairs(seq![(YamlTree::Text(key), value)]) == frontmatter::value_pairs(
            key,
            value,
        ),
{
    let one = seq![(YamlTree::Text(key), value)];
    assert(one.drop_last() =~= Seq::<(YamlTree, YamlTree)>::empty());
    let none = frontmatter::mapping_pairs(one.drop_last());
    assert(none =~= Seq::<(Seq<char>, Seq<char>)>::empty());
    assert(none + frontmatter::value_pairs(key, value) =~= frontmatter::value_pairs(key, value));
    assert(one.last() == (YamlTree::Text(key), value));
}

/// A boolean is stored as `true` or `false`, a number in its notation; nothing is stored of null,
/// of a nested mapping or of a tagged value.
pub proof fn law_scalars_are_stored(
    key: Seq<char>,
    n: Seq<char>,
    entries: Seq<(YamlTree, YamlTree)>,
)
    ensures
        frontmatter::mapping_pairs(seq![(YamlTree::Text(key), YamlTree::Bool(true))]) == seq![
            (key, seq!['t', 'r', 'u', 'e']),
        ],
        frontmatter::mapping_pairs(seq![(YamlTree::Text(key), YamlTree::Bool(false))]) == seq![
            (key, seq!['f', 'a', 'l', 's', 'e']),
        ],
        frontmatter::mapping_pairs(seq![(YamlTree::Text(key), YamlTree::Number(n))]) == seq![
            (key, n),
        ],
        frontmatter::mapping_pairs(seq![(YamlTree::Text(key), YamlTree::Null)]).len() == 0,
        frontmatter::mapping_pairs(seq![(YamlTree::Text(key), YamlTree::Mapping(entries))]).len()
            == 0,
        frontmatter::mapping_pairs(seq![(YamlTree::Text(key), YamlTree::Tagged)]).len() == 0,
{
    lemma_single_entry(key, YamlTree::Bool(true));
    lemma_single_entry(key, YamlTree::Bool(false));
    lemma_single_entry(key, YamlTree::Number(n));
    lemma_single_entry(key, YamlTree::Null);
    lemma_single_entry(key, YamlTree::Mapping(entries));
    lemma_single_entry(key, YamlTree::Tagged);
}

/// The item of a sequence is stored as it would be alone, and nothing is stored of a sequence in a
/// sequence.
pub proof fn law_sequence_item_is_stored_alone(key: Seq<char>, item: YamlTree)
    ensures
        frontmatter::mapping_pairs(seq![(YamlTree::Text(key), YamlTree::Sequence(seq![item]))])
            == if item is Sequence {
            Seq::empty()
        } else {
            frontmatter::mapping_pairs(seq![(YamlTree::Text(key), item)])
        },
{
    let items = seq![item];
    lemma_single_entry(key, YamlTree::Sequence(items));
    lemma_single_entry(key, item);
    assert(items.drop_last() =~= Seq::<YamlTree>::empty());
    assert(items.last() == item);
    let none = frontmatter::item_pairs(key, items.drop_last());
    assert(none =~= Seq::<(Seq<char>, Seq<char>)>::empty());
    match frontmatter::scalar_text(item) {
        Some(t) => {
            assert(none.push((key, t)) =~= seq![(key, t)]);
        },
        None => {},
    }
    assert(frontmatter::item_pairs(key, items) =~= if item is Sequence {
        Seq::empty()
    } else {
        frontmatter::value_pairs(key, item)
    });
}

proof fn lemma_items_concat(key: Seq<char>, a: Seq<YamlTree>, b: Seq<YamlTree>)
    ensures
        frontmatter::item_pairs(key, a + b) == frontmatter::item_pairs(key, a)
            + frontmatter::item_pairs(key, b),
    decreases b.len(),
{
    let front = frontmatter::item_pairs(key, a);
    if b.len() == 0 {
        assert(a + b =~= a);
        assert(front + frontmatter::item_pairs(key, b) =~= front);
    } else {
        lemma_items_concat(key, a, b.drop_last());
        assert((a + b).drop_last() =~= a + b.drop_last());
        assert((a + b).last() == b.last());
        assert(frontmatter::item_pairs(key, a + b) =~= front + frontmatter::item_pairs(key, b));
    }
}

/// Of a sequence is stored what is stored of its front part and then of the rest, all under the
/// one key; of an empty one nothing.
pub proof fn law_sequence_is_stored_in_order(key: Seq<char>, a: Seq<YamlTree>, b: Seq<YamlTree>)
    ensures
        frontmatter::mapping_pairs(
            seq![(YamlTree::Text(key), YamlTree::Sequence(Seq::empty()))],
        ).len() == 0,
        frontmatter::mapping_pairs(seq![(YamlTree::Text(key), YamlTree::Sequence(a + b))])
            == frontmatter::mapping_pairs(seq![(YamlTree::Text(key), YamlTree::Sequence(a))])
            + frontmatter::mapping_pairs(seq![(YamlTree::Text(key), YamlTree::Sequence(b))]),
{
    lemma_single_entry(key, YamlTree::Sequence(Seq::empty()));
    lemma_single_entry(key, YamlTree::Sequence(a + b));
    lemma_single_entry(key, YamlTree::Sequence(a));
    lemma_single_entry(key, YamlTree::Sequence(b));
    lemma_items_concat(key, a, b);
}

/// Of a mapping is stored what is stored of its front part and then of the rest; of an entry whose
/// key is no string nothing.
pub proof fn law_mapping_is_stored_in_order(
    a: Seq<(YamlTree, YamlTree)>,
    b: Seq<(YamlTree, YamlTree)>,
    key: YamlTree,
    value: YamlTree,
)
    ensures
        frontmatter::mapping_pairs(Seq::empty()).len() == 0,
        frontmatter::mapping_pairs(a + b) == frontmatter::mapping_pairs(a)
            + frontmatter::mapping_pairs(b),
        !(key is Text) ==> frontmatter::mapping_pairs(seq![(key, value)]).len() == 0,
    decreases b.len(),
{
    let one = seq![(key, value)];
    assert(one.drop_last() =~= Seq::<(YamlTree, YamlTree)>::empty());
    assert(one.last() == (key, value));
    let front = frontmatter::mapping_pairs(a);
    if b.len() == 0 {
        assert(a + b =~= a);
        assert(front + frontmatter::mapping_pairs(b) =~= front);
    } else {
        law_mapping_is_stored_in_order(a, b.drop_last(), key, value);
        assert((a + b).drop_last() =~= a + b.drop_last());
        assert((a + b).last() == b.last());
        assert(frontmatter::mapping_pairs(a + b) =~= front + frontmatter::mapping_pairs(b));
    }
}

/// The keys of nested mappings are the string keys under which a mapping stands, in order.
pub proof fn law_nested_keys(entries: Seq<(YamlTree, YamlTree)>)
    ensures
        frontmatter::nested(entries) == entries.filter(
            |e: (YamlTree, YamlTree)| e.0 is Text && e.1 is Mapping,
        ).map_values(|e: (YamlTree, YamlTree)| e.0->Text_0),
    decreases entries.len(),
{
    reveal(Seq::filter);
    let fits = |e: (YamlTree, YamlTree)| e.0 is Text && e.1 is Mapping;
    let key = |e: (YamlTree, YamlTree)| e.0->Text_0;
    if entries.len() > 0 {
        law_nested_keys(entries.drop_last());
        let less = entries.drop_last().filter(fits);
        assert(less.push(entries.last()).map_values(key) =~= less.map_values(key).push(
            entries.last().0->Text_0,
        ));
    }
    assert(frontmatter::nested(entries) =~= entries.filter(fits).map_values(key));
}

/// A line opens a block if it is three dashes, with one carriage return after them or none. It
/// closes one if it is three dashes or three dots, with any number of carriage returns after them.
pub proof fn law_delimiters(line: Seq<char>)
    ensures
        frontmatter::is_opening(line) <==> 3 <= line.len() <= 4 && line[0] == '-' && line[1] == '-'
            && line[2] == '-' && (line.len() == 4 ==> line[3] == '\r'),
        frontmatter::is_closing(line) <==> line.len() >= 3 && (line[0] == '-' && line[1] == '-'
            && line[2] == '-' || line[0] == '.' && line[1] == '.' && line[2] == '.') && forall|
            i: int,
        |
            3 <= i < line.len() ==> #[trigger] line[i] == '\r',
{
    if line.len() == 3 && line[0] == '-' && line[1] == '-' && line[2] == '-' {
        assert(line =~= seq!['-', '-', '-']);
    }
    if line.len() == 4 && line[0] == '-' && line[1] == '-' && line[2] == '-' && line[3] == '\r' {
        assert(line =~= seq!['-', '-', '-', '\r']);
    }
    let l = frontmatter::strip_carriage_returns(line);
    lemma_stripped(line);
    if frontmatter::is_closing(line) {
        assert(l.len() == 3);
        assert(l[0] == line[0] && l[1] == line[1] && l[2] == line[2]);
    }
    if line.len() >= 3 && (line[0] == '-' && line[1] == '-' && line[2] == '-' || line[0] == '.'
        && line[1] == '.' && line[2] == '.') && (forall|i: int|
        3 <= i < line.len() ==> #[trigger] line[i] == '\r') {
        if l.len() > 3 {
            assert(l[l.len() - 1] == line[l.len() - 1]);
        }
        assert(l.len() == 3) by {
            if l.len() < 3 {
                assert(line[2] == '\r');
            }
        }
        if line[0] == '-' {
            assert(l =~= seq!['-', '-', '-']);
        } else {
            assert(l =~= seq!['.', '.', '.']);
        }
    }
}

proof fn lemma_stripped(s: Seq<char>)
    ensures
        ({
            let l = frontmatter::strip_carriage_returns(s);
            &&& l.len() <= s.len()
            &&& l == s.take(l.len() as int)
            &&& l.len() > 0 ==> l.last() != '\r'
            &&& forall|i: int| l.len() <= i < s.len() ==> #[trigger] s[i] == '\r'
        }),
    decreases s.len(),
{
    if s.len() > 0 && s.last() == '\r' {
        let t = s.drop_last();
        lemma_stripped(t);
        let l = frontmatter::strip_carriage_returns(t);
        assert(t.take(l.len() as int) =~= s.take(l.len() as int));
        assert forall|i: int| l.len() <= i < s.len() implies #[trigger] s[i] == '\r' by {
            if i < t.len() {
                assert(s[i] == t[i]);
            }
        }
    } else {
        assert(s.take(s.len() as int) =~= s);
    }
}

/// A document is taken apart by its block: an opening line, the lines of the block, none of which
/// closes one, and a closing line, which ends the text or is followed by a line feed and the body.
pub open spec fn has_parts(
    doc: Seq<char>,
    opening: Seq<char>,
    yaml_text: Seq<char>,
    closing: Seq<char>,
    back: Seq<char>,
) -> bool {
    &&& frontmatter::is_opening(opening)
    &&& frontmatter::is_block_text(yaml_text)
    &&& frontmatter::is_closing(closing)
    &&& doc == opening + seq!['\n'] + yaml_text + closing + back
    &&& back.len() == 0 || back[0] == '\n'
}

proof fn lemma_closing_parts(content: Seq<char>) -> (r: int)
    requires
        frontmatter::closing_line(content) is Some,
    ensures
        ({
            let (from, to) = frontmatter::closing_line(content)->0;
            &&& 0 <= from <= r <= to <= content.len()
            &&& frontmatter::is_block_text(content.take(from))
            &&& frontmatter::is_closing(content.subrange(from, r))
            &&& r == content.len() ==> to == r
            &&& r < content.len() ==> content[r] == '\n' && to == r + 1
        }),
    decreases content.len(),
{
    lines::lemma_find(content, '\n');
    let i = lines::find(content, '\n');
    if frontmatter::is_closing(content.take(i)) {
        assert(content.subrange(0, i) =~= content.take(i));
        let none = content.take(0);
        assert(none =~= Seq::<char>::empty());
        laws::law_first_piece(none, '\n', none);
        law_delimiters(none);
        i
    } else {
        let rest = content.skip(i + 1);
        let r = lemma_closing_parts(rest);
        let (from, to) = frontmatter::closing_line(rest)->0;
        let line = content.take(i);
        let whole = content.take(from + i + 1);
        assert(whole =~= line + seq!['\n'] + rest.take(from));
        assert forall|j: int| 0 <= j < line.len() implies #[trigger] line[j] != '\n' by {
            assert(line[j] == content[j]);
        }
        laws::law_first_piece(line, '\n', rest.take(from));
        let more = lines::split(rest.take(from), '\n');
        assert forall|j: int|
            0 <= j < lines::split(whole, '\n').len() implies !frontmatter::is_closing(
            #[trigger] lines::split(whole, '\n')[j],
        ) by {
            if j > 0 {
                assert(lines::split(whole, '\n')[j] == more[j - 1]);
            }
        }
        if from > 0 {
            assert(whole.last() == rest.take(from).last());
        }
        assert(content.subrange(from + i + 1, r + i + 1) =~= rest.subrange(from, r));
        r + i + 1
    }
}

/// Where there is a block, the document has the parts of one: its YAML text is what stands between
/// the two delimiters, and it ends after the closing line and its line feed.
pub proof fn law_block_has_parts(doc: Seq<char>)
    ensures
        frontmatter::block(doc) matches Some((yaml_text, end)) ==> exists|
            opening: Seq<char>,
            closing: Seq<char>,
            back: Seq<char>,
        |
            {
                &&& #[trigger] has_parts(doc, opening, yaml_text, closing, back)
                &&& end == text::utf8_len(opening + seq!['\n'] + yaml_text + closing) + if back.len()
                    > 0 {
                    1int
                } else {
                    0
                }
            },
{
    if frontmatter::block(doc) is Some {
        lines::lemma_find(doc, '\n');
        let i = lines::find(doc, '\n');
        let opening = doc.take(i);
        let content = doc.skip(i + 1);
        let r = lemma_closing_parts(content);
        let (from, to) = frontmatter::closing_line(content)->0;
        let yaml_text = content.take(from);
        let closing = content.subrange(from, r);
        let back = content.skip(r);
        assert(doc =~= opening + seq!['\n'] + yaml_text + closing + back);
        assert(has_parts(doc, opening, yaml_text, closing, back));
        let upto = opening + seq!['\n'] + yaml_text + closing;
        assert(doc.take(i + 1 + r) =~= upto);
        if back.len() > 0 {
            assert(doc.take(i + 1 + to) =~= upto + seq!['\n']);
            text::lemma_encode_concat(upto, seq!['\n']);
            lines::lemma_ascii_char('\n');
            assert(text::utf8_len(seq!['\n']) == 1);
        }
        let end = (frontmatter::block(doc)->0).1;
        assert((frontmatter::block(doc)->0).0 == yaml_text);
        assert(frontmatter::block(doc) == Some((yaml_text, end)));
        assert(end == text::utf8_len(doc.take(i + 1 + to)));
        assert(end == text::utf8_len(upto) + if back.len() > 0 {
            1int
        } else {
            0
        });
    }
}

proof fn lemma_closing_at_end(yaml_text: Seq<char>, closing: Seq<char>)
    requires
        frontmatter::is_block_text(yaml_text),
        frontmatter::is_closing(closing),
    ensures
        frontmatter::closing_line(yaml_text + closing) == Some(
            (yaml_text.len() as int, yaml_text.len() + closing.len() as int),
        ),
    decreases yaml_text.len(),
{
    let whole = yaml_text + closing;
    lines::lemma_find(yaml_text, '\n');
    law_delimiters(closing);
    if yaml_text.len() == 0 {
        assert(whole =~= closing);
        assert forall|j: int| 0 <= j < closing.len() implies closing[j] != '\n' by {
            if j >= 3 {
                assert(closing[j] == '\r');
            }
        }
        lines::lemma_find_is(whole, '\n', closing.len() as int);
        assert(whole.take(closing.len() as int) =~= closing);
    } else {
        let i = lines::find(yaml_text, '\n');
        if i == yaml_text.len() {
            assert(yaml_text[yaml_text.len() - 1] != '\n');
        }
        assert forall|j: int| 0 <= j < i implies whole[j] != '\n' by {
            assert(whole[j] == yaml_text[j]);
        }
        assert(whole[i] == yaml_text[i]);
        lines::lemma_find_is(whole, '\n', i);
        let pieces = lines::split(yaml_text, '\n');
        assert(pieces[0] == yaml_text.take(i));
        assert(whole.take(i) =~= yaml_text.take(i));
        assert(!frontmatter::is_closing(pieces[0]));
        let rest = yaml_text.skip(i + 1);
        assert(whole.skip(i + 1) =~= rest + closing);
        assert forall|j: int|
            0 <= j < lines::split(rest, '\n').len() implies !frontmatter::is_closing(
            #[trigger] lines::split(rest, '\n')[j],
        ) by {
            assert(pieces[j + 1] == lines::split(rest, '\n')[j]);
        }
        if rest.len() > 0 {
            assert(rest.last() == yaml_text.last());
        }
        lemma_closing_at_end(rest, closing);
    }
}

/// A document that ends with its closing line has a block too, up to the end of the document.
pub proof fn law_block_at_end_of_document(
    opening: Seq<char>,
    yaml_text: Seq<char>,
    closing: Seq<char>,
)
    requires
        frontmatter::is_opening(opening),
        frontmatter::is_block_text(yaml_text),
        frontmatter::is_closing(closing),
    ensures
        frontmatter::block(opening + seq!['\n'] + yaml_text + closing) == Some(
            (yaml_text, text::utf8_len(opening + seq!['\n'] + yaml_text + closing) as int),
        ),
{
    let doc = opening + seq!['\n'] + yaml_text + closing;
    let n = opening.len() as int;
    assert forall|j: int| 0 <= j < n implies doc[j] != '\n' by {
        assert(doc[j] == opening[j]);
    }
    assert(doc[n] == '\n');
    lines::lemma_find_is(doc, '\n', n);
    assert(doc.take(n) =~= opening);
    assert(doc.skip(n + 1) =~= yaml_text + closing);
    lemma_closing_at_end(yaml_text, closing);
    assert((yaml_text + closing).take(yaml_text.len() as int) =~= yaml_text);
    assert(doc.take(n + 1 + (yaml_text.len() + closing.len())) =~= doc);
}

/// The frontmatter is the mapping that the text of the block stands for. There is none without a
/// block, and none if that text is malformed or stands for anything but a mapping.
pub proof fn law_frontmatter_is_the_mapping_of_the_block(doc: Seq<char>)
    ensures
        frontmatter::block(doc) is None ==> frontmatter::frontmatter(doc) is None,
        frontmatter::block(doc) matches Some((yaml_text, _)) ==> {
            &&& yaml::yaml_document(yaml_text) is None ==> frontmatter::frontmatter(doc) is None
            &&& yaml::yaml_document(yaml_text) matches Some(tree) ==> (frontmatter::frontmatter(
                doc,
            ) is Some <==> tree is Mapping)
            &&& forall|entries: Seq<(YamlTree, YamlTree)>| #[trigger]
                yaml::yaml_document(yaml_text) == Some(YamlTree::Mapping(entries))
                    ==> frontmatter::frontmatter(doc) == Some(entries)
        },
{
}

} // verus!
