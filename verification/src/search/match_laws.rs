//! What the operators compare and which values a clause looks at, said of texts and rows.

use vstd::prelude::*;

use crate::dates;
use crate::dates::order;
use crate::dates::UtcTime;
use crate::search::filter;
use crate::search::filter::{
    CollectionRows, DocumentRow, FilterClause, FilterOp, MetadataRow, SearchResult,
};
use crate::text::laws;
use crate::text::words;

verus! {

/// The order operators are the order of whole texts, and fit together with `=` and `!=`.
pub proof fn law_order_operators(a: Seq<char>, b: Seq<char>)
    ensures
        filter::matches_op(a, FilterOp::Eq, b) <==> a == b,
        filter::matches_op(a, FilterOp::Ne, b) <==> a != b,
        filter::matches_op(a, FilterOp::Gt, b) <==> words::precedes(b, a),
        filter::matches_op(a, FilterOp::Lt, b) <==> words::precedes(a, b),
        filter::matches_op(a, FilterOp::Gte, b) <==> !words::precedes(a, b),
        filter::matches_op(a, FilterOp::Lte, b) <==> !words::precedes(b, a),
        filter::matches_op(a, FilterOp::Gt, b) <==> filter::matches_op(a, FilterOp::Gte, b)
            && filter::matches_op(a, FilterOp::Ne, b),
        filter::matches_op(a, FilterOp::Lt, b) <==> filter::matches_op(a, FilterOp::Lte, b)
            && filter::matches_op(a, FilterOp::Ne, b),
        filter::matches_op(a, FilterOp::Lte, b) <==> filter::matches_op(a, FilterOp::Lt, b)
            || filter::matches_op(a, FilterOp::Eq, b),
        filter::matches_op(a, FilterOp::Gte, b) <==> filter::matches_op(a, FilterOp::Gt, b)
            || filter::matches_op(a, FilterOp::Eq, b),
        filter::matches_op(a, FilterOp::Gt, b) <==> filter::matches_op(b, FilterOp::Lt, a),
        filter::matches_op(a, FilterOp::Gte, b) <==> filter::matches_op(b, FilterOp::Lte, a),
{
    words::lemma_order_total(a, b);
}

/// Where two texts first differ decides which is the greater, however late that is.
pub proof fn law_first_difference_decides(
    front: Seq<char>,
    x: char,
    y: char,
    a: Seq<char>,
    b: Seq<char>,
)
    requires
        x < y,
    ensures
        filter::matches_op(front + seq![y] + b, FilterOp::Gt, front + seq![x] + a),
        filter::matches_op(front + seq![y] + b, FilterOp::Gte, front + seq![x] + a),
        filter::matches_op(front + seq![x] + a, FilterOp::Lt, front + seq![y] + b),
        filter::matches_op(front + seq![x] + a, FilterOp::Lte, front + seq![y] + b),
        !filter::matches_op(front + seq![x] + a, FilterOp::Gt, front + seq![y] + b),
        !filter::matches_op(front + seq![x] + a, FilterOp::Gte, front + seq![y] + b),
        !filter::matches_op(front + seq![y] + b, FilterOp::Lt, front + seq![x] + a),
        !filter::matches_op(front + seq![y] + b, FilterOp::Lte, front + seq![x] + a),
{
    let less = seq![x] + a;
    let more = seq![y] + b;
    assert(front + seq![x] + a =~= front + less);
    assert(front + seq![y] + b =~= front + more);
    laws::law_order_ignores_common_front(front, less, more);
    laws::law_order_ignores_common_front(front, more, less);
    law_order_operators(front + less, front + more);
    law_order_operators(front + more, front + less);
}

/// A text is greater than each of its proper front parts.
pub proof fn law_longer_text_is_greater(front: Seq<char>, more: Seq<char>)
    requires
        more.len() > 0,
    ensures
        filter::matches_op(front + more, FilterOp::Gt, front),
        !filter::matches_op(front + more, FilterOp::Lte, front),
        filter::matches_op(front, FilterOp::Lt, front + more),
        !filter::matches_op(front, FilterOp::Gte, front + more),
{
    let none = Seq::<char>::empty();
    assert(front + none =~= front);
    laws::law_order_ignores_common_front(front, none, more);
    law_order_operators(front, front + more);
    law_order_operators(front + more, front);
}

/// The order operators on normalized dates compare the times, to the nanosecond.
pub proof fn law_operators_compare_times(s: UtcTime, t: UtcTime)
    requires
        s.valid(),
        t.valid(),
        0 <= s.year <= 9999,
        0 <= t.year <= 9999,
        order::earlier(s, t),
    ensures
        filter::matches_op(dates::rfc3339_text(t), FilterOp::Gt, dates::rfc3339_text(s)),
        filter::matches_op(dates::rfc3339_text(t), FilterOp::Gte, dates::rfc3339_text(s)),
        !filter::matches_op(dates::rfc3339_text(t), FilterOp::Lt, dates::rfc3339_text(s)),
        !filter::matches_op(dates::rfc3339_text(t), FilterOp::Lte, dates::rfc3339_text(s)),
        filter::matches_op(dates::rfc3339_text(s), FilterOp::Lt, dates::rfc3339_text(t)),
        filter::matches_op(dates::rfc3339_text(s), FilterOp::Lte, dates::rfc3339_text(t)),
        !filter::matches_op(dates::rfc3339_text(s), FilterOp::Gt, dates::rfc3339_text(t)),
        !filter::matches_op(dates::rfc3339_text(s), FilterOp::Gte, dates::rfc3339_text(t)),
{
    let a = dates::rfc3339_text(s);
    let b = dates::rfc3339_text(t);
    order::law_texts_sort_as_times(s, t);
    words::lemma_order_total(a, b);
    law_order_operators(a, b);
    law_order_operators(b, a);
}

/// A time is before another by the first of its fields, from the year down to the nanosecond, in
/// which the two differ.
pub proof fn law_earlier_by_first_field(s: UtcTime, t: UtcTime)
    ensures
        s.year < t.year ==> order::earlier(s, t),
        s.year == t.year && s.month < t.month ==> order::earlier(s, t),
        s.year == t.year && s.month == t.month && s.day < t.day ==> order::earlier(s, t),
        s.year == t.year && s.month == t.month && s.day == t.day && s.hour < t.hour
            ==> order::earlier(s, t),
        s.year == t.year && s.month == t.month && s.day == t.day && s.hour == t.hour && s.minute
            < t.minute ==> order::earlier(s, t),
        s.year == t.year && s.month == t.month && s.day == t.day && s.hour == t.hour && s.minute
            == t.minute && s.second < t.second ==> order::earlier(s, t),
        s.year == t.year && s.month == t.month && s.day == t.day && s.hour == t.hour && s.minute
            == t.minute && s.second == t.second && s.nanosecond < t.nanosecond
            ==> order::earlier(s, t),
        s == t || order::earlier(s, t) || order::earlier(t, s),
        !(order::earlier(s, t) && order::earlier(t, s)),
{
}

/// A text contains another if its lower case is that other text with something before and after
/// it. The case of the letters `A` to `Z` in it makes no difference.
pub proof fn law_contains(a: Seq<char>, b: Seq<char>)
    ensures
        filter::matches_op(a, FilterOp::Contains, b) <==> exists|x: Seq<char>, y: Seq<char>|
            words::ascii_lowercase(a) == #[trigger] (x + b + y),
        filter::matches_op(a, FilterOp::NotContains, b) <==> !exists|x: Seq<char>, y: Seq<char>|
            words::ascii_lowercase(a) == #[trigger] (x + b + y),
        filter::matches_op(words::ascii_lowercase(a), FilterOp::Contains, b)
            == filter::matches_op(a, FilterOp::Contains, b),
        filter::matches_op(words::ascii_lowercase(a), FilterOp::NotContains, b)
            == filter::matches_op(a, FilterOp::NotContains, b),
{
    laws::law_occurs_in(words::ascii_lowercase(a), b);
    laws::law_lowercase(a);
}

/// A document passes if every clause finds, among the values that the document has in the field
/// of the clause, one that stands in the relation that the clause asks for.
pub proof fn law_passes(
    tables: Seq<CollectionRows>,
    clauses: Seq<FilterClause>,
    collection: Seq<char>,
    path: Seq<char>,
)
    ensures
        filter::passes(tables, clauses, collection, path) <==> forall|i: int|
            #![trigger clauses[i]]
            0 <= i < clauses.len() ==> exists|v: Seq<char>| #[trigger]
                filter::field_values(tables, collection, path, clauses[i].field@).contains(v)
                    && filter::matches_op(v, clauses[i].op, clauses[i].value@),
{
    assert forall|i: int| 0 <= i < clauses.len() implies (filter::clause_holds(
        tables,
        collection,
        path,
        #[trigger] clauses[i],
    ) <==> exists|v: Seq<char>| #[trigger]
        filter::field_values(tables, collection, path, clauses[i].field@).contains(v)
            && filter::matches_op(v, clauses[i].op, clauses[i].value@)) by {
        let clause = clauses[i];
        let values = filter::field_values(tables, collection, path, clause.field@);
        if filter::clause_holds(tables, collection, path, clause) {
            let k = choose|k: int|
                0 <= k < values.len() && filter::matches_op(
                    #[trigger] values[k],
                    clause.op,
                    clause.value@,
                );
            assert(values.contains(values[k]));
        }
        if exists|v: Seq<char>| #[trigger]
            values.contains(v) && filter::matches_op(v, clause.op, clause.value@) {
            let v = choose|v: Seq<char>| #[trigger]
                values.contains(v) && filter::matches_op(v, clause.op, clause.value@);
            let k = choose|k: int| 0 <= k < values.len() && values[k] == v;
            assert(filter::matches_op(values[k], clause.op, clause.value@));
        }
    }
}

/// The fields `modified_at`, `created_at` and `path` have one value each, out of the row of the
/// document, and none if it has no row. A field `meta.` with a key after it has the values of the
/// frontmatter under that key. Any other field has none.
pub proof fn law_field_values(
    tables: Seq<CollectionRows>,
    collection: Seq<char>,
    path: Seq<char>,
    key: Seq<char>,
    field: Seq<char>,
)
    ensures
        filter::document_row(tables, collection, path) matches Some(row) ==> {
            &&& filter::field_values(tables, collection, path, "modified_at"@)
                == seq![row.modified_at@]
            &&& filter::field_values(tables, collection, path, "created_at"@)
                == seq![row.created_at@]
            &&& filter::field_values(tables, collection, path, "path"@) == seq![path]
        },
        filter::document_row(tables, collection, path) is None ==> {
            &&& filter::field_values(tables, collection, path, "modified_at"@).len() == 0
            &&& filter::field_values(tables, collection, path, "created_at"@).len() == 0
            &&& filter::field_values(tables, collection, path, "path"@).len() == 0
        },
        filter::field_values(tables, collection, path, seq!['m', 'e', 't', 'a', '.'] + key)
            == filter::metadata_values(tables, collection, path, key),
        field != "modified_at"@ && field != "created_at"@ && field != "path"@ && (field.len() < 5
            || field.take(5) != seq!['m', 'e', 't', 'a', '.']) ==> filter::field_values(
            tables,
            collection,
            path,
            field,
        ).len() == 0,
{
    reveal_strlit("modified_at");
    reveal_strlit("created_at");
    reveal_strlit("path");
    assert("modified_at"@.len() == 11 && "created_at"@.len() == 10 && "path"@.len() == 4);
    let prefix = seq!['m', 'e', 't', 'a', '.'];
    assert(prefix[1] == 'e');
    assert("modified_at"@.subrange(0, 5)[1] == 'o');
    assert("created_at"@.subrange(0, 5)[1] == 'r');
    let name = prefix + key;
    assert(name.subrange(0, 5) =~= prefix);
    assert(name.skip(5) =~= key);
    if field.len() >= 5 {
        assert(field.subrange(0, 5) =~= field.take(5));
    }
}

/// The document `d` of the table `t` has this collection and path.
pub open spec fn is_document_at(
    tables: Seq<CollectionRows>,
    collection: Seq<char>,
    path: Seq<char>,
    t: int,
    d: int,
) -> bool {
    &&& 0 <= t < tables.len()
    &&& 0 <= d < tables[t].documents@.len()
    &&& tables[t].name@ == collection
    &&& tables[t].documents@[d].path@ == path
}

proof fn lemma_last_document(rows: Seq<DocumentRow>, path: Seq<char>) -> (d: int)
    ensures
        match filter::last_document(rows, path) {
            Some(row) => 0 <= d < rows.len() && rows[d] == row && row.path@ == path && forall|e: int|
                d < e < rows.len() ==> (#[trigger] rows[e]).path@ != path,
            None => forall|e: int| 0 <= e < rows.len() ==> (#[trigger] rows[e]).path@ != path,
        },
    decreases rows.len(),
{
    if rows.len() == 0 {
        0
    } else if rows.last().path@ == path {
        rows.len() - 1
    } else {
        let less = rows.drop_last();
        let d = lemma_last_document(less, path);
        assert(forall|e: int| 0 <= e < less.len() ==> #[trigger] rows[e] == less[e]);
        d
    }
}

/// The row of a document is the last one, in the order of tables and rows, that has its collection
/// and path; there is none exactly if no row has them.
pub proof fn law_document_row_is_the_last(
    tables: Seq<CollectionRows>,
    collection: Seq<char>,
    path: Seq<char>,
)
    ensures
        match filter::document_row(tables, collection, path) {
            Some(row) => exists|t: int, d: int|
                {
                    &&& #[trigger] is_document_at(tables, collection, path, t, d)
                    &&& tables[t].documents@[d] == row
                    &&& forall|u: int, e: int| #[trigger]
                        is_document_at(tables, collection, path, u, e) ==> u < t || u == t && e <= d
                },
            None => forall|t: int, d: int| !is_document_at(tables, collection, path, t, d),
        },
    decreases tables.len(),
{
    if tables.len() > 0 {
        let last = tables.len() - 1;
        let table = tables[last];
        let less = tables.drop_last();
        let d = lemma_last_document(table.documents@, path);
        law_document_row_is_the_last(less, collection, path);
        assert forall|t: int, e: int|
            t < last implies is_document_at(tables, collection, path, t, e) == is_document_at(
            less,
            collection,
            path,
            t,
            e,
        ) by {}
        if table.name@ == collection && filter::last_document(table.documents@, path) is Some {
            assert(is_document_at(tables, collection, path, last, d));
            assert forall|u: int, e: int| #[trigger]
                is_document_at(tables, collection, path, u, e) implies u < last || u == last && e
                <= d by {
                if u == last && e > d {
                    assert(table.documents@[e].path@ != path);
                }
            }
        } else {
            assert forall|e: int| !is_document_at(tables, collection, path, last, e) by {
                if is_document_at(tables, collection, path, last, e) {
                    assert(table.documents@[e].path@ != path);
                }
            }
            match filter::document_row(less, collection, path) {
                Some(row) => {
                    let (t, d) = choose|t: int, d: int|
                        {
                            &&& #[trigger] is_document_at(less, collection, path, t, d)
                            &&& less[t].documents@[d] == row
                            &&& forall|u: int, e: int| #[trigger]
                                is_document_at(less, collection, path, u, e) ==> u < t || u == t
                                    && e <= d
                        };
                    assert(is_document_at(tables, collection, path, t, d));
                    assert forall|u: int, e: int| #[trigger]
                        is_document_at(tables, collection, path, u, e) implies u < t || u == t && e
                        <= d by {
                        if u < last {
                            assert(is_document_at(less, collection, path, u, e));
                        }
                    }
                },
                None => {
                    assert forall|t: int, d: int|
                        !is_document_at(tables, collection, path, t, d) by {
                        if t < last {
                            assert(!is_document_at(less, collection, path, t, d));
                        }
                    }
                },
            }
        }
    }
}

/// The values of the frontmatter are those of the rows with the path and the key, all of them, in
/// order.
pub proof fn law_metadata_of_rows(rows: Seq<MetadataRow>, path: Seq<char>, key: Seq<char>)
    ensures
        filter::metadata_in(rows, path, key) == rows.filter(
            |r: MetadataRow| r.path@ == path && r.key@ == key,
        ).map_values(|r: MetadataRow| r.value@),
    decreases rows.len(),
{
    reveal(Seq::filter);
    let fits = |r: MetadataRow| r.path@ == path && r.key@ == key;
    let value = |r: MetadataRow| r.value@;
    if rows.len() > 0 {
        law_metadata_of_rows(rows.drop_last(), path, key);
        let less = rows.drop_last().filter(fits);
        assert(less.push(rows.last()).map_values(value) =~= less.map_values(value).push(
            rows.last().value@,
        ));
    }
    assert(filter::metadata_in(rows, path, key) =~= rows.filter(fits).map_values(value));
}

/// The values that several tables give are those of each, one after the other; a table of another
/// collection gives none.
pub proof fn law_metadata_of_tables(
    front: Seq<CollectionRows>,
    back: Seq<CollectionRows>,
    table: CollectionRows,
    collection: Seq<char>,
    path: Seq<char>,
    key: Seq<char>,
)
    ensures
        filter::metadata_values(front + back, collection, path, key) == filter::metadata_values(
            front,
            collection,
            path,
            key,
        ) + filter::metadata_values(back, collection, path, key),
        filter::metadata_values(seq![table], collection, path, key) == if table.name@
            == collection {
            table.metadata@.filter(
                |r: MetadataRow| r.path@ == path && r.key@ == key,
            ).map_values(|r: MetadataRow| r.value@)
        } else {
            Seq::empty()
        },
    decreases back.len(),
{
    law_metadata_of_rows(table.metadata@, path, key);
    let one = seq![table];
    assert(one.drop_last() =~= Seq::<CollectionRows>::empty());
    assert(filter::metadata_values(one.drop_last(), collection, path, key) =~= Seq::<
        Seq<char>,
    >::empty());
    assert(one.last() == table);
    assert(Seq::<Seq<char>>::empty() + filter::metadata_in(table.metadata@, path, key)
        =~= filter::metadata_in(table.metadata@, path, key));
    let head = filter::metadata_values(front, collection, path, key);
    if back.len() == 0 {
        assert(front + back =~= front);
        assert(head + filter::metadata_values(back, collection, path, key) =~= head);
    } else {
        let less = back.drop_last();
        law_metadata_of_tables(front, less, table, collection, path, key);
        assert((front + back).drop_last() =~= front + less);
        assert((front + back).last() == back.last());
        let middle = filter::metadata_values(less, collection, path, key);
        let last = filter::metadata_in(back.last().metadata@, path, key);
        assert((head + middle) + last =~= head + (middle + last));
    }
}

/// What stays are the candidates that pass, in their order and as often as they occur.
pub proof fn law_retained_is_a_filter<R>(
    candidates: Seq<SearchResult<R>>,
    tables: Seq<CollectionRows>,
    clauses: Seq<FilterClause>,
)
    ensures
        filter::retained(candidates, tables, clauses) == candidates.filter(
            |r: SearchResult<R>| filter::passes(tables, clauses, r.collection@, r.path@),
        ),
    decreases candidates.len(),
{
    reveal(Seq::filter);
    if candidates.len() > 0 {
        law_retained_is_a_filter(candidates.drop_last(), tables, clauses);
    } else {
        assert(candidates =~= Seq::empty());
    }
}

/// The paths in a collection are those of the candidates of that collection, in order and as often
/// as they occur.
pub proof fn law_paths_in_a_collection<R>(
    candidates: Seq<SearchResult<R>>,
    collection: Seq<char>,
)
    ensures
        filter::paths_of(candidates, collection) == candidates.filter(
            |r: SearchResult<R>| r.collection@ == collection,
        ).map_values(|r: SearchResult<R>| r.path@),
    decreases candidates.len(),
{
    reveal(Seq::filter);
    let fits = |r: SearchResult<R>| r.collection@ == collection;
    let path = |r: SearchResult<R>| r.path@;
    if candidates.len() > 0 {
        law_paths_in_a_collection(candidates.drop_last(), collection);
        let less = candidates.drop_last().filter(fits);
        assert(less.push(candidates.last()).map_values(path) =~= less.map_values(path).push(
            candidates.last().path@,
        ));
    }
    assert(filter::paths_of(candidates, collection) =~= candidates.filter(fits).map_values(path));
}

} // verus!
