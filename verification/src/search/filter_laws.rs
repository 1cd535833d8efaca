//! What holds of filtering as a whole.

use vstd::prelude::*;

use crate::search::filter;
use crate::search::filter::{CollectionRows, FilterClause, SearchResult};

verus! {

/// The clauses are joined by "and": filtering by all of them is filtering by some and then by the
/// others.
pub proof fn law_clauses_are_anded<R>(
    candidates: Seq<SearchResult<R>>,
    tables: Seq<CollectionRows>,
    first: Seq<FilterClause>,
    second: Seq<FilterClause>,
)
    ensures
        filter::retained(candidates, tables, first + second) == filter::retained(
            filter::retained(candidates, tables, first),
            tables,
            second,
        ),
    decreases candidates.len(),
{
    if candidates.len() > 0 {
        let front = candidates.drop_last();
        let last = candidates.last();
        let both = first + second;
        law_clauses_are_anded(front, tables, first, second);
        let c = last.collection@;
        let p = last.path@;
        assert(filter::passes(tables, both, c, p) <==> filter::passes(tables, first, c, p)
            && filter::passes(tables, second, c, p)) by {
            if filter::passes(tables, both, c, p) {
                assert forall|i: int| 0 <= i < first.len() implies filter::clause_holds(
                    tables,
                    c,
                    p,
                    #[trigger] first[i],
                ) by {
                    assert(both[i] == first[i]);
                }
                assert forall|i: int| 0 <= i < second.len() implies filter::clause_holds(
                    tables,
                    c,
                    p,
                    #[trigger] second[i],
                ) by {
                    assert(both[first.len() + i] == second[i]);
                }
            }
            if filter::passes(tables, first, c, p) && filter::passes(tables, second, c, p) {
                assert forall|i: int| 0 <= i < both.len() implies filter::clause_holds(
                    tables,
                    c,
                    p,
                    #[trigger] both[i],
                ) by {
                    if i < first.len() {
                        assert(both[i] == first[i]);
                    } else {
                        assert(both[i] == second[i - first.len()]);
                    }
                }
            }
        }
        let kept = filter::retained(front, tables, first);
        assert(kept.push(last).drop_last() =~= kept);
    }
}

/// Filtering again changes nothing.
pub proof fn law_filtering_is_idempotent<R>(
    candidates: Seq<SearchResult<R>>,
    tables: Seq<CollectionRows>,
    clauses: Seq<FilterClause>,
)
    ensures
        filter::retained(filter::retained(candidates, tables, clauses), tables, clauses)
            == filter::retained(candidates, tables, clauses),
    decreases candidates.len(),
{
    if candidates.len() > 0 {
        let front = candidates.drop_last();
        law_filtering_is_idempotent(front, tables, clauses);
        let kept = filter::retained(front, tables, clauses);
        assert(kept.push(candidates.last()).drop_last() =~= kept);
    }
}

/// What stays are exactly the candidates that pass.
pub proof fn law_retained_pass<R>(
    candidates: Seq<SearchResult<R>>,
    tables: Seq<CollectionRows>,
    clauses: Seq<FilterClause>,
    result: SearchResult<R>,
)
    ensures
        filter::retained(candidates, tables, clauses).contains(result) <==> candidates.contains(
            result,
        ) && filter::passes(tables, clauses, result.collection@, result.path@),
    decreases candidates.len(),
{
    let kept = filter::retained(candidates, tables, clauses);
    if candidates.len() > 0 {
        let front = candidates.drop_last();
        let last = candidates.last();
        let less = filter::retained(front, tables, clauses);
        law_retained_pass(front, tables, clauses, result);
        if candidates.contains(result) {
            let i = choose|i: int| 0 <= i < candidates.len() && candidates[i] == result;
            if i < front.len() {
                assert(front[i] == result);
            }
        }
        if front.contains(result) {
            let i = choose|i: int| 0 <= i < front.len() && front[i] == result;
            assert(candidates[i] == result);
        }
        if less.contains(result) {
            let i = choose|i: int| 0 <= i < less.len() && less[i] == result;
            assert(kept[i] == result);
        }
        if kept.contains(result) {
            let i = choose|i: int| 0 <= i < kept.len() && kept[i] == result;
            if i < less.len() {
                assert(less[i] == result);
            } else {
                assert(candidates[candidates.len() - 1] == result);
            }
        }
        if result == last && filter::passes(tables, clauses, last.collection@, last.path@) {
            assert(kept[kept.len() - 1] == result);
        }
    }
}

/// A document of which the tables hold nothing passes no filter that has a clause.
pub proof fn law_unknown_documents_do_not_pass(
    tables: Seq<CollectionRows>,
    clauses: Seq<FilterClause>,
    collection: Seq<char>,
    path: Seq<char>,
)
    requires
        clauses.len() > 0,
        filter::document_row(tables, collection, path) is None,
        forall|key: Seq<char>|
            (#[trigger] filter::metadata_values(tables, collection, path, key)).len() == 0,
    ensures
        !filter::passes(tables, clauses, collection, path),
{
    let field = clauses[0].field@;
    let values = filter::field_values(tables, collection, path, field);
    if filter::is_meta(field) {
        assert(filter::metadata_values(tables, collection, path, field.skip(5)).len() == 0);
    }
    assert(values.len() == 0);
    assert(!filter::clause_holds(tables, collection, path, clauses[0]));
}

/// Two readings of the same documents that may differ in the metadata.
pub open spec fn same_documents(a: Seq<CollectionRows>, b: Seq<CollectionRows>) -> bool {
    &&& a.len() == b.len()
    &&& forall|i: int|
        #![trigger a[i]]
        #![trigger b[i]]
        0 <= i < a.len() ==> a[i].name@ == b[i].name@ && a[i].documents@ == b[i].documents@
}

proof fn lemma_same_row(
    a: Seq<CollectionRows>,
    b: Seq<CollectionRows>,
    collection: Seq<char>,
    path: Seq<char>,
)
    requires
        same_documents(a, b),
    ensures
        filter::document_row(a, collection, path) == filter::document_row(b, collection, path),
    decreases a.len(),
{
    if a.len() > 0 {
        assert(a[a.len() - 1].name@ == b[a.len() - 1].name@);
        let x = a.drop_last();
        let y = b.drop_last();
        assert forall|i: int|
            #![trigger x[i]]
            #![trigger y[i]]
            0 <= i < x.len() implies x[i].name@ == y[i].name@ && x[i].documents@
            == y[i].documents@ by {
            assert(a[i].name@ == b[i].name@);
        }
        lemma_same_row(x, y, collection, path);
    }
}

/// The metadata need not be read where no clause asks for it.
pub proof fn law_metadata_only_where_asked_for(
    a: Seq<CollectionRows>,
    b: Seq<CollectionRows>,
    clauses: Seq<FilterClause>,
    collection: Seq<char>,
    path: Seq<char>,
)
    requires
        same_documents(a, b),
        forall|i: int|
            0 <= i < clauses.len() ==> !filter::is_meta((#[trigger] clauses[i]).field@),
    ensures
        filter::passes(a, clauses, collection, path) == filter::passes(
            b,
            clauses,
            collection,
            path,
        ),
{
    lemma_same_row(a, b, collection, path);
    assert forall|i: int| 0 <= i < clauses.len() implies filter::clause_holds(
        a,
        collection,
        path,
        #[trigger] clauses[i],
    ) == filter::clause_holds(b, collection, path, clauses[i]) by {
        assert(!filter::is_meta(clauses[i].field@));
    }
}

} // verus!
