//! Which steps set a database up and what they fill it with, said of the stored version and of the
//! documents.

use vstd::prelude::*;

use crate::db::schema;
use crate::db::schema::Step;
use crate::frontmatter;
use crate::text::decimal;
use crate::text::laws;

verus! {

/// The tables are created first. The triggers are dropped if there is a preprocessor, and created
/// if there is none. A database without a version gets version 0, and nothing is filled yet.
pub proof fn law_opening_steps(has_preprocessor: bool)
    ensures
        ({
            let steps = schema::opening(has_preprocessor);
            &&& steps.len() == 3 && steps[0] == Step::CreateTables
            &&& steps.contains(Step::DropTriggers) <==> has_preprocessor
            &&& steps.contains(Step::CreateTriggers) <==> !has_preprocessor
            &&& !steps.contains(Step::BackfillMetadata)
            &&& steps.contains(Step::PutMeta("schema_version"@, "0"@, false))
            &&& forall|i: int|
                0 <= i < steps.len() && (#[trigger] steps[i]) is PutMeta ==> steps[i]
                    == Step::PutMeta("schema_version"@, "0"@, false)
        }),
{
    let steps = schema::opening(has_preprocessor);
    assert(steps.len() == 3);
    assert(steps[0] == Step::CreateTables);
    assert(steps[1] == if has_preprocessor {
        Step::DropTriggers
    } else {
        Step::CreateTriggers
    });
    assert(steps[2] == Step::PutMeta("schema_version"@, "0"@, false));
}

/// The metadata is filled in exactly if the stored version is below 2, before anything else. Then
/// version 2 is written, the collection if none is noted, and whether there is a preprocessor.
/// Nothing else is done.
pub proof fn law_closing_steps(
    stored: Option<Seq<char>>,
    collection: Seq<char>,
    has_preprocessor: bool,
)
    ensures
        ({
            let steps = schema::closing(stored, collection, has_preprocessor);
            let flag = if has_preprocessor {
                "1"@
            } else {
                "0"@
            };
            &&& steps.len() == if schema::version_of(stored) < 2 {
                4nat
            } else {
                3
            }
            &&& steps.contains(Step::BackfillMetadata) <==> schema::version_of(stored) < 2
            &&& forall|i: int|
                0 <= i < steps.len() && #[trigger] steps[i] == Step::BackfillMetadata ==> i == 0
            &&& steps.contains(Step::PutMeta("schema_version"@, "2"@, true))
            &&& steps.contains(Step::PutMeta("collection"@, collection, false))
            &&& steps.contains(Step::PutMeta("has_preprocessor"@, flag, true))
            &&& forall|i: int|
                0 <= i < steps.len() ==> {
                    ||| (#[trigger] steps[i]) == Step::BackfillMetadata
                    ||| steps[i] == Step::PutMeta("schema_version"@, "2"@, true)
                    ||| steps[i] == Step::PutMeta("collection"@, collection, false)
                    ||| steps[i] == Step::PutMeta("has_preprocessor"@, flag, true)
                }
        }),
{
    let steps = schema::closing(stored, collection, has_preprocessor);
    reveal_strlit("2");
    laws::law_decimal_digits(1, 2);
    assert("2"@ =~= decimal::decimal(2));
    let n = steps.len() as int;
    assert(steps[n - 3] == Step::PutMeta("schema_version"@, "2"@, true));
    assert(steps[n - 2] == Step::PutMeta("collection"@, collection, false));
    assert(steps[n - 1] is PutMeta);
    if schema::version_of(stored) < 2 {
        assert(n == 4);
        assert(steps[0] == Step::BackfillMetadata);
    } else {
        assert(n == 3);
    }
}

/// A stored version is the number that its decimal notation stands for. A missing one counts as 0,
/// and so does a text with a character that belongs in no number, or a number that is too large.
pub proof fn law_stored_version(n: int, s: Seq<char>, k: int)
    ensures
        schema::version_of(None) == 0,
        i64::MIN <= n <= i64::MAX ==> schema::version_of(Some(decimal::decimal(n))) == n,
        n > i64::MAX || n < i64::MIN ==> schema::version_of(Some(decimal::decimal(n))) == 0,
        decimal::integer_value(s) matches Some(v) ==> schema::version_of(Some(s)) == if i64::MIN
            <= v <= i64::MAX {
            v
        } else {
            0
        },
        s.len() == 0 ==> schema::version_of(Some(s)) == 0,
        0 < k < s.len() && !('0' <= s[k] <= '9') ==> schema::version_of(Some(s)) == 0,
        s.len() > 0 && s[0] != '+' && s[0] != '-' && !('0' <= s[0] <= '9') ==> schema::version_of(
            Some(s),
        ) == 0,
{
    decimal::law_decimal_round_trip(n);
    laws::law_integer_texts(s);
    if 0 < k < s.len() && !('0' <= s[k] <= '9') {
        assert(s.skip(1)[k - 1] == s[k]);
    }
}

/// The rows of a document are the pairs that are stored of its frontmatter, in order, each with the
/// number of the document; a document without frontmatter has none.
pub proof fn law_rows_of_document(id: i64, doc: Seq<char>)
    ensures
        frontmatter::frontmatter(doc) is None ==> schema::document_metadata(id, doc).len() == 0,
        frontmatter::frontmatter(doc) matches Some(entries) ==> {
            let pairs = frontmatter::mapping_pairs(entries);
            let rows = schema::document_metadata(id, doc);
            &&& rows.len() == pairs.len()
            &&& forall|i: int|
                0 <= i < pairs.len() ==> (#[trigger] rows[i]).0 == id && rows[i].1 == pairs[i].0
                    && rows[i].2 == pairs[i].1
        },
{
}

/// The rows of some documents are those of the first ones and then those of the others.
pub proof fn law_rows_of_documents(
    a: Seq<(i64, Seq<char>)>,
    b: Seq<(i64, Seq<char>)>,
    id: i64,
    doc: Seq<char>,
)
    ensures
        schema::all_metadata(Seq::empty()).len() == 0,
        schema::all_metadata(seq![(id, doc)]) == schema::document_metadata(id, doc),
        schema::all_metadata(a + b) == schema::all_metadata(a) + schema::all_metadata(b),
    decreases b.len(),
{
    let one = seq![(id, doc)];
    assert(one.drop_last() =~= Seq::<(i64, Seq<char>)>::empty());
    assert(one.last() == (id, doc));
    let none = schema::all_metadata(one.drop_last());
    assert(none.len() == 0);
    assert(none + schema::document_metadata(id, doc) =~= schema::document_metadata(id, doc));
    let front = schema::all_metadata(a);
    if b.len() == 0 {
        assert(a + b =~= a);
        assert(front + schema::all_metadata(b) =~= front);
    } else {
        law_rows_of_documents(a, b.drop_last(), id, doc);
        assert((a + b).drop_last() =~= a + b.drop_last());
        assert((a + b).last() == b.last());
        assert(schema::all_metadata(a + b) =~= front + schema::all_metadata(b));
    }
}

} // verus!
