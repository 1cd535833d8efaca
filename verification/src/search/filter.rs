//! Post-retrieval filter: evaluate filter clauses against the documents table and the metadata
//! table. Applied at every pipeline exit point so each tier returns correctly filtered results.

use vstd::prelude::*;

use crate::search::filter_laws;
use crate::text;
use crate::text::lines;
use crate::text::words;

verus! {

/// How a clause compares a field with its value.
#[derive(Debug, Clone, Copy)]
pub enum FilterOp {
    Eq,
    Ne,
    Gt,
    Gte,
    Lt,
    Lte,
    Contains,
    NotContains,
}

/// One condition on a field. For `Contains` and `NotContains` the value is in lower case.
#[derive(Debug, Clone)]
pub struct FilterClause {
    pub field: String,
    pub op: FilterOp,
    pub value: String,
}

/// Conditions that all have to hold.
#[derive(Debug, Clone)]
pub struct Filter {
    pub clauses: Vec<FilterClause>,
}

impl Filter {
    /// Whether there is no condition.
    pub fn is_empty(&self) -> (b: bool)
        ensures
            b == (self.clauses@.len() == 0),
    {
        self.clauses.len() == 0
    }
}

/// A result of a search: the document it names, and what the filter does not look at.
#[derive(Debug, Clone)]
pub struct SearchResult<R> {
    pub collection: String,
    pub path: String,
    pub rest: R,
}

/// The fields that the documents table holds of an active document.
#[derive(Debug, Clone)]
pub struct DocumentRow {
    pub path: String,
    pub modified_at: String,
    pub created_at: String,
}

/// One value of the frontmatter of an active document.
#[derive(Debug, Clone)]
pub struct MetadataRow {
    pub path: String,
    pub key: String,
    pub value: String,
}

/// What was read of one collection.
#[derive(Debug, Clone)]
pub struct CollectionRows {
    pub name: String,
    pub documents: Vec<DocumentRow>,
    pub metadata: Vec<MetadataRow>,
}

/// Over-fetch multiplier: 3 with no filter, 5 with filter active.
pub fn over_fetch_multiplier(filter: &Filter) -> (n: usize)
    ensures
        n == (if filter.clauses@.len() == 0 {
            3int
        } else {
            5int
        }),
{
    if filter.is_empty() {
        3
    } else {
        5
    }
}

/// `actual` stands in the relation `op` to `expected`. Texts are in lexicographic order, which is
/// the order of time for dates in UTC RFC 3339.
pub open spec fn matches_op(actual: Seq<char>, op: FilterOp, expected: Seq<char>) -> bool {
    match op {
        FilterOp::Eq => actual == expected,
        FilterOp::Ne => actual != expected,
        FilterOp::Gt => words::precedes(expected, actual),
        FilterOp::Gte => actual == expected || words::precedes(expected, actual),
        FilterOp::Lt => words::precedes(actual, expected),
        FilterOp::Lte => actual == expected || words::precedes(actual, expected),
        FilterOp::Contains => words::occurs_in(words::ascii_lowercase(actual), expected),
        FilterOp::NotContains => !words::occurs_in(words::ascii_lowercase(actual), expected),
    }
}

fn contains_lowercase(actual: &str, expected: &str) -> (b: bool)
    ensures
        b == words::occurs_in(words::ascii_lowercase(actual@), expected@),
{
    let lower = words::lowercase_chars(actual);
    let part = text::chars_of(expected);
    words::contains(&lower, &part)
}

/// Compares a value with the one that a clause asks for.
pub fn match_op(actual: &str, op: FilterOp, expected: &str) -> (b: bool)
    ensures
        b == matches_op(actual@, op, expected@),
{
    proof {
        words::lemma_order_total(actual@, expected@);
    }
    match op {
        FilterOp::Eq => words::same(actual, expected),
        FilterOp::Ne => !words::same(actual, expected),
        FilterOp::Gt => words::is_before(expected, actual),
        FilterOp::Gte => !words::is_before(actual, expected),
        FilterOp::Lt => words::is_before(actual, expected),
        FilterOp::Lte => !words::is_before(expected, actual),
        FilterOp::Contains => contains_lowercase(actual, expected),
        FilterOp::NotContains => !contains_lowercase(actual, expected),
    }
}

/// Of two opposite operators exactly one holds: `=` and `!=`, `>` and `<=`, `<` and `>=`, `~` and
/// `!~`.
pub proof fn law_opposite_operators(actual: Seq<char>, expected: Seq<char>)
    ensures
        matches_op(actual, FilterOp::Eq, expected) != matches_op(actual, FilterOp::Ne, expected),
        matches_op(actual, FilterOp::Gt, expected) != matches_op(actual, FilterOp::Lte, expected),
        matches_op(actual, FilterOp::Lt, expected) != matches_op(actual, FilterOp::Gte, expected),
        matches_op(actual, FilterOp::Contains, expected) != matches_op(
            actual,
            FilterOp::NotContains,
            expected,
        ),
{
    words::lemma_order_total(actual, expected);
}

/// The fields of one document: a list of values for each name.
#[derive(Debug, Clone)]
pub struct Fields {
    pub entries: Vec<(String, Vec<String>)>,
}

/// The values that the first entry with this name holds.
pub open spec fn values_at(entries: Seq<(String, Vec<String>)>, name: Seq<char>) -> Option<
    Seq<Seq<char>>,
>
    decreases entries.len(),
{
    if entries.len() == 0 {
        None
    } else if entries[0].0@ == name {
        Some(lines::texts(entries[0].1@))
    } else {
        values_at(entries.skip(1), name)
    }
}

impl Fields {
    /// The values under a name, if there are any.
    pub open spec fn at(self, name: Seq<char>) -> Option<Seq<Seq<char>>> {
        values_at(self.entries@, name)
    }

    /// No fields.
    pub fn new() -> (r: Self)
        ensures
            forall|name: Seq<char>| #[trigger] r.at(name) is None,
    {
        Fields { entries: Vec::new() }
    }

    /// Place of the first entry with this name, or the number of entries.
    fn position(&self, name: &str) -> (p: usize)
        ensures
            p <= self.entries@.len(),
            forall|i: int| 0 <= i < p ==> (#[trigger] self.entries@[i]).0@ != name@,
            p < self.entries@.len() ==> self.entries@[p as int].0@ == name@,
    {
        let mut p: usize = 0;
        while p < self.entries.len()
            invariant
                p <= self.entries@.len(),
                forall|i: int| 0 <= i < p ==> (#[trigger] self.entries@[i]).0@ != name@,
            decreases self.entries.len() - p,
        {
            if words::same(self.entries[p].0.as_str(), name) {
                return p;
            }
            p += 1;
        }
        p
    }

    /// The values under a name.
    pub fn get(&self, name: &str) -> (r: Option<&Vec<String>>)
        ensures
            r is None <==> self.at(name@) is None,
            r matches Some(values) ==> self.at(name@) == Some(lines::texts(values@)),
    {
        let p: usize = self.position(name);
        proof {
            lemma_values_at(self.entries@, name@, p as int);
        }
        if p < self.entries.len() {
            Some(&self.entries[p].1)
        } else {
            None
        }
    }

    /// Puts one value in place of those under a name.
    pub fn set(&mut self, name: &str, value: &str)
        ensures
            final(self).at(name@) == Some(seq![value@]),
            forall|other: Seq<char>| other != name@ ==> #[trigger] final(self).at(other) == old(
                self,
            ).at(other),
    {
        let p: usize = self.position(name);
        let ghost before = self.entries@;
        let mut values: Vec<String> = Vec::new();
        values.push(value.to_owned());
        let ghost vs = lines::texts(values@);
        if p < self.entries.len() {
            self.entries[p].1 = values;
        } else {
            self.entries.push((name.to_owned(), values));
        }
        proof {
            assert(vs =~= seq![value@]);
            lemma_replaced(before, self.entries@, name@, p as int, vs);
        }
    }

    /// Adds a value to those under a name.
    pub fn push(&mut self, name: &str, value: &str)
        ensures
            final(self).at(name@) == Some(
                match old(self).at(name@) {
                    Some(values) => values.push(value@),
                    None => seq![value@],
                },
            ),
            forall|other: Seq<char>| other != name@ ==> #[trigger] final(self).at(other) == old(
                self,
            ).at(other),
    {
        let p: usize = self.position(name);
        let ghost before = self.entries@;
        proof {
            lemma_values_at(before, name@, p as int);
        }
        if p < self.entries.len() {
            self.entries[p].1.push(value.to_owned());
            proof {
                let vs = lines::texts(before[p as int].1@).push(value@);
                assert(lines::texts(self.entries@[p as int].1@) =~= vs);
                lemma_replaced(before, self.entries@, name@, p as int, vs);
            }
        } else {
            let mut values: Vec<String> = Vec::new();
            values.push(value.to_owned());
            let ghost vs = lines::texts(values@);
            self.entries.push((name.to_owned(), values));
            proof {
                assert(vs =~= seq![value@]);
                lemma_replaced(before, self.entries@, name@, p as int, vs);
            }
        }
    }
}

proof fn lemma_values_at(entries: Seq<(String, Vec<String>)>, name: Seq<char>, p: int)
    requires
        0 <= p <= entries.len(),
        forall|i: int| 0 <= i < p ==> (#[trigger] entries[i]).0@ != name,
        p < entries.len() ==> entries[p].0@ == name,
    ensures
        values_at(entries, name) == (if p < entries.len() {
            Some(lines::texts(entries[p].1@))
        } else {
            None
        }),
    decreases entries.len(),
{
    if p > 0 {
        assert(entries[0].0@ != name);
        let rest = entries.skip(1);
        assert forall|i: int| 0 <= i < p - 1 implies (#[trigger] rest[i]).0@ != name by {
            assert(entries[i + 1].0@ != name);
        }
        lemma_values_at(rest, name, p - 1);
    }
}

/// Other names keep their values where one entry is changed or added.
proof fn lemma_other_values(
    before: Seq<(String, Vec<String>)>,
    after: Seq<(String, Vec<String>)>,
    name: Seq<char>,
    other: Seq<char>,
    p: int,
)
    requires
        0 <= p <= before.len(),
        other != name,
        p < before.len() ==> before[p].0@ == name,
        after.len() == if p < before.len() {
            before.len()
        } else {
            before.len() + 1
        },
        after[p].0@ == name,
        forall|i: int| 0 <= i < before.len() && i != p ==> #[trigger] before[i] == after[i],
    ensures
        values_at(after, other) == values_at(before, other),
    decreases before.len(),
{
    if before.len() == 0 {
        assert(after.skip(1).len() == 0);
    } else if p == 0 {
        assert(before.skip(1) =~= after.skip(1));
    } else {
        assert(before[0] == after[0]);
        let b = before.skip(1);
        let a = after.skip(1);
        assert forall|i: int| 0 <= i < b.len() && i != p - 1 implies #[trigger] b[i] == a[i] by {
            assert(before[i + 1] == after[i + 1]);
        }
        lemma_other_values(b, a, name, other, p - 1);
    }
}

proof fn lemma_replaced(
    before: Seq<(String, Vec<String>)>,
    after: Seq<(String, Vec<String>)>,
    name: Seq<char>,
    p: int,
    values: Seq<Seq<char>>,
)
    requires
        0 <= p <= before.len(),
        forall|i: int| 0 <= i < p ==> (#[trigger] before[i]).0@ != name,
        p < before.len() ==> before[p].0@ == name,
        after.len() == if p < before.len() {
            before.len()
        } else {
            before.len() + 1
        },
        after[p].0@ == name,
        lines::texts(after[p].1@) == values,
        forall|i: int| 0 <= i < before.len() && i != p ==> #[trigger] before[i] == after[i],
    ensures
        values_at(after, name) == Some(values),
        forall|other: Seq<char>|
            other != name ==> #[trigger] values_at(after, other) == values_at(before, other),
{
    assert forall|i: int| 0 <= i < p implies (#[trigger] after[i]).0@ != name by {
        assert(before[i] == after[i]);
    }
    lemma_values_at(after, name, p);
    assert forall|other: Seq<char>| other != name implies #[trigger] values_at(after, other)
        == values_at(before, other) by {
        lemma_other_values(before, after, name, other, p);
    }
}

/// One of the values stands in the relation that the clause asks for.
pub open spec fn any_matches(values: Seq<Seq<char>>, op: FilterOp, expected: Seq<char>) -> bool {
    exists|i: int| 0 <= i < values.len() && matches_op(#[trigger] values[i], op, expected)
}

/// Whether a clause holds of a document: multi-valued fields pass with any matching value, and a
/// field that is missing does not pass.
pub fn eval_clause(clause: &FilterClause, fields: &Fields) -> (b: bool)
    ensures
        b == (match fields.at(clause.field@) {
            Some(values) => any_matches(values, clause.op, clause.value@),
            None => false,
        }),
{
    match fields.get(clause.field.as_str()) {
        Some(values) => {
            let ghost vs = lines::texts(values@);
            let mut i: usize = 0;
            while i < values.len()
                invariant
                    i <= values@.len(),
                    vs == lines::texts(values@),
                    fields.at(clause.field@) == Some(vs),
                    forall|j: int|
                        0 <= j < i ==> !matches_op(#[trigger] vs[j], clause.op, clause.value@),
                decreases values.len() - i,
            {
                if match_op(values[i].as_str(), clause.op, clause.value.as_str()) {
                    proof {
                        assert(matches_op(vs[i as int], clause.op, clause.value@));
                    }
                    return true;
                }
                i += 1;
            }
            false
        },
        None => false,
    }
}

/// The last of the rows with this path.
pub open spec fn last_document(rows: Seq<DocumentRow>, path: Seq<char>) -> Option<DocumentRow>
    decreases rows.len(),
{
    if rows.len() == 0 {
        None
    } else if rows.last().path@ == path {
        Some(rows.last())
    } else {
        last_document(rows.drop_last(), path)
    }
}

/// The row of a document: the last one with its collection and path.
pub open spec fn document_row(
    tables: Seq<CollectionRows>,
    collection: Seq<char>,
    path: Seq<char>,
) -> Option<DocumentRow>
    decreases tables.len(),
{
    if tables.len() == 0 {
        None
    } else if tables.last().name@ == collection && last_document(
        tables.last().documents@,
        path,
    ) is Some {
        last_document(tables.last().documents@, path)
    } else {
        document_row(tables.drop_last(), collection, path)
    }
}

/// The values of the rows with this path and key, in order.
pub open spec fn metadata_in(rows: Seq<MetadataRow>, path: Seq<char>, key: Seq<char>) -> Seq<
    Seq<char>,
>
    decreases rows.len(),
{
    if rows.len() == 0 {
        Seq::empty()
    } else if rows.last().path@ == path && rows.last().key@ == key {
        metadata_in(rows.drop_last(), path, key).push(rows.last().value@)
    } else {
        metadata_in(rows.drop_last(), path, key)
    }
}

/// The values that a document has under a key of its frontmatter, in order.
pub open spec fn metadata_values(
    tables: Seq<CollectionRows>,
    collection: Seq<char>,
    path: Seq<char>,
    key: Seq<char>,
) -> Seq<Seq<char>>
    decreases tables.len(),
{
    if tables.len() == 0 {
        Seq::empty()
    } else if tables.last().name@ == collection {
        metadata_values(tables.drop_last(), collection, path, key) + metadata_in(
            tables.last().metadata@,
            path,
            key,
        )
    } else {
        metadata_values(tables.drop_last(), collection, path, key)
    }
}

/// What the names of the fields of the frontmatter begin with.
pub open spec fn meta_prefix() -> Seq<char> {
    seq!['m', 'e', 't', 'a', '.']
}

/// `field` is a field of the frontmatter.
pub open spec fn is_meta(field: Seq<char>) -> bool {
    words::occurs_at(field, meta_prefix(), 0)
}

/// The values of a field that the documents table holds.
pub open spec fn builtin_values(row: Option<DocumentRow>, path: Seq<char>, field: Seq<char>) -> Seq<
    Seq<char>,
> {
    match row {
        Some(row) => if field == "modified_at"@ {
            seq![row.modified_at@]
        } else if field == "created_at"@ {
            seq![row.created_at@]
        } else if field == "path"@ {
            seq![path]
        } else {
            Seq::empty()
        },
        None => Seq::empty(),
    }
}

/// The values that a document has in a field.
pub open spec fn field_values(
    tables: Seq<CollectionRows>,
    collection: Seq<char>,
    path: Seq<char>,
    field: Seq<char>,
) -> Seq<Seq<char>> {
    if is_meta(field) {
        metadata_values(tables, collection, path, field.skip(5))
    } else {
        builtin_values(document_row(tables, collection, path), path, field)
    }
}

/// A clause holds of a document: some value that it has in the field matches.
pub open spec fn clause_holds(
    tables: Seq<CollectionRows>,
    collection: Seq<char>,
    path: Seq<char>,
    clause: FilterClause,
) -> bool {
    any_matches(
        field_values(tables, collection, path, clause.field@),
        clause.op,
        clause.value@,
    )
}

/// All clauses hold of a document.
pub open spec fn passes(
    tables: Seq<CollectionRows>,
    clauses: Seq<FilterClause>,
    collection: Seq<char>,
    path: Seq<char>,
) -> bool {
    forall|i: int|
        0 <= i < clauses.len() ==> clause_holds(tables, collection, path, #[trigger] clauses[i])
}

/// The results that pass, in order.
pub open spec fn retained<R>(
    candidates: Seq<SearchResult<R>>,
    tables: Seq<CollectionRows>,
    clauses: Seq<FilterClause>,
) -> Seq<SearchResult<R>>
    decreases candidates.len(),
{
    if candidates.len() == 0 {
        candidates
    } else {
        let front = retained(candidates.drop_last(), tables, clauses);
        let last = candidates.last();
        if passes(tables, clauses, last.collection@, last.path@) {
            front.push(last)
        } else {
            front
        }
    }
}

/// Whether a clause asks for a field of the frontmatter.
pub fn needs_metadata(filter: &Filter) -> (b: bool)
    ensures
        b == (exists|i: int|
            0 <= i < filter.clauses@.len() && is_meta((#[trigger] filter.clauses@[i]).field@)),
{
    proof {
        reveal_strlit("meta.");
        assert("meta."@ =~= meta_prefix());
    }
    let mut i: usize = 0;
    while i < filter.clauses.len()
        invariant
            i <= filter.clauses@.len(),
            "meta."@ == meta_prefix(),
            forall|j: int| 0 <= j < i ==> !is_meta((#[trigger] filter.clauses@[j]).field@),
        decreases filter.clauses.len() - i,
    {
        if words::starts_with(filter.clauses[i].field.as_str(), "meta.") {
            return true;
        }
        i += 1;
    }
    false
}

/// The paths of the results in one collection.
pub open spec fn paths_of<R>(candidates: Seq<SearchResult<R>>, collection: Seq<char>) -> Seq<
    Seq<char>,
>
    decreases candidates.len(),
{
    if candidates.len() == 0 {
        Seq::empty()
    } else if candidates.last().collection@ == collection {
        paths_of(candidates.drop_last(), collection).push(candidates.last().path@)
    } else {
        paths_of(candidates.drop_last(), collection)
    }
}

/// The paths of the results in one collection, in order.
pub fn paths_in<R>(candidates: &Vec<SearchResult<R>>, collection: &str) -> (paths: Vec<String>)
    ensures
        lines::texts(paths@) == paths_of(candidates@, collection@),
{
    let mut paths: Vec<String> = Vec::new();
    let mut i: usize = 0;
    proof {
        assert(candidates@.take(0) =~= Seq::empty());
        assert(lines::texts(paths@) =~= paths_of(candidates@.take(0), collection@));
    }
    while i < candidates.len()
        invariant
            i <= candidates@.len(),
            lines::texts(paths@) == paths_of(candidates@.take(i as int), collection@),
        decreases candidates.len() - i,
    {
        let candidate = &candidates[i];
        proof {
            assert(candidates@.take(i + 1).drop_last() =~= candidates@.take(i as int));
            assert(candidates@.take(i + 1).last() == candidates@[i as int]);
        }
        if words::same(candidate.collection.as_str(), collection) {
            let ghost before = lines::texts(paths@);
            paths.push(candidate.path.clone());
            proof {
                assert(lines::texts(paths@) =~= before.push(candidate.path@));
            }
        }
        i += 1;
    }
    proof {
        assert(candidates@.take(i as int) =~= candidates@);
    }
    paths
}

/// The list is missing where it is empty.
pub open spec fn present(values: Seq<Seq<char>>) -> Option<Seq<Seq<char>>> {
    if values.len() == 0 {
        None
    } else {
        Some(values)
    }
}

fn find_last_document<'a>(rows: &'a Vec<DocumentRow>, path: &str) -> (r: Option<&'a DocumentRow>)
    ensures
        r is None <==> last_document(rows@, path@) is None,
        r matches Some(row) ==> last_document(rows@, path@) == Some(*row),
{
    let mut n: usize = rows.len();
    proof {
        assert(rows@.take(n as int) =~= rows@);
    }
    while n > 0
        invariant
            n <= rows@.len(),
            last_document(rows@, path@) == last_document(rows@.take(n as int), path@),
        decreases n,
    {
        let row = &rows[n - 1];
        proof {
            assert(rows@.take(n as int).last() == *row);
            assert(rows@.take(n as int).drop_last() =~= rows@.take(n - 1));
        }
        if words::same(row.path.as_str(), path) {
            return Some(row);
        }
        n -= 1;
    }
    None
}

fn find_document_row<'a>(
    tables: &'a Vec<CollectionRows>,
    collection: &str,
    path: &str,
) -> (r: Option<&'a DocumentRow>)
    ensures
        r is None <==> document_row(tables@, collection@, path@) is None,
        r matches Some(row) ==> document_row(tables@, collection@, path@) == Some(*row),
{
    let mut n: usize = tables.len();
    proof {
        assert(tables@.take(n as int) =~= tables@);
    }
    while n > 0
        invariant
            n <= tables@.len(),
            document_row(tables@, collection@, path@) == document_row(
                tables@.take(n as int),
                collection@,
                path@,
            ),
        decreases n,
    {
        let table = &tables[n - 1];
        proof {
            assert(tables@.take(n as int).last() == *table);
            assert(tables@.take(n as int).drop_last() =~= tables@.take(n - 1));
        }
        if words::same(table.name.as_str(), collection) {
            let found = find_last_document(&table.documents, path);
            if found.is_some() {
                return found;
            }
        }
        n -= 1;
    }
    None
}

proof fn lemma_builtin_names()
    ensures
        "modified_at"@ != "created_at"@,
        "modified_at"@ != "path"@,
        "created_at"@ != "path"@,
        !is_meta("modified_at"@),
        !is_meta("created_at"@),
        !is_meta("path"@),
{
    reveal_strlit("modified_at");
    reveal_strlit("created_at");
    reveal_strlit("path");
    assert("modified_at"@.len() == 11 && "created_at"@.len() == 10 && "path"@.len() == 4);
    assert(meta_prefix()[1] == 'e');
    assert("modified_at"@.subrange(0, 5)[1] == 'o');
    assert("created_at"@.subrange(0, 5)[1] == 'r');
}

/// The fields that the documents table holds of a document.
fn builtin_fields(row: Option<&DocumentRow>, path: &str) -> (fields: Fields)
    ensures
        forall|field: Seq<char>| #[trigger]
            fields.at(field) == present(
                builtin_values(
                    match row {
                        Some(r) => Some(*r),
                        None => None,
                    },
                    path@,
                    field,
                ),
            ),
{
    proof {
        lemma_builtin_names();
    }
    let mut fields = Fields::new();
    if let Some(row) = row {
        fields.set("modified_at", row.modified_at.as_str());
        fields.set("created_at", row.created_at.as_str());
        fields.set("path", path);
    }
    fields
}

fn meta_name(key: &str) -> (name: String)
    ensures
        name@ == meta_prefix() + key@,
{
    proof {
        reveal_strlit("meta.");
        assert("meta."@ =~= meta_prefix());
    }
    let mut name = "meta.".to_owned();
    name.append(key);
    name
}

proof fn lemma_meta_name(key: Seq<char>, field: Seq<char>)
    ensures
        is_meta(meta_prefix() + key),
        (meta_prefix() + key).skip(5) == key,
        is_meta(field) ==> (field == meta_prefix() + key <==> field.skip(5) == key),
{
    let name = meta_prefix() + key;
    assert(name.subrange(0, 5) =~= meta_prefix());
    assert(name.skip(5) =~= key);
    if is_meta(field) {
        assert(field =~= field.subrange(0, 5) + field.skip(5));
    }
}

/// Adds the values of the frontmatter of a document that one table holds.
fn add_metadata(fields: &mut Fields, rows: &Vec<MetadataRow>, path: &str)
    ensures
        forall|field: Seq<char>| !is_meta(field) ==> #[trigger] final(fields).at(field) == old(
            fields,
        ).at(field),
        forall|field: Seq<char>, values: Seq<Seq<char>>|
            #![trigger final(fields).at(field), present(values)]
            is_meta(field) && old(fields).at(field) == present(values) ==> final(fields).at(field)
                == present(values + metadata_in(rows@, path@, field.skip(5))),
{
    let ghost before = *fields;
    let mut i: usize = 0;
    proof {
        assert(rows@.take(0) =~= Seq::empty());
        assert forall|field: Seq<char>, values: Seq<Seq<char>>|
            #![trigger fields.at(field), present(values)]
            is_meta(field) && before.at(field) == present(values) implies fields.at(field)
            == present(values + metadata_in(rows@.take(0), path@, field.skip(5))) by {
            assert(values + metadata_in(rows@.take(0), path@, field.skip(5)) =~= values);
        }
    }
    while i < rows.len()
        invariant
            i <= rows@.len(),
            forall|field: Seq<char>|
                !is_meta(field) ==> #[trigger] fields.at(field) == before.at(field),
            forall|field: Seq<char>, values: Seq<Seq<char>>|
                #![trigger fields.at(field), present(values)]
                is_meta(field) && before.at(field) == present(values) ==> fields.at(field)
                    == present(
                    values + metadata_in(rows@.take(i as int), path@, field.skip(5)),
                ),
        decreases rows.len() - i,
    {
        let row = &rows[i];
        let ghost now = *fields;
        let ghost front = rows@.take(i as int);
        let ghost more = rows@.take(i + 1);
        let here = words::same(row.path.as_str(), path);
        if here {
            let name = meta_name(row.key.as_str());
            fields.push(name.as_str(), row.value.as_str());
        }
        proof {
            let name = meta_prefix() + row.key@;
            assert(more.drop_last() =~= front);
            assert(more.last() == *row);
            lemma_meta_name(row.key@, row.key@);
            assert forall|field: Seq<char>, values: Seq<Seq<char>>|
                #![trigger fields.at(field), present(values)]
                is_meta(field) && before.at(field) == present(values) implies fields.at(field)
                == present(values + metadata_in(more, path@, field.skip(5))) by {
                lemma_meta_name(row.key@, field);
                let old_values = values + metadata_in(front, path@, field.skip(5));
                assert(now.at(field) == present(old_values));
                if here && field == name {
                    assert(values + metadata_in(more, path@, field.skip(5)) =~= old_values.push(
                        row.value@,
                    ));
                    if old_values.len() == 0 {
                        assert(old_values.push(row.value@) =~= seq![row.value@]);
                    }
                } else if here {
                    assert(fields.at(field) == now.at(field));
                }
            }
        }
        i += 1;
    }
    proof {
        assert(rows@.take(i as int) =~= rows@);
    }
}

/// The fields of one document.
pub fn fields_of(tables: &Vec<CollectionRows>, collection: &str, path: &str) -> (fields: Fields)
    ensures
        forall|field: Seq<char>| #[trigger]
            fields.at(field) == present(
                field_values(tables@, collection@, path@, field),
            ),
{
    let row = find_document_row(tables, collection, path);
    let mut fields = builtin_fields(row, path);
    let mut t: usize = 0;
    proof {
        lemma_builtin_names();
        assert(tables@.take(0) =~= Seq::empty());
    }
    while t < tables.len()
        invariant
            t <= tables@.len(),
            forall|field: Seq<char>|
                !is_meta(field) ==> #[trigger] fields.at(field) == present(
                    field_values(tables@, collection@, path@, field),
                ),
            forall|field: Seq<char>|
                is_meta(field) ==> #[trigger] fields.at(field) == present(
                    metadata_values(
                        tables@.take(t as int),
                        collection@,
                        path@,
                        field.skip(5),
                    ),
                ),
        decreases tables.len() - t,
    {
        let table = &tables[t];
        let ghost now = fields;
        proof {
            assert(tables@.take(t + 1).drop_last() =~= tables@.take(t as int));
            assert(tables@.take(t + 1).last() == *table);
        }
        if words::same(table.name.as_str(), collection) {
            add_metadata(&mut fields, &table.metadata, path);
            proof {
                assert forall|field: Seq<char>| is_meta(field) implies #[trigger] fields.at(field)
                    == present(
                    metadata_values(tables@.take(t + 1), collection@, path@, field.skip(5)),
                ) by {
                    let values = metadata_values(
                        tables@.take(t as int),
                        collection@,
                        path@,
                        field.skip(5),
                    );
                    assert(now.at(field) == present(values));
                    assert(fields.at(field) == present(
                        values + metadata_in(table.metadata@, path@, field.skip(5)),
                    ));
                }
            }
        }
        t += 1;
    }
    proof {
        assert(tables@.take(t as int) =~= tables@);
    }
    fields
}

fn all_hold(filter: &Filter, fields: &Fields) -> (b: bool)
    ensures
        b == (forall|i: int|
            0 <= i < filter.clauses@.len() ==> match fields.at((#[trigger] filter.clauses@[i]).field@) {
                Some(values) => any_matches(
                    values,
                    filter.clauses@[i].op,
                    filter.clauses@[i].value@,
                ),
                None => false,
            }),
{
    let mut i: usize = 0;
    while i < filter.clauses.len()
        invariant
            i <= filter.clauses@.len(),
            forall|j: int|
                0 <= j < i ==> match fields.at((#[trigger] filter.clauses@[j]).field@) {
                    Some(values) => any_matches(
                        values,
                        filter.clauses@[j].op,
                        filter.clauses@[j].value@,
                    ),
                    None => false,
                },
        decreases filter.clauses.len() - i,
    {
        if !eval_clause(&filter.clauses[i], fields) {
            return false;
        }
        i += 1;
    }
    true
}

/// Whether a document passes the filter.
pub fn document_passes(
    tables: &Vec<CollectionRows>,
    filter: &Filter,
    collection: &str,
    path: &str,
) -> (b: bool)
    ensures
        b == passes(tables@, filter.clauses@, collection@, path@),
{
    let fields = fields_of(tables, collection, path);
    let b = all_hold(filter, &fields);
    proof {
        assert forall|i: int| 0 <= i < filter.clauses@.len() implies clause_holds(
            tables@,
            collection@,
            path@,
            #[trigger] filter.clauses@[i],
        ) == (match fields.at(filter.clauses@[i].field@) {
            Some(values) => any_matches(values, filter.clauses@[i].op, filter.clauses@[i].value@),
            None => false,
        }) by {
            let clause = filter.clauses@[i];
            assert(fields.at(clause.field@) == present(
                field_values(tables@, collection@, path@, clause.field@),
            ));
        }
    }
    b
}

/// Retain only candidates that pass all clauses in `filter`, given what the tables hold of their
/// documents. A document that the tables do not hold does not pass. With no clause, all stay.
pub fn apply<R>(
    candidates: &mut Vec<SearchResult<R>>,
    filter: &Filter,
    tables: &Vec<CollectionRows>,
)
    ensures
        final(candidates)@ == (if filter.clauses@.len() == 0 {
            old(candidates)@
        } else {
            retained(old(candidates)@, tables@, filter.clauses@)
        }),
        forall|result: SearchResult<R>| #[trigger]
            final(candidates)@.contains(result) <==> old(candidates)@.contains(result) && passes(
                tables@,
                filter.clauses@,
                result.collection@,
                result.path@,
            ),
{
    if filter.is_empty() {
        return ;
    }
    let ghost all = candidates@;
    let n: usize = candidates.len();
    let mut done: usize = 0;
    let mut i: usize = 0;
    proof {
        assert(all.take(0) =~= Seq::empty());
        assert(candidates@ =~= retained(all.take(0), tables@, filter.clauses@) + all.skip(0));
    }
    while done < n
        invariant
            done <= n == all.len(),
            i <= done,
            i == retained(all.take(done as int), tables@, filter.clauses@).len(),
            candidates@ == retained(all.take(done as int), tables@, filter.clauses@) + all.skip(
                done as int,
            ),
        decreases n - done,
    {
        let ghost front = retained(all.take(done as int), tables@, filter.clauses@);
        let ghost next = all[done as int];
        proof {
            assert(all.take(done + 1).drop_last() =~= all.take(done as int));
            assert(all.take(done + 1).last() == next);
            assert(candidates@[i as int] == next);
        }
        let candidate = &candidates[i];
        if document_passes(tables, filter, candidate.collection.as_str(), candidate.path.as_str()) {
            proof {
                assert(candidates@ =~= front.push(next) + all.skip(done + 1));
            }
            i += 1;
        } else {
            candidates.remove(i);
            proof {
                assert(candidates@ =~= front + all.skip(done + 1));
            }
        }
        done += 1;
    }
    proof {
        assert(all.take(n as int) =~= all);
        assert(candidates@ =~= retained(all, tables@, filter.clauses@));
        assert forall|result: SearchResult<R>| #[trigger]
            candidates@.contains(result) <==> all.contains(result) && passes(
                tables@,
                filter.clauses@,
                result.collection@,
                result.path@,
            ) by {
            filter_laws::law_retained_pass(all, tables@, filter.clauses@, result);
        }
    }
}

} // verus!
