//! Rows of a query gathered by their text column.

use vstd::prelude::*;

use crate::text::words;

verus! {

/// The numbers that came with one text, in row order.
#[derive(Debug, Clone)]
pub struct Group {
    pub name: String,
    pub ids: Vec<i64>,
}

impl View for Group {
    type V = (Seq<char>, Seq<i64>);

    open spec fn view(&self) -> (Seq<char>, Seq<i64>) {
        (self.name@, self.ids@)
    }
}

/// Rows as mathematical values.
pub open spec fn row_views(rows: Seq<(String, i64)>) -> Seq<(Seq<char>, i64)> {
    rows.map_values(|r: (String, i64)| (r.0@, r.1))
}

/// Groups as mathematical values.
pub open spec fn group_views(groups: Seq<Group>) -> Seq<(Seq<char>, Seq<i64>)> {
    groups.map_values(|g: Group| g@)
}

/// The numbers that the rows with this text hold, in row order.
pub open spec fn ids_of(rows: Seq<(Seq<char>, i64)>, name: Seq<char>) -> Seq<i64>
    decreases rows.len(),
{
    if rows.len() == 0 {
        Seq::empty()
    } else if rows.last().0 == name {
        ids_of(rows.drop_last(), name).push(rows.last().1)
    } else {
        ids_of(rows.drop_last(), name)
    }
}

/// The texts of the groups ascend.
pub open spec fn ascending(groups: Seq<(Seq<char>, Seq<i64>)>) -> bool {
    forall|i: int, j: int|
        0 <= i < j < groups.len() ==> words::precedes(#[trigger] groups[i].0, #[trigger] groups[j].0)
}

/// `name` is the text of one of the groups.
pub open spec fn names(groups: Seq<(Seq<char>, Seq<i64>)>, name: Seq<char>) -> bool {
    exists|i: int| 0 <= i < groups.len() && (#[trigger] groups[i]).0 == name
}

/// `groups` holds one group for each text that occurs in `rows`, in ascending order, with all the
/// numbers that came with it.
pub open spec fn is_grouping(
    groups: Seq<(Seq<char>, Seq<i64>)>,
    rows: Seq<(Seq<char>, i64)>,
) -> bool {
    &&& ascending(groups)
    &&& forall|i: int|
        0 <= i < groups.len() ==> (#[trigger] groups[i]).1 == ids_of(rows, groups[i].0)
            && groups[i].1.len() > 0
    &&& forall|r: int| 0 <= r < rows.len() ==> names(groups, (#[trigger] rows[r]).0)
}

/// Number of groups whose text comes before `name`.
pub fn lower_bound(groups: &Vec<Group>, name: &str) -> (n: usize)
    requires
        ascending(group_views(groups@)),
    ensures
        n <= groups@.len(),
        forall|i: int|
            0 <= i < n ==> words::precedes((#[trigger] group_views(groups@)[i]).0, name@),
        forall|i: int|
            n <= i < groups@.len() ==> !words::precedes(
                (#[trigger] group_views(groups@)[i]).0,
                name@,
            ),
{
    let ghost gs = group_views(groups@);
    let mut lo: usize = 0;
    let mut hi: usize = groups.len();
    while lo < hi
        invariant
            lo <= hi <= groups@.len(),
            gs == group_views(groups@),
            ascending(gs),
            forall|i: int| 0 <= i < lo ==> words::precedes((#[trigger] gs[i]).0, name@),
            forall|i: int|
                hi <= i < groups@.len() ==> !words::precedes((#[trigger] gs[i]).0, name@),
        decreases hi - lo,
    {
        let mid: usize = lo + (hi - lo) / 2;
        if words::is_before(groups[mid].name.as_str(), name) {
            proof {
                assert forall|i: int| 0 <= i < mid + 1 implies words::precedes(
                    (#[trigger] gs[i]).0,
                    name@,
                ) by {
                    assert(gs[mid as int].0 == groups@[mid as int].name@);
                    if i < mid {
                        words::lemma_order_transitive(gs[i].0, gs[mid as int].0, name@);
                    }
                }
            }
            lo = mid + 1;
        } else {
            proof {
                assert forall|i: int| mid <= i < groups@.len() implies !words::precedes(
                    (#[trigger] gs[i]).0,
                    name@,
                ) by {
                    assert(gs[mid as int].0 == groups@[mid as int].name@);
                    if i > mid && words::precedes(gs[i].0, name@) {
                        words::lemma_order_transitive(gs[mid as int].0, gs[i].0, name@);
                    }
                }
            }
            hi = mid;
        }
    }
    lo
}

/// The group with this text, if there is one.
pub fn find_group(groups: &Vec<Group>, name: &str) -> (r: Option<usize>)
    requires
        ascending(group_views(groups@)),
    ensures
        r is None ==> !names(group_views(groups@), name@),
        r matches Some(i) ==> i < groups@.len() && group_views(groups@)[i as int].0 == name@,
{
    let ghost gs = group_views(groups@);
    let n: usize = lower_bound(groups, name);
    if n < groups.len() && words::same(groups[n].name.as_str(), name) {
        proof {
            assert(gs[n as int].0 == groups@[n as int].name@);
        }
        Some(n)
    } else {
        proof {
            assert forall|i: int| 0 <= i < gs.len() implies (#[trigger] gs[i]).0 != name@ by {
                if i < n {
                    words::lemma_order_total(gs[i].0, name@);
                } else if n < i {
                    assert(gs[n as int].0 == groups@[n as int].name@);
                    words::lemma_order_total(gs[n as int].0, name@);
                    words::lemma_order_total(gs[i].0, name@);
                } else {
                    assert(gs[n as int].0 == groups@[n as int].name@);
                }
            }
        }
        None
    }
}

pub proof fn lemma_ids_of_other(rows: Seq<(Seq<char>, i64)>, name: Seq<char>)
    requires
        forall|r: int| 0 <= r < rows.len() ==> (#[trigger] rows[r]).0 != name,
    ensures
        ids_of(rows, name) == Seq::<i64>::empty(),
    decreases rows.len(),
{
    if rows.len() > 0 {
        lemma_ids_of_other(rows.drop_last(), name);
    }
}

/// One more row for a text that has a group goes to the end of that group.
proof fn lemma_extend_group(
    before: Seq<(Seq<char>, Seq<i64>)>,
    after: Seq<(Seq<char>, Seq<i64>)>,
    rows: Seq<(Seq<char>, i64)>,
    n: int,
)
    requires
        rows.len() > 0,
        is_grouping(before, rows.drop_last()),
        0 <= n < before.len(),
        before[n].0 == rows.last().0,
        after == before.update(n, (before[n].0, before[n].1.push(rows.last().1))),
    ensures
        is_grouping(after, rows),
{
    assert forall|i: int| 0 <= i < after.len() implies (#[trigger] after[i]).1 == ids_of(
        rows,
        after[i].0,
    ) && after[i].1.len() > 0 by {
        assert(before[i].1 == ids_of(rows.drop_last(), before[i].0));
        if i < n {
            assert(words::precedes(before[i].0, before[n].0));
        } else if i > n {
            assert(words::precedes(before[n].0, before[i].0));
        }
        if i != n {
            words::lemma_order_total(before[i].0, before[n].0);
        }
    }
    assert forall|r: int| 0 <= r < rows.len() implies names(after, (#[trigger] rows[r]).0) by {
        if r < rows.len() - 1 {
            assert(rows.drop_last()[r] == rows[r]);
            assert(names(before, rows.drop_last()[r].0));
            let i = choose|i: int| 0 <= i < before.len() && (#[trigger] before[i]).0 == rows[r].0;
            assert(after[i].0 == rows[r].0);
        } else {
            assert(after[n].0 == rows[r].0);
        }
    }
    assert forall|i: int, j: int| 0 <= i < j < after.len() implies words::precedes(
        #[trigger] after[i].0,
        #[trigger] after[j].0,
    ) by {
        assert(words::precedes(before[i].0, before[j].0));
    }
}

/// A row for a text that has no group yet makes one, at its place in the order.
proof fn lemma_new_group(
    before: Seq<(Seq<char>, Seq<i64>)>,
    after: Seq<(Seq<char>, Seq<i64>)>,
    rows: Seq<(Seq<char>, i64)>,
    n: int,
)
    requires
        rows.len() > 0,
        is_grouping(before, rows.drop_last()),
        0 <= n <= before.len(),
        !names(before, rows.last().0),
        forall|i: int| 0 <= i < n ==> words::precedes((#[trigger] before[i]).0, rows.last().0),
        forall|i: int|
            n <= i < before.len() ==> !words::precedes((#[trigger] before[i]).0, rows.last().0),
        after == before.insert(n, (rows.last().0, seq![rows.last().1])),
    ensures
        is_grouping(after, rows),
{
    let name = rows.last().0;
    let front = rows.drop_last();
    assert forall|r: int| 0 <= r < front.len() implies (#[trigger] front[r]).0 != name by {
        assert(names(before, front[r].0));
    }
    lemma_ids_of_other(front, name);
    assert(ids_of(rows, name) =~= seq![rows.last().1]);
    assert forall|i: int| 0 <= i < after.len() implies (#[trigger] after[i]).1 == ids_of(
        rows,
        after[i].0,
    ) && after[i].1.len() > 0 by {
        if i != n {
            let j = if i < n { i } else { i - 1 };
            assert(after[i] == before[j]);
            assert(before[j].1 == ids_of(front, before[j].0));
            assert(before[j].0 != name);
        }
    }
    assert forall|r: int| 0 <= r < rows.len() implies names(after, (#[trigger] rows[r]).0) by {
        if r < rows.len() - 1 {
            assert(front[r] == rows[r]);
            assert(names(before, front[r].0));
            let i = choose|i: int| 0 <= i < before.len() && (#[trigger] before[i]).0 == rows[r].0;
            assert(after[if i < n { i } else { i + 1 }].0 == rows[r].0);
        } else {
            assert(after[n].0 == rows[r].0);
        }
    }
    assert forall|i: int, j: int| 0 <= i < j < after.len() implies words::precedes(
        #[trigger] after[i].0,
        #[trigger] after[j].0,
    ) by {
        let a = if i < n { i } else { i - 1 };
        let b = if j < n { j } else { j - 1 };
        if i == n {
            assert(after[j] == before[b]);
            assert(before[b].0 != name);
            words::lemma_order_total(before[b].0, name);
        } else if j == n {
            assert(after[i] == before[a]);
        } else {
            assert(after[i] == before[a] && after[j] == before[b]);
            assert(words::precedes(before[a].0, before[b].0));
        }
    }
}

/// Gathers rows by their text.
pub fn group_rows(rows: &Vec<(String, i64)>) -> (groups: Vec<Group>)
    ensures
        is_grouping(group_views(groups@), row_views(rows@)),
{
    let mut groups: Vec<Group> = Vec::new();
    let ghost rs = row_views(rows@);
    let mut i: usize = 0;
    while i < rows.len()
        invariant
            i <= rows@.len(),
            rs == row_views(rows@),
            is_grouping(group_views(groups@), rs.take(i as int)),
        decreases rows.len() - i,
    {
        let (name, id) = &rows[i];
        let ghost before = group_views(groups@);
        let ghost some = rs.take(i + 1);
        proof {
            assert(rs[i as int] == (name@, *id));
            assert(some.drop_last() =~= rs.take(i as int));
            assert(some.last() == (name@, *id));
        }
        let n: usize = lower_bound(&groups, name.as_str());
        let found = find_group(&groups, name.as_str());
        match found {
            Some(g) => {
                groups[g].ids.push(*id);
                proof {
                    assert(before[g as int].0 == name@);
                    assert(group_views(groups@) =~= before.update(
                        g as int,
                        (before[g as int].0, before[g as int].1.push(*id)),
                    ));
                    lemma_extend_group(before, group_views(groups@), some, g as int);
                }
            },
            None => {
                let mut ids: Vec<i64> = Vec::new();
                ids.push(*id);
                groups.insert(n, Group { name: name.clone(), ids });
                proof {
                    assert(ids@ =~= seq![*id]);
                    assert(group_views(groups@) =~= before.insert(n as int, (name@, seq![*id])));
                    lemma_new_group(before, group_views(groups@), some, n as int);
                }
            },
        }
        i += 1;
    }
    proof {
        assert(rs.take(i as int) =~= rs);
    }
    groups
}

proof fn lemma_group_has_row(
    groups: Seq<(Seq<char>, Seq<i64>)>,
    rows: Seq<(Seq<char>, i64)>,
    i: int,
) -> (r: int)
    requires
        is_grouping(groups, rows),
        0 <= i < groups.len(),
    ensures
        0 <= r < rows.len(),
        rows[r].0 == groups[i].0,
{
    assert(groups[i].1 == ids_of(rows, groups[i].0) && groups[i].1.len() > 0);
    if forall|r: int| 0 <= r < rows.len() ==> (#[trigger] rows[r]).0 != groups[i].0 {
        lemma_ids_of_other(rows, groups[i].0);
    }
    choose|r: int| 0 <= r < rows.len() && (#[trigger] rows[r]).0 == groups[i].0
}

proof fn lemma_groupings_agree(
    a: Seq<(Seq<char>, Seq<i64>)>,
    b: Seq<(Seq<char>, Seq<i64>)>,
    rows: Seq<(Seq<char>, i64)>,
    i: int,
)
    requires
        is_grouping(a, rows),
        is_grouping(b, rows),
        0 <= i < a.len(),
        i <= b.len(),
        forall|j: int| 0 <= j < i ==> #[trigger] a[j] == b[j],
    ensures
        i < b.len(),
        !words::precedes(a[i].0, b[i].0),
{
    let name = a[i].0;
    let r = lemma_group_has_row(a, rows, i);
    assert(names(b, rows[r].0));
    let q = choose|q: int| 0 <= q < b.len() && (#[trigger] b[q]).0 == name;
    if q < i {
        assert(a[q] == b[q]);
        assert(words::precedes(a[q].0, a[i].0));
        words::lemma_order_total(name, name);
    } else if q > i {
        assert(words::precedes(b[i].0, b[q].0));
        words::lemma_order_total(b[i].0, name);
    } else {
        words::lemma_order_total(name, name);
    }
}

proof fn lemma_same_groups(
    a: Seq<(Seq<char>, Seq<i64>)>,
    b: Seq<(Seq<char>, Seq<i64>)>,
    rows: Seq<(Seq<char>, i64)>,
    n: int,
)
    requires
        is_grouping(a, rows),
        is_grouping(b, rows),
        0 <= n <= a.len(),
    ensures
        n <= b.len(),
        forall|j: int| 0 <= j < n ==> #[trigger] a[j] == b[j],
    decreases n,
{
    if n > 0 {
        lemma_same_groups(a, b, rows, n - 1);
        lemma_groupings_agree(a, b, rows, n - 1);
        lemma_groupings_agree(b, a, rows, n - 1);
        words::lemma_order_total(a[n - 1].0, b[n - 1].0);
    }
}

/// The groups are determined by the rows.
pub proof fn law_grouping_is_unique(
    a: Seq<(Seq<char>, Seq<i64>)>,
    b: Seq<(Seq<char>, Seq<i64>)>,
    rows: Seq<(Seq<char>, i64)>,
)
    requires
        is_grouping(a, rows),
        is_grouping(b, rows),
    ensures
        a == b,
{
    let n = a.len() as int;
    lemma_same_groups(a, b, rows, n);
    if n < b.len() {
        lemma_groupings_agree(b, a, rows, n);
    }
    assert(a =~= b);
}

} // verus!
