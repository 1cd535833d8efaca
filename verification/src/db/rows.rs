//! Which of the embeddings that were read make up the rows of the similarity matrix.

use vstd::prelude::*;

use crate::db::row_laws;

verus! {

/// What matters of an embedding: how many numbers it holds, and whether its norm is zero.
#[derive(Debug, Clone, Copy)]
pub struct Embedding {
    pub len: usize,
    pub zero: bool,
}

/// What was found under each key of one source.
pub open spec fn found_views(found: Seq<Vec<Option<Embedding>>>) -> Seq<Seq<Option<Embedding>>> {
    found.map_values(|v: Vec<Option<Embedding>>| v@)
}

/// Length of the first embedding that is not empty; 0 when there is none.
pub open spec fn first_len(found: Seq<Option<Embedding>>) -> nat
    decreases found.len(),
{
    if found.len() == 0 {
        0
    } else {
        match found[0] {
            Some(e) if e.len > 0 => e.len as nat,
            _ => first_len(found.skip(1)),
        }
    }
}

/// The dimension of the matrix: the length of the first embedding of all.
pub open spec fn dimension(found: Seq<Seq<Option<Embedding>>>) -> nat
    decreases found.len(),
{
    if found.len() == 0 {
        0
    } else if first_len(found[0]) > 0 {
        first_len(found[0])
    } else {
        dimension(found.skip(1))
    }
}

/// An embedding makes a row: it was found, has the dimension of the matrix and can be brought to
/// unit length.
pub open spec fn is_row(e: Option<Embedding>, dim: nat) -> bool {
    match e {
        Some(e) => e.len > 0 && e.len == dim && !e.zero,
        None => false,
    }
}

/// The rows that the first `n` keys of source `s` give: the source and the key of each.
pub open spec fn rows_in(
    found: Seq<Option<Embedding>>,
    dim: nat,
    s: int,
    n: int,
) -> Seq<(int, int)>
    decreases n,
{
    if n <= 0 {
        Seq::empty()
    } else if is_row(found[n - 1], dim) {
        rows_in(found, dim, s, n - 1).push((s, n - 1))
    } else {
        rows_in(found, dim, s, n - 1)
    }
}

/// The rows that the first `n` sources give.
pub open spec fn rows_of(found: Seq<Seq<Option<Embedding>>>, dim: nat, n: int) -> Seq<(int, int)>
    decreases n,
{
    if n <= 0 {
        Seq::empty()
    } else {
        rows_of(found, dim, n - 1) + rows_in(
            found[n - 1],
            dim,
            n - 1,
            found[n - 1].len() as int,
        )
    }
}

/// The rows of the matrix. `row_hash` numbers the hashes that have a row, from 0 up, and
/// `hashes` gives the source of each.
#[derive(Debug, Clone)]
pub struct Selection {
    pub dim: usize,
    /// Source and key of each row.
    pub rows: Vec<(usize, usize)>,
    /// Hash of each row.
    pub row_hash: Vec<usize>,
    /// Source of each hash.
    pub hashes: Vec<usize>,
}

/// Source and key of each row as mathematical values.
pub open spec fn row_pairs(rows: Seq<(usize, usize)>) -> Seq<(int, int)> {
    rows.map_values(|r: (usize, usize)| (r.0 as int, r.1 as int))
}

/// The hashes are the sources that have a row, in order, and every row has the number of its
/// source among them.
pub open spec fn numbered(rows: Seq<(int, int)>, row_hash: Seq<usize>, hashes: Seq<usize>) -> bool {
    &&& row_hash.len() == rows.len()
    &&& forall|i: int, j: int|
        0 <= i < j < hashes.len() ==> (#[trigger] hashes[i]) < (#[trigger] hashes[j])
    &&& forall|r: int|
        0 <= r < rows.len() ==> (#[trigger] row_hash[r]) < hashes.len()
            && hashes[row_hash[r] as int] == rows[r].0
    &&& forall|h: int| 0 <= h < hashes.len() ==> has_row(row_hash, h)
    &&& forall|r: int, q: int|
        0 <= r < q < rows.len() ==> (#[trigger] row_hash[r]) <= (#[trigger] row_hash[q])
}

/// One of the rows belongs to the hash `h`.
pub open spec fn has_row(row_hash: Seq<usize>, h: int) -> bool {
    exists|r: int| 0 <= r < row_hash.len() && #[trigger] row_hash[r] == h
}

fn find_first_len(found: &Vec<Option<Embedding>>) -> (n: usize)
    ensures
        n == first_len(found@),
{
    let mut i: usize = 0;
    proof {
        assert(found@.skip(0) =~= found@);
    }
    while i < found.len()
        invariant
            i <= found@.len(),
            first_len(found@) == first_len(found@.skip(i as int)),
        decreases found.len() - i,
    {
        proof {
            assert(found@.skip(i as int)[0] == found@[i as int]);
            assert(found@.skip(i as int).skip(1) =~= found@.skip(i + 1));
        }
        if let Some(e) = &found[i] {
            if e.len > 0 {
                return e.len;
            }
        }
        i += 1;
    }
    0
}

fn find_dimension(found: &Vec<Vec<Option<Embedding>>>) -> (n: usize)
    ensures
        n == dimension(found_views(found@)),
{
    let ghost fs = found_views(found@);
    let mut i: usize = 0;
    proof {
        assert(fs.skip(0) =~= fs);
    }
    while i < found.len()
        invariant
            i <= found@.len(),
            fs == found_views(found@),
            dimension(fs) == dimension(fs.skip(i as int)),
        decreases found.len() - i,
    {
        proof {
            assert(fs.skip(i as int)[0] == found@[i as int]@);
            assert(fs.skip(i as int).skip(1) =~= fs.skip(i + 1));
        }
        let n: usize = find_first_len(&found[i]);
        if n > 0 {
            return n;
        }
        i += 1;
    }
    0
}

/// Whether an embedding makes a row.
fn makes_row(e: &Option<Embedding>, dim: usize) -> (b: bool)
    ensures
        b == is_row(*e, dim as nat),
{
    match e {
        Some(e) => e.len > 0 && e.len == dim && !e.zero,
        None => false,
    }
}

/// Selects the rows of the matrix out of what was found under each key of each source.
/// Embeddings of another length than the first one are left out (the model changed
/// mid-collection), as are those that have no direction.
pub fn select_rows(found: &Vec<Vec<Option<Embedding>>>) -> (r: Selection)
    ensures
        r.dim == dimension(found_views(found@)),
        row_pairs(r.rows@) == rows_of(
            found_views(found@),
            r.dim as nat,
            found@.len() as int,
        ),
        numbered(row_pairs(r.rows@), r.row_hash@, r.hashes@),
        forall|h: int| 0 <= h < r.hashes@.len() ==> (#[trigger] r.hashes@[h]) < found@.len(),
        forall|s: int, i: int|
            0 <= s < found@.len() && 0 <= i < found@[s]@.len() ==> (#[trigger] row_pairs(
                r.rows@,
            ).contains((s, i)) <==> (found@[s]@[i] matches Some(e) && e.len > 0 && e.len == r.dim
                && !e.zero)),
        forall|a: int, b: int|
            0 <= a < b < r.rows@.len() ==> (#[trigger] r.rows@[a]).0 < (#[trigger] r.rows@[b]).0
                || r.rows@[a].0 == r.rows@[b].0 && r.rows@[a].1 < r.rows@[b].1,
{
    let ghost fs = found_views(found@);
    let dim: usize = find_dimension(found);
    let mut rows: Vec<(usize, usize)> = Vec::new();
    let mut row_hash: Vec<usize> = Vec::new();
    let mut hashes: Vec<usize> = Vec::new();
    let mut s: usize = 0;
    proof {
        assert(row_pairs(rows@) =~= rows_of(fs, dim as nat, 0));
    }
    while s < found.len()
        invariant
            s <= found@.len(),
            fs == found_views(found@),
            row_pairs(rows@) == rows_of(fs, dim as nat, s as int),
            numbered(row_pairs(rows@), row_hash@, hashes@),
            forall|h: int| 0 <= h < hashes@.len() ==> (#[trigger] hashes@[h]) < s,
        decreases found.len() - s,
    {
        let keys = &found[s];
        let ghost before = row_pairs(rows@);
        let mut i: usize = 0;
        proof {
            assert(fs[s as int] == keys@);
            assert(before + rows_in(keys@, dim as nat, s as int, 0) =~= before);
        }
        while i < keys.len()
            invariant
                i <= keys@.len(),
                row_pairs(rows@) == before + rows_in(keys@, dim as nat, s as int, i as int),
                numbered(row_pairs(rows@), row_hash@, hashes@),
                forall|h: int| 0 <= h < hashes@.len() ==> (#[trigger] hashes@[h]) <= s,
            decreases keys.len() - i,
        {
            if makes_row(&keys[i], dim) {
                let ghost rows0 = row_pairs(rows@);
                let ghost hash0 = row_hash@;
                let ghost hashes0 = hashes@;
                if hashes.len() == 0 || hashes[hashes.len() - 1] != s {
                    hashes.push(s);
                }
                row_hash.push(hashes.len() - 1);
                rows.push((s, i));
                proof {
                    assert(row_pairs(rows@) =~= rows0.push((s as int, i as int)));
                    assert(row_pairs(rows@) =~= before + rows_in(
                        keys@,
                        dim as nat,
                        s as int,
                        i + 1,
                    ));
                    lemma_number_row(rows0, hash0, hashes0, hashes@, s, i as int);
                }
            }
            i += 1;
        }
        s += 1;
    }
    proof {
        row_laws::law_every_fitting_embedding_is_a_row(fs);
        let selected = row_pairs(rows@);
        assert(forall|a: int|
            0 <= a < rows@.len() ==> selected[a] == (
                (#[trigger] rows@[a]).0 as int,
                rows@[a].1 as int,
            ));
    }
    Selection { dim, rows, row_hash, hashes }
}

proof fn lemma_number_row(
    rows: Seq<(int, int)>,
    row_hash: Seq<usize>,
    before: Seq<usize>,
    hashes: Seq<usize>,
    s: usize,
    key: int,
)
    requires
        numbered(rows, row_hash, before),
        forall|h: int| 0 <= h < before.len() ==> (#[trigger] before[h]) <= s,
        hashes.len() <= usize::MAX,
        hashes == if before.len() == 0 || before.last() != s {
            before.push(s)
        } else {
            before
        },
    ensures
        numbered(rows.push((s as int, key)), row_hash.push((hashes.len() - 1) as usize), hashes),
{
    let last = (hashes.len() - 1) as usize;
    let rh = row_hash.push(last);
    let rs = rows.push((s as int, key));
    assert forall|i: int, j: int| 0 <= i < j < hashes.len() implies (#[trigger] hashes[i]) < (
    #[trigger] hashes[j]) by {
        if j < before.len() {
            assert(before[i] < before[j]);
        } else if before.len() > 0 {
            assert(before[i] <= before.last());
        }
    }
    assert forall|r: int| 0 <= r < rs.len() implies (#[trigger] rh[r]) < hashes.len()
        && hashes[rh[r] as int] == rs[r].0 by {
        if r < rows.len() {
            assert(row_hash[r] < before.len());
        }
    }
    assert forall|h: int| 0 <= h < hashes.len() implies has_row(rh, h) by {
        if h == last {
            assert(rh[rows.len() as int] == h);
        } else {
            assert(has_row(row_hash, h));
            let r = choose|r: int| 0 <= r < row_hash.len() && #[trigger] row_hash[r] == h;
            assert(rh[r] == h);
        }
    }
    assert forall|r: int, q: int| 0 <= r < q < rs.len() implies (#[trigger] rh[r]) <= (
    #[trigger] rh[q]) by {
        if q < rows.len() {
            assert(row_hash[r] <= row_hash[q]);
        } else {
            assert(row_hash[r] < before.len());
        }
    }
}

/// The rows of each hash: from the first one up to the last one.
pub fn row_ranges(row_hash: &Vec<usize>, n_hashes: usize) -> (ranges: Vec<(usize, usize)>)
    requires
        forall|r: int, q: int|
            0 <= r < q < row_hash@.len() ==> (#[trigger] row_hash@[r]) <= (#[trigger] row_hash@[q]),
        forall|r: int| 0 <= r < row_hash@.len() ==> (#[trigger] row_hash@[r]) < n_hashes,
    ensures
        ranges@.len() == n_hashes,
        forall|h: int|
            0 <= h < n_hashes ==> (#[trigger] ranges@[h]).0 <= ranges@[h].1 <= row_hash@.len(),
        forall|h: int, r: int|
            0 <= h < n_hashes && 0 <= r < row_hash@.len() ==> (#[trigger] row_hash@[r] == h <==> (
            #[trigger] ranges@[h]).0 <= r < ranges@[h].1),
        forall|h: int|
            0 <= h < n_hashes ==> (#[trigger] ranges@[h]).0 < ranges@[h].1 || ranges@[h] == (
                0usize,
                0usize,
            ),
{
    let mut ranges: Vec<(usize, usize)> = Vec::new();
    while ranges.len() < n_hashes
        invariant
            ranges@.len() <= n_hashes,
            forall|h: int| 0 <= h < ranges@.len() ==> #[trigger] ranges@[h] == (0usize, 0usize),
        decreases n_hashes - ranges.len(),
    {
        ranges.push((0, 0));
    }
    let mut start: usize = 0;
    let mut r: usize = 0;
    while r < row_hash.len()
        invariant
            start <= r <= row_hash@.len(),
            ranges@.len() == n_hashes,
            forall|r: int, q: int|
                0 <= r < q < row_hash@.len() ==> (#[trigger] row_hash@[r]) <= (
                #[trigger] row_hash@[q]),
            forall|r: int| 0 <= r < row_hash@.len() ==> (#[trigger] row_hash@[r]) < n_hashes,
            r == row_hash@.len() ==> start == r,
            start < r ==> row_hash@[r - 1] == row_hash@[r as int],
            forall|q: int| start <= q < r ==> #[trigger] row_hash@[q] == row_hash@[r as int],
            start > 0 && r < row_hash@.len() ==> row_hash@[start - 1] < row_hash@[r as int],
            forall|h: int| 0 <= h < n_hashes ==> (#[trigger] ranges@[h]).0 <= ranges@[h].1 <= start,
            forall|h: int|
                0 <= h < n_hashes ==> (#[trigger] ranges@[h]).0 < ranges@[h].1 || ranges@[h] == (
                    0usize,
                    0usize,
                ),
            forall|h: int, q: int|
                0 <= h < n_hashes && 0 <= q < start ==> (#[trigger] row_hash@[q] == h <==> (
                #[trigger] ranges@[h]).0 <= q < ranges@[h].1),
            forall|h: int|
                0 <= h < n_hashes && r < row_hash@.len() && row_hash@[r as int] <= h ==> (
                #[trigger] ranges@[h]) == (0usize, 0usize),
        decreases row_hash.len() - r,
    {
        if r + 1 == row_hash.len() || row_hash[r + 1] != row_hash[r] {
            let h: usize = row_hash[r];
            let ghost before = ranges@;
            ranges[h] = (start, r + 1);
            proof {
                assert forall|g: int, q: int| 0 <= g < n_hashes && 0 <= q < r + 1 implies (
                #[trigger] row_hash@[q] == g <==> (#[trigger] ranges@[g]).0 <= q
                    < ranges@[g].1) by {
                    if g == h {
                        if q < start {
                            assert(row_hash@[q] <= row_hash@[start - 1]);
                        }
                    } else if q >= start {
                        assert(before[g].1 <= start);
                    } else {
                        assert(before[g] == ranges@[g]);
                    }
                }
            }
            start = r + 1;
        }
        r += 1;
    }
    ranges
}

proof fn lemma_numberings_agree(
    rows: Seq<(int, int)>,
    row_hash: Seq<usize>,
    hashes: Seq<usize>,
    other_row_hash: Seq<usize>,
    other_hashes: Seq<usize>,
    i: int,
)
    requires
        numbered(rows, row_hash, hashes),
        numbered(rows, other_row_hash, other_hashes),
        0 <= i < hashes.len(),
        i <= other_hashes.len(),
        forall|j: int| 0 <= j < i ==> #[trigger] hashes[j] == other_hashes[j],
    ensures
        i < other_hashes.len(),
        other_hashes[i] <= hashes[i],
{
    assert(has_row(row_hash, i));
    let r = choose|r: int| 0 <= r < row_hash.len() && #[trigger] row_hash[r] == i;
    let q = other_row_hash[r] as int;
    assert(other_hashes[q] == hashes[i]);
    if q < i {
        assert(hashes[q] == other_hashes[q]);
        assert(hashes[q] < hashes[i]);
    } else if q > i {
        assert(other_hashes[i] < other_hashes[q]);
    }
}

proof fn lemma_same_hashes(
    rows: Seq<(int, int)>,
    row_hash: Seq<usize>,
    hashes: Seq<usize>,
    other_row_hash: Seq<usize>,
    other_hashes: Seq<usize>,
    n: int,
)
    requires
        numbered(rows, row_hash, hashes),
        numbered(rows, other_row_hash, other_hashes),
        0 <= n <= hashes.len(),
    ensures
        n <= other_hashes.len(),
        forall|j: int| 0 <= j < n ==> #[trigger] hashes[j] == other_hashes[j],
    decreases n,
{
    if n > 0 {
        lemma_same_hashes(rows, row_hash, hashes, other_row_hash, other_hashes, n - 1);
        lemma_numberings_agree(rows, row_hash, hashes, other_row_hash, other_hashes, n - 1);
        lemma_numberings_agree(rows, other_row_hash, other_hashes, row_hash, hashes, n - 1);
    }
}

/// The numbers of the hashes are determined by the rows.
pub proof fn law_numbering_is_unique(
    rows: Seq<(int, int)>,
    row_hash: Seq<usize>,
    hashes: Seq<usize>,
    other_row_hash: Seq<usize>,
    other_hashes: Seq<usize>,
)
    requires
        numbered(rows, row_hash, hashes),
        numbered(rows, other_row_hash, other_hashes),
    ensures
        row_hash == other_row_hash,
        hashes == other_hashes,
{
    let n = hashes.len() as int;
    lemma_same_hashes(rows, row_hash, hashes, other_row_hash, other_hashes, n);
    if n < other_hashes.len() {
        lemma_numberings_agree(rows, other_row_hash, other_hashes, row_hash, hashes, n);
    }
    assert(hashes =~= other_hashes);
    assert forall|r: int| 0 <= r < rows.len() implies #[trigger] row_hash[r]
        == other_row_hash[r] by {
        let a = row_hash[r] as int;
        let b = other_row_hash[r] as int;
        assert(hashes[a] == hashes[b]);
        if a < b {
            assert(hashes[a] < hashes[b]);
        } else if b < a {
            assert(hashes[b] < hashes[a]);
        }
    }
    assert(row_hash =~= other_row_hash);
}

} // verus!
