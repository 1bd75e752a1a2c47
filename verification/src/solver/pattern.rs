//! The pattern of an incomplete Cholesky factor: which entries of the lower half are kept, column
//! by column.

use crate::solver::triplets::IndexPair;
use vstd::prelude::*;

verus! {

/// The list goes up strictly.
pub open spec fn ascends(s: Seq<usize>) -> bool {
    forall|i: int, j: int| 0 <= i < j < s.len() ==> #[trigger] s[i] < #[trigger] s[j]
}

/// The lists of a vector of vectors.
pub open spec fn lists_of(v: Seq<Vec<usize>>) -> Seq<Seq<usize>> {
    Seq::new(v.len(), |i: int| v[i]@)
}

/// A column holds its diagonal entry and one entry for each pair that it is the smaller index of.
pub open spec fn column_has(pairs: Seq<IndexPair>, c: int, r: usize) -> bool {
    r == c || pairs.contains(IndexPair { lo: c as usize, hi: r })
}

/// The rows of column `c`, from the top: first the diagonal.
pub open spec fn column_ok(pairs: Seq<IndexPair>, c: int, rows: Seq<usize>) -> bool {
    &&& ascends(rows)
    &&& rows.len() > 0
    &&& rows[0] == c
    &&& forall|r: usize| #[trigger] rows.contains(r) <==> column_has(pairs, c, r)
}

/// An entry that two rows have in one column.
#[derive(Clone, Copy, PartialEq, Eq, Hash, Debug, Structural)]
pub struct SharedColumn {
    pub col: usize,
    /// Where the entry of the first row is stored.
    pub first: usize,
    /// Where the entry of the second row is stored.
    pub second: usize,
}

/// The pattern of the lower half of a matrix.
pub struct LowerPattern {
    pub n: usize,
    /// Where each column starts, and where the last one ends.
    pub col_ptrs: Vec<usize>,
    /// The rows of the entries, column by column.
    pub row_indices: Vec<usize>,
    /// For each row, the columns of its entries left of the diagonal.
    pub row_cols: Vec<Vec<usize>>,
    /// For each row, where those entries are stored.
    pub row_positions: Vec<Vec<usize>>,
}

/// Every pair names two different indices below `n`, the smaller one first.
pub open spec fn pairs_ok(n: int, pairs: Seq<IndexPair>) -> bool {
    forall|k: int| 0 <= k < pairs.len() ==> (#[trigger] pairs[k]).lo < pairs[k].hi < n
}

/// The rows of a column.
pub open spec fn column_of(ptrs: Seq<usize>, rows: Seq<usize>, c: int) -> Seq<usize> {
    rows.subrange(ptrs[c] as int, ptrs[c + 1] as int)
}

/// Column `c` lies in the list, goes down strictly and starts on the diagonal.
pub open spec fn column_laid(ptrs: Seq<usize>, rows: Seq<usize>, c: int) -> bool {
    &&& ptrs[c] < ptrs[c + 1] <= rows.len()
    &&& ascends(column_of(ptrs, rows, c))
    &&& rows[ptrs[c] as int] == c
}

/// The columns follow one another, and fill the list.
pub open spec fn columns_laid(n: int, ptrs: Seq<usize>, rows: Seq<usize>) -> bool {
    &&& ptrs.len() == n + 1
    &&& ptrs[0] == 0
    &&& ptrs[n] == rows.len()
    &&& forall|c: int| 0 <= c < n ==> #[trigger] column_laid(ptrs, rows, c)
}

/// The columns hold the pairs.
pub open spec fn columns_hold(n: int, ptrs: Seq<usize>, rows: Seq<usize>, pairs: Seq<IndexPair>) -> bool {
    forall|c: int| 0 <= c < n ==> column_ok(pairs, c, #[trigger] column_of(ptrs, rows, c))
}

/// Position `pos` holds the entry at a column and a row.
pub open spec fn stored(ptrs: Seq<usize>, rows: Seq<usize>, c: int, r: usize, pos: int) -> bool {
    ptrs[c] <= pos < ptrs[c + 1] && rows[pos] == r
}

/// The lists of a row name its entries left of the diagonal, from left to right.
pub open spec fn row_laid(
    n: int,
    ptrs: Seq<usize>,
    rows: Seq<usize>,
    r: int,
    cols: Seq<usize>,
    at: Seq<usize>,
) -> bool {
    &&& ascends(cols)
    &&& at.len() == cols.len()
    &&& forall|k: int|
        0 <= k < cols.len() ==> (#[trigger] cols[k]) < n && stored(ptrs, rows, cols[k] as int, r as usize, at[k] as int)
}

impl LowerPattern {
    /// The columns and the row lists fit together.
    pub open spec fn wf(self) -> bool {
        &&& columns_laid(self.n as int, self.col_ptrs@, self.row_indices@)
        &&& self.row_cols@.len() == self.n
        &&& self.row_positions@.len() == self.n
        &&& forall|r: int|
            0 <= r < self.n ==> row_laid(
                self.n as int,
                self.col_ptrs@,
                self.row_indices@,
                r,
                (#[trigger] self.row_cols@[r])@,
                self.row_positions@[r]@,
            )
    }

    /// The rows of a column.
    pub open spec fn column(self, c: int) -> Seq<usize> {
        column_of(self.col_ptrs@, self.row_indices@, c)
    }

    /// Position `pos` holds the entry at a column and a row.
    pub open spec fn stored_at(self, c: int, r: usize, pos: int) -> bool {
        stored(self.col_ptrs@, self.row_indices@, c, r, pos)
    }

    /// The pattern is that of the pairs: a column holds the diagonal and one entry for each pair,
    /// and a row lists the columns of its pairs.
    pub open spec fn holds(self, pairs: Seq<IndexPair>) -> bool {
        &&& columns_hold(self.n as int, self.col_ptrs@, self.row_indices@, pairs)
        &&& forall|r: int, c: usize|
            0 <= r < self.n ==> (#[trigger] self.row_cols@[r]@.contains(c) <==> pairs.contains(
                IndexPair { lo: c, hi: r as usize },
            ))
    }
}

proof fn lemma_push_up(s: Seq<usize>, v: usize)
    ensures
        forall|x: usize| #[trigger] s.push(v).contains(x) <==> s.contains(x) || x == v,
        ascends(s) && (s.len() > 0 ==> s.last() < v) ==> ascends(s.push(v)),
{
    crate::timing::levels::lemma_push(s, v);
    let next = s.push(v);
    if ascends(s) && (s.len() > 0 ==> s.last() < v) {
        assert forall|i: int, j: int| 0 <= i < j < next.len() implies #[trigger] next[i] < #[trigger] next[j] by {
            if j == s.len() {
                if i < s.len() - 1 {
                    assert(s[i] < s[s.len() - 1]);
                }
            }
        }
    }
}

/// The smaller indices of the pairs, by their larger index.
fn by_larger(n: usize, pairs: &Vec<IndexPair>) -> (r: Vec<Vec<usize>>)
    requires
        pairs_ok(n as int, pairs@),
    ensures
        r@.len() == n,
        forall|h: int, l: usize|
            0 <= h < n ==> (#[trigger] r@[h]@.contains(l) <==> pairs@.contains(
                IndexPair { lo: l, hi: h as usize },
            )),
{
    let mut r: Vec<Vec<usize>> = Vec::new();
    for i in 0..n
        invariant
            r@.len() == i,
            forall|k: int| 0 <= k < i ==> (#[trigger] r@[k])@.len() == 0,
    {
        r.push(Vec::new());
    }
    for k in 0..pairs.len()
        invariant
            pairs_ok(n as int, pairs@),
            r@.len() == n,
            forall|h: int, l: usize|
                0 <= h < n ==> (#[trigger] r@[h]@.contains(l) <==> pairs@.take(k as int).contains(
                    IndexPair { lo: l, hi: h as usize },
                )),
    {
        let p = pairs[k];
        assert(pairs@[k as int].hi < n);
        let ghost before = r@;
        r[p.hi].push(p.lo);
        proof {
            let part = pairs@.take(k as int);
            let whole = pairs@.take(k + 1);
            lemma_push_up(before[p.hi as int]@, p.lo);
            assert forall|x: IndexPair| #[trigger] whole.contains(x) <==> part.contains(x) || x == p by {
                if part.contains(x) {
                    let i = choose|i: int| 0 <= i < part.len() && part[i] == x;
                    assert(whole[i] == x);
                }
                if x == p {
                    assert(whole[k as int] == x);
                }
                if whole.contains(x) {
                    let i = choose|i: int| 0 <= i < whole.len() && whole[i] == x;
                    if i < k {
                        assert(part[i] == x);
                    }
                }
            }
            assert forall|h: int, l: usize| 0 <= h < n implies (#[trigger] r@[h]@.contains(l) <==> whole.contains(
                IndexPair { lo: l, hi: h as usize },
            )) by {
                let x = IndexPair { lo: l, hi: h as usize };
                assert(before[h]@.contains(l) <==> part.contains(x));
                assert(whole.contains(x) <==> part.contains(x) || x == p);
                if h == p.hi {
                    assert(r@[h]@ == before[h]@.push(p.lo));
                } else {
                    assert(r@[h] == before[h]);
                }
            }
        }
    }
    assert(pairs@.take(pairs@.len() as int) =~= pairs@);
    r
}

/// The rows of the columns so far: those below `h`, and at `h` those of the first `k` entries.
spec fn columns_upto(by: Seq<Seq<usize>>, cols: Seq<Vec<usize>>, h: int, k: int) -> bool {
    forall|c: int| 0 <= c < cols.len() ==> #[trigger] column_upto(by, cols[c]@, c, h, k)
}

spec fn column_upto(by: Seq<Seq<usize>>, rows: Seq<usize>, c: int, h: int, k: int) -> bool {
    &&& ascends(rows)
    &&& rows.len() > 0
    &&& rows[0] == c
    &&& forall|r: usize| #[trigger]
        rows.contains(r) <==> r == c || (r < h && r < by.len() && by[r as int].contains(c as usize)) || (r == h && h
            < by.len() && by[h].take(k).contains(c as usize))
}

fn collect_columns(n: usize, pairs: &Vec<IndexPair>) -> (cols: Vec<Vec<usize>>)
    requires
        pairs_ok(n as int, pairs@),
    ensures
        cols@.len() == n,
        forall|c: int| 0 <= c < n ==> column_ok(pairs@, c, (#[trigger] cols@[c])@),
{
    let by_hi = by_larger(n, pairs);
    let ghost by = lists_of(by_hi@);
    let mut cols: Vec<Vec<usize>> = Vec::new();
    for c in 0..n
        invariant
            cols@.len() == c,
            forall|i: int| 0 <= i < c ==> (#[trigger] cols@[i])@ == seq![i as usize],
    {
        let mut rows: Vec<usize> = Vec::new();
        rows.push(c);
        assert(rows@ =~= seq![c]);
        cols.push(rows);
    }
    proof {
        assert forall|c: int| 0 <= c < cols@.len() implies #[trigger] column_upto(by, cols@[c]@, c, 0, 0) by {
            let rows = cols@[c]@;
            assert(rows == seq![c as usize]);
            assert forall|r: usize| #[trigger] rows.contains(r) <==> r == c by {
                if r == c {
                    assert(rows[0] == r);
                }
            }
            if by.len() > 0 {
                assert(by[0].take(0).len() == 0);
            }
        }
    }
    for h in 0..n
        invariant
            n == by_hi@.len(),
            by == lists_of(by_hi@),
            cols@.len() == n,
            pairs_ok(n as int, pairs@),
            forall|x: int, l: usize|
                0 <= x < n ==> (#[trigger] by_hi@[x]@.contains(l) <==> pairs@.contains(
                    IndexPair { lo: l, hi: x as usize },
                )),
            columns_upto(by, cols@, h as int, 0),
    {
        let list = &by_hi[h];
        for k in 0..list.len()
            invariant
                h < n,
                n == by_hi@.len(),
                by == lists_of(by_hi@),
                *list == by_hi@[h as int],
                cols@.len() == n,
                pairs_ok(n as int, pairs@),
                forall|x: int, l: usize|
                    0 <= x < n ==> (#[trigger] by_hi@[x]@.contains(l) <==> pairs@.contains(
                        IndexPair { lo: l, hi: x as usize },
                    )),
                columns_upto(by, cols@, h as int, k as int),
        {
            let l: usize = list[k];
            proof {
                assert(by_hi@[h as int]@.contains(l)) by {
                    assert(by_hi@[h as int]@[k as int] == l);
                }
                let p = IndexPair { lo: l, hi: h };
                let i = choose|i: int| 0 <= i < pairs@.len() && pairs@[i] == p;
                assert(pairs@[i].lo < pairs@[i].hi < n);
                assert(column_upto(by, cols@[l as int]@, l as int, h as int, k as int));
            }
            let len: usize = cols[l].len();
            let last: usize = cols[l][len - 1];
            let ghost before = cols@;
            if last != h {
                cols[l].push(h);
            }
            proof {
                let part = by[h as int].take(k as int);
                let whole = by[h as int].take(k + 1);
                assert(by[h as int] == list@);
                assert(whole =~= part.push(l));
                crate::timing::levels::lemma_push(part, l);
                let was = before[l as int]@;
                lemma_push_up(was, h);
                assert(was.contains(last)) by {
                    assert(was[len - 1] == last);
                }
                assert(last <= h);
                assert forall|c: int| 0 <= c < cols@.len() implies #[trigger] column_upto(
                    by,
                    cols@[c]@,
                    c,
                    h as int,
                    k + 1,
                ) by {
                    assert(column_upto(by, before[c]@, c, h as int, k as int));
                    if c != l {
                        assert(cols@[c] == before[c]);
                    } else {
                        let rows = cols@[c]@;
                        assert forall|r: usize| #[trigger]
                            rows.contains(r) <==> r == c || (r < h && r < by.len() && by[r as int].contains(
                                c as usize,
                            )) || (r == h && h < by.len() && by[h as int].take(k + 1).contains(c as usize)) by {
                            assert(rows.contains(r) <==> was.contains(r) || r == h);
                        }
                    }
                }
            }
        }
        proof {
            assert(by[h as int] == list@);
            assert(by[h as int].take(list@.len() as int) =~= by[h as int]);
            assert forall|c: int| 0 <= c < cols@.len() implies #[trigger] column_upto(
                by,
                cols@[c]@,
                c,
                h + 1,
                0,
            ) by {
                assert(column_upto(by, cols@[c]@, c, h as int, list@.len() as int));
                if h + 1 < by.len() {
                    assert(by[h + 1].take(0).len() == 0);
                }
            }
        }
    }
    proof {
        assert forall|c: int| 0 <= c < n implies column_ok(pairs@, c, (#[trigger] cols@[c])@) by {
            assert(column_upto(by, cols@[c]@, c, n as int, 0));
            let rows = cols@[c]@;
            assert forall|r: usize| #[trigger] rows.contains(r) <==> column_has(pairs@, c, r) by {
                let p = IndexPair { lo: c as usize, hi: r };
                if r < n {
                    assert(by[r as int] == by_hi@[r as int]@);
                    assert(by_hi@[r as int]@.contains(c as usize) <==> pairs@.contains(p));
                }
                if pairs@.contains(p) {
                    let i = choose|i: int| 0 <= i < pairs@.len() && pairs@[i] == p;
                    assert(pairs@[i].hi < n);
                }
            }
        }
    }
    cols
}

/// What the row lists say of the first columns: those before `c`, and of column `c` the entries
/// stored before `pos`.
spec fn row_upto(
    n: int,
    ptrs: Seq<usize>,
    rows: Seq<usize>,
    r: int,
    cols: Seq<usize>,
    at: Seq<usize>,
    c: int,
    pos: int,
) -> bool {
    &&& row_laid(n, ptrs, rows, r, cols, at)
    &&& forall|k: int| 0 <= k < cols.len() ==> (#[trigger] cols[k]) <= c
    &&& forall|x: usize| #[trigger]
        cols.contains(x) <==> x < n && x < r && column_of(ptrs, rows, x as int).contains(r as usize) && (x < c || (x
            == c && stored_before(ptrs, rows, c, r as usize, pos)))
}

/// The entry of a column at a row is stored before `pos`.
spec fn stored_before(ptrs: Seq<usize>, rows: Seq<usize>, c: int, r: usize, pos: int) -> bool {
    exists|q: int| q < pos && #[trigger] stored(ptrs, rows, c, r, q)
}

spec fn rows_upto(
    n: int,
    ptrs: Seq<usize>,
    rows: Seq<usize>,
    cols: Seq<Vec<usize>>,
    at: Seq<Vec<usize>>,
    c: int,
    pos: int,
) -> bool {
    &&& cols.len() == n
    &&& at.len() == n
    &&& forall|r: int| 0 <= r < n ==> #[trigger] row_upto(n, ptrs, rows, r, cols[r]@, at[r]@, c, pos)
}

/// What is stored in a column: the diagonal at its start, and behind it every entry once.
proof fn lemma_column_entry(n: int, ptrs: Seq<usize>, rows: Seq<usize>, c: int, pos: int)
    requires
        columns_laid(n, ptrs, rows),
        0 <= c < n,
        ptrs[c] <= pos < ptrs[c + 1],
    ensures
        column_of(ptrs, rows, c).contains(rows[pos]),
        pos > ptrs[c] ==> c < rows[pos],
        forall|q: int| ptrs[c] <= q < ptrs[c + 1] && #[trigger] rows[q] == rows[pos] ==> q == pos,
{
    assert(column_laid(ptrs, rows, c));
    let col = column_of(ptrs, rows, c);
    let start = ptrs[c] as int;
    assert(col[pos - start] == rows[pos]);
    assert(col[0] == rows[start]);
    if pos > start {
        assert(col[0] < col[pos - start]);
    }
    assert forall|q: int| ptrs[c] <= q < ptrs[c + 1] && #[trigger] rows[q] == rows[pos] implies q == pos by {
        assert(col[q - start] == rows[q]);
        if q < pos {
            assert(col[q - start] < col[pos - start]);
        }
        if pos < q {
            assert(col[pos - start] < col[q - start]);
        }
    }
}

/// All entries of a column are stored before its end, and none before its start.
proof fn lemma_column_bounds(n: int, ptrs: Seq<usize>, rows: Seq<usize>, c: int, r: usize)
    requires
        columns_laid(n, ptrs, rows),
        0 <= c < n,
    ensures
        stored_before(ptrs, rows, c, r, ptrs[c + 1] as int) <==> column_of(ptrs, rows, c).contains(r),
        !stored_before(ptrs, rows, c, r, ptrs[c] as int),
        r != c ==> !stored_before(ptrs, rows, c, r, ptrs[c] + 1),
{
    assert(column_laid(ptrs, rows, c));
    let col = column_of(ptrs, rows, c);
    let start = ptrs[c] as int;
    if col.contains(r) {
        let i = choose|i: int| 0 <= i < col.len() && col[i] == r;
        assert(stored(ptrs, rows, c, r, start + i));
    }
    if stored_before(ptrs, rows, c, r, ptrs[c + 1] as int) {
        let q = choose|q: int| q < ptrs[c + 1] && #[trigger] stored(ptrs, rows, c, r, q);
        assert(col[q - start] == r);
    }
}

/// Lists, for each row, the columns of its entries left of the diagonal, and where they are stored.
fn list_rows(n: usize, ptrs: &Vec<usize>, rows: &Vec<usize>) -> (r: (Vec<Vec<usize>>, Vec<Vec<usize>>))
    requires
        columns_laid(n as int, ptrs@, rows@),
        forall|i: int| 0 <= i < rows@.len() ==> #[trigger] rows@[i] < n,
    ensures
        r.0@.len() == n,
        r.1@.len() == n,
        forall|i: int|
            0 <= i < n ==> row_laid(n as int, ptrs@, rows@, i, (#[trigger] r.0@[i])@, r.1@[i]@),
        forall|i: int, c: usize|
            0 <= i < n ==> (#[trigger] r.0@[i]@.contains(c) <==> c < i && column_of(ptrs@, rows@, c as int).contains(
                i as usize,
            )),
{
    let mut cols: Vec<Vec<usize>> = Vec::new();
    let mut at: Vec<Vec<usize>> = Vec::new();
    for i in 0..n
        invariant
            cols@.len() == i,
            at@.len() == i,
            forall|k: int| 0 <= k < i ==> (#[trigger] cols@[k])@.len() == 0,
            forall|k: int| 0 <= k < i ==> (#[trigger] at@[k])@.len() == 0,
    {
        cols.push(Vec::new());
        at.push(Vec::new());
    }
    proof {
        assert forall|r: int| 0 <= r < n implies #[trigger] row_upto(
            n as int,
            ptrs@,
            rows@,
            r,
            cols@[r]@,
            at@[r]@,
            0,
            0,
        ) by {
            assert(cols@[r]@.len() == 0);
            if n > 0 {
                lemma_column_bounds(n as int, ptrs@, rows@, 0, r as usize);
            }
        }
    }
    for c in 0..n
        invariant
            columns_laid(n as int, ptrs@, rows@),
            forall|i: int| 0 <= i < rows@.len() ==> #[trigger] rows@[i] < n,
            rows_upto(n as int, ptrs@, rows@, cols@, at@, c as int, ptrs@[c as int] as int),
    {
        assert(column_laid(ptrs@, rows@, c as int));
        let start: usize = ptrs[c];
        let end: usize = ptrs[c + 1];
        proof {
            assert forall|r: int| 0 <= r < n implies #[trigger] row_upto(
                n as int,
                ptrs@,
                rows@,
                r,
                cols@[r]@,
                at@[r]@,
                c as int,
                start + 1,
            ) by {
                assert(row_upto(n as int, ptrs@, rows@, r, cols@[r]@, at@[r]@, c as int, start as int));
                lemma_column_bounds(n as int, ptrs@, rows@, c as int, r as usize);
            }
        }
        for pos in start + 1..end
            invariant
                c < n,
                start == ptrs@[c as int],
                end == ptrs@[c + 1],
                start < end <= rows@.len(),
                columns_laid(n as int, ptrs@, rows@),
                forall|i: int| 0 <= i < rows@.len() ==> #[trigger] rows@[i] < n,
                rows_upto(n as int, ptrs@, rows@, cols@, at@, c as int, pos as int),
        {
            let row: usize = rows[pos];
            let ghost before = cols@;
            let ghost before_at = at@;
            proof {
                lemma_column_entry(n as int, ptrs@, rows@, c as int, pos as int);
                assert(row_upto(
                    n as int,
                    ptrs@,
                    rows@,
                    row as int,
                    before[row as int]@,
                    before_at[row as int]@,
                    c as int,
                    pos as int,
                ));
                assert(!stored_before(ptrs@, rows@, c as int, row, pos as int)) by {
                    if stored_before(ptrs@, rows@, c as int, row, pos as int) {
                        let q = choose|q: int| q < pos && #[trigger] stored(ptrs@, rows@, c as int, row, q);
                        assert(rows@[q] == rows@[pos as int]);
                    }
                }
                assert(stored(ptrs@, rows@, c as int, row, pos as int));
            }
            cols[row].push(c);
            at[row].push(pos);
            proof {
                let was = before[row as int]@;
                assert(!was.contains(c));
                assert(was.len() > 0 ==> was.last() < c) by {
                    if was.len() > 0 {
                        let k = was.len() - 1;
                        assert(was[k] <= c);
                        assert(was.contains(was[k]));
                    }
                }
                lemma_push_up(was, c);
                assert forall|r: int| 0 <= r < n implies #[trigger] row_upto(
                    n as int,
                    ptrs@,
                    rows@,
                    r,
                    cols@[r]@,
                    at@[r]@,
                    c as int,
                    pos + 1,
                ) by {
                    assert(row_upto(
                        n as int,
                        ptrs@,
                        rows@,
                        r,
                        before[r]@,
                        before_at[r]@,
                        c as int,
                        pos as int,
                    ));
                    assert(stored_before(ptrs@, rows@, c as int, r as usize, pos + 1) <==> stored_before(
                        ptrs@,
                        rows@,
                        c as int,
                        r as usize,
                        pos as int,
                    ) || r == row) by {
                        if stored_before(ptrs@, rows@, c as int, r as usize, pos + 1) {
                            let q = choose|q: int|
                                q < pos + 1 && #[trigger] stored(ptrs@, rows@, c as int, r as usize, q);
                            if q < pos {
                                assert(stored(ptrs@, rows@, c as int, r as usize, q));
                            }
                        }
                        if stored_before(ptrs@, rows@, c as int, r as usize, pos as int) {
                            let q = choose|q: int|
                                q < pos && #[trigger] stored(ptrs@, rows@, c as int, r as usize, q);
                            assert(stored(ptrs@, rows@, c as int, r as usize, q) && q < pos + 1);
                        }
                    }
                    if r != row {
                        assert(cols@[r] == before[r] && at@[r] == before_at[r]);
                    } else {
                        assert(cols@[r]@ == was.push(c));
                        assert(at@[r]@ == before_at[r]@.push(pos));
                        assert forall|k: int| 0 <= k < cols@[r]@.len() implies (#[trigger] cols@[r]@[k]) < n && stored(
                            ptrs@,
                            rows@,
                            cols@[r]@[k] as int,
                            r as usize,
                            at@[r]@[k] as int,
                        ) && cols@[r]@[k] <= c by {
                            if k < was.len() {
                                assert(was[k] < n);
                            }
                        }
                    }
                }
            }
        }
        proof {
            assert forall|r: int| 0 <= r < n implies #[trigger] row_upto(
                n as int,
                ptrs@,
                rows@,
                r,
                cols@[r]@,
                at@[r]@,
                c + 1,
                ptrs@[c + 1] as int,
            ) by {
                assert(row_upto(n as int, ptrs@, rows@, r, cols@[r]@, at@[r]@, c as int, end as int));
                lemma_column_bounds(n as int, ptrs@, rows@, c as int, r as usize);
                if c + 1 < n {
                    lemma_column_bounds(n as int, ptrs@, rows@, c + 1, r as usize);
                }
            }
        }
    }
    proof {
        assert forall|i: int, c: usize| 0 <= i < n implies (#[trigger] cols@[i]@.contains(c) <==> c < i && column_of(
            ptrs@,
            rows@,
            c as int,
        ).contains(i as usize)) by {
            assert(row_upto(n as int, ptrs@, rows@, i, cols@[i]@, at@[i]@, n as int, ptrs@[n as int] as int));
        }
        assert forall|i: int| 0 <= i < n implies row_laid(n as int, ptrs@, rows@, i, (#[trigger] cols@[i])@, at@[i]@) by {
            assert(row_upto(n as int, ptrs@, rows@, i, cols@[i]@, at@[i]@, n as int, ptrs@[n as int] as int));
        }
    }
    (cols, at)
}

/// The first `c` columns of a list of columns, one behind the other.
spec fn laid_upto(cols: Seq<Vec<usize>>, ptrs: Seq<usize>, rows: Seq<usize>, c: int) -> bool {
    &&& ptrs.len() == c + 1
    &&& ptrs[0] == 0
    &&& ptrs[c] == rows.len()
    &&& forall|i: int| 0 <= i < c ==> #[trigger] laid_at(cols, ptrs, rows, i)
}

/// Column `i` of the list lies in its place.
spec fn laid_at(cols: Seq<Vec<usize>>, ptrs: Seq<usize>, rows: Seq<usize>, i: int) -> bool {
    ptrs[i] < ptrs[i + 1] <= rows.len() && column_of(ptrs, rows, i) == cols[i]@
}

/// Puts the columns one behind the other.
fn lay_columns(cols: &Vec<Vec<usize>>) -> (r: (Vec<usize>, Vec<usize>))
    requires
        forall|c: int| 0 <= c < cols@.len() ==> (#[trigger] cols@[c])@.len() > 0,
    ensures
        laid_upto(cols@, r.0@, r.1@, cols@.len() as int),
{
    let mut ptrs: Vec<usize> = Vec::new();
    let mut rows: Vec<usize> = Vec::new();
    ptrs.push(0);
    for c in 0..cols.len()
        invariant
            forall|i: int| 0 <= i < cols@.len() ==> (#[trigger] cols@[i])@.len() > 0,
            laid_upto(cols@, ptrs@, rows@, c as int),
    {
        let col = &cols[c];
        let ghost start = rows@;
        let ghost before = ptrs@;
        for k in 0..col.len()
            invariant
                rows@ =~= start + col@.take(k as int),
        {
            rows.push(col[k]);
        }
        assert(col@.take(col@.len() as int) =~= col@);
        ptrs.push(rows.len());
        proof {
            assert(cols@[c as int]@.len() > 0);
            assert(ptrs@[0] == before[0]);
            assert forall|i: int| 0 <= i < c + 1 implies #[trigger] laid_at(cols@, ptrs@, rows@, i) by {
                if i < c {
                    assert(laid_at(cols@, before, start, i));
                    assert(ptrs@[i] == before[i] && ptrs@[i + 1] == before[i + 1]);
                    assert(column_of(ptrs@, rows@, i) =~= column_of(before, start, i));
                } else {
                    assert(column_of(ptrs@, rows@, i) =~= col@);
                }
            }
        }
    }
    (ptrs, rows)
}

/// Every stored row lies in some column.
proof fn lemma_in_column(cols: Seq<Vec<usize>>, ptrs: Seq<usize>, rows: Seq<usize>, c: int, i: int)
    requires
        0 <= c <= cols.len(),
        ptrs.len() >= c + 1,
        ptrs[0] == 0,
        forall|k: int| 0 <= k < c ==> ptrs[k] < #[trigger] ptrs[k + 1] <= rows.len(),
        0 <= i < ptrs[c],
    ensures
        exists|k: int| 0 <= k < c && ptrs[k] <= i < #[trigger] ptrs[k + 1],
    decreases c,
{
    if c > 0 {
        assert(ptrs[c - 1] < ptrs[(c - 1) + 1]);
        if i >= ptrs[c - 1] {
            assert(ptrs[c - 1] <= i < ptrs[(c - 1) + 1]);
        } else {
            lemma_in_column(cols, ptrs, rows, c - 1, i);
        }
    }
}

impl LowerPattern {
    /// The pattern of some pairs: one entry for each, however often it is given, and the diagonal.
    pub fn new(n: usize, pairs: &Vec<IndexPair>) -> (r: Self)
        requires
            pairs_ok(n as int, pairs@),
        ensures
            r.n == n,
            r.wf(),
            r.holds(pairs@),
    {
        let cols = collect_columns(n, pairs);
        let (col_ptrs, row_indices) = lay_columns(&cols);
        let ghost ptrs = col_ptrs@;
        let ghost rows = row_indices@;
        proof {
            assert forall|c: int| 0 <= c < n implies #[trigger] column_laid(ptrs, rows, c) && column_ok(
                pairs@,
                c,
                column_of(ptrs, rows, c),
            ) by {
                assert(laid_at(cols@, ptrs, rows, c));
                assert(column_ok(pairs@, c, cols@[c]@));
                assert(column_of(ptrs, rows, c)[0] == rows[ptrs[c] as int]);
            }
            assert forall|c: int| 0 <= c < n implies column_ok(pairs@, c, #[trigger] column_of(ptrs, rows, c)) by {
                assert(column_laid(ptrs, rows, c));
            }
            assert forall|i: int| 0 <= i < rows.len() implies #[trigger] rows[i] < n by {
                assert forall|k: int| 0 <= k < n implies ptrs[k] < #[trigger] ptrs[k + 1] <= rows.len() by {
                    assert(column_laid(ptrs, rows, k));
                }
                lemma_in_column(cols@, ptrs, rows, n as int, i);
                let c = choose|c: int| 0 <= c < n && ptrs[c] <= i < #[trigger] ptrs[c + 1];
                lemma_column_entry(n as int, ptrs, rows, c, i);
                lemma_row_below(n as int, pairs@, c, column_of(ptrs, rows, c), rows[i]);
            }
        }
        let (row_cols, row_positions) = list_rows(n, &col_ptrs, &row_indices);
        let r = LowerPattern { n, col_ptrs, row_indices, row_cols, row_positions };
        proof {
            assert forall|i: int, c: usize| 0 <= i < n implies (#[trigger] r.row_cols@[i]@.contains(c) <==> pairs@.contains(
                IndexPair { lo: c, hi: i as usize },
            )) by {
                let x = IndexPair { lo: c, hi: i as usize };
                if pairs@.contains(x) {
                    let k = choose|k: int| 0 <= k < pairs@.len() && pairs@[k] == x;
                    assert(pairs@[k].lo < pairs@[k].hi < n);
                }
                if c < i {
                    assert(column_ok(pairs@, c as int, column_of(ptrs, rows, c as int)));
                }
            }
        }
        r
    }

    /// Where the entry at a column and a row is stored; none where the column does not hold it.
    pub fn position(&self, col: usize, row: usize) -> (r: Option<usize>)
        requires
            self.wf(),
            col < self.n,
        ensures
            match r {
                Some(pos) => self.stored_at(col as int, row, pos as int),
                None => !self.column(col as int).contains(row),
            },
    {
        proof {
            assert(column_laid(self.col_ptrs@, self.row_indices@, col as int));
        }
        let ghost rows = self.column(col as int);
        let start: usize = self.col_ptrs[col];
        let end: usize = self.col_ptrs[col + 1];
        let mut a: usize = start;
        let mut b: usize = end;
        while a < b
            invariant
                start <= a <= b <= end <= self.row_indices@.len(),
                rows == self.row_indices@.subrange(start as int, end as int),
                ascends(rows),
                forall|i: int| 0 <= i < a - start ==> #[trigger] rows[i] < row,
                forall|i: int| b - start <= i < rows.len() ==> #[trigger] rows[i] >= row,
            decreases b - a,
        {
            let mid: usize = a + (b - a) / 2;
            let x: usize = self.row_indices[mid];
            assert(rows[mid - start] == x);
            if x < row {
                assert forall|i: int| 0 <= i < mid + 1 - start implies #[trigger] rows[i] < row by {
                    if i < mid - start {
                        assert(rows[i] < rows[mid - start]);
                    }
                }
                a = mid + 1;
            } else {
                assert forall|i: int| mid - start <= i < rows.len() implies #[trigger] rows[i] >= row by {
                    if i > mid - start {
                        assert(rows[mid - start] < rows[i]);
                    }
                }
                b = mid;
            }
        }
        if a < end {
            assert(rows[a - start] == self.row_indices@[a as int]);
            if self.row_indices[a] == row {
                return Some(a);
            }
        }
        proof {
            if rows.contains(row) {
                let i = choose|i: int| 0 <= i < rows.len() && rows[i] == row;
                if i > a - start {
                    assert(rows[a - start] < rows[i]);
                }
            }
        }
        None
    }

    /// The columns left of `limit` in which two rows both have an entry, from left to right, with
    /// where the entries are stored.
    pub fn shared_columns(&self, first: usize, second: usize, limit: usize) -> (r: Vec<SharedColumn>)
        requires
            self.wf(),
            first < self.n,
            second < self.n,
        ensures
            forall|i: int, j: int| 0 <= i < j < r@.len() ==> (#[trigger] r@[i]).col < (#[trigger] r@[j]).col,
            forall|i: int| 0 <= i < r@.len() ==> #[trigger] self.shares(first, second, limit, r@[i]),
            forall|s: SharedColumn| #[trigger] self.shares(first, second, limit, s) ==> r@.contains(s),
    {
        let cols_a = &self.row_cols[first];
        let cols_b = &self.row_cols[second];
        let at_a = &self.row_positions[first];
        let at_b = &self.row_positions[second];
        let ghost ca = self.row_cols@[first as int]@;
        let ghost cb = self.row_cols@[second as int]@;
        proof {
            assert(row_laid(
                self.n as int,
                self.col_ptrs@,
                self.row_indices@,
                first as int,
                self.row_cols@[first as int]@,
                self.row_positions@[first as int]@,
            ));
            assert(row_laid(
                self.n as int,
                self.col_ptrs@,
                self.row_indices@,
                second as int,
                self.row_cols@[second as int]@,
                self.row_positions@[second as int]@,
            ));
        }
        let mut r: Vec<SharedColumn> = Vec::new();
        let mut a: usize = 0;
        let mut b: usize = 0;
        let mut done: bool = false;
        while !done && a < cols_a.len() && b < cols_b.len()
            invariant
                self.wf(),
                first < self.n,
                second < self.n,
                cols_a@ == ca,
                cols_b@ == cb,
                ca == self.row_cols@[first as int]@,
                cb == self.row_cols@[second as int]@,
                at_a@ == self.row_positions@[first as int]@,
                at_b@ == self.row_positions@[second as int]@,
                at_a@.len() == ca.len(),
                at_b@.len() == cb.len(),
                ascends(ca),
                ascends(cb),
                a <= ca.len(),
                b <= cb.len(),
                forall|i: int, j: int| 0 <= i < j < r@.len() ==> (#[trigger] r@[i]).col < (#[trigger] r@[j]).col,
                forall|i: int| 0 <= i < r@.len() ==> #[trigger] self.shares(first, second, limit, r@[i]),
                forall|i: int|
                    0 <= i < r@.len() ==> (a < ca.len() ==> (#[trigger] r@[i]).col < ca[a as int]) && (b < cb.len()
                        ==> r@[i].col < cb[b as int]),
                forall|x: int, y: int|
                    0 <= x < ca.len() && 0 <= y < cb.len() && #[trigger] ca[x] == #[trigger] cb[y] && ca[x] < limit
                        && (x < a || y < b) ==> r@.contains(
                        SharedColumn { col: ca[x], first: at_a@[x], second: at_b@[y] },
                    ),
                done ==> (forall|x: int, y: int|
                    0 <= x < ca.len() && 0 <= y < cb.len() && #[trigger] ca[x] == #[trigger] cb[y] && ca[x] < limit
                        ==> x < a || y < b),
            decreases ca.len() - a + cb.len() - b + (if done {
                0int
            } else {
                1int
            }),
        {
            let x: usize = cols_a[a];
            let y: usize = cols_b[b];
            let ghost before = r@;
            if x >= limit || y >= limit {
                done = true;
                proof {
                    assert forall|i: int, j: int|
                        0 <= i < ca.len() && 0 <= j < cb.len() && #[trigger] ca[i] == #[trigger] cb[j] && ca[i]
                            < limit implies i < a || j < b by {
                        if i >= a && j >= b {
                            if i > a {
                                assert(ca[a as int] < ca[i]);
                            }
                            if j > b {
                                assert(cb[b as int] < cb[j]);
                            }
                        }
                    }
                }
            } else if x == y {
                let s = SharedColumn { col: x, first: at_a[a], second: at_b[b] };
                r.push(s);
                proof {
                    assert(shares_at(ca, self.row_positions@[first as int]@, s.col, s.first, a as int));
                    assert(shares_at(cb, self.row_positions@[second as int]@, s.col, s.second, b as int));
                    assert(self.shares(first, second, limit, s));
                    assert(r@[before.len() as int] == s);
                    assert forall|i: int, j: int|
                        0 <= i < ca.len() && 0 <= j < cb.len() && #[trigger] ca[i] == #[trigger] cb[j] && ca[i]
                            < limit && (i < a + 1 || j < b + 1) implies r@.contains(
                        SharedColumn { col: ca[i], first: at_a@[i], second: at_b@[j] },
                    ) by {
                        let t = SharedColumn { col: ca[i], first: at_a@[i], second: at_b@[j] };
                        if i < a || j < b {
                            assert(before.contains(t));
                            let k = choose|k: int| 0 <= k < before.len() && before[k] == t;
                            assert(r@[k] == t);
                        } else {
                            if i > a {
                                assert(ca[a as int] < ca[i]);
                            }
                            if j > b {
                                assert(cb[b as int] < cb[j]);
                            }
                            assert(t == s);
                        }
                    }
                    if a + 1 < ca.len() {
                        assert(ca[a as int] < ca[a + 1]);
                    }
                    if b + 1 < cb.len() {
                        assert(cb[b as int] < cb[b + 1]);
                    }
                }
                a = a + 1;
                b = b + 1;
            } else if x < y {
                proof {
                    assert forall|i: int, j: int|
                        0 <= i < ca.len() && 0 <= j < cb.len() && #[trigger] ca[i] == #[trigger] cb[j] && i
                            == a implies j < b by {
                        if j > b {
                            assert(cb[b as int] < cb[j]);
                        }
                    }
                    if a + 1 < ca.len() {
                        assert(ca[a as int] < ca[a + 1]);
                    }
                }
                a = a + 1;
            } else {
                proof {
                    assert forall|i: int, j: int|
                        0 <= i < ca.len() && 0 <= j < cb.len() && #[trigger] ca[i] == #[trigger] cb[j] && j
                            == b implies i < a by {
                        if i > a {
                            assert(ca[a as int] < ca[i]);
                        }
                    }
                    if b + 1 < cb.len() {
                        assert(cb[b as int] < cb[b + 1]);
                    }
                }
                b = b + 1;
            }
        }
        proof {
            assert forall|s: SharedColumn| #[trigger] self.shares(first, second, limit, s) implies r@.contains(s) by {
                let x = choose|x: int| #[trigger] shares_at(ca, at_a@, s.col, s.first, x);
                let y = choose|y: int| #[trigger] shares_at(cb, at_b@, s.col, s.second, y);
                assert(ca[x] == cb[y]);
            }
        }
        r
    }

    /// Two rows have an entry in a column left of `limit`, stored at two positions.
    pub open spec fn shares(self, first: usize, second: usize, limit: usize, s: SharedColumn) -> bool {
        &&& s.col < limit
        &&& exists|x: int| #[trigger]
            shares_at(self.row_cols@[first as int]@, self.row_positions@[first as int]@, s.col, s.first, x)
        &&& exists|y: int| #[trigger]
            shares_at(self.row_cols@[second as int]@, self.row_positions@[second as int]@, s.col, s.second, y)
    }
}

/// Place `x` of the lists of a row names a column and where its entry is stored.
pub open spec fn shares_at(cols: Seq<usize>, at: Seq<usize>, col: usize, pos: usize, x: int) -> bool {
    0 <= x < cols.len() && cols[x] == col && at[x] == pos
}

proof fn lemma_row_below(n: int, pairs: Seq<IndexPair>, c: int, rows: Seq<usize>, r: usize)
    requires
        pairs_ok(n, pairs),
        0 <= c < n,
        column_ok(pairs, c, rows),
        rows.contains(r),
    ensures
        r < n,
{
    if r != c {
        let x = IndexPair { lo: c as usize, hi: r };
        let i = choose|i: int| 0 <= i < pairs.len() && pairs[i] == x;
        assert(pairs[i].hi < n);
    }
}

} // verus!
