//! Entries of sparse symmetric matrices. What the entries hold is left open: a matrix of numbers
//! is built from them outside.

use vstd::prelude::*;

verus! {

/// An entry of a matrix.
#[derive(Clone, Copy, Debug)]
pub struct Entry<T> {
    pub row: usize,
    pub col: usize,
    pub val: T,
}

/// Two different indices, the smaller one first.
#[derive(Clone, Copy, PartialEq, Eq, Hash, Debug, Structural)]
pub struct IndexPair {
    pub lo: usize,
    pub hi: usize,
}

/// The two indices of a connection, the smaller one first; none for a connection of an index
/// with itself.
pub fn ordered_pair(i: usize, j: usize) -> (r: Option<IndexPair>)
    ensures
        match r {
            Some(p) => p.lo < p.hi && (p == (IndexPair { lo: i, hi: j }) || p == (IndexPair { lo: j, hi: i })),
            None => i == j,
        },
{
    if i == j {
        None
    } else if i < j {
        Some(IndexPair { lo: i, hi: j })
    } else {
        Some(IndexPair { lo: j, hi: i })
    }
}

/// The entries on the diagonal, for the first `k` rows.
pub open spec fn diagonal_entries<T>(diag: Seq<T>, k: int) -> Seq<Entry<T>> {
    Seq::new(k as nat, |i: int| Entry { row: i as usize, col: i as usize, val: diag[i] })
}

/// The first `k` entries off the diagonal, each with its mirror image.
pub open spec fn mirrored_entries<T>(off_diag: Seq<Entry<T>>, k: int) -> Seq<Entry<T>>
    decreases k,
{
    if k <= 0 {
        Seq::empty()
    } else {
        let e = off_diag[k - 1];
        mirrored_entries(off_diag, k - 1).push(e).push(Entry { row: e.col, col: e.row, val: e.val })
    }
}

/// All entries of a symmetric matrix that is given by its diagonal and its upper half: the
/// diagonal first, then each entry with its mirror image.
pub fn symmetric_entries<T: Copy>(diag: &[T], off_diag: &[Entry<T>]) -> (r: Vec<Entry<T>>)
    ensures
        r@ == diagonal_entries(diag@, diag@.len() as int) + mirrored_entries(
            off_diag@,
            off_diag@.len() as int,
        ),
{
    let mut r: Vec<Entry<T>> = Vec::new();
    for i in 0..diag.len()
        invariant
            r@ =~= diagonal_entries(diag@, i as int),
    {
        r.push(Entry { row: i, col: i, val: diag[i] });
    }
    let ghost first = r@;
    for k in 0..off_diag.len()
        invariant
            r@ =~= first + mirrored_entries(off_diag@, k as int),
    {
        let e: Entry<T> = off_diag[k];
        r.push(e);
        r.push(Entry { row: e.col, col: e.row, val: e.val });
    }
    r
}

/// The entries of the upper half of a symmetric matrix: the diagonal first, then those above it.
pub fn upper_entries<T: Copy>(diag: &[T], off_diag: &[Entry<T>]) -> (r: Vec<Entry<T>>)
    ensures
        r@ == diagonal_entries(diag@, diag@.len() as int) + off_diag@,
{
    let mut r: Vec<Entry<T>> = Vec::new();
    for i in 0..diag.len()
        invariant
            r@ =~= diagonal_entries(diag@, i as int),
    {
        r.push(Entry { row: i, col: i, val: diag[i] });
    }
    let ghost first = r@;
    for k in 0..off_diag.len()
        invariant
            r@ =~= first + off_diag@.take(k as int),
    {
        r.push(off_diag[k]);
    }
    assert(off_diag@.take(off_diag@.len() as int) =~= off_diag@);
    r
}

/// Whether two lists of entries have the same rows and columns, place by place.
pub fn same_pattern<S: Copy, T: Copy>(a: &[Entry<S>], b: &[Entry<T>]) -> (r: bool)
    ensures
        r == (a@.len() == b@.len() && forall|i: int|
            0 <= i < a@.len() ==> (#[trigger] a@[i]).row == b@[i].row && a@[i].col == b@[i].col),
{
    if a.len() != b.len() {
        return false;
    }
    for i in 0..a.len()
        invariant
            a@.len() == b@.len(),
            forall|k: int| 0 <= k < i ==> (#[trigger] a@[k]).row == b@[k].row && a@[k].col == b@[k].col,
    {
        if a[i].row != b[i].row || a[i].col != b[i].col {
            assert(a@[i as int].row != b@[i as int].row || a@[i as int].col != b@[i as int].col);
            return false;
        }
    }
    true
}

} // verus!
