//! Putting things in order by a number, keeping the order of those with the same number.

use vstd::prelude::*;

verus! {

/// Position `a` goes before position `b`: its key is smaller, or the same and it came first.
pub open spec fn goes_before(keys: Seq<i64>, a: int, b: int) -> bool {
    keys[a] < keys[b] || (keys[a] == keys[b] && a < b)
}

/// The positions are in order.
pub open spec fn in_order(keys: Seq<i64>, r: Seq<usize>) -> bool {
    forall|i: int, j: int|
        0 <= i < j < r.len() ==> goes_before(keys, #[trigger] r[i] as int, #[trigger] r[j] as int)
}

/// The positions are those from `lo` to `hi`, in order.
pub open spec fn orders(keys: Seq<i64>, lo: int, hi: int, r: Seq<usize>) -> bool {
    &&& r.len() == hi - lo
    &&& forall|i: int| 0 <= i < r.len() ==> lo <= #[trigger] r[i] < hi
    &&& in_order(keys, r)
}

/// Positions in order occur once each, and none is missing.
pub proof fn lemma_orders_all(keys: Seq<i64>, n: int, r: Seq<usize>)
    requires
        orders(keys, 0, n, r),
    ensures
        r.no_duplicates(),
        forall|k: usize| k < n ==> #[trigger] r.contains(k),
{
    let ints = r.map_values(|x: usize| x as int);
    assert(r.no_duplicates());
    assert(ints.no_duplicates()) by {
        assert forall|i: int, j: int| 0 <= i < ints.len() && 0 <= j < ints.len() && i != j implies ints[i]
            != ints[j] by {
            assert(r[i] != r[j]);
        }
    }
    ints.unique_seq_to_set();
    vstd::set_lib::lemma_int_range(0, n);
    let range = vstd::set_lib::set_int_range(0, n);
    assert(ints.to_set().subset_of(range)) by {
        assert forall|x: int| ints.to_set().contains(x) implies range.contains(x) by {
            let i = choose|i: int| 0 <= i < ints.len() && ints[i] == x;
            assert(0 <= r[i] < n);
        }
    }
    vstd::set_lib::lemma_subset_equality(ints.to_set(), range);
    assert forall|k: usize| k < n implies #[trigger] r.contains(k) by {
        assert(range.contains(k as int));
        assert(ints.to_set().contains(k as int));
        let i = choose|i: int| 0 <= i < ints.len() && ints[i] == k as int;
        assert(r[i] == k);
    }
}

fn merge(keys: &Vec<i64>, a: &Vec<usize>, b: &Vec<usize>, Ghost(lo): Ghost<int>, Ghost(mid): Ghost<int>, Ghost(hi): Ghost<int>) -> (r:
    Vec<usize>)
    requires
        0 <= lo <= mid <= hi <= keys@.len(),
        orders(keys@, lo, mid, a@),
        orders(keys@, mid, hi, b@),
    ensures
        orders(keys@, lo, hi, r@),
{
    let mut out: Vec<usize> = Vec::new();
    let mut i: usize = 0;
    let mut j: usize = 0;
    while i < a.len() || j < b.len()
        invariant
            0 <= lo <= mid <= hi <= keys@.len(),
            orders(keys@, lo, mid, a@),
            orders(keys@, mid, hi, b@),
            i <= a@.len(),
            j <= b@.len(),
            out@.len() == i + j,
            forall|k: int| 0 <= k < out@.len() ==> lo <= #[trigger] out@[k] < hi,
            in_order(keys@, out@),
            i < a@.len() ==> forall|k: int|
                0 <= k < out@.len() ==> goes_before(keys@, #[trigger] out@[k] as int, a@[i as int] as int),
            j < b@.len() ==> forall|k: int|
                0 <= k < out@.len() ==> goes_before(keys@, #[trigger] out@[k] as int, b@[j as int] as int),
        decreases a@.len() - i + b@.len() - j,
    {
        let take_left: bool = if i == a.len() {
            false
        } else if j == b.len() {
            true
        } else {
            keys[a[i]] <= keys[b[j]]
        };
        let ghost before = out@;
        if take_left {
            out.push(a[i]);
            i = i + 1;
        } else {
            out.push(b[j]);
            j = j + 1;
        }
        assert forall|k: int| 0 <= k < before.len() implies out@[k] == before[k] by {
        }
    }
    out
}

fn order_range(keys: &Vec<i64>, lo: usize, hi: usize) -> (r: Vec<usize>)
    requires
        lo <= hi <= keys@.len(),
    ensures
        orders(keys@, lo as int, hi as int, r@),
    decreases hi - lo,
{
    let mut out: Vec<usize> = Vec::new();
    if hi - lo == 1 {
        out.push(lo);
    }
    if hi - lo <= 1 {
        return out;
    }
    let mid: usize = lo + (hi - lo) / 2;
    let a = order_range(keys, lo, mid);
    let b = order_range(keys, mid, hi);
    merge(keys, &a, &b, Ghost(lo as int), Ghost(mid as int), Ghost(hi as int))
}

/// The positions of a list of keys, ordered by key; positions with the same key keep their order.
pub fn stable_order(keys: &Vec<i64>) -> (r: Vec<usize>)
    ensures
        orders(keys@, 0, keys@.len() as int, r@),
{
    order_range(keys, 0, keys.len())
}

} // verus!
