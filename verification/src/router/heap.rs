//! The open list of the path search: a binary heap that hands out the entry with the least
//! estimate, and among those one with the least cost.

use crate::chipdb::WireId;
use crate::timing::delay::DelayT;
use core::cmp::Ordering;
use vstd::multiset::Multiset;
use vstd::prelude::*;

verus! {

/// A wire to be looked at, with the cost and penalty of the way to it and the estimate for the
/// whole way.
#[derive(Clone, Copy, Debug)]
pub struct QueueEntry {
    pub wire: WireId,
    pub cost: DelayT,
    pub penalty: DelayT,
    pub estimate: DelayT,
}

impl PartialEq for QueueEntry {
    fn eq(&self, other: &Self) -> (r: bool) {
        self.estimate == other.estimate
    }
}

impl vstd::std_specs::cmp::PartialEqSpecImpl for QueueEntry {
    open spec fn obeys_eq_spec() -> bool {
        true
    }

    open spec fn eq_spec(&self, other: &Self) -> bool {
        self.estimate == other.estimate
    }
}

impl Eq for QueueEntry {

}

impl PartialOrd for QueueEntry {
    /// The larger entry is the one that leaves the queue first.
    fn partial_cmp(&self, other: &Self) -> (r: Option<Ordering>) {
        if self.estimate > other.estimate {
            Some(Ordering::Less)
        } else if self.estimate < other.estimate {
            Some(Ordering::Greater)
        } else if self.cost > other.cost {
            Some(Ordering::Less)
        } else if self.cost < other.cost {
            Some(Ordering::Greater)
        } else {
            Some(Ordering::Equal)
        }
    }
}

impl vstd::std_specs::cmp::PartialOrdSpecImpl for QueueEntry {
    open spec fn obeys_partial_cmp_spec() -> bool {
        true
    }

    open spec fn partial_cmp_spec(&self, other: &Self) -> Option<Ordering> {
        if self.estimate > other.estimate {
            Some(Ordering::Less)
        } else if self.estimate < other.estimate {
            Some(Ordering::Greater)
        } else if self.cost > other.cost {
            Some(Ordering::Less)
        } else if self.cost < other.cost {
            Some(Ordering::Greater)
        } else {
            Some(Ordering::Equal)
        }
    }
}

/// `a` leaves the queue no later than `b`.
pub open spec fn ahead(a: QueueEntry, b: QueueEntry) -> bool {
    a.estimate < b.estimate || (a.estimate == b.estimate && a.cost <= b.cost)
}

/// `a` leaves the queue before `b`, or is `b`: entries with the same estimate and cost go by penalty
/// and wire, so that it makes no difference in which order they were added.
pub open spec fn goes_first(a: QueueEntry, b: QueueEntry) -> bool {
    a.estimate < b.estimate || (a.estimate == b.estimate && (a.cost < b.cost || (a.cost == b.cost && (
    a.penalty < b.penalty || (a.penalty == b.penalty && (a.wire.tile < b.wire.tile || (a.wire.tile
        == b.wire.tile && a.wire.index <= b.wire.index)))))))
}

fn comes_first(a: &QueueEntry, b: &QueueEntry) -> (r: bool)
    ensures
        r == goes_first(*a, *b),
{
    if a.estimate != b.estimate {
        return a.estimate < b.estimate;
    }
    if a.cost != b.cost {
        return a.cost < b.cost;
    }
    if a.penalty != b.penalty {
        return a.penalty < b.penalty;
    }
    if a.wire.tile != b.wire.tile {
        return a.wire.tile < b.wire.tile;
    }
    a.wire.index <= b.wire.index
}

/// Of the entries that wait, the one that leaves next.
pub open spec fn next_entry(heap: Multiset<QueueEntry>) -> QueueEntry {
    choose|e: QueueEntry| is_next(heap, e)
}

/// The entry waits, and goes before all others that do.
pub open spec fn is_next(heap: Multiset<QueueEntry>, e: QueueEntry) -> bool {
    heap.contains(e) && forall|x: QueueEntry| #[trigger] heap.contains(x) ==> goes_first(e, x)
}

/// There is only one such entry.
pub proof fn lemma_next_entry(heap: Multiset<QueueEntry>, e: QueueEntry)
    requires
        is_next(heap, e),
    ensures
        next_entry(heap) == e,
{
    let n = next_entry(heap);
    assert(is_next(heap, n));
    assert(goes_first(n, e) && goes_first(e, n));
}

/// The entries that wait, as a binary heap.
pub struct EntryHeap {
    items: Vec<QueueEntry>,
}

/// Each entry but the first follows the one above it.
spec fn heap_order(s: Seq<QueueEntry>) -> bool {
    forall|i: int| 0 < i < s.len() ==> goes_first(s[(i - 1) / 2], #[trigger] s[i])
}

/// Exchanging two entries keeps the entries.
proof fn lemma_swap(s: Seq<QueueEntry>, i: int, j: int)
    requires
        0 <= i < s.len(),
        0 <= j < s.len(),
    ensures
        s.update(i, s[j]).update(j, s[i]).to_multiset() == s.to_multiset(),
{
    broadcast use vstd::seq_lib::group_to_multiset_ensures;

    let a = s.update(i, s[j]);
    let b = a.update(j, s[i]);
    vstd::seq_lib::to_multiset_update(s, i, s[j]);
    vstd::seq_lib::to_multiset_update(a, j, s[i]);
    assert(b.to_multiset() =~= s.to_multiset());
}

/// The first entry of a heap goes before all.
proof fn lemma_first_goes_first(s: Seq<QueueEntry>, i: int)
    requires
        heap_order(s),
        0 <= i < s.len(),
    ensures
        goes_first(s[0], s[i]),
    decreases i,
{
    if i > 0 {
        lemma_first_goes_first(s, (i - 1) / 2);
        assert(goes_first(s[(i - 1) / 2], s[i]));
    }
}

impl View for EntryHeap {
    type V = Multiset<QueueEntry>;

    closed spec fn view(&self) -> Multiset<QueueEntry> {
        self.items@.to_multiset()
    }
}

impl EntryHeap {
    pub closed spec fn wf(self) -> bool {
        heap_order(self.items@)
    }

    /// A queue without entries.
    pub fn new() -> (h: Self)
        ensures
            h.wf(),
            h@ == Multiset::<QueueEntry>::empty(),
    {
        let h = EntryHeap { items: Vec::new() };
        proof {
            broadcast use vstd::seq_lib::group_to_multiset_ensures;

            assert(h.items@.to_multiset() =~= Multiset::empty());
        }
        h
    }

    /// Adds an entry.
    pub fn push(&mut self, e: QueueEntry)
        requires
            old(self).wf(),
        ensures
            final(self).wf(),
            final(self)@ == old(self)@.insert(e),
    {
        proof {
            broadcast use vstd::seq_lib::group_to_multiset_ensures;

        }
        self.items.push(e);
        let mut i: usize = self.items.len() - 1;
        while i > 0
            invariant
                i < self.items@.len(),
                self.items@.to_multiset() == old(self).items@.push(e).to_multiset(),
                forall|j: int|
                    0 < j < self.items@.len() && j != i ==> goes_first(
                        self.items@[(j - 1) / 2],
                        #[trigger] self.items@[j],
                    ),
                forall|j: int|
                    0 < j < self.items@.len() && (j - 1) / 2 == i && i > 0 ==> goes_first(
                        self.items@[(i - 1) / 2],
                        #[trigger] self.items@[j],
                    ),
            ensures
                heap_order(self.items@),
            decreases i,
        {
            let parent: usize = (i - 1) / 2;
            let a: QueueEntry = self.items[parent];
            let b: QueueEntry = self.items[i];
            if comes_first(&a, &b) {
                break;
            }
            proof {
                lemma_swap(self.items@, parent as int, i as int);
            }
            self.items.set(parent, b);
            self.items.set(i, a);
            i = parent;
        }
        assert(self.items@.to_multiset() =~= old(self)@.insert(e)) by {
            broadcast use vstd::seq_lib::group_to_multiset_ensures;

        }
    }

    /// Takes out the entry that goes before all others.
    pub fn pop(&mut self) -> (r: Option<QueueEntry>)
        requires
            old(self).wf(),
        ensures
            final(self).wf(),
            match r {
                Some(e) => {
                    &&& old(self)@.contains(e)
                    &&& final(self)@ == old(self)@.remove(e)
                    &&& forall|x: QueueEntry| #[trigger] old(self)@.contains(x) ==> ahead(e, x)
                    &&& is_next(old(self)@, e)
                },
                None => {
                    &&& old(self)@ == Multiset::<QueueEntry>::empty()
                    &&& final(self)@ == old(self)@
                },
            },
    {
        broadcast use vstd::seq_lib::group_to_multiset_ensures;

        if self.items.len() == 0 {
            assert(self.items@.to_multiset() =~= Multiset::empty());
            return None;
        }
        let e: QueueEntry = self.items[0];
        let ghost start = self.items@;
        proof {
            assert forall|x: QueueEntry| #[trigger] old(self)@.contains(x) implies goes_first(e, x) by {
                assert(start.contains(x));
                let i = choose|i: int| 0 <= i < start.len() && start[i] == x;
                lemma_first_goes_first(start, i);
            }
            assert(start.contains(e));
        }
        let last: QueueEntry = self.items[self.items.len() - 1];
        let _ = self.items.pop();
        if self.items.len() == 0 {
            assert(start =~= seq![e]);
            assert(start.remove(0) =~= self.items@);
            return Some(e);
        }
        proof {
            let n = start.len() - 1;
            assert(self.items@ =~= start.remove(n));
            vstd::seq_lib::to_multiset_update(self.items@, 0, last);
            assert(start.remove(n).to_multiset() =~= start.to_multiset().remove(last));
        }
        self.items.set(0, last);
        assert(self.items@.to_multiset() =~= start.to_multiset().remove(e));
        let mut i: usize = 0;
        let n: usize = self.items.len();
        loop
            invariant
                i < n,
                n == self.items@.len(),
                self.items@.to_multiset() == start.to_multiset().remove(e),
                forall|j: int|
                    0 < j < self.items@.len() && (j - 1) / 2 != i ==> goes_first(
                        self.items@[(j - 1) / 2],
                        #[trigger] self.items@[j],
                    ),
                forall|j: int|
                    0 < j < self.items@.len() && (j - 1) / 2 == i && i > 0 ==> goes_first(
                        self.items@[(i - 1) / 2],
                        #[trigger] self.items@[j],
                    ),
            ensures
                heap_order(self.items@),
            decreases n - i,
        {
            if i >= n / 2 {
                break;
            }
            let left: usize = 2 * i + 1;
            let mut child: usize = left;
            if left + 1 < n && !comes_first(&self.items[left], &self.items[left + 1]) {
                child = left + 1;
            }
            let a: QueueEntry = self.items[i];
            let b: QueueEntry = self.items[child];
            if comes_first(&a, &b) {
                break;
            }
            proof {
                lemma_swap(self.items@, i as int, child as int);
            }
            self.items.set(i, b);
            self.items.set(child, a);
            i = child;
        }
        Some(e)
    }
}

} // verus!
