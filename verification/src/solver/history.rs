//! Histories of a fixed length: the slots of a ring, and a queue that forgets its oldest entry.

use std::collections::VecDeque;
use vstd::prelude::*;

verus! {

/// A ring of slots that entries go into one after the other.
#[derive(Clone, Copy, PartialEq, Eq, Hash, Debug, Structural)]
pub struct Ring {
    /// The number of slots.
    pub slots: usize,
    /// The number of entries that were made.
    pub count: usize,
}

impl Ring {
    pub open spec fn wf(self) -> bool {
        self.slots > 0
    }

    /// The number of slots that hold an entry.
    pub open spec fn filled(self) -> int {
        if self.count < self.slots {
            self.count as int
        } else {
            self.slots as int
        }
    }

    /// The slot of entry number `e`.
    pub open spec fn slot_of(self, e: int) -> int {
        e % (self.slots as int)
    }

    /// A ring for the newest `keep` entries and the one before them.
    pub fn new(keep: usize) -> (r: Self)
        requires
            keep < usize::MAX,
        ensures
            r.wf(),
            r.slots == keep + 1,
            r.count == 0,
    {
        Ring { slots: keep + 1, count: 0 }
    }

    /// Makes an entry; returns its slot, and whether the slot is a new one at the end.
    pub fn push(&mut self) -> (r: (usize, bool))
        requires
            old(self).wf(),
            old(self).count < usize::MAX,
        ensures
            final(self).wf(),
            final(self).slots == old(self).slots,
            final(self).count == old(self).count + 1,
            r.0 == old(self).slot_of(old(self).count as int),
            r.1 == (old(self).count < old(self).slots),
            r.1 ==> r.0 == old(self).count,
            r.0 < old(self).slots,
    {
        let fresh: bool = self.count < self.slots;
        let slot: usize = self.count % self.slots;
        proof {
            if fresh {
                vstd::arithmetic::div_mod::lemma_small_mod(self.count as nat, self.slots as nat);
            }
        }
        self.count = self.count + 1;
        (slot, fresh)
    }

    /// The number of slots that hold an entry.
    pub fn len(&self) -> (r: usize)
        ensures
            r == self.filled(),
    {
        if self.count < self.slots {
            self.count
        } else {
            self.slots
        }
    }

    /// The slot of the entry that is `age` entries older than the newest.
    pub fn slot(&self, age: usize) -> (r: usize)
        requires
            self.wf(),
            age < self.filled(),
        ensures
            r == self.slot_of(self.count - 1 - age),
            r < self.filled(),
    {
        let e: usize = self.count - 1 - age;
        let r: usize = e % self.slots;
        proof {
            if self.count < self.slots {
                vstd::arithmetic::div_mod::lemma_small_mod(e as nat, self.slots as nat);
            }
        }
        r
    }

    /// The entries that are kept lie in different slots: none has overwritten another.
    pub proof fn kept_entries_lie_apart(self, a: int, b: int)
        requires
            self.wf(),
            self.count - self.filled() <= a < b < self.count,
        ensures
            self.slot_of(a) != self.slot_of(b),
    {
        let s = self.slots as int;
        if a % s == b % s {
            vstd::arithmetic::div_mod::lemma_fundamental_div_mod(a, s);
            vstd::arithmetic::div_mod::lemma_fundamental_div_mod(b, s);
            let q = b / s - a / s;
            assert(s * q == b - a) by (nonlinear_arith)
                requires
                    q == b / s - a / s,
                    a == s * (a / s) + a % s,
                    b == s * (b / s) + b % s,
                    a % s == b % s,
            ;
            assert(q >= 1) by (nonlinear_arith)
                requires
                    s * q == b - a,
                    b - a > 0,
                    s > 0,
            ;
            assert(s * q >= s) by (nonlinear_arith)
                requires
                    q >= 1,
                    s > 0,
            ;
        }
    }
}

/// A queue that keeps its newest entries.
pub struct Newest<T> {
    /// The number of entries that are kept; never zero.
    pub keep: usize,
    pub entries: VecDeque<T>,
}

impl<T> Newest<T> {
    pub open spec fn wf(self) -> bool {
        self.keep > 0 && self.entries@.len() <= self.keep
    }

    /// An empty queue; a length of zero counts as one.
    pub fn new(keep: usize) -> (r: Self)
        ensures
            r.wf(),
            r.entries@.len() == 0,
            r.keep == if keep == 0 {
                1
            } else {
                keep
            },
    {
        Newest {
            keep: if keep == 0 {
                1
            } else {
                keep
            },
            entries: VecDeque::new(),
        }
    }

    /// Adds an entry; the oldest one leaves a full queue.
    pub fn push(&mut self, entry: T)
        requires
            old(self).wf(),
        ensures
            final(self).wf(),
            final(self).keep == old(self).keep,
            final(self).entries@ == if old(self).entries@.len() < old(self).keep {
                old(self).entries@.push(entry)
            } else {
                old(self).entries@.skip(1).push(entry)
            },
    {
        if self.entries.len() >= self.keep {
            let _ = self.entries.pop_front();
        }
        self.entries.push_back(entry);
        assert(self.entries@ =~= if old(self).entries@.len() < old(self).keep {
            old(self).entries@.push(entry)
        } else {
            old(self).entries@.skip(1).push(entry)
        });
    }

    /// Forgets all entries.
    pub fn clear(&mut self)
        ensures
            final(self).entries@.len() == 0,
            final(self).keep == old(self).keep,
    {
        self.entries.clear();
    }
}

} // verus!
