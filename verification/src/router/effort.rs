//! How much work a path search can be: bounds on the entries that it takes out of its queue.

use crate::chipdb::{ChipDb, PipId, WireId};
use crate::context::Context;
use crate::router::graph::{node_estimate, walk_cost, walk_end, walk_ok, Hop, PathCostModel};
use vstd::prelude::*;

verus! {

/// How many wires the first `n` tiles have.
pub open spec fn wires_in(chip: ChipDb, n: int) -> nat
    decreases n,
{
    if n <= 0 {
        0
    } else {
        wires_in(chip, n - 1) + chip.type_of(n - 1).wires@.len()
    }
}

/// How many pips the first `n` tiles have.
pub open spec fn pips_in(chip: ChipDb, n: int) -> nat
    decreases n,
{
    if n <= 0 {
        0
    } else {
        pips_in(chip, n - 1) + chip.type_of(n - 1).pips@.len()
    }
}

/// The most entries that a search can take out of its queue: one for each wire and each score.
pub open spec fn most_entries(chip: ChipDb) -> nat {
    wires_in(chip, chip.tiles@.len() as int) * 0x8000_0000
}

/// The entries that are enough if the estimates are consistent: one for each source and each pip.
pub open spec fn plain_entries(chip: ChipDb, srcs: Map<WireId, ()>) -> nat {
    srcs.dom().len() + pips_in(chip, chip.tiles@.len() as int)
}

/// There is a walk from a source to the target whose cost, with the estimate at the target, is a
/// delay below the largest.
pub open spec fn affordable<M: PathCostModel>(ctx: Context, m: &M, srcs: Map<WireId, ()>, dst: WireId) -> bool {
    exists|s: WireId, walk: Seq<Hop>|
        srcs.contains_key(s) && #[trigger] walk_ok(ctx, m, s, walk) && walk_end(s, walk) == dst && walk_cost(
            ctx,
            m,
            walk,
        ) + node_estimate(ctx, m, srcs, dst, dst) < i32::MAX
}

/// A set of wires and scores below a corner is no larger than what lies below the corner.
proof fn lemma_offers_below(chip: ChipDb, s: Set<(WireId, int)>, n: int, k: int, c: int)
    requires
        0 <= n < chip.tiles@.len() <= i32::MAX,
        0 <= k,
        0 <= c,
        forall|o: (WireId, int)| #[trigger]
            s.contains(o) ==> chip.valid_wire(o.0) && 0 <= o.1 < 0x8000_0000 && (o.0.tile < n || (o.0.tile == n && (
            o.0.index < k || (o.0.index == k && o.1 < c)))),
    ensures
        s.finite(),
        s.len() <= (wires_in(chip, n) + k) * 0x8000_0000 + c,
    decreases n, k, c,
{
    if c > 0 {
        if k <= i32::MAX {
            let q = (WireId { tile: n as i32, index: k as i32 }, c - 1);
            let rest = s.remove(q);
            assert forall|o: (WireId, int)| #[trigger] rest.contains(o) implies o.0.tile < n || (o.0.tile == n && (
            o.0.index < k || (o.0.index == k && o.1 < c - 1))) by {
                if o.0.tile == n && o.0.index == k && o.1 == c - 1 {
                    assert(o.0 == q.0);
                    assert(o == q);
                }
            }
            lemma_offers_below(chip, rest, n, k, c - 1);
            assert(s.subset_of(rest.insert(q)));
            vstd::set_lib::lemma_len_subset(s, rest.insert(q));
        } else {
            lemma_offers_below(chip, s, n, k, c - 1);
        }
    } else if k > 0 {
        lemma_offers_below(chip, s, n, k - 1, 0x8000_0000);
    } else if n > 0 {
        lemma_offers_below(chip, s, n - 1, chip.type_of(n - 1).wires@.len() as int, 0);
    } else {
        assert forall|o: (WireId, int)| !s.contains(o) by {
            if s.contains(o) {
                assert(chip.valid_wire(o.0));
            }
        }
        assert(s =~= Set::<(WireId, int)>::empty());
    }
}

/// A set of wires and scores is no larger than the wires times the scores.
pub proof fn lemma_offers(chip: ChipDb, s: Set<(WireId, int)>)
    requires
        chip.wf(),
        forall|o: (WireId, int)| #[trigger]
            s.contains(o) ==> chip.valid_wire(o.0) && 0 <= o.1 < 0x8000_0000,
    ensures
        s.len() <= most_entries(chip),
{
    let n = chip.tiles@.len() as int;
    if n > 0 {
        lemma_offers_below(chip, s, n - 1, chip.type_of(n - 1).wires@.len() as int, 0);
    } else {
        assert forall|o: (WireId, int)| !s.contains(o) by {
            if s.contains(o) {
                assert(chip.valid_wire(o.0));
            }
        }
        assert(s =~= Set::<(WireId, int)>::empty());
    }
}

/// A set of pips below a corner is no larger than what lies below the corner.
proof fn lemma_pips_below(chip: ChipDb, s: Set<PipId>, n: int, k: int)
    requires
        0 <= n < chip.tiles@.len() <= i32::MAX,
        0 <= k,
        forall|p: PipId| #[trigger]
            s.contains(p) ==> chip.valid_pip(p) && (p.tile < n || (p.tile == n && p.index < k)),
    ensures
        s.finite(),
        s.len() <= pips_in(chip, n) + k,
    decreases n, k,
{
    if k > 0 {
        if k - 1 <= i32::MAX {
            let q = PipId { tile: n as i32, index: (k - 1) as i32 };
            let rest = s.remove(q);
            assert forall|p: PipId| #[trigger] rest.contains(p) implies p.tile < n || (p.tile == n && p.index < k
                - 1) by {
                if p.tile == n && p.index == k - 1 {
                    assert(p == q);
                }
            }
            lemma_pips_below(chip, rest, n, k - 1);
            assert(s.subset_of(rest.insert(q)));
            vstd::set_lib::lemma_len_subset(s, rest.insert(q));
        } else {
            lemma_pips_below(chip, s, n, k - 1);
        }
    } else if n > 0 {
        lemma_pips_below(chip, s, n - 1, chip.type_of(n - 1).pips@.len() as int);
    } else {
        assert forall|p: PipId| !s.contains(p) by {
            if s.contains(p) {
                assert(chip.valid_pip(p));
            }
        }
        assert(s =~= Set::<PipId>::empty());
    }
}

/// A set of pips is no larger than the pips of the device.
pub proof fn lemma_pips(chip: ChipDb, s: Set<PipId>)
    requires
        chip.wf(),
        forall|p: PipId| #[trigger] s.contains(p) ==> chip.valid_pip(p),
    ensures
        s.len() <= pips_in(chip, chip.tiles@.len() as int),
{
    let n = chip.tiles@.len() as int;
    if n > 0 {
        lemma_pips_below(chip, s, n - 1, chip.type_of(n - 1).pips@.len() as int);
    } else {
        assert forall|p: PipId| !s.contains(p) by {
            if s.contains(p) {
                assert(chip.valid_pip(p));
            }
        }
        assert(s =~= Set::<PipId>::empty());
    }
}

} // verus!
