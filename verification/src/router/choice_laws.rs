//! How searches choose, what pips are reckoned at, and which wires lose their owners.

use crate::chipdb::{ChipDb, PipId, WireId};
use crate::context::Context;
use crate::netlist::{Design, NetId};
use crate::router::cleanup::cleanup_tree;
use crate::router::common::global_clock_type;
use crate::router::cost_laws::is_slowest;
use crate::router::gate::partial_nets;
use crate::router::heap::{goes_first, is_next, QueueEntry};
use crate::router::lookahead::{modelled_cost, Lookahead, LookaheadClass, PipRate};
use crate::router::net_laws::{
    counts_fall_by_the_nets_taken_out, fully_routed_nets_lack_no_user, lemma_picked, on_wire,
    open_net_with_wires,
};
use crate::router::router2::given_up_upto;
use crate::router::state_laws::conductors_are_joined_wires;
use vstd::multiset::Multiset;
use vstd::prelude::*;

verus! {

/// The entry that leaves the queue next has the least estimate of all that wait; of those with that
/// estimate it has the least cost, and of those the least penalty.
pub proof fn the_most_promising_entry_leaves_first(heap: Multiset<QueueEntry>, e: QueueEntry, x: QueueEntry)
    requires
        is_next(heap, e),
        heap.contains(x),
    ensures
        e.estimate <= x.estimate,
        e.estimate == x.estimate ==> e.cost <= x.cost,
        e.estimate == x.estimate && e.cost == x.cost ==> e.penalty <= x.penalty,
        e.estimate == x.estimate && e.cost == x.cost && e.penalty == x.penalty ==> e.wire.tile <= x.wire.tile,
        e.estimate == x.estimate && e.cost == x.cost && e.penalty == x.penalty && e.wire.tile == x.wire.tile
            ==> e.wire.index <= x.wire.index,
{
    assert(goes_first(e, x));
}

/// A wire loses its owner exactly if it is counted and as many nets of the list as it is counted for are
/// taken off it; else it keeps the owner that it has.
pub proof fn wires_that_nobody_is_left_on_lose_their_owner(
    owner: Map<WireId, NetId>,
    usage: Map<WireId, u32>,
    design: Design,
    nets: Seq<NetId>,
    n: int,
    w: WireId,
)
    requires
        0 <= n <= nets.len(),
        usage.contains_key(w) ==> usage[w] >= 1,
        forall|i: int| 0 <= i < nets.len() ==> (#[trigger] nets[i]).0 < design.nets@.len(),
    ensures
        ({
            let many = nets.take(n).filter(on_wire(design, w)).len();
            let new = given_up_upto(owner, usage, design, nets, n);
            &&& new.contains_key(w) <==> owner.contains_key(w) && !(usage.contains_key(w) && many >= usage[w])
            &&& new.contains_key(w) ==> new[w] == owner[w]
        }),
    decreases n,
{
    lemma_picked(nets, n, on_wire(design, w));
    if n > 0 {
        wires_that_nobody_is_left_on_lose_their_owner(owner, usage, design, nets, n - 1, w);
        counts_fall_by_the_nets_taken_out(usage, design, nets, n - 1, w);
        assert(nets[n - 1].0 < design.nets@.len());
    }
}

/// The partial nets are those of the first ones that take part, have some routing and lack a user.
pub proof fn partial_nets_have_some_wires(ctx: Context, n: nat, id: NetId)
    requires
        ctx.wf(),
        n <= ctx.design.nets@.len(),
    ensures
        partial_nets(ctx, n as int).contains(id) <==> id.0 < n && open_net_with_wires(ctx)(id),
{
    if id.0 < n {
        fully_routed_nets_lack_no_user(ctx, id);
        let tree = ctx.design.nets@[id.0 as int].wires@;
        if exists|w: WireId| #[trigger] tree.contains_key(w) {
            let w = choose|w: WireId| #[trigger] tree.contains_key(w);
            assert(tree.dom().contains(w));
        } else {
            assert(tree.dom() =~= Set::<WireId>::empty());
        }
    }
}

/// A pip is reckoned at what a conductor of its span costs to drive, and as much of its own cost as falls
/// to each tile, rounded down; never below one.
pub proof fn pips_share_their_cost_over_their_span(rc: Seq<i64>, rate: PipRate, h: int)
    requires
        rate.span >= 1,
        rate.cost >= 0,
        h * rate.span <= rate.cost < (h + 1) * rate.span,
    ensures
        modelled_cost(rc, rate) >= 1,
        rc[rate.span as int] + h >= 1 ==> modelled_cost(rc, rate) == rc[rate.span as int] + h,
        rc[rate.span as int] + h < 1 ==> modelled_cost(rc, rate) == 1,
{
    let c = rate.cost as int;
    let s = rate.span as int;
    assert(c / s == h) by (nonlinear_arith)
        requires
            s >= 1,
            h * s <= c < (h + 1) * s,
    ;
}

/// A pip costs what the tables say, held between one and the largest delay; a pip that they do not know
/// costs one more than the slowest of its delays.
pub proof fn known_pips_cost_what_the_tables_say(la: Lookahead, chip: ChipDb, pip: PipId)
    ensures
        ({
            let tt = chip.tiles@[pip.tile as int] as int;
            let known = tt < la.pip_costs@.len() && pip.index < la.pip_costs@[tt]@.len();
            let c = la.pip_costs@[tt]@[pip.index as int];
            &&& !known ==> is_slowest(chip.pip(pip).delay, la.pip_cost_spec(chip, pip) - 1)
            &&& known && 1 <= c <= i32::MAX ==> la.pip_cost_spec(chip, pip) == c
            &&& known && c < 1 ==> la.pip_cost_spec(chip, pip) == 1
            &&& known && c > i32::MAX ==> la.pip_cost_spec(chip, pip) == i32::MAX
        }),
{
}

/// A class that the tables do not know reaches every wire; one that they know reaches the wires that are
/// marked for it, and those of tiles of a type that they do not know.
pub proof fn known_classes_reach_marked_wires(la: Lookahead, chip: ChipDb, w: WireId, class: LookaheadClass)
    ensures
        ({
            let tt = chip.tiles@[w.tile as int] as int;
            let known = class < la.reachable@.len() && tt < la.reachable@[class as int]@.len();
            &&& !known ==> la.is_reachable_spec(chip, w, class)
            &&& known && w.index < la.reachable@[class as int]@[tt]@.len() ==> la.is_reachable_spec(chip, w, class)
                == la.reachable@[class as int]@[tt]@[w.index as int]
            &&& known && w.index >= la.reachable@[class as int]@[tt]@.len() ==> !la.is_reachable_spec(
                chip,
                w,
                class,
            )
        }),
{
}

/// An estimate is the whole part of the distance times the rate of the class, up to the largest delay.
pub proof fn estimates_round_the_rate_down(
    la: Lookahead,
    chip: ChipDb,
    a: WireId,
    b: WireId,
    class: LookaheadClass,
    h: int,
)
    requires
        class < la.rates@.len(),
        la.rates@[class as int].den >= 1,
        h * la.rates@[class as int].den <= chip.distance(a.tile as int, b.tile as int) * la.rates@[class as int].num
            < (h + 1) * la.rates@[class as int].den,
    ensures
        h <= i32::MAX ==> la.estimate_spec(chip, a, b, class) == h,
        h > i32::MAX ==> la.estimate_spec(chip, a, b, class) == i32::MAX,
{
    let x = chip.distance(a.tile as int, b.tile as int) * la.rates@[class as int].num;
    let d = la.rates@[class as int].den as int;
    assert(x / d == h) by (nonlinear_arith)
        requires
            d >= 1,
            h * d <= x < (h + 1) * d,
    ;
}

/// A net is cleaned up from all wires that are joined to its source or to a wire of its tree; from the
/// global clock network as well, if it starts there; and from no others.
pub proof fn nets_are_cleaned_up_from_all_they_have(
    ctx: Context,
    net: NetId,
    source: WireId,
    backbone: Seq<WireId>,
    x: WireId,
)
    requires
        ctx.wf(),
        ctx.design.valid_net(net),
        ctx.chipdb.valid_wire(source),
    ensures
        cleanup_tree(ctx, net, source, backbone).contains(x) <==> ctx.chipdb.joined(source, x) || (exists|w: WireId| #[trigger]
            ctx.design.nets@[net.0 as int].wires@.contains_key(w) && ctx.chipdb.joined(w, x)) || (global_clock_type(
            ctx.chipdb.wire(source).wire_type@,
        ) && backbone.contains(x)),
{
    let n = ctx.design.nets@[net.0 as int];
    let tree = n.wires@;
    assert(ctx.design.net_ok(n));
    assert(ctx.routing_ok(n.wires@));
    conductors_are_joined_wires(ctx, source, x);
    assert forall|w: WireId| #[trigger] tree.contains_key(w) implies (ctx.conductor_of(w).contains(x)
        <==> ctx.chipdb.joined(w, x)) by {
        conductors_are_joined_wires(ctx, w, x);
    }
}

} // verus!
