//! What the plans of the routers reach, and what binding them holds.

use crate::chipdb::{PipId, WireId};
use crate::context::{wire_in_pins, BelPin, Binding, Context};
use crate::netlist::{CellPin, NetId, PipMap};
use crate::order::{lemma_orders_all, orders};
use crate::router::astar::AStarOptions;
use crate::router::common::{
    plan_conflict, pips_after, route_steps, sinks_upto, tree_after, wires_after, PlanStep, RoutePlan, SinkRoute,
};
use crate::router::error::RouterError;
use crate::router::graph::PathCostModel;
use crate::router::lookahead::Lookahead;
use crate::router::maze::{plan_bound, r1_made, route_options, sinks_for, MazeCostModel, Router1Cfg};
use crate::router::plan::{nearest_first, plan_made, start_tree, tree_at};
use crate::router::rounds::{after_rounds, nets_bound, plans_bound, plans_taken, planned, rounds_along, rounds_done};
use crate::timing::delay::DelayT;
use crate::types::enums::PlaceStrength;
use crate::types::id_string::IdString;
use vstd::prelude::*;

verus! {

/// Pin `k` of a list is the first for the port.
pub open spec fn first_pin(pins: Seq<BelPin>, port: IdString, k: int) -> bool {
    &&& 0 <= k < pins.len()
    &&& pins[k].port == port
    &&& forall|i: int| 0 <= i < k ==> (#[trigger] pins[i]).port != port
}

/// The pin belongs to a placed cell, and its site has the wire at the port.
pub open spec fn wired_to(ctx: Context, pin: CellPin, w: WireId) -> bool {
    &&& pin.cell.0 < ctx.design.cells@.len()
    &&& ctx.design.cells@[pin.cell.0 as int].bel is Some
    &&& exists|k: int|
        #[trigger] first_pin(ctx.bels@[ctx.design.cells@[pin.cell.0 as int].bel->0 as int].pins@, pin.port, k)
            && ctx.bels@[ctx.design.cells@[pin.cell.0 as int].bel->0 as int].pins@[k].wire == w
}

proof fn lemma_first_pin(pins: Seq<BelPin>, port: IdString, k: int)
    requires
        first_pin(pins, port, k),
    ensures
        wire_in_pins(pins, port) == Some(pins[k].wire),
    decreases pins.len(),
{
    if k > 0 {
        assert(pins[0].port != port);
        let rest = pins.skip(1);
        assert forall|i: int| 0 <= i < k - 1 implies (#[trigger] rest[i]).port != port by {
            assert(rest[i] == pins[i + 1]);
        }
        assert(first_pin(rest, port, k - 1));
        lemma_first_pin(rest, port, k - 1);
    }
}

proof fn lemma_some_pin(pins: Seq<BelPin>, port: IdString) -> (k: int)
    requires
        wire_in_pins(pins, port) is Some,
    ensures
        first_pin(pins, port, k),
        pins[k].wire == wire_in_pins(pins, port)->0,
    decreases pins.len(),
{
    if pins[0].port == port {
        assert(first_pin(pins, port, 0));
        0
    } else {
        let rest = pins.skip(1);
        let j = lemma_some_pin(rest, port);
        assert forall|i: int| 0 <= i < j + 1 implies (#[trigger] pins[i]).port != port by {
            if i > 0 {
                assert(rest[i - 1] == pins[i]);
            }
        }
        j + 1
    }
}

/// The wire behind a pin is that of the first pin of its site with the port, and there is none for a
/// cell without a place or a site without such a pin.
pub proof fn pins_have_the_wires_of_their_sites(ctx: Context, pin: CellPin, w: WireId)
    requires
        pin.cell.0 < ctx.design.cells@.len(),
    ensures
        ctx.wire_of_pin(pin) == Some(w) <==> wired_to(ctx, pin, w),
{
    if let Some(b) = ctx.design.cells@[pin.cell.0 as int].bel {
        let pins = ctx.bels@[b as int].pins@;
        if wired_to(ctx, pin, w) {
            let k = choose|k: int| #[trigger] first_pin(pins, pin.port, k) && pins[k].wire == w;
            lemma_first_pin(pins, pin.port, k);
        }
        if ctx.wire_of_pin(pin) == Some(w) {
            let k = lemma_some_pin(pins, pin.port);
            assert(first_pin(pins, pin.port, k) && pins[k].wire == w);
        }
    }
}

/// User `j` of the net is wired to the wire.
pub open spec fn user_wired(ctx: Context, net: NetId, j: int, w: WireId) -> bool {
    &&& 0 <= j < ctx.design.nets@[net.0 as int].users@.len()
    &&& wired_to(ctx, ctx.design.nets@[net.0 as int].users@[j], w)
}

/// Some user of the net is wired to the wire.
pub open spec fn some_user_wired(ctx: Context, net: NetId, w: WireId) -> bool {
    exists|j: int| user_wired(ctx, net, j, w)
}

spec fn some_wired(ctx: Context, users: Seq<CellPin>, n: int, w: WireId) -> bool {
    exists|j: int| 0 <= j < n && #[trigger] wired_to(ctx, users[j], w)
}

proof fn lemma_sinks(ctx: Context, users: Seq<CellPin>, n: int)
    requires
        ctx.design.cells@.len() < u32::MAX,
        0 <= n <= users.len(),
        forall|j: int| 0 <= j < users.len() ==> ctx.design.pin_ok(#[trigger] users[j]),
    ensures
        forall|j: int, w: WireId|
            0 <= j < n && #[trigger] wired_to(ctx, users[j], w) ==> sinks_upto(ctx, users, n).contains(w),
        forall|i: int|
            0 <= i < sinks_upto(ctx, users, n).len() ==> some_wired(
                ctx,
                users,
                n,
                #[trigger] sinks_upto(ctx, users, n)[i],
            ),
        sinks_upto(ctx, users, n).len() == users.take(n).filter(has_wire(ctx)).len(),
    decreases n,
{
    let all = sinks_upto(ctx, users, n);
    if n > 0 {
        lemma_sinks(ctx, users, n - 1);
        let before = sinks_upto(ctx, users, n - 1);
        let u = users[n - 1];
        assert(ctx.design.pin_ok(u));
        assert(users.take(n) =~= users.take(n - 1).push(u));
        users.take(n - 1).lemma_filter_len_push(has_wire(ctx), u);
        assert forall|w: WireId| #[trigger] wired_to(ctx, u, w) <==> u.connected() && ctx.wire_of_pin(u) == Some(
            w,
        ) by {
            if u.cell.0 < ctx.design.cells@.len() {
                pins_have_the_wires_of_their_sites(ctx, u, w);
            }
        }
        assert forall|w: WireId| before.contains(w) implies all.contains(w) by {
            let i = choose|i: int| 0 <= i < before.len() && before[i] == w;
            assert(all[i] == w);
        }
        assert forall|j: int, w: WireId| 0 <= j < n && #[trigger] wired_to(ctx, users[j], w) implies all.contains(
            w,
        ) by {
            if j < n - 1 {
                assert(before.contains(w));
            } else {
                assert(all.last() == w);
            }
        }
        assert forall|i: int| 0 <= i < all.len() implies some_wired(ctx, users, n, #[trigger] all[i]) by {
            if i < before.len() {
                assert(all[i] == before[i]);
                assert(some_wired(ctx, users, n - 1, before[i]));
                let j = choose|j: int| 0 <= j < n - 1 && #[trigger] wired_to(ctx, users[j], before[i]);
                assert(wired_to(ctx, users[j], all[i]));
            } else {
                assert(wired_to(ctx, users[n - 1], all[i]));
            }
        }
        if u.connected() && ctx.wire_of_pin(u) is Some {
            assert(wired_to(ctx, u, ctx.wire_of_pin(u)->0));
        }
    } else {
        assert(users.take(n) =~= Seq::<CellPin>::empty());
        assert(users.take(n).filter(has_wire(ctx)).len() == 0) by {
            users.take(n).lemma_filter_len(has_wire(ctx));
        }
    }
}

/// Holds of the pins that are wired.
pub open spec fn has_wire(ctx: Context) -> spec_fn(CellPin) -> bool {
    |u: CellPin| exists|w: WireId| wired_to(ctx, u, w)
}

/// The sink wires of a net are the wires of its users, of all of them that belong to a placed cell
/// with a wire at the port, wherever they stand in the list: one for each such user.
pub proof fn every_wired_user_is_a_sink(ctx: Context, net: NetId)
    requires
        ctx.wf(),
        ctx.design.valid_net(net),
    ensures
        ({
            let users = ctx.design.nets@[net.0 as int].users@;
            let sinks = sinks_upto(ctx, users, users.len() as int);
            &&& forall|j: int, w: WireId| #[trigger] user_wired(ctx, net, j, w) ==> sinks.contains(w)
            &&& forall|i: int|
                0 <= i < sinks.len() ==> some_user_wired(ctx, net, #[trigger] sinks[i])
            &&& sinks.len() == users.filter(has_wire(ctx)).len()
        }),
{
    let n = ctx.design.nets@[net.0 as int];
    let users = n.users@;
    let sinks = sinks_upto(ctx, users, users.len() as int);
    assert(ctx.design.net_ok(n));
    lemma_sinks(ctx, users, users.len() as int);
    assert(users.take(users.len() as int) =~= users);
    assert forall|j: int, w: WireId| #[trigger] user_wired(ctx, net, j, w) implies sinks.contains(w) by {
        assert(wired_to(ctx, users[j], w));
    }
    assert forall|i: int| 0 <= i < sinks.len() implies some_user_wired(ctx, net, #[trigger] sinks[i]) by {
        assert(some_wired(ctx, users, users.len() as int, sinks[i]));
        let j = choose|j: int| 0 <= j < users.len() && #[trigger] wired_to(ctx, users[j], sinks[i]);
        assert(user_wired(ctx, net, j, sinks[i]));
    }
}

/// Route `k` of a plan ends at the wire: its last pip drives the conductor of the wire.
pub open spec fn route_to(ctx: Context, plan: RoutePlan, k: int, w: WireId) -> bool {
    &&& 0 <= k < plan.sink_routes@.len()
    &&& plan.sink_routes@[k].sink_wire == w
    &&& plan.sink_routes@[k].pips@.len() > 0 ==> ctx.chipdb.joined(
        ctx.chipdb.dst(plan.sink_routes@[k].pips@.last()),
        w,
    )
}

/// The plan starts at the wire of the driver and has a route to the wire of every user.
pub open spec fn reaches_users(ctx: Context, net: NetId, plan: RoutePlan) -> bool {
    &&& plan.net == net
    &&& wired_to(ctx, ctx.design.nets@[net.0 as int].driver, plan.source_wire)
    &&& forall|j: int, w: WireId| #[trigger]
        user_wired(ctx, net, j, w) ==> exists|k: int| #[trigger] route_to(ctx, plan, k, w)
    &&& forall|k: int|
        0 <= k < plan.sink_routes@.len() ==> some_user_wired(ctx, net, (#[trigger] plan.sink_routes@[k]).sink_wire)
}

/// The list holds the same wires as the sinks, from the nearest to the source on.
proof fn lemma_nearest_first(ctx: Context, source: WireId, sinks: Seq<WireId>, sorted: Seq<WireId>)
    requires
        nearest_first(ctx, source, sinks, sorted),
        sinks.len() <= usize::MAX,
    ensures
        forall|w: WireId| #[trigger] sorted.contains(w) <==> sinks.contains(w),
        forall|i: int, j: int|
            #![trigger sorted[i], sorted[j]]
            0 <= i < j < sorted.len() ==> ctx.chipdb.distance(sorted[i].tile as int, source.tile as int)
                <= ctx.chipdb.distance(sorted[j].tile as int, source.tile as int),
{
    let (keys, order) = choose|keys: Seq<i64>, order: Seq<usize>|
        {
            &&& keys.len() == sinks.len()
            &&& sorted.len() == sinks.len()
            &&& forall|i: int|
                0 <= i < sinks.len() ==> #[trigger] keys[i] == ctx.chipdb.distance(
                    sinks[i].tile as int,
                    source.tile as int,
                )
            &&& #[trigger] orders(keys, 0, sinks.len() as int, order)
            &&& forall|i: int| 0 <= i < sorted.len() ==> #[trigger] sorted[i] == sinks[order[i] as int]
        };
    lemma_orders_all(keys, sinks.len() as int, order);
    assert forall|w: WireId| #[trigger] sorted.contains(w) <==> sinks.contains(w) by {
        if sorted.contains(w) {
            let i = choose|i: int| 0 <= i < sorted.len() && sorted[i] == w;
            assert(order[i] < sinks.len());
            assert(sinks[order[i] as int] == w);
        }
        if sinks.contains(w) {
            let i = choose|i: int| 0 <= i < sinks.len() && sinks[i] == w;
            assert(order.contains(i as usize));
            let k = choose|k: int| 0 <= k < order.len() && order[k] == i as usize;
            assert(sorted[k] == w);
        }
    }
    assert forall|i: int, j: int|
        #![trigger sorted[i], sorted[j]]
        0 <= i < j < sorted.len() implies ctx.chipdb.distance(sorted[i].tile as int, source.tile as int)
        <= ctx.chipdb.distance(sorted[j].tile as int, source.tile as int) by {
        assert(order[i] < sinks.len() && order[j] < sinks.len());
        assert(keys[order[i] as int] <= keys[order[j] as int]);
    }
}

/// The routers take the sinks of a net from the nearest on, and leave none out.
pub proof fn sinks_are_taken_nearest_first(ctx: Context, net: NetId, source: WireId, sorted: Seq<WireId>)
    requires
        ctx.wf(),
        ctx.design.valid_net(net),
        ({
            let users = ctx.design.nets@[net.0 as int].users@;
            nearest_first(ctx, source, sinks_upto(ctx, users, users.len() as int), sorted)
        }),
    ensures
        forall|j: int, w: WireId| #[trigger] user_wired(ctx, net, j, w) ==> sorted.contains(w),
        forall|i: int| 0 <= i < sorted.len() ==> some_user_wired(ctx, net, #[trigger] sorted[i]),
        forall|i: int, j: int|
            #![trigger sorted[i], sorted[j]]
            0 <= i < j < sorted.len() ==> ctx.chipdb.distance(sorted[i].tile as int, source.tile as int)
                <= ctx.chipdb.distance(sorted[j].tile as int, source.tile as int),
{
    let users = ctx.design.nets@[net.0 as int].users@;
    let sinks = sinks_upto(ctx, users, users.len() as int);
    every_wired_user_is_a_sink(ctx, net);
    users.lemma_filter_len(has_wire(ctx));
    assert(users.len() <= usize::MAX) by {
        assert(ctx.design.nets@[net.0 as int].users@.len() == ctx.design.nets@[net.0 as int].users.len());
    }
    lemma_nearest_first(ctx, source, sinks, sorted);
    assert forall|i: int| 0 <= i < sorted.len() implies some_user_wired(ctx, net, #[trigger] sorted[i]) by {
        assert(sorted.contains(sorted[i]));
        let k = choose|k: int| 0 <= k < sinks.len() && sinks[k] == sorted[i];
        assert(some_user_wired(ctx, net, sinks[k]));
        let j = choose|j: int| user_wired(ctx, net, j, sinks[k]);
        assert(user_wired(ctx, net, j, sorted[i]));
    }
}

/// A plan with a route to each of a list of sinks reaches every user, if the sinks are those of the users.
pub proof fn lemma_reaches<M: PathCostModel>(
    ctx: Context,
    m: &M,
    net: NetId,
    sinks: Seq<WireId>,
    opts: AStarOptions,
    plan: RoutePlan,
)
    requires
        ctx.wf(),
        ctx.design.valid_net(net),
        ctx.design.nets@[net.0 as int].driver.connected(),
        plan_made(ctx, m, net, sinks, opts, Ok(plan)),
        forall|j: int, w: WireId| #[trigger] user_wired(ctx, net, j, w) ==> sinks.contains(w),
        forall|i: int| 0 <= i < sinks.len() ==> some_user_wired(ctx, net, #[trigger] sinks[i]),
    ensures
        reaches_users(ctx, net, plan),
{
    let n = ctx.design.nets@[net.0 as int];
    assert(ctx.design.net_ok(n));
    pins_have_the_wires_of_their_sites(ctx, n.driver, plan.source_wire);
    let routes = plan.sink_routes@;
    let start = start_tree(ctx, net, plan.source_wire);
    assert forall|k: int| 0 <= k < routes.len() implies route_to(ctx, plan, k, #[trigger] sinks[k]) by {
        assert(routes[k].sink_wire == sinks[k]);
        assert(crate::router::plan::route_ok(ctx, m, tree_at(ctx, start, routes, k), opts, routes[k]));
    }
    assert forall|j: int, w: WireId| #[trigger] user_wired(ctx, net, j, w) implies exists|k: int| #[trigger]
        route_to(ctx, plan, k, w) by {
        assert(sinks.contains(w));
        let k = choose|k: int| 0 <= k < sinks.len() && sinks[k] == w;
        assert(route_to(ctx, plan, k, sinks[k]));
    }
    assert forall|k: int| 0 <= k < routes.len() implies some_user_wired(ctx, net, (#[trigger] plan.sink_routes@[k]).sink_wire) by {
        assert(some_user_wired(ctx, net, sinks[k]));
        let j = choose|j: int| user_wired(ctx, net, j, sinks[k]);
        assert(user_wired(ctx, net, j, routes[k].sink_wire));
    }
}

/// A plan that the maze router makes for a net with a driver starts at the wire of the driver and
/// has a route to the wire of every user that has one.
pub proof fn plans_reach_every_user(
    ctx: Context,
    net: NetId,
    pen: Map<WireId, DelayT>,
    margin: i32,
    la: Option<Lookahead>,
    plan: RoutePlan,
)
    requires
        ctx.wf(),
        ctx.design.valid_net(net),
        ctx.design.nets@[net.0 as int].driver.cell.0 != u32::MAX,
        r1_made(ctx, net, pen, margin, la, Ok(plan)),
    ensures
        reaches_users(ctx, net, plan),
{
    let n = ctx.design.nets@[net.0 as int];
    let (m, sinks) = choose|m: MazeCostModel, sinks: Seq<WireId>|
        {
            &&& crate::router::maze::model_for(ctx, net, pen, margin, la, m)
            &&& sinks_for(ctx, net, sinks)
            &&& #[trigger] plan_made(ctx, &m, net, sinks, route_options(None, false), Ok(plan))
        };
    let source = ctx.wire_of_pin(n.driver)->0;
    sinks_are_taken_nearest_first(ctx, net, source, sinks);
    lemma_reaches(ctx, &m, net, sinks, route_options(None, false), plan);
}

/// The plans that were made for a list of nets, each with a route to every user of its net.
pub open spec fn all_reach_users(ctx: Context, nets: Seq<NetId>, plans: Seq<Result<RoutePlan, RouterError>>) -> bool {
    &&& plans.len() == nets.len()
    &&& forall|i: int|
        0 <= i < nets.len() && ctx.design.nets@[nets[i].0 as int].driver.cell.0 != u32::MAX ==> (
        #[trigger] plans[i]) is Ok && reaches_users(ctx, nets[i], plans[i]->Ok_0)
}

proof fn lemma_bound_nets_reach(
    ctx: Context,
    nets: Seq<NetId>,
    pen: Map<WireId, DelayT>,
    margin: i32,
    la: Option<Lookahead>,
    new: Context,
)
    requires
        ctx.wf(),
        forall|i: int| 0 <= i < nets.len() ==> ctx.design.valid_net(#[trigger] nets[i]),
        nets_bound(ctx, nets, pen, margin, la, Ok::<(), RouterError>(()), new),
    ensures
        exists|plans: Seq<Result<RoutePlan, RouterError>>| #[trigger]
            all_reach_users(ctx, nets, plans) && plans_bound(ctx, plans, nets.len() as int, new),
{
    let plans = choose|plans: Seq<Result<RoutePlan, RouterError>>| #[trigger]
        planned(ctx, nets, pen, margin, la, plans) && plans_taken(
            ctx,
            plans,
            Ok::<(), RouterError>(()),
            new,
        );
    let trail = choose|trail: Seq<Context>| #[trigger]
        crate::router::rounds::bound_along(trail, plans, plans.len() as int) && trail[0] == ctx
            && trail[plans.len() as int] == new;
    assert forall|i: int|
        0 <= i < nets.len() && ctx.design.nets@[nets[i].0 as int].driver.cell.0 != u32::MAX implies (
    #[trigger] plans[i]) is Ok && reaches_users(ctx, nets[i], plans[i]->Ok_0) by {
        assert(crate::router::rounds::bound_at(trail, plans, i));
        assert(ctx.design.valid_net(nets[i]));
        plans_reach_every_user(ctx, nets[i], pen, margin, la, plans[i]->Ok_0);
    }
    assert(all_reach_users(ctx, nets, plans));
}

/// When routing a list of nets in rounds succeeds, each net with a driver was planned with a route
/// to every user that has a wire, and the plans were bound one after the other.
pub proof fn routed_lists_reach_every_user(
    old_ctx: Context,
    nets: Seq<NetId>,
    cfg: Router1Cfg,
    new: Context,
)
    requires
        old_ctx.wf(),
        forall|i: int| 0 <= i < nets.len() ==> old_ctx.design.valid_net(#[trigger] nets[i]),
        rounds_done(old_ctx, nets, cfg, Ok::<(), RouterError>(()), new),
    ensures
        exists|plans: Seq<Result<RoutePlan, RouterError>>, first: Context| #[trigger]
            all_reach_users(old_ctx, nets, plans) && #[trigger] plans_bound(
                old_ctx,
                plans,
                nets.len() as int,
                first,
            ),
{
    let (n, pen) = choose|n: int, pen: Map<WireId, DelayT>|
        0 <= n <= cfg.max_iterations && #[trigger] after_rounds(old_ctx, nets, cfg, n, new, pen);
    let trail = choose|trail: Seq<(Context, Map<WireId, DelayT>)>| #[trigger]
        rounds_along(old_ctx, trail, nets, cfg, n) && trail[n] == (new, pen);
    lemma_bound_nets_reach(old_ctx, nets, trail[0].1, cfg.bb_margin, cfg.lookahead, trail[0].0);
}

/// The step of a plan at the wire, over the pip.
pub open spec fn plan_has(ctx: Context, plan: RoutePlan, w: WireId, pip: Option<PipId>) -> bool {
    ||| w == plan.source_wire && pip is None
    ||| pip is Some && ctx.chipdb.dst(pip->0) == w && exists|i: int, j: int|
        0 <= i < plan.sink_routes@.len() && 0 <= j < plan.sink_routes@[i].pips@.len()
            && #[trigger] plan.sink_routes@[i].pips@[j] == pip->0
}

proof fn lemma_route_steps(ctx: Context, routes: Seq<SinkRoute>, n: int, s: PlanStep)
    requires
        0 <= n <= routes.len(),
    ensures
        route_steps(ctx.chipdb, routes, n).contains(s) <==> s.pip is Some && ctx.chipdb.dst(s.pip->0) == s.wire
            && exists|i: int, j: int|
            0 <= i < n && 0 <= j < routes[i].pips@.len() && #[trigger] routes[i].pips@[j] == s.pip->0,
    decreases n,
{
    let all = route_steps(ctx.chipdb, routes, n);
    if n > 0 {
        lemma_route_steps(ctx, routes, n - 1, s);
        let before = route_steps(ctx.chipdb, routes, n - 1);
        let own = crate::router::common::pip_steps(ctx.chipdb, routes[n - 1].pips@);
        if all.contains(s) {
            let k = choose|k: int| 0 <= k < all.len() && all[k] == s;
            if k < before.len() {
                assert(before[k] == s);
                let (i, j) = choose|i: int, j: int|
                    0 <= i < n - 1 && 0 <= j < routes[i].pips@.len() && #[trigger] routes[i].pips@[j] == s.pip->0;
                assert(routes[i].pips@[j] == s.pip->0);
            } else {
                assert(own[k - before.len()] == s);
                assert(routes[n - 1].pips@[k - before.len()] == s.pip->0);
            }
        }
        if s.pip is Some && ctx.chipdb.dst(s.pip->0) == s.wire && exists|i: int, j: int|
            0 <= i < n && 0 <= j < routes[i].pips@.len() && #[trigger] routes[i].pips@[j] == s.pip->0 {
            let (i, j) = choose|i: int, j: int|
                0 <= i < n && 0 <= j < routes[i].pips@.len() && #[trigger] routes[i].pips@[j] == s.pip->0;
            if i < n - 1 {
                assert(before.contains(s));
                let k = choose|k: int| 0 <= k < before.len() && before[k] == s;
                assert(all[k] == s);
            } else {
                assert(own[j] == s);
                assert(all[before.len() + j] == s);
            }
        }
    }
}

proof fn lemma_plan_steps(ctx: Context, plan: RoutePlan, s: PlanStep)
    ensures
        plan.steps(ctx.chipdb).contains(s) <==> plan_has(ctx, plan, s.wire, s.pip),
{
    let rest = route_steps(ctx.chipdb, plan.sink_routes@, plan.sink_routes@.len() as int);
    let all = plan.steps(ctx.chipdb);
    lemma_route_steps(ctx, plan.sink_routes@, plan.sink_routes@.len() as int, s);
    let head = PlanStep { wire: plan.source_wire, pip: None };
    assert(all[0] == head);
    if all.contains(s) {
        let k = choose|k: int| 0 <= k < all.len() && all[k] == s;
        if k > 0 {
            assert(rest[k - 1] == s);
        }
    }
    if rest.contains(s) {
        let k = choose|k: int| 0 <= k < rest.len() && rest[k] == s;
        assert(all[k + 1] == s);
    }
}

/// Some step among the first `n` is for a wire of the conductor.
spec fn steps_touch(ctx: Context, steps: Seq<PlanStep>, n: int, w: WireId) -> bool {
    exists|i: int| 0 <= i < n && ctx.chipdb.joined((#[trigger] steps[i]).wire, w)
}

proof fn lemma_bound_upto(bindings: Map<WireId, Binding>, wires: Seq<WireId>, b: Binding, n: int, w: WireId)
    requires
        0 <= n <= wires.len(),
    ensures
        ({
            let new = Context::bound_upto(bindings, wires, b, n);
            if wires.take(n).contains(w) {
                new.contains_key(w) && new[w] == b
            } else {
                (new.contains_key(w) <==> bindings.contains_key(w)) && (new.contains_key(w) ==> new[w] == bindings[w])
            }
        }),
    decreases n,
{
    if n > 0 {
        lemma_bound_upto(bindings, wires, b, n - 1, w);
        let part = wires.take(n - 1);
        let all = wires.take(n);
        assert(all =~= part.push(wires[n - 1]));
        if part.contains(w) {
            let i = choose|i: int| 0 <= i < part.len() && part[i] == w;
            assert(all[i] == w);
        }
        if w == wires[n - 1] {
            assert(all[n - 1] == w);
        }
        if all.contains(w) && w != wires[n - 1] {
            let i = choose|i: int| 0 <= i < all.len() && all[i] == w;
            assert(part[i] == w);
        }
    }
}

proof fn lemma_conductor(ctx: Context, w: WireId, x: WireId)
    requires
        ctx.chipdb.wf(),
    ensures
        ctx.conductor_of(w).contains(x) <==> ctx.chipdb.joined(w, x),
{
    let peers = ctx.chipdb.peers(w);
    let all = ctx.conductor_of(w);
    ctx.chipdb.lemma_peers(w);
    assert(all[0] == w);
    if all.contains(x) {
        let i = choose|i: int| 0 <= i < all.len() && all[i] == x;
        if i > 0 {
            assert(peers[i - 1] == x);
            assert(peers.contains(x));
        }
    }
    if peers.contains(x) {
        let i = choose|i: int| 0 <= i < peers.len() && peers[i] == x;
        assert(all[i + 1] == x);
    }
    if ctx.chipdb.joined(w, x) && x != w {
        assert(peers.contains(x));
    }
}

proof fn lemma_wires_after(
    ctx: Context,
    bindings: Map<WireId, Binding>,
    net: NetId,
    steps: Seq<PlanStep>,
    n: int,
    w: WireId,
)
    requires
        ctx.chipdb.wf(),
        0 <= n <= steps.len(),
    ensures
        ({
            let new = wires_after(ctx, bindings, net, steps, n);
            if steps_touch(ctx, steps, n, w) {
                new.contains_key(w) && new[w] == (Binding { net, strength: PlaceStrength::Strong })
            } else {
                (new.contains_key(w) <==> bindings.contains_key(w)) && (new.contains_key(w) ==> new[w] == bindings[w])
            }
        }),
    decreases n,
{
    if n > 0 {
        lemma_wires_after(ctx, bindings, net, steps, n - 1, w);
        let before = wires_after(ctx, bindings, net, steps, n - 1);
        let s = steps[n - 1].wire;
        let list = ctx.conductor_of(s);
        lemma_bound_upto(before, list, crate::router::common::held(net), list.len() as int, w);
        assert(list.take(list.len() as int) =~= list);
        lemma_conductor(ctx, s, w);
        if steps_touch(ctx, steps, n - 1, w) {
            let i = choose|i: int| 0 <= i < n - 1 && ctx.chipdb.joined((#[trigger] steps[i]).wire, w);
            assert(ctx.chipdb.joined(steps[i].wire, w));
        }
        if ctx.chipdb.joined(s, w) {
            assert(ctx.chipdb.joined(steps[n - 1].wire, w));
        }
    }
}

proof fn lemma_pips_after(bindings: Map<PipId, Binding>, net: NetId, steps: Seq<PlanStep>, n: int, p: PipId)
    requires
        0 <= n <= steps.len(),
    ensures
        ({
            let new = pips_after(bindings, net, steps, n);
            if exists|i: int| 0 <= i < n && (#[trigger] steps[i]).pip == Some(p) {
                new.contains_key(p) && new[p] == (Binding { net, strength: PlaceStrength::Strong })
            } else {
                (new.contains_key(p) <==> bindings.contains_key(p)) && (new.contains_key(p) ==> new[p] == bindings[p])
            }
        }),
    decreases n,
{
    if n > 0 {
        lemma_pips_after(bindings, net, steps, n - 1, p);
        if steps[n - 1].pip == Some(p) {
            assert((steps[n - 1]).pip == Some(p));
        }
    }
}

proof fn lemma_tree_after(tree: Map<WireId, PipMap>, steps: Seq<PlanStep>, n: int, w: WireId)
    requires
        0 <= n <= steps.len(),
    ensures
        ({
            let new = tree_after(tree, steps, n);
            if exists|i: int| 0 <= i < n && (#[trigger] steps[i]).wire == w {
                new.contains_key(w) && exists|i: int|
                    0 <= i < n && (#[trigger] steps[i]).wire == w && new[w] == (PipMap {
                        pip: steps[i].pip,
                        strength: PlaceStrength::Strong,
                    })
            } else {
                (new.contains_key(w) <==> tree.contains_key(w)) && (new.contains_key(w) ==> new[w] == tree[w])
            }
        }),
    decreases n,
{
    if n > 0 {
        lemma_tree_after(tree, steps, n - 1, w);
        if steps[n - 1].wire == w {
            assert((steps[n - 1]).wire == w);
        } else if exists|i: int| 0 <= i < n - 1 && (#[trigger] steps[i]).wire == w {
            let new = tree_after(tree, steps, n - 1);
            let i = choose|i: int|
                0 <= i < n - 1 && (#[trigger] steps[i]).wire == w && new[w] == (PipMap {
                    pip: steps[i].pip,
                    strength: PlaceStrength::Strong,
                });
            assert(steps[i].wire == w);
        }
    }
}

/// A wire of the list is found taken exactly if another net holds one of them; what is found is such a wire.
pub proof fn lemma_first_taken(ctx: Context, net: NetId, wires: Seq<WireId>)
    ensures
        ctx.first_taken(net, wires) is None <==> forall|i: int|
            0 <= i < wires.len() ==> (ctx.wire_bindings@.contains_key(#[trigger] wires[i])
                ==> ctx.wire_bindings@[wires[i]].net == net),
        ctx.first_taken(net, wires) is Some ==> ctx.wire_bindings@.contains_key(ctx.first_taken(net, wires)->0)
            && ctx.wire_bindings@[ctx.first_taken(net, wires)->0].net != net && wires.contains(
            ctx.first_taken(net, wires)->0,
        ),
    decreases wires.len(),
{
    if wires.len() > 0 {
        let rest = wires.skip(1);
        lemma_first_taken(ctx, net, rest);
        assert forall|i: int| 0 < i < wires.len() implies wires[i] == #[trigger] rest[i - 1] by {
        }
        if ctx.first_taken(net, wires) is None {
            assert forall|i: int|
                0 <= i < wires.len() && ctx.wire_bindings@.contains_key(#[trigger] wires[i]) implies ctx.wire_bindings@[wires[i]].net
                == net by {
                if i > 0 {
                    assert(rest[i - 1] == wires[i]);
                }
            }
        } else {
            let w = ctx.first_taken(net, wires)->0;
            if w != wires[0] {
                let i = choose|i: int| 0 <= i < rest.len() && rest[i] == w;
                assert(wires[i + 1] == w);
            } else {
                assert(wires[0] == w);
            }
            if forall|i: int|
                0 <= i < wires.len() ==> (ctx.wire_bindings@.contains_key(#[trigger] wires[i])
                    ==> ctx.wire_bindings@[wires[i]].net == net) {
                let i = choose|i: int| 0 <= i < wires.len() && wires[i] == w;
                assert(wires[i] == w);
            }
        }
    }
}

/// A wire that the plan needs, or one of its conductor, is held by another net.
pub open spec fn plan_blocked(ctx: Context, plan: RoutePlan, w: WireId) -> bool {
    &&& ctx.wire_bindings@.contains_key(w)
    &&& ctx.wire_bindings@[w].net != plan.net
    &&& exists|x: WireId, pip: Option<PipId>| #[trigger]
        plan_has(ctx, plan, x, pip) && ctx.chipdb.joined(x, w)
}

proof fn lemma_conflict(ctx: Context, net: NetId, steps: Seq<PlanStep>)
    requires
        ctx.chipdb.wf(),
    ensures
        plan_conflict(ctx, net, steps) is None <==> forall|i: int, w: WireId|
            0 <= i < steps.len() && #[trigger] ctx.chipdb.joined(steps[i].wire, w)
                && ctx.wire_bindings@.contains_key(w) ==> ctx.wire_bindings@[w].net == net,
    decreases steps.len(),
{
    if steps.len() > 0 {
        let rest = steps.skip(1);
        lemma_conflict(ctx, net, rest);
        let s = steps[0].wire;
        let list = ctx.conductor_of(s);
        lemma_first_taken(ctx, net, list);
        if plan_conflict(ctx, net, steps) is None {
            assert forall|i: int, w: WireId|
                0 <= i < steps.len() && #[trigger] ctx.chipdb.joined(steps[i].wire, w)
                    && ctx.wire_bindings@.contains_key(w) implies ctx.wire_bindings@[w].net == net by {
                if i == 0 {
                    lemma_conductor(ctx, s, w);
                    let k = choose|k: int| 0 <= k < list.len() && list[k] == w;
                    assert(list[k] == w);
                } else {
                    assert(rest[i - 1] == steps[i]);
                    assert(ctx.chipdb.joined(rest[i - 1].wire, w));
                }
            }
        } else if ctx.first_taken(net, list) is Some {
            let w = ctx.first_taken(net, list)->0;
            lemma_conductor(ctx, s, w);
            assert(ctx.chipdb.joined(steps[0].wire, w));
        } else {
            let (i, w) = choose|i: int, w: WireId|
                0 <= i < rest.len() && #[trigger] ctx.chipdb.joined(rest[i].wire, w)
                    && ctx.wire_bindings@.contains_key(w) && ctx.wire_bindings@[w].net != net;
            assert(steps[i + 1] == rest[i]);
            assert(ctx.chipdb.joined(steps[i + 1].wire, w));
        }
    }
}

/// A plan is bound unless another net holds a wire of a conductor that the plan needs; then nothing
/// changes. A plan that is bound gives its net all wires of the conductors of its source and of what
/// its pips drive, and its pips; the tree of the net has the source and the wires that the pips drive,
/// each with a pip of the plan that drives it. All other wires, pips and nets stay as they were.
pub proof fn bound_plans_hold_what_they_need(old_ctx: Context, plan: RoutePlan, new: Context)
    requires
        old_ctx.wf(),
        old_ctx.design.valid_net(plan.net),
        plan.source_wire != WireId::nowhere(),
        plan_bound(old_ctx, plan, new),
    ensures
        (exists|w: WireId| #[trigger] plan_blocked(old_ctx, plan, w)) ==> new == old_ctx,
        !(exists|w: WireId| #[trigger] plan_blocked(old_ctx, plan, w)) ==> {
            let held = Binding { net: plan.net, strength: PlaceStrength::Strong };
            let tree = new.design.nets@[plan.net.0 as int].wires@;
            &&& forall|x: WireId, pip: Option<PipId>, w: WireId|
                #![trigger plan_has(old_ctx, plan, x, pip), old_ctx.chipdb.joined(x, w)]
                plan_has(old_ctx, plan, x, pip) && old_ctx.chipdb.joined(x, w)
                    ==> new.wire_bindings@.contains_key(w) && new.wire_bindings@[w] == held
            &&& forall|x: WireId, pip: Option<PipId>| #[trigger]
                plan_has(old_ctx, plan, x, pip) ==> tree.contains_key(x) && plan_has(
                    old_ctx,
                    plan,
                    x,
                    tree[x].pip,
                ) && (pip is Some ==> new.pip_bindings@.contains_key(pip->0) && new.pip_bindings@[pip->0] == held)
            &&& forall|w: WireId|
                (forall|x: WireId, pip: Option<PipId>| #[trigger]
                    plan_has(old_ctx, plan, x, pip) ==> !old_ctx.chipdb.joined(x, w)) ==> (
                #[trigger] new.wire_bindings@.contains_key(w) <==> old_ctx.wire_bindings@.contains_key(w)) && (
                new.wire_bindings@.contains_key(w) ==> new.wire_bindings@[w] == old_ctx.wire_bindings@[w])
            &&& forall|i: int|
                0 <= i < old_ctx.design.nets@.len() && i != plan.net.0 ==> #[trigger] new.design.nets@[i]
                    == old_ctx.design.nets@[i]
        },
{
    let steps = plan.steps(old_ctx.chipdb);
    let n = steps.len() as int;
    lemma_conflict(old_ctx, plan.net, steps);
    assert forall|i: int| 0 <= i < n implies plan_has(
        old_ctx,
        plan,
        (#[trigger] steps[i]).wire,
        steps[i].pip,
    ) by {
        lemma_plan_steps(old_ctx, plan, steps[i]);
        assert(steps.contains(steps[i]));
    }
    if exists|w: WireId| #[trigger] plan_blocked(old_ctx, plan, w) {
        let w = choose|w: WireId| #[trigger] plan_blocked(old_ctx, plan, w);
        let (x, pip) = choose|x: WireId, pip: Option<PipId>| #[trigger]
            plan_has(old_ctx, plan, x, pip) && old_ctx.chipdb.joined(x, w);
        lemma_plan_steps(old_ctx, plan, PlanStep { wire: x, pip });
        let i = choose|i: int| 0 <= i < n && steps[i] == (PlanStep { wire: x, pip });
        assert(old_ctx.chipdb.joined(steps[i].wire, w));
    } else {
        assert(plan_conflict(old_ctx, plan.net, steps) is None) by {
            assert forall|i: int, w: WireId|
                0 <= i < n && #[trigger] old_ctx.chipdb.joined(steps[i].wire, w)
                    && old_ctx.wire_bindings@.contains_key(w) implies old_ctx.wire_bindings@[w].net
                == plan.net by {
                assert(plan_has(old_ctx, plan, steps[i].wire, steps[i].pip));
                assert(!plan_blocked(old_ctx, plan, w));
            }
        }
        let held = Binding { net: plan.net, strength: PlaceStrength::Strong };
        let tree = new.design.nets@[plan.net.0 as int].wires@;
        assert forall|x: WireId, pip: Option<PipId>, w: WireId|
            #![trigger plan_has(old_ctx, plan, x, pip), old_ctx.chipdb.joined(x, w)]
            plan_has(old_ctx, plan, x, pip) && old_ctx.chipdb.joined(x, w) implies new.wire_bindings@.contains_key(
            w,
        ) && new.wire_bindings@[w] == held by {
            lemma_plan_steps(old_ctx, plan, PlanStep { wire: x, pip });
            let i = choose|i: int| 0 <= i < n && steps[i] == (PlanStep { wire: x, pip });
            assert(old_ctx.chipdb.joined(steps[i].wire, w));
            lemma_wires_after(old_ctx, old_ctx.wire_bindings@, plan.net, steps, n, w);
        }
        assert forall|x: WireId, pip: Option<PipId>| #[trigger] plan_has(old_ctx, plan, x, pip) implies tree.contains_key(
            x,
        ) && plan_has(old_ctx, plan, x, tree[x].pip) && (pip is Some ==> new.pip_bindings@.contains_key(pip->0)
            && new.pip_bindings@[pip->0] == held) by {
            lemma_plan_steps(old_ctx, plan, PlanStep { wire: x, pip });
            let i = choose|i: int| 0 <= i < n && steps[i] == (PlanStep { wire: x, pip });
            assert(steps[i].wire == x);
            lemma_tree_after(old_ctx.design.net_of(plan.net).wires@, steps, n, x);
            if pip is Some {
                assert(steps[i].pip == Some(pip->0));
                lemma_pips_after(old_ctx.pip_bindings@, plan.net, steps, n, pip->0);
            }
        }
        assert forall|w: WireId|
            (forall|x: WireId, pip: Option<PipId>| #[trigger]
                plan_has(old_ctx, plan, x, pip) ==> !old_ctx.chipdb.joined(x, w)) implies (
        #[trigger] new.wire_bindings@.contains_key(w) <==> old_ctx.wire_bindings@.contains_key(w)) && (
        new.wire_bindings@.contains_key(w) ==> new.wire_bindings@[w] == old_ctx.wire_bindings@[w]) by {
            lemma_wires_after(old_ctx, old_ctx.wire_bindings@, plan.net, steps, n, w);
            if steps_touch(old_ctx, steps, n, w) {
                let i = choose|i: int| 0 <= i < n && old_ctx.chipdb.joined((#[trigger] steps[i]).wire, w);
                assert(plan_has(old_ctx, plan, steps[i].wire, steps[i].pip));
            }
        }
    }
}

} // verus!
