//! What routing starts from, what it takes and gives back, and in which order nets are taken.

use crate::chipdb::{PipId, WireId};
use crate::context::Context;
use crate::metrics::net_box;
use crate::netlist::{Design, NetId};
use crate::order::lemma_orders_all;
use crate::router::common::{global_clock_type, pips_of, sinks_upto, unrouted, RoutePlan, SinkRoute};
use crate::router::gate::{by_fanout, by_rank, fanout_key, ordered_by, rank_of, source_of};
use crate::router::graph::{path_ok, PathCostModel};
use crate::router::plan::{driven, plan_made, start_tree, tree_at};
use crate::router::plan_laws::{
    every_wired_user_is_a_sink, lemma_reaches, pins_have_the_wires_of_their_sites, reaches_users, wired_to,
};
use crate::router::ripup::{conductors, ripped_up};
use crate::router::router2::{r2_made, r2_model, r2_options, Router2CostModel, WireCosts};
use vstd::prelude::*;

verus! {

/// A net starts from its source and from all wires that it is routed over; from a source with a constant
/// it starts from all wires with that constant too.
pub proof fn nets_start_from_all_they_have(ctx: Context, net: NetId, source: WireId, w: WireId)
    ensures
        start_tree(ctx, net, source).contains(source),
        ctx.design.nets@[net.0 as int].wires@.contains_key(w) ==> start_tree(ctx, net, source).contains(w),
        ctx.chipdb.valid_wire(w) && ctx.chipdb.wire(source).const_value != 0 && ctx.chipdb.wire(w).const_value
            == ctx.chipdb.wire(source).const_value ==> start_tree(ctx, net, source).contains(w),
        w != source && !ctx.design.nets@[net.0 as int].wires@.contains_key(w) && (ctx.chipdb.wire(source).const_value
            == 0 || ctx.chipdb.wire(w).const_value != ctx.chipdb.wire(source).const_value) ==> !start_tree(
            ctx,
            net,
            source,
        ).contains(w),
{
}

/// The tree that a sink is searched from has what it started with and every wire that a pip of an earlier
/// route drives, and no others.
pub proof fn later_sinks_start_from_earlier_routes(
    ctx: Context,
    start: Set<WireId>,
    routes: Seq<SinkRoute>,
    k: int,
)
    requires
        0 <= k <= routes.len(),
    ensures
        forall|w: WireId| #[trigger]
            tree_at(ctx, start, routes, k).contains(w) <==> start.contains(w) || exists|i: int, j: int|
                #![trigger routes[i].pips@[j]]
                0 <= i < k && 0 <= j < routes[i].pips@.len() && ctx.chipdb.dst(routes[i].pips@[j]) == w,
    decreases k,
{
    if k > 0 {
        later_sinks_start_from_earlier_routes(ctx, start, routes, k - 1);
        let part = tree_at(ctx, start, routes, k - 1);
        let last = routes[k - 1].pips@;
        assert forall|w: WireId| #[trigger]
            tree_at(ctx, start, routes, k).contains(w) <==> start.contains(w) || exists|i: int, j: int|
                #![trigger routes[i].pips@[j]]
                0 <= i < k && 0 <= j < routes[i].pips@.len() && ctx.chipdb.dst(routes[i].pips@[j]) == w by {
            assert(part.contains(w) <==> start.contains(w) || exists|i: int, j: int|
                #![trigger routes[i].pips@[j]]
                0 <= i < k - 1 && 0 <= j < routes[i].pips@.len() && ctx.chipdb.dst(routes[i].pips@[j]) == w);
            if driven(ctx, last).contains(w) {
                let j = choose|j: int| 0 <= j < last.len() && ctx.chipdb.dst(#[trigger] last[j]) == w;
                assert(ctx.chipdb.dst(routes[k - 1].pips@[j]) == w);
            }
            if exists|j: int| 0 <= j < last.len() && ctx.chipdb.dst(#[trigger] last[j]) == w {
                assert(driven(ctx, last).contains(w));
            }
        }
    }
}

/// The pips of a path are pips of the device; the first starts at a wire that is joined to a source, each
/// other one at a wire that is joined to what the one before drives, and the last drives a wire that is
/// joined to the target.
pub proof fn paths_hang_together<M: PathCostModel>(
    ctx: Context,
    m: &M,
    srcs: Map<WireId, ()>,
    path: Seq<PipId>,
    w: WireId,
)
    requires
        path_ok(ctx, m, srcs, path, w),
    ensures
        forall|i: int| 0 <= i < path.len() ==> ctx.chipdb.valid_pip(#[trigger] path[i]),
        path.len() > 0 ==> ctx.chipdb.joined(ctx.chipdb.dst(path.last()), w) && exists|s: WireId| #[trigger]
            srcs.contains_key(s) && ctx.chipdb.joined(s, ctx.chipdb.src(path[0])),
        path.len() == 0 ==> exists|s: WireId| #[trigger] srcs.contains_key(s) && ctx.chipdb.joined(s, w),
        forall|i: int, j: int|
            #![trigger path[i], path[j]]
            0 <= i && j == i + 1 && j < path.len() ==> ctx.chipdb.joined(
                ctx.chipdb.dst(path[i]),
                ctx.chipdb.src(path[j]),
            ),
    decreases path.len(),
{
    if path.len() > 0 {
        let front = path.drop_last();
        let u = ctx.chipdb.src(path.last());
        paths_hang_together(ctx, m, srcs, front, u);
        assert forall|i: int| 0 <= i < path.len() implies ctx.chipdb.valid_pip(#[trigger] path[i]) by {
            if i < front.len() {
                assert(front[i] == path[i]);
            }
        }
        assert forall|i: int, j: int|
            #![trigger path[i], path[j]]
            0 <= i && j == i + 1 && j < path.len() implies ctx.chipdb.joined(
            ctx.chipdb.dst(path[i]),
            ctx.chipdb.src(path[j]),
        ) by {
            assert(front[i] == path[i]);
            if j < front.len() {
                assert(front[j] == path[j]);
            } else {
                assert(front.last() == path[i]);
            }
        }
        if front.len() > 0 {
            assert(front[0] == path[0]);
        }
    }
}

/// The conductor of a wire is made of the wires that are joined to it.
pub proof fn conductors_are_joined_wires(ctx: Context, w: WireId, x: WireId)
    requires
        ctx.wf(),
        ctx.chipdb.valid_wire(w),
    ensures
        ctx.conductor_of(w).contains(x) <==> ctx.chipdb.joined(w, x),
{
    let all = ctx.conductor_of(w);
    let peers = ctx.chipdb.peers(w);
    ctx.chipdb.lemma_peers(w);
    assert(all[0] == w);
    if ctx.chipdb.joined(w, x) && x != w {
        assert(peers.contains(x));
        let i = choose|i: int| 0 <= i < peers.len() && peers[i] == x;
        assert(all[i + 1] == x);
    }
    if all.contains(x) {
        let i = choose|i: int| 0 <= i < all.len() && all[i] == x;
        if i > 0 {
            assert(peers[i - 1] == x);
        }
    }
}

/// After a net was taken apart its tree is empty; no wire that was joined to a wire of the tree and no pip
/// of the tree is held by anyone; all other wires and pips are held as before, and the other nets have
/// the trees that they had.
pub proof fn taking_a_net_apart_frees_what_it_had(a: Context, net: NetId, b: Context)
    requires
        a.wf(),
        a.design.valid_net(net),
        ripped_up(a, net, b),
    ensures
        ({
            let tree = a.design.nets@[net.0 as int].wires@;
            &&& forall|w: WireId| !(#[trigger] b.design.nets@[net.0 as int].wires@.contains_key(w))
            &&& forall|w: WireId, x: WireId|
                #![trigger tree.contains_key(w), b.wire_bindings@.contains_key(x)]
                tree.contains_key(w) && a.chipdb.joined(w, x) ==> !b.wire_bindings@.contains_key(x)
            &&& forall|w: WireId| #[trigger]
                tree.contains_key(w) && tree[w].pip is Some ==> !b.pip_bindings@.contains_key(tree[w].pip->0)
            &&& forall|x: WireId|
                (forall|w: WireId| #[trigger] tree.contains_key(w) ==> !a.chipdb.joined(w, x)) ==> (
                #[trigger] b.wire_bindings@.contains_key(x) <==> a.wire_bindings@.contains_key(x)) && (
                a.wire_bindings@.contains_key(x) ==> b.wire_bindings@[x] == a.wire_bindings@[x])
            &&& forall|p: PipId|
                (forall|w: WireId| #[trigger] tree.contains_key(w) ==> tree[w].pip != Some(p)) ==> (
                #[trigger] b.pip_bindings@.contains_key(p) <==> a.pip_bindings@.contains_key(p)) && (
                a.pip_bindings@.contains_key(p) ==> b.pip_bindings@[p] == a.pip_bindings@[p])
            &&& forall|i: int|
                0 <= i < a.design.nets@.len() && i != net.0 ==> #[trigger] b.design.nets@[i] == a.design.nets@[i]
        }),
{
    let n = a.design.nets@[net.0 as int];
    let tree = n.wires@;
    assert(a.design.net_ok(n));
    assert(a.routing_ok(n.wires@));
    assert forall|w: WireId| #[trigger] tree.contains_key(w) implies a.chipdb.valid_wire(w) by {
    }
    assert forall|w: WireId, x: WireId|
        #![trigger tree.contains_key(w), b.wire_bindings@.contains_key(x)]
        tree.contains_key(w) && a.chipdb.joined(w, x) implies !b.wire_bindings@.contains_key(x) by {
        conductors_are_joined_wires(a, w, x);
        assert(conductors(a, tree).contains(x));
    }
    assert forall|w: WireId| #[trigger] tree.contains_key(w) && tree[w].pip is Some implies !b.pip_bindings@.contains_key(
        tree[w].pip->0,
    ) by {
        assert(pips_of(tree).contains(tree[w].pip->0));
    }
    assert forall|x: WireId|
        (forall|w: WireId| #[trigger] tree.contains_key(w) ==> !a.chipdb.joined(w, x)) implies (
    #[trigger] b.wire_bindings@.contains_key(x) <==> a.wire_bindings@.contains_key(x)) && (
    a.wire_bindings@.contains_key(x) ==> b.wire_bindings@[x] == a.wire_bindings@[x]) by {
        if conductors(a, tree).contains(x) {
            let w = choose|w: WireId| #[trigger] tree.contains_key(w) && a.conductor_of(w).contains(x);
            conductors_are_joined_wires(a, w, x);
        }
    }
}

/// Taking back the wires of a net frees them and the pips of its tree, and nothing else.
pub proof fn unrouting_frees_the_tree(a: Context, net: NetId, b: Context, w: WireId, p: PipId)
    requires
        unrouted(a, net, b),
    ensures
        ({
            let tree = a.design.nets@[net.0 as int].wires@;
            &&& tree.contains_key(w) ==> !b.wire_bindings@.contains_key(w)
            &&& !tree.contains_key(w) ==> (b.wire_bindings@.contains_key(w) <==> a.wire_bindings@.contains_key(w)) && (
            a.wire_bindings@.contains_key(w) ==> b.wire_bindings@[w] == a.wire_bindings@[w])
            &&& tree.contains_key(w) && tree[w].pip == Some(p) ==> !b.pip_bindings@.contains_key(p)
            &&& (forall|x: WireId| #[trigger] tree.contains_key(x) ==> tree[x].pip != Some(p)) ==> (
            b.pip_bindings@.contains_key(p) <==> a.pip_bindings@.contains_key(p))
            &&& !b.design.nets@[net.0 as int].wires@.contains_key(w)
        }),
{
    let tree = a.design.nets@[net.0 as int].wires@;
    if tree.contains_key(w) && tree[w].pip == Some(p) {
        assert(pips_of(tree).contains(p));
    }
}

/// A plan that the negotiating router makes for a net with a driver starts at the wire of the driver and
/// has a route to the wire of every user that has one.
pub proof fn negotiated_plans_reach_every_user<'a>(
    ctx: Context,
    net: NetId,
    owner: Map<WireId, NetId>,
    costs: WireCosts,
    margin: i32,
    plan: RoutePlan,
)
    requires
        ctx.wf(),
        ctx.design.valid_net(net),
        ctx.design.nets@[net.0 as int].driver.cell.0 != u32::MAX,
        r2_made(ctx, net, owner, costs, margin, Ok(plan)),
    ensures
        reaches_users(ctx, net, plan),
{
    let n = ctx.design.nets@[net.0 as int];
    let sinks = sinks_upto(ctx, n.users@, n.users@.len() as int);
    let m = choose|m: Router2CostModel|
        r2_model(owner, costs, net, net_box(ctx, net, margin as int), m) && #[trigger] plan_made(
            ctx,
            &m,
            net,
            sinks,
            r2_options(),
            Ok(plan),
        );
    every_wired_user_is_a_sink(ctx, net);
    lemma_reaches(ctx, &m, net, sinks, r2_options(), plan);
}

proof fn lemma_permuted(nets: Seq<NetId>, keys: Seq<i64>, order: Seq<usize>, r: Seq<NetId>)
    requires
        keys.len() == nets.len() <= usize::MAX,
        ordered_by(keys, nets, order, r),
    ensures
        forall|x: NetId| #[trigger] nets.contains(x) ==> r.contains(x),
        forall|x: NetId| #[trigger] r.contains(x) ==> nets.contains(x),
{
    lemma_orders_all(keys, nets.len() as int, order);
    assert forall|x: NetId| #[trigger] nets.contains(x) implies r.contains(x) by {
        let i = choose|i: int| 0 <= i < nets.len() && nets[i] == x;
        assert(order.contains(i as usize));
        let k = choose|k: int| 0 <= k < order.len() && order[k] == i as usize;
        assert(r[k] == x);
    }
    assert forall|x: NetId| #[trigger] r.contains(x) implies nets.contains(x) by {
        let k = choose|k: int| 0 <= k < r.len() && r[k] == x;
        assert(nets[order[k] as int] == x);
    }
}

/// Nets are taken from the one with the most users on: all nets of the list, none with fewer users before
/// one with more.
pub proof fn nets_with_more_users_come_first(design: Design, nets: Seq<NetId>, r: Seq<NetId>)
    requires
        by_fanout(design, nets, r),
        nets.len() <= usize::MAX,
        forall|i: int|
            0 <= i < nets.len() ==> design.nets@[(#[trigger] nets[i]).0 as int].users@.len() <= i64::MAX,
    ensures
        r.len() == nets.len(),
        forall|x: NetId| #[trigger] nets.contains(x) <==> r.contains(x),
        forall|i: int, j: int|
            #![trigger r[i], r[j]]
            0 <= i < j < r.len() ==> design.nets@[r[i].0 as int].users@.len() >= design.nets@[r[j].0 as int].users@.len(),
{
    let (keys, order) = choose|keys: Seq<i64>, order: Seq<usize>|
        {
            &&& keys.len() == nets.len()
            &&& forall|i: int| 0 <= i < keys.len() ==> #[trigger] keys[i] == fanout_key(design, nets[i])
            &&& #[trigger] ordered_by(keys, nets, order, r)
        };
    lemma_permuted(nets, keys, order, r);
    assert forall|i: int, j: int|
        #![trigger r[i], r[j]]
        0 <= i < j < r.len() implies design.nets@[r[i].0 as int].users@.len()
        >= design.nets@[r[j].0 as int].users@.len() by {
        let a = order[i] as int;
        let b = order[j] as int;
        assert(r[i] == nets[a] && r[j] == nets[b]);
        assert(keys[a] == fanout_key(design, nets[a]));
        assert(keys[b] == fanout_key(design, nets[b]));
        assert(crate::order::goes_before(keys, order[i] as int, order[j] as int));
    }
}

/// The net starts at a wire with a constant.
pub open spec fn starts_constant(ctx: Context, net: NetId) -> bool {
    exists|w: WireId| #[trigger]
        wired_to(ctx, ctx.design.nets@[net.0 as int].driver, w) && ctx.chipdb.wire(w).const_value != 0
}

/// The net starts on the global clock network.
pub open spec fn starts_on_clock(ctx: Context, net: NetId) -> bool {
    exists|w: WireId| #[trigger]
        wired_to(ctx, ctx.design.nets@[net.0 as int].driver, w) && global_clock_type(ctx.chipdb.wire(w).wire_type@)
}

proof fn lemma_rank(ctx: Context, net: NetId)
    requires
        ctx.wf(),
        ctx.design.valid_net(net),
    ensures
        rank_of(ctx, net) == 0 <==> starts_constant(ctx, net),
        rank_of(ctx, net) == 1 <==> !starts_constant(ctx, net) && starts_on_clock(ctx, net),
        rank_of(ctx, net) == 2 <==> !starts_constant(ctx, net) && !starts_on_clock(ctx, net),
{
    let d = ctx.design.nets@[net.0 as int].driver;
    assert(ctx.design.net_ok(ctx.design.nets@[net.0 as int]));
    if d.connected() {
        assert forall|w: WireId| ctx.wire_of_pin(d) == Some(w) <==> #[trigger] wired_to(ctx, d, w) by {
            pins_have_the_wires_of_their_sites(ctx, d, w);
        }
        if source_of(ctx, net) is Some {
            assert(wired_to(ctx, d, source_of(ctx, net)->0));
        }
    }
}

/// Nets are cleaned up in order: those from a constant first, then those on the global clock network, then
/// the others; all of the list.
pub proof fn constants_and_clocks_are_cleaned_up_first(ctx: Context, nets: Seq<NetId>, r: Seq<NetId>)
    requires
        ctx.wf(),
        nets.len() <= usize::MAX,
        forall|i: int| 0 <= i < nets.len() ==> ctx.design.valid_net(#[trigger] nets[i]),
        by_rank(ctx, nets, r),
    ensures
        r.len() == nets.len(),
        forall|x: NetId| #[trigger] nets.contains(x) <==> r.contains(x),
        forall|i: int, j: int|
            #![trigger r[i], r[j]]
            0 <= i < j < r.len() && starts_constant(ctx, r[j]) ==> starts_constant(ctx, r[i]),
        forall|i: int, j: int|
            #![trigger r[i], r[j]]
            0 <= i < j < r.len() && starts_on_clock(ctx, r[j]) ==> starts_constant(ctx, r[i]) || starts_on_clock(
                ctx,
                r[i],
            ),
{
    let (keys, order) = choose|keys: Seq<i64>, order: Seq<usize>|
        {
            &&& keys.len() == nets.len()
            &&& forall|i: int| 0 <= i < keys.len() ==> #[trigger] keys[i] == rank_of(ctx, nets[i])
            &&& #[trigger] ordered_by(keys, nets, order, r)
        };
    lemma_permuted(nets, keys, order, r);
    assert forall|i: int, j: int|
        #![trigger r[i], r[j]]
        0 <= i < j < r.len() implies rank_of(ctx, r[i]) <= rank_of(ctx, r[j]) && ctx.design.valid_net(r[i])
        && ctx.design.valid_net(r[j]) by {
        let a = order[i] as int;
        let b = order[j] as int;
        assert(r[i] == nets[a] && r[j] == nets[b]);
        assert(keys[a] == rank_of(ctx, nets[a]));
        assert(keys[b] == rank_of(ctx, nets[b]));
        assert(crate::order::goes_before(keys, order[i] as int, order[j] as int));
    }
    assert forall|i: int, j: int|
        #![trigger r[i], r[j]]
        0 <= i < j < r.len() implies (starts_constant(ctx, r[j]) ==> starts_constant(ctx, r[i])) && (starts_on_clock(
        ctx,
        r[j],
    ) ==> starts_constant(ctx, r[i]) || starts_on_clock(ctx, r[i])) by {
        lemma_rank(ctx, r[i]);
        lemma_rank(ctx, r[j]);
    }
}

} // verus!
