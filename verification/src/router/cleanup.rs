//! Cleaning up after a pass: a net that lacks sinks is routed on from what it has, sinks of a constant
//! are tied to it close by, and room is made for a net that cannot move at all.

use crate::chipdb::{ChipDb, PipId, WireId};
use crate::context::Context;
use crate::ids::IdMap;
use crate::metrics::{compute_bbox, net_box};
use crate::netlist::{NetId, PipMap};
use crate::router::astar::{sources_ok, AStarOptions};
use crate::router::attempt::{
    add_conductor, attempt_ok, attempt_sink, missed, outcome_ok, reached, tree_with,
};
use crate::router::common::{
    apply_route_plan, collect_sink_wires, find_local_const_pip, first_const_pip_of, global_clock_type, held,
    is_global_clock_wire, plan_conflict, sinks_upto, source_wire_const_value, steps_bound, unroute_net,
    unrouted, RoutePlan, SinkRoute,
};
use crate::router::gate::{source_of, source_wire};
use crate::router::graph::WireSet;
use crate::router::greedy::routes_valid;
use crate::router::lookahead::Lookahead;
use crate::router::maze::{penalties_ok, route_options};
use crate::router::negotiation::NegotiationState;
use crate::router::plan::{nearest_first, sort_nearest_first};
use crate::router::region::boxes_ok;
use crate::router::ripup::{
    conductors, detour_model, fully_routed, make_model, net_fully_routed, DetourCostModel,
};
use crate::router::scoped::{explore_margin, margin_for, scoped_done, scoped_ripup_route};
use crate::timing::delay::DelayT;
use crate::types::enums::PlaceStrength;
use vstd::prelude::*;

verus! {

/// The tree that a net is cleaned up from: the conductors of its source and of its wires, and the
/// clock network if it starts there.
pub open spec fn cleanup_tree(ctx: Context, net: NetId, source: WireId, backbone: Seq<WireId>) -> Set<WireId> {
    let own = ctx.conductor_of(source).to_set().union(
        conductors(ctx, ctx.design.net_of(net).wires@),
    );
    if global_clock_type(ctx.chipdb.wire(source).wire_type@) {
        own.union(backbone.to_set())
    } else {
        own
    }
}

/// Builds the tree that a net is cleaned up from.
fn build_cleanup_tree(ctx: &Context, net: NetId, source: WireId, backbone: &Vec<WireId>) -> (tree: WireSet)
    requires
        ctx.wf(),
        ctx.design.valid_net(net),
        ctx.chipdb.valid_wire(source),
        forall|i: int| 0 <= i < backbone@.len() ==> ctx.chipdb.valid_wire(#[trigger] backbone@[i]),
    ensures
        tree@.dom() == cleanup_tree(*ctx, net, source, backbone@),
        sources_ok(*ctx, tree@),
{
    let mut tree: WireSet = IdMap::new();
    add_conductor(ctx, &mut tree, source);
    let ghost first = ctx.conductor_of(source).to_set();
    assert(tree@.dom() =~= first);
    let n = ctx.net(net);
    let keys = n.wires.keys();
    assert(ctx.routing_ok(ctx.design.nets@[net.0 as int].wires@));
    for i in 0..keys.len()
        invariant
            ctx.wf(),
            *n == ctx.design.net_of(net),
            ctx.routing_ok(n.wires@),
            forall|w: WireId| #[trigger] keys@.contains(w) <==> n.wires@.contains_key(w),
            sources_ok(*ctx, tree@),
            forall|x: WireId| #[trigger]
                tree@.contains_key(x) <==> first.contains(x) || exists|j: int|
                    0 <= j < i && ctx.conductor_of(#[trigger] keys@[j]).contains(x),
    {
        let w: WireId = keys[i];
        assert(keys@.contains(w));
        let ghost before = tree@;
        add_conductor(ctx, &mut tree, w);
        assert forall|x: WireId| #[trigger] tree@.contains_key(x) <==> first.contains(x) || exists|j: int|
            0 <= j < i + 1 && ctx.conductor_of(#[trigger] keys@[j]).contains(x) by {
            assert(tree@.dom().contains(x) <==> before.dom().contains(x) || ctx.conductor_of(
                w,
            ).to_set().contains(x));
            if ctx.conductor_of(w).contains(x) {
                assert(ctx.conductor_of(keys@[i as int]).contains(x));
            }
        }
    }
    proof {
        let own = conductors(*ctx, n.wires@);
        assert forall|x: WireId| #[trigger] own.contains(x) <==> exists|j: int|
            0 <= j < keys@.len() && ctx.conductor_of(#[trigger] keys@[j]).contains(x) by {
            if own.contains(x) {
                let w = choose|w: WireId| #[trigger]
                    n.wires@.contains_key(w) && ctx.conductor_of(w).contains(x);
                assert(keys@.contains(w));
                let j = choose|j: int| 0 <= j < keys@.len() && keys@[j] == w;
                assert(ctx.conductor_of(keys@[j]).contains(x));
            }
            if exists|j: int| 0 <= j < keys@.len() && ctx.conductor_of(#[trigger] keys@[j]).contains(x) {
                let j = choose|j: int| 0 <= j < keys@.len() && ctx.conductor_of(#[trigger] keys@[j]).contains(x);
                assert(keys@.contains(keys@[j]));
                assert(n.wires@.contains_key(keys@[j]));
            }
        }
        assert(tree@.dom() =~= first.union(own));
    }
    let ghost base = tree@.dom();
    if is_global_clock_wire(ctx, source) {
        for i in 0..backbone.len()
            invariant
                forall|i: int| 0 <= i < backbone@.len() ==> ctx.chipdb.valid_wire(#[trigger] backbone@[i]),
                sources_ok(*ctx, tree@),
                forall|x: WireId| #[trigger]
                    tree@.contains_key(x) <==> base.contains(x) || backbone@.take(i as int).contains(x),
        {
            assert(ctx.chipdb.valid_wire(backbone@[i as int]));
            let _ = tree.insert(backbone[i], ());
            proof {
                crate::router::plan::lemma_take_more(backbone@, i as int);
            }
        }
        assert(backbone@.take(backbone@.len() as int) =~= backbone@);
        assert(tree@.dom() =~= cleanup_tree(*ctx, net, source, backbone@));
    }
    tree
}

/// What the clean-up does about a sink: a sink of a constant is tied to a wire close by that carries
/// it; any other is searched for from the tree, off the wires that other nets hold.
pub open spec fn sink_cleaned<'a>(
    ctx: Context,
    net: NetId,
    pen: Map<WireId, DelayT>,
    la: Lookahead,
    source: WireId,
    tree: Set<WireId>,
    sink: WireId,
    outcome: Option<SinkRoute>,
    new_tree: Set<WireId>,
) -> bool {
    let value = ctx.chipdb.wire(source).const_value;
    let tie = first_const_pip_of(ctx.chipdb, ctx.conductor_of(sink), value);
    if value != 0 && tie is Some {
        &&& outcome is Some
        &&& outcome->0.sink_wire == sink
        &&& outcome->0.pips@ == seq![tie->0]
        &&& new_tree == tree.insert(ctx.chipdb.src(tie->0)).union(ctx.conductor_of(sink).to_set())
    } else {
        let margin = margin_for(ctx.chipdb.distance(sink.tile as int, source.tile as int));
        exists|m: DetourCostModel<'a>|
            {
                &&& detour_model(net, pen, la, Some(net_box(ctx, net, margin)), false, m)
                &&& #[trigger] attempt_ok(ctx, &m, tree, sink, route_options(None, false), outcome)
                &&& new_tree == tree_with(ctx, tree, false, outcome)
            }
    }
}

/// A pip that ties a conductor to a constant is a pip of the device that starts at the constant.
proof fn lemma_tie(chip: ChipDb, wires: Seq<WireId>, value: i32)
    requires
        chip.wf(),
        forall|i: int| 0 <= i < wires.len() ==> chip.valid_wire(#[trigger] wires[i]),
    ensures
        first_const_pip_of(chip, wires, value) is Some ==> {
            let p = first_const_pip_of(chip, wires, value)->0;
            chip.valid_pip(p) && chip.wire(chip.src(p)).const_value == value
        },
    decreases wires.len(),
{
    if wires.len() > 0 {
        let w = wires[0];
        let t = chip.type_of(w.tile as int);
        let list = chip.wire(w).pips_uphill@;
        assert(chip.tile_types@[chip.tiles@[w.tile as int] as int].wf());
        assert forall|j: int| 0 <= j < list.len() implies chip.valid_pip(
            PipId { tile: w.tile, index: #[trigger] list[j] },
        ) by {
            assert(t.lists_pip(t.wires@[w.index as int].pips_uphill@[j], w.index as int, false));
        }
        lemma_tie_in_list(chip, w.tile, list, value);
        assert forall|i: int| 0 <= i < wires.skip(1).len() implies chip.valid_wire(
            #[trigger] wires.skip(1)[i],
        ) by {
            assert(wires.skip(1)[i] == wires[i + 1]);
        }
        lemma_tie(chip, wires.skip(1), value);
    }
}

proof fn lemma_tie_in_list(chip: ChipDb, tile: i32, list: Seq<i32>, value: i32)
    requires
        forall|j: int|
            0 <= j < list.len() ==> chip.valid_pip(PipId { tile, index: #[trigger] list[j] }),
    ensures
        crate::router::common::first_const_pip(chip, tile, list, value) is Some ==> {
            let p = crate::router::common::first_const_pip(chip, tile, list, value)->0;
            chip.valid_pip(p) && chip.wire(chip.src(p)).const_value == value
        },
    decreases list.len(),
{
    if list.len() > 0 {
        assert(chip.valid_pip(PipId { tile, index: list[0] }));
        assert forall|j: int| 0 <= j < list.skip(1).len() implies chip.valid_pip(
            PipId { tile, index: #[trigger] list.skip(1)[j] },
        ) by {
            assert(list.skip(1)[j] == list[j + 1]);
        }
        lemma_tie_in_list(chip, tile, list.skip(1), value);
    }
}

/// Does what the clean-up does about a sink.
fn clean_sink(
    ctx: &Context,
    net: NetId,
    wire_penalty: &IdMap<WireId, DelayT>,
    lookahead: &Lookahead,
    source: WireId,
    tree: &mut WireSet,
    sink: WireId,
) -> (r: Option<SinkRoute>)
    requires
        ctx.wf(),
        ctx.design.valid_net(net),
        penalties_ok(wire_penalty@),
        lookahead.wf(),
        ctx.chipdb.valid_wire(source),
        ctx.chipdb.valid_wire(sink),
        sources_ok(*ctx, old(tree)@),
    ensures
        sink_cleaned(
            *ctx,
            net,
            wire_penalty@,
            *lookahead,
            source,
            old(tree)@.dom(),
            sink,
            r,
            final(tree)@.dom(),
        ),
        sources_ok(*ctx, final(tree)@),
        outcome_ok(*ctx, r),
{
    let value: i32 = source_wire_const_value(ctx, source);
    if value != 0 {
        if let Some(pip) = find_local_const_pip(ctx, sink, value) {
            proof {
                let wires = ctx.conductor_of(sink);
                ctx.chipdb.lemma_peers(sink);
                assert forall|j: int| 0 <= j < wires.len() implies ctx.chipdb.valid_wire(#[trigger] wires[j]) by {
                    if j > 0 {
                        assert(wires[j] == ctx.chipdb.peers(sink)[j - 1]);
                    }
                }
                lemma_tie(ctx.chipdb, wires, value);
            }
            let anchor: WireId = ctx.chipdb.pip_src_wire(pip);
            let _ = tree.insert(anchor, ());
            add_conductor(ctx, tree, sink);
            let mut pips: Vec<PipId> = Vec::new();
            pips.push(pip);
            assert(pips@ =~= seq![pip]);
            let route = SinkRoute { sink_wire: sink, pips };
            assert(tree@.dom() =~= old(tree)@.dom().insert(anchor).union(ctx.conductor_of(sink).to_set()));
            return Some(route);
        }
    }
    let span: i32 = ctx.chipdb.manhattan(sink.tile, source.tile);
    let bbox = compute_bbox(ctx, net, explore_margin(span));
    let model = make_model(net, wire_penalty, lookahead, Some(bbox), false);
    let opts = AStarOptions {
        visit_limit: None,
        exhaustive: false,
        retain_trace: false,
        stop_on_first_touch: false,
    };
    assert(boxes_ok(ctx.chipdb, model.boxes@));
    attempt_sink(ctx, &model, tree, sink, false, &opts)
}

/// The sink at a position leads from one tree of a trail to the next.
pub open spec fn cleaned_at(
    ctx: Context,
    net: NetId,
    pen: Map<WireId, DelayT>,
    la: Lookahead,
    source: WireId,
    trees: Seq<Set<WireId>>,
    sinks: Seq<WireId>,
    outcomes: Seq<Option<SinkRoute>>,
    i: int,
) -> bool {
    sink_cleaned(ctx, net, pen, la, source, trees[i], sinks[i], outcomes[i], trees[i + 1])
}

/// All sinks are cleaned up one after the other.
pub open spec fn cleaned_along(
    ctx: Context,
    net: NetId,
    pen: Map<WireId, DelayT>,
    la: Lookahead,
    source: WireId,
    trees: Seq<Set<WireId>>,
    sinks: Seq<WireId>,
    outcomes: Seq<Option<SinkRoute>>,
) -> bool {
    &&& trees.len() == outcomes.len() + 1
    &&& outcomes.len() <= sinks.len()
    &&& forall|i: int|
        0 <= i < outcomes.len() ==> #[trigger] cleaned_at(
            ctx,
            net,
            pen,
            la,
            source,
            trees,
            sinks,
            outcomes,
            i,
        )
}

/// The wires with the constant that routes start from, each once.
pub open spec fn lists_anchors(chip: ChipDb, routes: Seq<SinkRoute>, value: i32, list: Seq<WireId>) -> bool {
    &&& list.no_duplicates()
    &&& forall|w: WireId| #[trigger]
        list.contains(w) <==> value != 0 && exists|i: int| #[trigger] anchors_at(chip, routes, value, i, w)
}

/// A route starts with a pip from the wire, which carries the constant.
pub open spec fn anchors_at(chip: ChipDb, routes: Seq<SinkRoute>, value: i32, i: int, w: WireId) -> bool {
    &&& 0 <= i < routes.len()
    &&& routes[i].pips@.len() > 0
    &&& chip.src(routes[i].pips@[0]) == w
    &&& chip.wire(w).const_value == value
}

/// The wires with the constant that routes start from.
fn collect_anchors(ctx: &Context, routes: &Vec<SinkRoute>, value: i32) -> (r: Vec<WireId>)
    requires
        ctx.wf(),
        routes_valid(ctx.chipdb, routes@),
    ensures
        lists_anchors(ctx.chipdb, routes@, value, r@),
        forall|i: int| 0 <= i < r@.len() ==> ctx.chipdb.valid_wire(#[trigger] r@[i]),
{
    let mut out: Vec<WireId> = Vec::new();
    if value == 0 {
        return out;
    }
    let mut seen: WireSet = IdMap::new();
    for i in 0..routes.len()
        invariant
            ctx.wf(),
            routes_valid(ctx.chipdb, routes@),
            value != 0,
            out@.no_duplicates(),
            forall|w: WireId| #[trigger] seen@.contains_key(w) <==> out@.contains(w),
            forall|j: int| 0 <= j < out@.len() ==> ctx.chipdb.valid_wire(#[trigger] out@[j]),
            forall|w: WireId| #[trigger]
                out@.contains(w) <==> exists|k: int| k < i && #[trigger] anchors_at(
                    ctx.chipdb,
                    routes@,
                    value,
                    k,
                    w,
                ),
    {
        let ghost before = out@;
        let ghost mut here: Option<WireId> = None;
        if routes[i].pips.len() > 0 {
            assert(ctx.chipdb.valid_pip(routes@[i as int].pips@[0]));
            let w: WireId = ctx.chipdb.pip_src_wire(routes[i].pips[0]);
            if ctx.chipdb.wire_info(w).const_value == value {
                proof {
                    here = Some(w);
                    assert(anchors_at(ctx.chipdb, routes@, value, i as int, w));
                }
                if !seen.contains_key(w) {
                    let _ = seen.insert(w, ());
                    out.push(w);
                    assert(out@[before.len() as int] == w);
                }
            }
        }
        proof {
            assert forall|x: WireId| #[trigger] out@.contains(x) <==> before.contains(x) || here == Some(x) by {
                if before.contains(x) {
                    let j = choose|j: int| 0 <= j < before.len() && before[j] == x;
                    assert(out@[j] == x);
                }
            }
            assert forall|x: WireId| #[trigger] out@.contains(x) <==> exists|k: int|
                k < i + 1 && #[trigger] anchors_at(ctx.chipdb, routes@, value, k, x) by {
                if exists|k: int| k < i + 1 && #[trigger] anchors_at(ctx.chipdb, routes@, value, k, x) {
                    let k = choose|k: int| k < i + 1 && #[trigger] anchors_at(ctx.chipdb, routes@, value, k, x);
                    if k < i {
                        assert(before.contains(x));
                    }
                }
                if before.contains(x) {
                    let k = choose|k: int| k < i && #[trigger] anchors_at(ctx.chipdb, routes@, value, k, x);
                    assert(k < i + 1);
                }
            }
        }
    }
    proof {
        assert forall|w: WireId| #[trigger] out@.contains(w) <==> value != 0 && exists|i: int| #[trigger]
            anchors_at(ctx.chipdb, routes@, value, i, w) by {
            if out@.contains(w) {
                let k = choose|k: int|
                    k < routes@.len() && #[trigger] anchors_at(ctx.chipdb, routes@, value, k, w);
                assert(anchors_at(ctx.chipdb, routes@, value, k, w));
            }
            if exists|i: int| #[trigger] anchors_at(ctx.chipdb, routes@, value, i, w) {
                let i = choose|i: int| #[trigger] anchors_at(ctx.chipdb, routes@, value, i, w);
                assert(i < routes@.len());
            }
        }
    }
    out
}

/// A wire is given to a net as a wire that no pip drives, unless another net holds its conductor.
pub open spec fn anchor_bound(c: Context, net: NetId, w: WireId, new: Context) -> bool {
    &&& c.first_taken(net, c.conductor_of(w)) is None
    &&& new.same_base(c)
    &&& new.wire_bindings@ == c.node_bound(c.wire_bindings@, w, held(net))
    &&& new.pip_bindings@ == c.pip_bindings@
    &&& c.design.rerouted(
        net,
        c.design.net_of(net).wires@.insert(
            w,
            PipMap { pip: None, strength: PlaceStrength::Strong },
        ),
        new.design,
    )
}

pub open spec fn anchored_at(trail: Seq<Context>, net: NetId, list: Seq<WireId>, i: int) -> bool {
    anchor_bound(trail[i], net, list[i], trail[i + 1])
}

/// The states that giving the first `k` wires of a list to a net leads through.
pub open spec fn anchored_along(trail: Seq<Context>, net: NetId, list: Seq<WireId>, k: int) -> bool {
    &&& trail.len() == k + 1
    &&& forall|i: int| 0 <= i < k ==> #[trigger] anchored_at(trail, net, list, i)
}

/// What becomes of the wires with the constant: all are given to the net, or the net is taken apart if
/// another net holds one of them.
pub open spec fn anchors_bound(old_ctx: Context, net: NetId, list: Seq<WireId>, r: bool, new: Context) -> bool {
    exists|trail: Seq<Context>, k: int|
        {
            &&& #[trigger] anchored_along(trail, net, list, k)
            &&& 0 <= k <= list.len()
            &&& trail[0] == old_ctx
            &&& if r {
                k == list.len() && new == trail[k]
            } else {
                &&& k < list.len()
                &&& trail[k].first_taken(net, trail[k].conductor_of(list[k])) is Some
                &&& unrouted(trail[k], net, new)
            }
        }
}

fn bind_anchors(ctx: &mut Context, net: NetId, list: &Vec<WireId>) -> (r: bool)
    requires
        old(ctx).wf(),
        old(ctx).design.valid_net(net),
        forall|i: int| 0 <= i < list@.len() ==> old(ctx).chipdb.valid_wire(#[trigger] list@[i]),
    ensures
        final(ctx).wf(),
        final(ctx).same_base(*old(ctx)),
        final(ctx).design.nets@.len() == old(ctx).design.nets@.len(),
        anchors_bound(*old(ctx), net, list@, r, *final(ctx)),
{
    let ghost mut trail: Seq<Context> = seq![*ctx];
    for i in 0..list.len()
        invariant
            ctx.wf(),
            ctx.same_base(*old(ctx)),
            ctx.design.valid_net(net),
            ctx.design.nets@.len() == old(ctx).design.nets@.len(),
            forall|i: int| 0 <= i < list@.len() ==> old(ctx).chipdb.valid_wire(#[trigger] list@[i]),
            trail.len() == i + 1,
            trail[0] == *old(ctx),
            trail[i as int] == *ctx,
            anchored_along(trail, net, list@, i as int),
    {
        let w: WireId = list[i];
        assert(old(ctx).chipdb.valid_wire(list@[i as int]));
        let ghost before = *ctx;
        let ghost shorter = trail;
        match ctx.try_bind_wire_node(w, net, PlaceStrength::Strong) {
            Ok(_) => {
                ctx.design.add_wire(net, w, None, PlaceStrength::Strong);
                proof {
                    let wires = before.design.net_of(net).wires@.insert(
                        w,
                        PipMap { pip: None, strength: PlaceStrength::Strong },
                    );
                    before.lemma_node_bound(before.wire_bindings@, w, held(net));
                    assert(before.routing_ok(before.design.nets@[net.0 as int].wires@));
                    before.lemma_rerouted_wf(net, wires, *ctx);
                    trail = trail.push(*ctx);
                    assert forall|k: int| 0 <= k < i + 1 implies #[trigger] anchored_at(
                        trail,
                        net,
                        list@,
                        k,
                    ) by {
                        if k < i {
                            assert(anchored_at(shorter, net, list@, k));
                        }
                    }
                }
            },
            Err(_) => {
                unroute_net(ctx, net);
                assert(anchored_along(trail, net, list@, i as int));
                return false;
            },
        }
    }
    assert(anchored_along(trail, net, list@, list@.len() as int));
    true
}

/// What the clean-up of a net gives: whether the net is routed now, and the sinks that were missed.
pub struct CleanupResult {
    pub routed: bool,
    pub missed: Vec<WireId>,
}

/// A plan was bound, and the wires with the constant that its routes start from as well.
pub open spec fn plan_anchored(
    old_ctx: Context,
    net: NetId,
    value: i32,
    plan: RoutePlan,
    mid: Context,
    list: Seq<WireId>,
    ok: bool,
    new: Context,
) -> bool {
    let steps = plan.steps(old_ctx.chipdb);
    &&& steps_bound(old_ctx, net, steps, steps.len() as int, mid)
    &&& lists_anchors(old_ctx.chipdb, plan.sink_routes@, value, list)
    &&& anchors_bound(mid, net, list, ok, new)
}

/// What becomes of the routes that were found: they are bound, unless another net holds a wire that
/// they need.
pub open spec fn routes_bound(
    old_ctx: Context,
    net: NetId,
    source: WireId,
    plan: RoutePlan,
    routed: bool,
    new: Context,
) -> bool {
    &&& plan.net == net
    &&& plan.source_wire == source
    &&& if plan_conflict(old_ctx, net, plan.steps(old_ctx.chipdb)) is Some {
        !routed && new == old_ctx
    } else {
        exists|mid: Context, list: Seq<WireId>, ok: bool|
            {
                &&& #[trigger] plan_anchored(
                    old_ctx,
                    net,
                    old_ctx.chipdb.wire(source).const_value,
                    plan,
                    mid,
                    list,
                    ok,
                    new,
                )
                &&& routed == (ok && fully_routed(new, net))
            }
    }
}

/// What follows from the routes: they are bound; without any, room is made for the net.
pub open spec fn routes_used(
    old_ctx: Context,
    counts: Map<NetId, u32>,
    net: NetId,
    pen: Map<WireId, DelayT>,
    la: Lookahead,
    source: WireId,
    routes: Seq<SinkRoute>,
    budget: u32,
    routed: bool,
    spent: bool,
    new: Context,
    new_counts: Map<NetId, u32>,
) -> bool {
    if routes.len() == 0 {
        scoped_done(old_ctx, counts, net, pen, la, budget, routed, spent, new, new_counts)
    } else {
        &&& !spent
        &&& new_counts == counts
        &&& exists|plan: RoutePlan|
            plan.sink_routes@ == routes && #[trigger] routes_bound(
                old_ctx,
                net,
                source,
                plan,
                routed,
                new,
            )
    }
}

/// What the clean-up of a net gives, for given outcomes of its sinks.
pub open spec fn sinks_used(
    old_ctx: Context,
    counts: Map<NetId, u32>,
    net: NetId,
    pen: Map<WireId, DelayT>,
    la: Lookahead,
    backbone: Seq<WireId>,
    source: WireId,
    sinks: Seq<WireId>,
    trees: Seq<Set<WireId>>,
    outcomes: Seq<Option<SinkRoute>>,
    budget: u32,
    r: CleanupResult,
    spent: bool,
    new: Context,
    new_counts: Map<NetId, u32>,
) -> bool {
    let n = old_ctx.design.net_of(net);
    &&& nearest_first(
        old_ctx,
        source,
        sinks_upto(old_ctx, n.users@, n.users@.len() as int),
        sinks,
    )
    &&& outcomes.len() == sinks.len()
    &&& cleaned_along(old_ctx, net, pen, la, source, trees, sinks, outcomes)
    &&& trees[0] == cleanup_tree(old_ctx, net, source, backbone)
    &&& r.missed@ == missed(sinks, outcomes, outcomes.len() as int)
    &&& routes_used(
        old_ctx,
        counts,
        net,
        pen,
        la,
        source,
        reached(outcomes, outcomes.len() as int),
        budget,
        r.routed,
        spent,
        new,
        new_counts,
    )
}

/// What the clean-up of a net gives.
pub open spec fn cleanup_done(
    old_ctx: Context,
    counts: Map<NetId, u32>,
    net: NetId,
    pen: Map<WireId, DelayT>,
    la: Lookahead,
    backbone: Seq<WireId>,
    budget: u32,
    r: CleanupResult,
    spent: bool,
    new: Context,
    new_counts: Map<NetId, u32>,
) -> bool {
    match source_of(old_ctx, net) {
        None => {
            &&& !r.routed && r.missed@.len() == 0
            &&& !spent && new == old_ctx && new_counts == counts
        },
        Some(source) => exists|
            sinks: Seq<WireId>,
            trees: Seq<Set<WireId>>,
            outcomes: Seq<Option<SinkRoute>>,
        | #[trigger]
            sinks_used(
                old_ctx,
                counts,
                net,
                pen,
                la,
                backbone,
                source,
                sinks,
                trees,
                outcomes,
                budget,
                r,
                spent,
                new,
                new_counts,
            ),
    }
}

/// Binds the routes that were found for a net.
fn bind_routes(ctx: &mut Context, net: NetId, source: WireId, routes: Vec<SinkRoute>) -> (r: bool)
    requires
        old(ctx).wf(),
        old(ctx).design.valid_net(net),
        old(ctx).chipdb.valid_wire(source),
        routes_valid(old(ctx).chipdb, routes@),
    ensures
        final(ctx).wf(),
        final(ctx).same_base(*old(ctx)),
        final(ctx).design.nets@.len() == old(ctx).design.nets@.len(),
        exists|plan: RoutePlan|
            plan.sink_routes@ == routes@ && #[trigger] routes_bound(
                *old(ctx),
                net,
                source,
                plan,
                r,
                *final(ctx),
            ),
{
    let ghost start = *ctx;
    let value: i32 = source_wire_const_value(ctx, source);
    let anchors = collect_anchors(ctx, &routes, value);
    let plan = RoutePlan { net, source_wire: source, sink_routes: routes };
    match apply_route_plan(ctx, &plan) {
        Err(_) => {
            assert(routes_bound(start, net, source, plan, false, *ctx));
            false
        },
        Ok(_) => {
            let ghost mid = *ctx;
            let ok: bool = bind_anchors(ctx, net, &anchors);
            let routed: bool = ok && net_fully_routed(ctx, net);
            proof {
                assert(plan_anchored(start, net, value, plan, mid, anchors@, ok, *ctx));
                assert(routes_bound(start, net, source, plan, routed, *ctx));
            }
            routed
        },
    }
}

/// Cleans up a net that lacks sinks.
#[verifier::rlimit(80)]
#[verifier::spinoff_prover]
pub fn cleanup_net(
    ctx: &mut Context,
    net: NetId,
    wire_penalty: &IdMap<WireId, DelayT>,
    lookahead: &Lookahead,
    backbone: &Vec<WireId>,
    budget: &mut u32,
    state: &mut NegotiationState,
) -> (r: CleanupResult)
    requires
        old(ctx).wf(),
        old(ctx).design.valid_net(net),
        penalties_ok(wire_penalty@),
        lookahead.wf(),
        forall|i: int| 0 <= i < backbone@.len() ==> old(ctx).chipdb.valid_wire(#[trigger] backbone@[i]),
    ensures
        final(ctx).wf(),
        final(ctx).same_base(*old(ctx)),
        final(ctx).design.nets@.len() == old(ctx).design.nets@.len(),
        *final(budget) == *old(budget) || *final(budget) + 1 == *old(budget),
        cleanup_done(
            *old(ctx),
            old(state).rip_up_count@,
            net,
            wire_penalty@,
            *lookahead,
            backbone@,
            *old(budget),
            r,
            *final(budget) + 1 == *old(budget),
            *final(ctx),
            final(state).rip_up_count@,
        ),
        forall|i: int| 0 <= i < r.missed@.len() ==> final(ctx).chipdb.valid_wire(#[trigger] r.missed@[i]),
        final(state).cfg == old(state).cfg,
        final(state).wire_usage == old(state).wire_usage,
        final(state).wire_owner == old(state).wire_owner,
        final(state).ever_seen_partial == old(state).ever_seen_partial,
{
    let ghost start = *ctx;
    let ghost counts = state.rip_up_count@;
    let source: WireId = match source_wire(ctx, net) {
        Some(w) => w,
        None => {
            return CleanupResult { routed: false, missed: Vec::new() };
        },
    };
    let unsorted = collect_sink_wires(ctx, net);
    let sinks = sort_nearest_first(ctx, source, &unsorted);
    let mut tree = build_cleanup_tree(ctx, net, source, backbone);
    let ghost mut trees: Seq<Set<WireId>> = seq![tree@.dom()];
    let ghost mut outcomes: Seq<Option<SinkRoute>> = Seq::empty();
    let mut routes: Vec<SinkRoute> = Vec::new();
    let mut lost: Vec<WireId> = Vec::new();
    for k in 0..sinks.len()
        invariant
            *ctx == start,
            ctx.wf(),
            ctx.design.valid_net(net),
            penalties_ok(wire_penalty@),
            lookahead.wf(),
            ctx.chipdb.valid_wire(source),
            forall|i: int| 0 <= i < sinks@.len() ==> ctx.chipdb.valid_wire(#[trigger] sinks@[i]),
            outcomes.len() == k,
            trees.len() == k + 1,
            trees[0] == cleanup_tree(start, net, source, backbone@),
            trees[k as int] == tree@.dom(),
            cleaned_along(
                start,
                net,
                wire_penalty@,
                *lookahead,
                source,
                trees,
                sinks@,
                outcomes,
            ),
            sources_ok(*ctx, tree@),
            routes@ == reached(outcomes, k as int),
            lost@ == missed(sinks@, outcomes, k as int),
            routes_valid(ctx.chipdb, routes@),
            forall|i: int| 0 <= i < lost@.len() ==> ctx.chipdb.valid_wire(#[trigger] lost@[i]),
    {
        let sink: WireId = sinks[k];
        assert(ctx.chipdb.valid_wire(sinks@[k as int]));
        let ghost before = routes@;
        let ghost shorter = outcomes;
        let ghost fewer = trees;
        let outcome = clean_sink(ctx, net, wire_penalty, lookahead, source, &mut tree, sink);
        proof {
            outcomes = outcomes.push(outcome);
            trees = trees.push(tree@.dom());
            assert forall|i: int| 0 <= i < outcomes.len() implies #[trigger] cleaned_at(
                start,
                net,
                wire_penalty@,
                *lookahead,
                source,
                trees,
                sinks@,
                outcomes,
                i,
            ) by {
                if i < k {
                    assert(cleaned_at(
                        start,
                        net,
                        wire_penalty@,
                        *lookahead,
                        source,
                        fewer,
                        sinks@,
                        shorter,
                        i,
                    ));
                }
            }
            lemma_lists_prefix(sinks@, shorter, outcomes, k as int);
        }
        match outcome {
            Some(route) => {
                routes.push(route);
                proof {
                    assert forall|i: int, j: int|
                        0 <= i < routes@.len() && 0 <= j < routes@[i].pips@.len() implies ctx.chipdb.valid_pip(
                        #[trigger] routes@[i].pips@[j],
                    ) by {
                        if i < before.len() {
                            assert(routes@[i] == before[i]);
                        }
                    }
                }
            },
            None => {
                lost.push(sink);
            },
        }
    }
    let ghost found = routes@;
    let routed: bool = if routes.len() == 0 {
        scoped_ripup_route(ctx, net, wire_penalty, lookahead, budget, state)
    } else {
        bind_routes(ctx, net, source, routes)
    };
    let r = CleanupResult { routed, missed: lost };
    proof {
        assert(routes_used(
            start,
            counts,
            net,
            wire_penalty@,
            *lookahead,
            source,
            found,
            *old(budget),
            routed,
            *budget + 1 == *old(budget),
            *ctx,
            state.rip_up_count@,
        ));
        assert(sinks_used(
            start,
            counts,
            net,
            wire_penalty@,
            *lookahead,
            backbone@,
            source,
            sinks@,
            trees,
            outcomes,
            *old(budget),
            r,
            *budget + 1 == *old(budget),
            *ctx,
            state.rip_up_count@,
        ));
    }
    r
}

proof fn lemma_lists_prefix(
    sinks: Seq<WireId>,
    a: Seq<Option<SinkRoute>>,
    b: Seq<Option<SinkRoute>>,
    k: int,
)
    requires
        0 <= k <= a.len() <= b.len(),
        forall|i: int| 0 <= i < a.len() ==> #[trigger] b[i] == a[i],
    ensures
        reached(b, k) == reached(a, k),
        missed(sinks, b, k) == missed(sinks, a, k),
    decreases k,
{
    if k > 0 {
        lemma_lists_prefix(sinks, a, b, k - 1);
        assert(b[k - 1] == a[k - 1]);
    }
}

} // verus!
