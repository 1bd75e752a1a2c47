//! What the costs of the raster router mean for the routes that it finds.

use crate::chipdb::WireId;
use crate::context::Context;
use crate::metrics::BoundingBox;
use crate::netlist::NetId;
use crate::router::astar::{limit_used, nearest, result_ok, AStarResult};
use crate::router::attempt::attempt_ok;
use crate::router::common::SinkRoute;
use crate::router::detour_laws::{
    fair_walk, fairly_reachable, has_gap, searches_go_round_dear_wires, Gap,
};
use crate::router::graph::{lemma_leaves, lemma_path_pips, step_cost, walk_end, walk_ok, Hop, PathCostModel};
use crate::router::plan::as_map;
use crate::router::raster::{
    raster_attempt, raster_model, raster_options, RasterCostModel, TAKEN_PENALTY,
};
use crate::router::region::{default_visit_limit, region_size};
use crate::router::segments::TileCosts;
use vstd::prelude::*;

verus! {

/// Another net holds the wire.
pub open spec fn held_by_another(ctx: Context, net: NetId, w: WireId) -> bool {
    ctx.wire_bindings@.contains_key(w) && ctx.wire_bindings@[w].net != net
}

/// A wire that another net holds costs at least a quarter of what a search can count, whatever its
/// tile costs; any other wire costs what its tile does. So among the wires of a tile that costs less
/// than that, those of other nets are dearer than all that are free or the net's own.
pub proof fn wires_of_other_nets_are_dear<'a>(ctx: Context, m: RasterCostModel<'a>, a: WireId, b: WireId)
    requires
        m.ready(ctx),
        ctx.chipdb.valid_wire(a),
        ctx.chipdb.valid_wire(b),
        held_by_another(ctx, m.net, a),
        !held_by_another(ctx, m.net, b),
    ensures
        m.penalty_of(ctx, a) >= TAKEN_PENALTY,
        4 * TAKEN_PENALTY >= i32::MAX - 3,
        m.penalty_of(ctx, b) == m.costs.penalty@[b.tile as int],
        a.tile == b.tile && m.costs.penalty@[b.tile as int] < TAKEN_PENALTY ==> m.penalty_of(ctx, b)
            < m.penalty_of(ctx, a),
        !m.blocks(ctx, a),
{
}

/// A way that enters no wire of another net leads from the tree to the wire.
pub open spec fn open_way<'a>(ctx: Context, m: RasterCostModel<'a>, tree: Set<WireId>, w: WireId) -> bool {
    exists|s: WireId, walk: Seq<Hop>|
        tree.contains(s) && #[trigger] open_walk(ctx, m, s, walk) && walk_end(s, walk) == w
}

/// None of the steps enters a wire of another net.
pub open spec fn open_walk<'a>(ctx: Context, m: RasterCostModel<'a>, s: WireId, walk: Seq<Hop>) -> bool {
    &&& walk_ok(ctx, &m, s, walk)
    &&& forall|i: int|
        0 <= i < walk.len() && (#[trigger] walk[i]).pip is Some ==> !held_by_another(
            ctx,
            m.net,
            ctx.chipdb.dst(walk[i].pip->0),
        )
}

/// How many wires a search looks at that sets no limit: ten for each tile of the device, and at least
/// a hundred thousand.
pub open spec fn most_looked_at(ctx: Context) -> int {
    if 10 * ctx.chipdb.tiles@.len() < 100_000 {
        100_000
    } else {
        10 * ctx.chipdb.tiles@.len() as int
    }
}

/// A search without a limit of its own looks at no more wires than that.
pub proof fn lemma_most_looked_at(
    ctx: Context,
    boxes: Seq<BoundingBox>,
    srcs: Map<WireId, ()>,
    dst: WireId,
    used: usize,
)
    requires
        limit_used(ctx, boxes, srcs, dst, None, used),
    ensures
        used <= most_looked_at(ctx),
{
    let n = ctx.chipdb.tiles@.len() as int;
    let d = choose|d: int| #[trigger]
        nearest(ctx.chipdb, srcs, dst, d) && used == default_visit_limit(
            n,
            d,
            region_size(ctx.chipdb, boxes),
        );
}

proof fn lemma_raster_gap<'a>(ctx: Context, m: RasterCostModel<'a>, dst: WireId, most: int, turns: int) -> (g: Gap)
    requires
        ctx.wf(),
        m.ready(ctx),
        ctx.chipdb.valid_wire(dst),
        0 <= most,
        forall|t: int| 0 <= t < m.costs.penalty@.len() ==> #[trigger] m.costs.penalty@[t] <= most,
        0 <= turns <= most_looked_at(ctx),
        most_looked_at(ctx) * (1 + most) + 2 * (ctx.chipdb.width + ctx.chipdb.height) < TAKEN_PENALTY,
    ensures
        has_gap(ctx, &m, dst, g, turns),
        g.high == TAKEN_PENALTY,
{
    let g = Gap {
        low: 1 + most,
        high: TAKEN_PENALTY as int,
        far: 2 * (ctx.chipdb.width + ctx.chipdb.height),
    };
    assert(turns * (1 + most) <= most_looked_at(ctx) * (1 + most)) by (nonlinear_arith)
        requires
            turns <= most_looked_at(ctx),
            0 <= most,
    ;
    assert forall|w: WireId| #[trigger] ctx.chipdb.valid_wire(w) implies 0 <= m.heuristic_of(ctx, w, dst) <= g.far by {
        ctx.chipdb.lemma_tile_in_grid(w.tile as int);
        ctx.chipdb.lemma_tile_in_grid(dst.tile as int);
    }
    g
}

/// A route of the raster router goes round the wires of other nets: if some way to where its last pip
/// starts enters none of them, then up to there neither does the route. It is left open what the last
/// pip enters, for a search stops as soon as its target is touched. This asks for tiles that cost
/// little: as many steps as a search can look at wires, and the way across the device, together cost
/// less than one wire of another net.
pub proof fn routes_go_round_other_nets<'a>(
    ctx: Context,
    net: NetId,
    costs: TileCosts,
    bbox: Option<BoundingBox>,
    tree: Set<WireId>,
    sink: WireId,
    route: SinkRoute,
    most: int,
)
    requires
        ctx.wf(),
        costs.wf(ctx.chipdb),
        ctx.chipdb.valid_wire(sink),
        forall|w: WireId| #[trigger] tree.contains(w) ==> ctx.chipdb.valid_wire(w),
        forall|t: int| 0 <= t < costs.penalty@.len() ==> #[trigger] costs.penalty@[t] <= most,
        0 <= most,
        most_looked_at(ctx) * (1 + most) + 2 * (ctx.chipdb.width + ctx.chipdb.height) < TAKEN_PENALTY,
        raster_attempt(ctx, net, costs, bbox, tree, sink, Some(route)),
        route.pips@.len() > 0,
    ensures
        forall|m: RasterCostModel<'a>, i: int|
            #![trigger raster_model(net, costs, bbox, m), route.pips@[i]]
            raster_model(net, costs, bbox, m) && open_way(ctx, m, tree, ctx.chipdb.src(route.pips@.last())) && 0 <= i
                < route.pips@.len() - 1 ==> !held_by_another(ctx, net, ctx.chipdb.dst(route.pips@[i])),
{
    let m = choose|m: RasterCostModel<'a>|
        raster_model(net, costs, bbox, m) && #[trigger] attempt_ok(
            ctx,
            &m,
            tree,
            sink,
            raster_options(),
            Some(route),
        );
    let srcs = as_map(tree);
    let pips = route.pips@;
    let w = ctx.chipdb.src(pips.last());
    let res = choose|res: AStarResult| #[trigger]
        result_ok(ctx, &m, srcs, sink, raster_options(), res) && res.path == Some(route.pips);
    assert forall|o: RasterCostModel<'a>, i: int|
        #![trigger raster_model(net, costs, bbox, o), route.pips@[i]]
        raster_model(net, costs, bbox, o) && open_way(ctx, o, tree, w) && 0 <= i < pips.len() - 1 implies !held_by_another(
        ctx,
        net,
        ctx.chipdb.dst(pips[i]),
    ) by {
        lemma_most_looked_at(ctx, m.boxes@, srcs, sink, res.trace.max_visits);
        let g = lemma_raster_gap(ctx, m, sink, most, res.trace.max_visits as int);
        let (s, walk) = choose|s: WireId, walk: Seq<Hop>|
            tree.contains(s) && #[trigger] open_walk(ctx, o, s, walk) && walk_end(s, walk) == w;
        assert(srcs.contains_key(s));
        lemma_same_walk(ctx, o, m, s, walk);
        assert(1 + most <= most_looked_at(ctx) * (1 + most)) by (nonlinear_arith)
            requires
                most_looked_at(ctx) >= 1,
                most >= 0,
        ;
        lemma_open_walk(ctx, m, g, s, walk, most);
        assert(fairly_reachable(ctx, &m, g, srcs, w));
        searches_go_round_dear_wires(ctx, &m, srcs, sink, raster_options(), res, g);
        assert(step_cost(ctx, &m, pips[i]) < g.high);
        lemma_path_pips(ctx, &m, srcs, pips, sink);
    }
}

/// Where a walk may go is a matter of the net's rectangle alone.
proof fn lemma_same_walk<'a>(
    ctx: Context,
    a: RasterCostModel<'a>,
    b: RasterCostModel<'a>,
    s: WireId,
    walk: Seq<Hop>,
)
    requires
        a.boxes@ == b.boxes@,
        walk_ok(ctx, &a, s, walk),
    ensures
        walk_ok(ctx, &b, s, walk),
    decreases walk.len(),
{
    if walk.len() > 0 {
        lemma_same_walk(ctx, a, b, walk[0].to, walk.skip(1));
    }
}

proof fn lemma_open_walk<'a>(
    ctx: Context,
    m: RasterCostModel<'a>,
    g: Gap,
    s: WireId,
    walk: Seq<Hop>,
    most: int,
)
    requires
        ctx.wf(),
        m.ready(ctx),
        forall|t: int| 0 <= t < m.costs.penalty@.len() ==> #[trigger] m.costs.penalty@[t] <= most,
        1 + most < g.high,
        open_walk(ctx, m, s, walk),
    ensures
        fair_walk(ctx, &m, g, s, walk),
    decreases walk.len(),
{
    if walk.len() > 0 {
        let rest = walk.skip(1);
        let h = walk[0];
        assert(open_walk(ctx, m, h.to, rest)) by {
            assert forall|i: int|
                0 <= i < rest.len() && (#[trigger] rest[i]).pip is Some implies !held_by_another(
                ctx,
                m.net,
                ctx.chipdb.dst(rest[i].pip->0),
            ) by {
                assert(rest[i] == walk[i + 1]);
            }
        }
        lemma_open_walk(ctx, m, g, h.to, rest, most);
        assert forall|i: int| 0 <= i < walk.len() && (#[trigger] walk[i]).pip is Some implies step_cost(
            ctx,
            &m,
            walk[i].pip->0,
        ) < g.high by {
            if i > 0 {
                assert(rest[i - 1] == walk[i]);
            } else {
                let p = h.pip->0;
                lemma_leaves(ctx.chipdb, s, p);
            }
        }
    }
}

} // verus!
