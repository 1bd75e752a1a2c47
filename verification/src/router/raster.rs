//! The raster router: nets are routed one by one, off the wires that others hold and out of crowded
//! tiles, keeping what can be reached; what is left over is cleaned up afterwards.

use crate::chipdb::{ChipDb, PipId, WireId};
use crate::context::Context;
use crate::ids::IdMap;
use crate::metrics::{compute_bbox, net_box, BoundingBox};
use crate::netlist::NetId;
use crate::router::astar::{sources_ok, AStarOptions};
use crate::router::attempt::{add_conductor, attempt_ok, attempt_sink, outcome_ok, tree_with};
use crate::router::common::{
    apply_route_plan, collect_sink_wires, missing_driver_wire_text, plan_conflict, resolve_source_wire,
    sinks_upto, source_wire_const_value, steps_bound, unplaced_driver_text, RoutePlan, SinkRoute,
};
use crate::router::error::RouterError;
use crate::router::graph::{PathCostModel, WireSet};
use crate::router::greedy::routes_valid;
use crate::router::maze::box_list;
use crate::router::plan::{nearest_first, sort_nearest_first};
use crate::router::region::{boxes_ok, measurable};
use crate::router::segments::TileCosts;
use crate::timing::delay::DelayT;
use vstd::prelude::*;

verus! {

/// By how much the distance counts more than the steps made.
pub const H_WEIGHT: DelayT = 2;

/// What a wire costs that another net holds.
pub const TAKEN_PENALTY: DelayT = 536_870_911;

/// Nets with at least so many users are routed before the others.
pub const HIGH_FANOUT: usize = 20;

/// How the raster router works.
#[derive(Clone, Copy, PartialEq, Eq, Debug, Structural)]
pub struct RasterRouterCfg {
    pub max_iterations: usize,
    pub beam_width: usize,
    pub max_beam_steps: usize,
    /// How far around its pins a net may go; not positive for anywhere.
    pub bbox_margin: i32,
    /// Whether nets are routed along lines of tiles.
    pub use_greedy: bool,
    pub verbose: bool,
}

impl Default for RasterRouterCfg {
    fn default() -> (r: Self)
        ensures
            r.max_iterations == 3,
            r.beam_width == 128,
            r.max_beam_steps == 1000,
            r.bbox_margin == 8,
            !r.use_greedy,
            !r.verbose,
    {
        RasterRouterCfg {
            max_iterations: 3,
            beam_width: 128,
            max_beam_steps: 1000,
            bbox_margin: 8,
            use_greedy: false,
            verbose: false,
        }
    }
}

/// Costs that count pips: one for each, a penalty for wires that another net holds, else the cost of
/// the tile, and twice the distance as the estimate.
pub struct RasterCostModel<'a> {
    pub net: NetId,
    pub boxes: Vec<BoundingBox>,
    pub costs: &'a TileCosts,
}

impl<'a> PathCostModel for RasterCostModel<'a> {
    open spec fn ready(&self, ctx: Context) -> bool {
        self.costs.wf(ctx.chipdb)
    }

    open spec fn pip_cost_of(&self, ctx: Context, pip: PipId) -> int {
        1
    }

    open spec fn penalty_of(&self, ctx: Context, wire: WireId) -> int {
        if ctx.owner(wire) is Some && ctx.owner(wire) != Some(self.net) {
            TAKEN_PENALTY as int
        } else {
            self.costs.penalty@[wire.tile as int] as int
        }
    }

    open spec fn heuristic_of(&self, ctx: Context, wire: WireId, dst: WireId) -> int {
        let d = 2 * ctx.chipdb.distance(wire.tile as int, dst.tile as int);
        if d > i32::MAX {
            i32::MAX as int
        } else {
            d
        }
    }

    open spec fn blocks(&self, ctx: Context, wire: WireId) -> bool {
        false
    }

    open spec fn boxes(&self) -> Seq<BoundingBox> {
        self.boxes@
    }

    fn pip_cost(&self, ctx: &Context, pip: PipId) -> (r: DelayT) {
        1
    }

    fn wire_penalty(&self, ctx: &Context, wire: WireId) -> (r: DelayT) {
        if let Some(b) = ctx.wire_binding(wire) {
            if b.net != self.net {
                return TAKEN_PENALTY;
            }
        }
        self.costs.at(&ctx.chipdb, wire.tile)
    }

    fn heuristic(&self, ctx: &Context, wire: WireId, dst: WireId) -> (r: DelayT) {
        let m: i32 = ctx.chipdb.manhattan(wire.tile, dst.tile);
        if m > i32::MAX / 2 {
            i32::MAX
        } else {
            m * H_WEIGHT
        }
    }

    fn is_blocked(&self, ctx: &Context, wire: WireId) -> (r: bool) {
        false
    }

    fn bboxes(&self) -> (r: &Vec<BoundingBox>) {
        &self.boxes
    }
}

/// The options that the raster router searches with: it stops when the target is first come to.
pub open spec fn raster_options() -> AStarOptions {
    AStarOptions {
        visit_limit: None,
        exhaustive: false,
        retain_trace: false,
        stop_on_first_touch: true,
    }
}

/// The model for a net with given costs and rectangle.
pub open spec fn raster_model(
    net: NetId,
    costs: TileCosts,
    bbox: Option<BoundingBox>,
    m: RasterCostModel,
) -> bool {
    m.net == net && *m.costs == costs && m.boxes@ == box_list(bbox)
}

/// What trying to reach a sink gives, with the costs of the raster router.
pub open spec fn raster_attempt<'a>(
    ctx: Context,
    net: NetId,
    costs: TileCosts,
    bbox: Option<BoundingBox>,
    tree: Set<WireId>,
    sink: WireId,
    outcome: Option<SinkRoute>,
) -> bool {
    exists|m: RasterCostModel<'a>|
        raster_model(net, costs, bbox, m) && #[trigger] attempt_ok(
            ctx,
            &m,
            tree,
            sink,
            raster_options(),
            outcome,
        )
}

/// Tries to reach a sink from the tree of a net; the tree grows if that succeeds.
pub fn route_sink_astar(
    ctx: &Context,
    net: NetId,
    tree: &mut WireSet,
    sink: WireId,
    bbox: Option<BoundingBox>,
    costs: &TileCosts,
) -> (r: Option<SinkRoute>)
    requires
        ctx.wf(),
        sources_ok(*ctx, old(tree)@),
        ctx.chipdb.valid_wire(sink),
        bbox is Some ==> measurable(bbox->0),
        costs.wf(ctx.chipdb),
    ensures
        raster_attempt(*ctx, net, *costs, bbox, old(tree)@.dom(), sink, r),
        final(tree)@.dom() == tree_with(*ctx, old(tree)@.dom(), true, r),
        sources_ok(*ctx, final(tree)@),
        outcome_ok(*ctx, r),
{
    let mut boxes: Vec<BoundingBox> = Vec::new();
    if let Some(b) = bbox {
        boxes.push(b);
    }
    assert(boxes@ =~= box_list(bbox));
    let model = RasterCostModel { net, boxes, costs };
    let opts = AStarOptions {
        visit_limit: None,
        exhaustive: false,
        retain_trace: false,
        stop_on_first_touch: true,
    };
    assert(boxes_ok(ctx.chipdb, model.boxes@));
    attempt_sink(ctx, &model, tree, sink, true, &opts)
}

/// A net that is being routed: its tree, its sinks from the nearest on, and the routes so far.
pub struct RasterRun {
    pub net: NetId,
    pub source: WireId,
    pub bbox: Option<BoundingBox>,
    pub tree: WireSet,
    pub sinks: Vec<WireId>,
    pub next: usize,
    pub routes: Vec<SinkRoute>,
}

/// How a raster run begins.
pub enum RasterStart {
    /// Nothing is to be routed.
    Finished(RoutePlan),
    Run(RasterRun),
}

/// The rectangle of a net; none for a margin that is not positive.
pub open spec fn raster_box(ctx: Context, net: NetId, margin: i32) -> Option<BoundingBox> {
    if margin > 0 {
        Some(net_box(ctx, net, margin as int))
    } else {
        None
    }
}

impl RasterRun {
    pub open spec fn wf(self, ctx: Context) -> bool {
        &&& ctx.chipdb.valid_wire(self.source)
        &&& self.bbox is Some ==> measurable(self.bbox->0)
        &&& sources_ok(ctx, self.tree@)
        &&& self.next <= self.sinks@.len()
        &&& forall|i: int| 0 <= i < self.sinks@.len() ==> ctx.chipdb.valid_wire(#[trigger] self.sinks@[i])
        &&& routes_valid(ctx.chipdb, self.routes@)
    }

    /// Begins with a net: a net without a driver, with a constant driver or without sinks needs no
    /// routes.
    pub fn start(ctx: &Context, net: NetId, bbox_margin: i32) -> (r: Result<RasterStart, RouterError>)
        requires
            ctx.wf(),
            ctx.design.valid_net(net),
        ensures
            ({
                let n = ctx.design.net_of(net);
                let source = ctx.wire_of_pin(n.driver);
                let sinks = sinks_upto(*ctx, n.users@, n.users@.len() as int);
                if !n.driver.connected() {
                    &&& r is Ok
                    &&& r->Ok_0 is Finished
                    &&& r->Ok_0->Finished_0.net == net
                    &&& r->Ok_0->Finished_0.source_wire == WireId::nowhere()
                    &&& r->Ok_0->Finished_0.sink_routes@.len() == 0
                } else if ctx.design.cell_of(n.driver.cell).bel is None {
                    r is Err && r->Err_0 is Generic && r->Err_0->Generic_0@ == unplaced_driver_text(
                        ctx.name_text(n.name),
                    )
                } else if source is None {
                    r is Err && r->Err_0 is Generic && r->Err_0->Generic_0@ == missing_driver_wire_text(
                        ctx.name_text(n.name),
                    )
                } else if ctx.chipdb.wire(source->0).const_value != 0 || sinks.len() == 0 {
                    &&& r is Ok
                    &&& r->Ok_0 is Finished
                    &&& r->Ok_0->Finished_0.net == net
                    &&& r->Ok_0->Finished_0.source_wire == source->0
                    &&& r->Ok_0->Finished_0.sink_routes@.len() == 0
                } else {
                    &&& r is Ok
                    &&& r->Ok_0 is Run
                    &&& r->Ok_0->Run_0.wf(*ctx)
                    &&& r->Ok_0->Run_0.net == net
                    &&& r->Ok_0->Run_0.source == source->0
                    &&& r->Ok_0->Run_0.bbox == raster_box(*ctx, net, bbox_margin)
                    &&& r->Ok_0->Run_0.tree@.dom() == ctx.conductor_of(source->0).to_set()
                    &&& nearest_first(*ctx, source->0, sinks, r->Ok_0->Run_0.sinks@)
                    &&& r->Ok_0->Run_0.next == 0
                    &&& r->Ok_0->Run_0.routes@.len() == 0
                }
            }),
    {
        let source: WireId = match resolve_source_wire(ctx, net) {
            Err(e) => {
                return Err(e);
            },
            Ok(None) => {
                return Ok(
                    RasterStart::Finished(
                        RoutePlan { net, source_wire: WireId::invalid(), sink_routes: Vec::new() },
                    ),
                );
            },
            Ok(Some(w)) => w,
        };
        let sinks = collect_sink_wires(ctx, net);
        if source_wire_const_value(ctx, source) != 0 || sinks.len() == 0 {
            return Ok(
                RasterStart::Finished(
                    RoutePlan { net, source_wire: source, sink_routes: Vec::new() },
                ),
            );
        }
        let bbox: Option<BoundingBox> = if bbox_margin > 0 {
            Some(compute_bbox(ctx, net, bbox_margin))
        } else {
            None
        };
        let mut tree: WireSet = IdMap::new();
        add_conductor(ctx, &mut tree, source);
        assert(tree@.dom() =~= ctx.conductor_of(source).to_set());
        let sorted = sort_nearest_first(ctx, source, &sinks);
        Ok(
            RasterStart::Run(
                RasterRun { net, source, bbox, tree, sinks: sorted, next: 0, routes: Vec::new() },
            ),
        )
    }

    /// Tries the next sink. A sink that is missed is left out.
    pub fn step(&mut self, ctx: &Context, costs: &TileCosts) -> (r: bool)
        requires
            ctx.wf(),
            old(self).wf(*ctx),
            costs.wf(ctx.chipdb),
            old(self).next < old(self).sinks@.len(),
        ensures
            final(self).wf(*ctx),
            final(self).net == old(self).net,
            final(self).source == old(self).source,
            final(self).bbox == old(self).bbox,
            final(self).sinks == old(self).sinks,
            final(self).next == old(self).next + 1,
            exists|outcome: Option<SinkRoute>|
                {
                    &&& #[trigger] raster_attempt(
                        *ctx,
                        old(self).net,
                        *costs,
                        old(self).bbox,
                        old(self).tree@.dom(),
                        old(self).sinks@[old(self).next as int],
                        outcome,
                    )
                    &&& r == (outcome is Some)
                    &&& final(self).tree@.dom() == tree_with(
                        *ctx,
                        old(self).tree@.dom(),
                        true,
                        outcome,
                    )
                    &&& final(self).routes@ == (match outcome {
                        Some(route) => old(self).routes@.push(route),
                        None => old(self).routes@,
                    })
                },
    {
        let sink: WireId = self.sinks[self.next];
        assert(ctx.chipdb.valid_wire(self.sinks@[self.next as int]));
        let outcome = route_sink_astar(ctx, self.net, &mut self.tree, sink, self.bbox, costs);
        let ghost shown = outcome;
        assert(self.next < self.sinks.len());
        self.next = self.next + 1;
        match outcome {
            Some(route) => {
                self.routes.push(route);
                proof {
                    assert forall|i: int, j: int|
                        0 <= i < self.routes@.len() && 0 <= j < self.routes@[i].pips@.len() implies ctx.chipdb.valid_pip(
                        #[trigger] self.routes@[i].pips@[j],
                    ) by {
                        if i < old(self).routes@.len() {
                            assert(self.routes@[i] == old(self).routes@[i]);
                        }
                    }
                    assert(raster_attempt(
                        *ctx,
                        old(self).net,
                        *costs,
                        old(self).bbox,
                        old(self).tree@.dom(),
                        sink,
                        shown,
                    ));
                }
                true
            },
            None => {
                assert(raster_attempt(
                    *ctx,
                    old(self).net,
                    *costs,
                    old(self).bbox,
                    old(self).tree@.dom(),
                    sink,
                    shown,
                ));
                false
            },
        }
    }

    /// The plan of the sinks that were reached.
    pub fn finish(self) -> (r: RoutePlan)
        ensures
            r.net == self.net,
            r.source_wire == self.source,
            r.sink_routes == self.routes,
    {
        RoutePlan { net: self.net, source_wire: self.source, sink_routes: self.routes }
    }
}

/// How many pips drive wires of each tile.
pub struct TileUsage {
    pub counts: Vec<u32>,
}

/// The counts after the first `n` pips of a list were added; a count stays at the largest number.
pub open spec fn counted_upto(chip: ChipDb, counts: Seq<u32>, pips: Seq<PipId>, n: int) -> Seq<u32>
    decreases n,
{
    if n <= 0 {
        counts
    } else {
        let before = counted_upto(chip, counts, pips, n - 1);
        let t = chip.dst(pips[n - 1]).tile as int;
        before.update(t, one_above(before[t]))
    }
}

/// The next number, or the largest.
pub open spec fn one_above(c: u32) -> u32 {
    if c < u32::MAX {
        (c + 1) as u32
    } else {
        c
    }
}

/// The pips of the first `n` routes.
pub open spec fn pips_upto(routes: Seq<SinkRoute>, n: int) -> Seq<PipId>
    decreases n,
{
    if n <= 0 {
        Seq::empty()
    } else {
        pips_upto(routes, n - 1) + routes[n - 1].pips@
    }
}

/// The tiles that are counted more than once.
pub open spec fn crowded(counts: Seq<u32>, n: int) -> nat
    decreases n,
{
    if n <= 0 {
        0
    } else {
        crowded(counts, n - 1) + (if counts[n - 1] > 1 {
            1nat
        } else {
            0nat
        })
    }
}

proof fn lemma_counted_prefix(chip: ChipDb, counts: Seq<u32>, a: Seq<PipId>, b: Seq<PipId>, n: int)
    requires
        0 <= n <= a.len() <= b.len(),
        forall|i: int| 0 <= i < a.len() ==> #[trigger] b[i] == a[i],
    ensures
        counted_upto(chip, counts, b, n) == counted_upto(chip, counts, a, n),
    decreases n,
{
    if n > 0 {
        lemma_counted_prefix(chip, counts, a, b, n - 1);
        assert(b[n - 1] == a[n - 1]);
    }
}

impl TileUsage {
    pub open spec fn wf(self, chip: ChipDb) -> bool {
        self.counts@.len() == chip.tiles@.len()
    }

    /// No pips anywhere.
    pub fn new(chipdb: &ChipDb) -> (r: Self)
        ensures
            r.wf(*chipdb),
            forall|t: int| 0 <= t < r.counts@.len() ==> #[trigger] r.counts@[t] == 0,
    {
        let mut counts: Vec<u32> = Vec::new();
        for i in 0..chipdb.tiles.len()
            invariant
                counts@.len() == i,
                forall|t: int| 0 <= t < i ==> #[trigger] counts@[t] == 0,
        {
            counts.push(0);
        }
        TileUsage { counts }
    }

    /// Counts a tile once more.
    pub fn add(&mut self, chipdb: &ChipDb, tile: i32)
        requires
            old(self).wf(*chipdb),
            chipdb.valid_tile(tile as int),
        ensures
            final(self).wf(*chipdb),
            final(self).counts@ == old(self).counts@.update(
                tile as int,
                one_above(old(self).counts@[tile as int]),
            ),
    {
        let c: u32 = self.counts[tile as usize];
        self.counts.set(tile as usize, if c < u32::MAX { c + 1 } else { c });
    }

    /// Counts the tiles of the wires that the pips of a plan drive.
    pub fn add_plan(&mut self, chipdb: &ChipDb, plan: &RoutePlan)
        requires
            chipdb.wf(),
            old(self).wf(*chipdb),
            plan.pips_ok(*chipdb),
        ensures
            final(self).wf(*chipdb),
            ({
                let pips = pips_upto(plan.sink_routes@, plan.sink_routes@.len() as int);
                final(self).counts@ == counted_upto(
                    *chipdb,
                    old(self).counts@,
                    pips,
                    pips.len() as int,
                )
            }),
    {
        for i in 0..plan.sink_routes.len()
            invariant
                chipdb.wf(),
                self.wf(*chipdb),
                plan.pips_ok(*chipdb),
                ({
                    let pips = pips_upto(plan.sink_routes@, i as int);
                    self.counts@ == counted_upto(*chipdb, old(self).counts@, pips, pips.len() as int)
                }),
        {
            let pips = &plan.sink_routes[i].pips;
            let ghost head = pips_upto(plan.sink_routes@, i as int);
            let ghost all = head + pips@;
            proof {
                lemma_counted_prefix(*chipdb, old(self).counts@, head, all, head.len() as int);
            }
            for j in 0..pips.len()
                invariant
                    chipdb.wf(),
                    self.wf(*chipdb),
                    plan.pips_ok(*chipdb),
                    i < plan.sink_routes@.len(),
                    pips == plan.sink_routes@[i as int].pips,
                    all == head + pips@,
                    self.counts@ == counted_upto(
                        *chipdb,
                        old(self).counts@,
                        all,
                        head.len() as int + j as int,
                    ),
            {
                assert(chipdb.valid_pip(plan.sink_routes@[i as int].pips@[j as int]));
                assert(all[head.len() as int + j as int] == pips@[j as int]);
                let w: WireId = chipdb.pip_dst_wire(pips[j]);
                self.add(chipdb, w.tile);
            }
            assert(all == pips_upto(plan.sink_routes@, i + 1));
            assert(all.len() == head.len() + pips@.len());
        }
    }

    /// How many tiles are counted more than once.
    pub fn num_congested_tiles(&self) -> (r: usize)
        ensures
            r == crowded(self.counts@, self.counts@.len() as int),
    {
        let mut n: usize = 0;
        for i in 0..self.counts.len()
            invariant
                n == crowded(self.counts@, i as int),
                n <= i,
        {
            if self.counts[i] > 1 {
                n = n + 1;
            }
        }
        n
    }

    /// The largest count.
    pub fn max_usage(&self) -> (r: u32)
        ensures
            forall|t: int| 0 <= t < self.counts@.len() ==> #[trigger] self.counts@[t] <= r,
            r == 0 || exists|t: int| 0 <= t < self.counts@.len() && #[trigger] self.counts@[t] == r,
    {
        let mut most: u32 = 0;
        for i in 0..self.counts.len()
            invariant
                forall|t: int| 0 <= t < i ==> #[trigger] self.counts@[t] <= most,
                most == 0 || exists|t: int| 0 <= t < i && #[trigger] self.counts@[t] == most,
        {
            if self.counts[i] > most {
                most = self.counts[i];
            }
        }
        most
    }
}

/// Binds the plan of a net, if it has routes and no other net holds a wire that it needs, and counts
/// its tiles; whether it was bound.
pub fn bind_and_count(ctx: &mut Context, plan: &RoutePlan, usage: &mut TileUsage) -> (r: bool)
    requires
        old(ctx).wf(),
        old(ctx).design.valid_net(plan.net),
        plan.pips_ok(old(ctx).chipdb),
        plan.source_wire == WireId::nowhere() || old(ctx).chipdb.valid_wire(plan.source_wire),
        old(usage).wf(old(ctx).chipdb),
    ensures
        final(ctx).wf(),
        final(ctx).same_base(*old(ctx)),
        final(ctx).design.nets@.len() == old(ctx).design.nets@.len(),
        final(usage).wf(final(ctx).chipdb),
        ({
            let steps = plan.steps(old(ctx).chipdb);
            let pips = pips_upto(plan.sink_routes@, plan.sink_routes@.len() as int);
            &&& r == (plan.source_wire != WireId::nowhere() && plan.sink_routes@.len() > 0
                && plan_conflict(*old(ctx), plan.net, steps) is None)
            &&& if r {
                &&& steps_bound(*old(ctx), plan.net, steps, steps.len() as int, *final(ctx))
                &&& final(usage).counts@ == counted_upto(
                    old(ctx).chipdb,
                    old(usage).counts@,
                    pips,
                    pips.len() as int,
                )
            } else {
                *final(ctx) == *old(ctx) && *final(usage) == *old(usage)
            }
        }),
{
    if !plan.source_wire.is_valid() || plan.sink_routes.len() == 0 {
        return false;
    }
    match apply_route_plan(ctx, plan) {
        Ok(_) => {
            usage.add_plan(&ctx.chipdb, plan);
            true
        },
        Err(_) => false,
    }
}

} // verus!
