//! The maze router: every net is routed on its own; nets that share wires are then taken apart and
//! routed again with the shared wires made dearer, until none is left.

use crate::chipdb::{PipId, WireId};
use crate::context::Context;
use crate::ids::IdMap;
use crate::metrics::{compute_bbox, net_box, BoundingBox};
use crate::netlist::NetId;
use crate::router::astar::{
    astar_search, default_pip_cost, result_ok, sources_ok, AStarOptions, AStarResult, AStarTrace,
};
use crate::router::common::{
    apply_route_plan, collect_sink_wires, plan_conflict, resolve_source_wire, sinks_upto, steps_bound,
    RoutePlan,
};
use crate::router::error::RouterError;
use crate::router::graph::{PathCostModel, WireSet};
use crate::router::lookahead::{Lookahead, LookaheadClass};
use crate::router::plan::{nearest_first, plan_made, plan_routes, sort_nearest_first};
use crate::router::region::{boxes_ok, measurable};
use crate::timing::delay::DelayT;
use vstd::prelude::*;

verus! {

/// How the maze router works.
pub struct Router1Cfg {
    pub max_iterations: usize,
    /// What a shared wire gets dearer by in each iteration.
    pub rip_up_penalty: DelayT,
    /// How far around its pins a net may go; not positive for anywhere.
    pub bb_margin: i32,
    /// How fine the estimates are; the search has no use for it.
    pub estimate_precision: DelayT,
    /// Estimates for the search, if there are any.
    pub lookahead: Option<Lookahead>,
    pub verbose: bool,
}

impl Default for Router1Cfg {
    fn default() -> (r: Self)
        ensures
            r.max_iterations == 500,
            r.rip_up_penalty == 10,
            r.bb_margin == 3,
            r.estimate_precision == 50,
            r.lookahead is None,
            !r.verbose,
    {
        Router1Cfg {
            max_iterations: 500,
            rip_up_penalty: 10,
            bb_margin: 3,
            estimate_precision: 50,
            lookahead: None,
            verbose: false,
        }
    }
}

/// Penalties on wires, all of them not negative.
pub open spec fn penalties_ok(pen: Map<WireId, DelayT>) -> bool {
    forall|w: WireId| #[trigger] pen.contains_key(w) ==> pen[w] >= 0
}

/// The costs of the maze router: the delay of pips, a penalty for each wire in a table, and estimates
/// from a lookahead or, without one, from the distance.
pub struct MazeCostModel<'a> {
    pub wire_penalty: &'a IdMap<WireId, DelayT>,
    pub boxes: Vec<BoundingBox>,
    pub lookahead: Option<&'a Lookahead>,
    pub class: LookaheadClass,
}

impl<'a> PathCostModel for MazeCostModel<'a> {
    open spec fn ready(&self, ctx: Context) -> bool {
        &&& penalties_ok(self.wire_penalty@)
        &&& self.lookahead is Some ==> self.lookahead->0.wf()
    }

    open spec fn pip_cost_of(&self, ctx: Context, pip: PipId) -> int {
        ctx.chipdb.pip(pip).delay.greatest() + 1
    }

    open spec fn penalty_of(&self, ctx: Context, wire: WireId) -> int {
        if self.wire_penalty@.contains_key(wire) {
            self.wire_penalty@[wire] as int
        } else {
            0
        }
    }

    open spec fn heuristic_of(&self, ctx: Context, wire: WireId, dst: WireId) -> int {
        match self.lookahead {
            Some(la) => la.estimate_spec(ctx.chipdb, wire, dst, self.class),
            None => ctx.estimate(wire, dst),
        }
    }

    open spec fn blocks(&self, ctx: Context, wire: WireId) -> bool {
        false
    }

    open spec fn boxes(&self) -> Seq<BoundingBox> {
        self.boxes@
    }

    fn pip_cost(&self, ctx: &Context, pip: PipId) -> (r: DelayT) {
        default_pip_cost(ctx, pip)
    }

    fn wire_penalty(&self, ctx: &Context, wire: WireId) -> (r: DelayT) {
        match self.wire_penalty.get(wire) {
            Some(p) => *p,
            None => 0,
        }
    }

    fn heuristic(&self, ctx: &Context, wire: WireId, dst: WireId) -> (r: DelayT) {
        match self.lookahead {
            Some(la) => la.estimate_delay(&ctx.chipdb, wire, dst, self.class),
            None => ctx.estimate_delay(wire, dst),
        }
    }

    fn is_blocked(&self, ctx: &Context, wire: WireId) -> (r: bool) {
        false
    }

    fn bboxes(&self) -> (r: &Vec<BoundingBox>) {
        &self.boxes
    }
}

/// The options that routes are searched with.
pub open spec fn route_options(visit_limit: Option<usize>, retain_trace: bool) -> AStarOptions {
    AStarOptions { visit_limit, exhaustive: false, retain_trace, stop_on_first_touch: false }
}

/// The rectangles of a net: one around its pins, or none for a margin that is not positive.
pub open spec fn net_boxes(ctx: Context, net: NetId, margin: i32) -> Seq<BoundingBox> {
    if margin > 0 {
        seq![net_box(ctx, net, margin as int)]
    } else {
        Seq::empty()
    }
}

/// A lookahead that is lent, as a value.
pub open spec fn lent(la: Option<&Lookahead>) -> Option<Lookahead> {
    match la {
        Some(l) => Some(*l),
        None => None,
    }
}

/// The costs of the maze router for a net.
pub open spec fn model_for(
    ctx: Context,
    net: NetId,
    pen: Map<WireId, DelayT>,
    margin: i32,
    la: Option<Lookahead>,
    m: MazeCostModel,
) -> bool {
    &&& m.wire_penalty@ == pen
    &&& lent(m.lookahead) == la
    &&& m.class == (if la is Some {
        la->0.default_class
    } else {
        0
    })
    &&& m.boxes@ == net_boxes(ctx, net, margin)
}

/// The sinks of a net in the order in which they are routed: nearest to the source first.
pub open spec fn sinks_for(ctx: Context, net: NetId, sinks: Seq<WireId>) -> bool {
    let n = ctx.design.net_of(net);
    n.driver.connected() && ctx.wire_of_pin(n.driver) is Some ==> nearest_first(
        ctx,
        ctx.wire_of_pin(n.driver)->0,
        sinks_upto(ctx, n.users@, n.users@.len() as int),
        sinks,
    )
}

/// What planning a net gives with the costs of the maze router, sinks nearest to the source first.
pub open spec fn r1_made<'a>(
    ctx: Context,
    net: NetId,
    pen: Map<WireId, DelayT>,
    margin: i32,
    la: Option<Lookahead>,
    r: Result<RoutePlan, RouterError>,
) -> bool {
    exists|m: MazeCostModel<'a>, sinks: Seq<WireId>|
        {
            &&& model_for(ctx, net, pen, margin, la, m)
            &&& sinks_for(ctx, net, sinks)
            &&& #[trigger] plan_made(ctx, &m, net, sinks, route_options(None, false), r)
        }
}

/// What planning with the maze router's costs needs.
pub open spec fn r1_ready(
    ctx: Context,
    pen: Map<WireId, DelayT>,
    la: Option<Lookahead>,
) -> bool {
    &&& ctx.wf()
    &&& penalties_ok(pen)
    &&& la is Some ==> la->0.wf()
}

fn maze_model<'a>(
    ctx: &Context,
    net: NetId,
    pen: &'a IdMap<WireId, DelayT>,
    margin: i32,
    la: Option<&'a Lookahead>,
) -> (m: MazeCostModel<'a>)
    requires
        ctx.wf(),
        ctx.design.valid_net(net),
    ensures
        m.wire_penalty == pen,
        m.lookahead == la,
        model_for(*ctx, net, pen@, margin, lent(la), m),
        boxes_ok(ctx.chipdb, m.boxes@),
{
    let mut boxes: Vec<BoundingBox> = Vec::new();
    if margin > 0 {
        boxes.push(compute_bbox(ctx, net, margin));
    }
    assert(boxes@ =~= net_boxes(*ctx, net, margin));
    let class: LookaheadClass = match la {
        Some(l) => l.default_class,
        None => 0,
    };
    MazeCostModel { wire_penalty: pen, boxes, lookahead: la, class }
}

/// Plans the route of a net.
pub fn compute_route_r1<'a>(
    ctx: &Context,
    net: NetId,
    wire_penalty: &'a IdMap<WireId, DelayT>,
    bb_margin: i32,
    lookahead: Option<&'a Lookahead>,
) -> (r: Result<RoutePlan, RouterError>)
    requires
        r1_ready(*ctx, wire_penalty@, lent(lookahead)),
        ctx.design.valid_net(net),
    ensures
        r1_made(*ctx, net, wire_penalty@, bb_margin, lent(lookahead), r),
{
    let model = maze_model(ctx, net, wire_penalty, bb_margin, lookahead);
    let opts = AStarOptions {
        visit_limit: None,
        exhaustive: false,
        retain_trace: false,
        stop_on_first_touch: false,
    };
    let sinks = collect_sink_wires(ctx, net);
    match resolve_source_wire(ctx, net) {
        Err(e) => {
            let r: Result<RoutePlan, RouterError> = Err(e);
            assert(plan_made(*ctx, &model, net, sinks@, opts, r));
            r
        },
        Ok(None) => {
            let plan = RoutePlan { net, source_wire: WireId::invalid(), sink_routes: Vec::new() };
            let r: Result<RoutePlan, RouterError> = Ok(plan);
            assert(plan_made(*ctx, &model, net, sinks@, opts, r));
            r
        },
        Ok(Some(source)) => {
            let sorted = sort_nearest_first(ctx, source, &sinks);
            plan_routes(ctx, &model, net, source, &sorted, &opts)
        },
    }
}

/// What routing with a plan does: nothing for a net without a driver or if another net holds a wire
/// that the plan needs, else the plan is bound.
pub open spec fn plan_bound(old_ctx: Context, plan: RoutePlan, new: Context) -> bool {
    let steps = plan.steps(old_ctx.chipdb);
    if plan.source_wire != WireId::nowhere() && plan_conflict(old_ctx, plan.net, steps) is None {
        steps_bound(old_ctx, plan.net, steps, steps.len() as int, new)
    } else {
        new == old_ctx
    }
}

/// What a plan that was made for some state of a net allows: it can be bound.
pub proof fn lemma_made_plan(
    ctx: Context,
    net: NetId,
    pen: Map<WireId, DelayT>,
    margin: i32,
    la: Option<Lookahead>,
    plan: RoutePlan,
)
    requires
        ctx.wf(),
        ctx.design.valid_net(net),
        r1_made(ctx, net, pen, margin, la, Ok(plan)),
    ensures
        plan.net == net,
        plan.pips_ok(ctx.chipdb),
        plan.source_wire == WireId::nowhere() || ctx.chipdb.valid_wire(plan.source_wire),
{
    let n = ctx.design.net_of(net);
    assert(ctx.design.net_ok(ctx.design.nets@[net.0 as int]));
    if n.driver.connected() {
        ctx.lemma_wire_of_pin(n.driver);
    }
}

/// Binds a plan, unless it has no source or another net holds a wire that it needs.
pub(crate) fn bind_plan(ctx: &mut Context, plan: &RoutePlan)
    requires
        old(ctx).wf(),
        old(ctx).design.valid_net(plan.net),
        plan.pips_ok(old(ctx).chipdb),
        plan.source_wire == WireId::nowhere() || old(ctx).chipdb.valid_wire(plan.source_wire),
    ensures
        final(ctx).wf(),
        final(ctx).same_base(*old(ctx)),
        final(ctx).design.nets@.len() == old(ctx).design.nets@.len(),
        plan_bound(*old(ctx), *plan, *final(ctx)),
{
    if plan.source_wire.is_valid() {
        let _ = apply_route_plan(ctx, plan);
    }
}

/// What routing one net does: nothing if planning it fails, and the error is returned; else the
/// plan is bound.
pub open spec fn net_routed(
    old_ctx: Context,
    net: NetId,
    pen: Map<WireId, DelayT>,
    margin: i32,
    la: Option<Lookahead>,
    r: Result<(), RouterError>,
    new: Context,
) -> bool {
    match r {
        Ok(_) => exists|plan: RoutePlan| #[trigger]
            r1_made(old_ctx, net, pen, margin, la, Ok(plan)) && plan_bound(old_ctx, plan, new),
        Err(e) => r1_made(old_ctx, net, pen, margin, la, Err(e)) && new == old_ctx,
    }
}

/// Routes one net with penalties on wires, within a margin around its pins.
pub(crate) fn route_within(
    ctx: &mut Context,
    net: NetId,
    wire_penalty: &IdMap<WireId, DelayT>,
    bb_margin: i32,
) -> (r: Result<(), RouterError>)
    requires
        old(ctx).wf(),
        old(ctx).design.valid_net(net),
        penalties_ok(wire_penalty@),
    ensures
        final(ctx).wf(),
        final(ctx).same_base(*old(ctx)),
        final(ctx).design.nets@.len() == old(ctx).design.nets@.len(),
        net_routed(*old(ctx), net, wire_penalty@, bb_margin, None, r, *final(ctx)),
{
    match compute_route_r1(ctx, net, wire_penalty, bb_margin, None) {
        Ok(plan) => {
            proof {
                lemma_made_plan(*ctx, net, wire_penalty@, bb_margin, None, plan);
            }
            bind_plan(ctx, &plan);
            Ok(())
        },
        Err(e) => Err(e),
    }
}

/// Routes one net with penalties on wires, anywhere on the device.
pub fn route_net(ctx: &mut Context, net: NetId, wire_penalty: &IdMap<WireId, DelayT>) -> (r: Result<
    (),
    RouterError,
>)
    requires
        old(ctx).wf(),
        old(ctx).design.valid_net(net),
        penalties_ok(wire_penalty@),
    ensures
        final(ctx).wf(),
        final(ctx).same_base(*old(ctx)),
        final(ctx).design.nets@.len() == old(ctx).design.nets@.len(),
        net_routed(*old(ctx), net, wire_penalty@, 0, None, r, *final(ctx)),
{
    route_within(ctx, net, wire_penalty, 0)
}

/// The rectangles of a search: one or none.
pub open spec fn box_list(bbox: Option<BoundingBox>) -> Seq<BoundingBox> {
    match bbox {
        Some(b) => seq![b],
        None => Seq::empty(),
    }
}

/// What the search for a route to one wire gives, with the costs of the maze router.
pub open spec fn astar_found<'a>(
    ctx: Context,
    src_wires: Map<WireId, ()>,
    dst_wire: WireId,
    pen: Map<WireId, DelayT>,
    bbox: Option<BoundingBox>,
    la: Option<Lookahead>,
    opts: AStarOptions,
    result: AStarResult,
) -> bool {
    exists|m: MazeCostModel<'a>|
        {
            &&& m.wire_penalty@ == pen
            &&& lent(m.lookahead) == la
            &&& m.class == (if la is Some {
                la->0.default_class
            } else {
                0
            })
            &&& m.boxes@ == box_list(bbox)
            &&& #[trigger] result_ok(ctx, &m, src_wires, dst_wire, opts, result)
        }
}

/// Searches a route to a wire; what the search did is returned beside the path.
pub fn astar_route_with_trace(
    ctx: &Context,
    src_wires: &WireSet,
    dst_wire: WireId,
    wire_penalty: &IdMap<WireId, DelayT>,
    bbox: Option<BoundingBox>,
    lookahead: Option<&Lookahead>,
    visit_limit: Option<usize>,
) -> (r: (Option<Vec<PipId>>, AStarTrace))
    requires
        r1_ready(*ctx, wire_penalty@, lent(lookahead)),
        sources_ok(*ctx, src_wires@),
        ctx.chipdb.valid_wire(dst_wire),
        bbox is Some ==> measurable(bbox->0),
    ensures
        astar_found(
            *ctx,
            src_wires@,
            dst_wire,
            wire_penalty@,
            bbox,
            lent(lookahead),
            route_options(visit_limit, true),
            AStarResult { path: r.0, trace: r.1 },
        ),
{
    let mut boxes: Vec<BoundingBox> = Vec::new();
    if let Some(b) = bbox {
        boxes.push(b);
    }
    assert(boxes@ =~= box_list(bbox));
    let class: LookaheadClass = match lookahead {
        Some(l) => l.default_class,
        None => 0,
    };
    let model = MazeCostModel { wire_penalty, boxes, lookahead, class };
    let opts = AStarOptions {
        visit_limit,
        exhaustive: false,
        retain_trace: true,
        stop_on_first_touch: false,
    };
    let result = astar_search(ctx, &model, src_wires, dst_wire, &opts);
    (result.path, result.trace)
}

/// Searches a route to a wire.
pub fn astar_route(
    ctx: &Context,
    src_wires: &WireSet,
    dst_wire: WireId,
    wire_penalty: &IdMap<WireId, DelayT>,
    bbox: Option<BoundingBox>,
    lookahead: Option<&Lookahead>,
    visit_limit: Option<usize>,
) -> (r: Option<Vec<PipId>>)
    requires
        r1_ready(*ctx, wire_penalty@, lent(lookahead)),
        sources_ok(*ctx, src_wires@),
        ctx.chipdb.valid_wire(dst_wire),
        bbox is Some ==> measurable(bbox->0),
    ensures
        exists|trace: AStarTrace| #[trigger]
            astar_found(
                *ctx,
                src_wires@,
                dst_wire,
                wire_penalty@,
                bbox,
                lent(lookahead),
                route_options(visit_limit, true),
                AStarResult { path: r, trace },
            ),
{
    let (path, trace) = astar_route_with_trace(
        ctx,
        src_wires,
        dst_wire,
        wire_penalty,
        bbox,
        lookahead,
        visit_limit,
    );
    path
}

/// Searches a route to a wire; the same search as [`astar_route`].
pub fn astar_route_multihop(
    ctx: &Context,
    src_wires: &WireSet,
    dst_wire: WireId,
    wire_penalty: &IdMap<WireId, DelayT>,
    bbox: Option<BoundingBox>,
    lookahead: Option<&Lookahead>,
    visit_limit: Option<usize>,
) -> (r: Option<Vec<PipId>>)
    requires
        r1_ready(*ctx, wire_penalty@, lent(lookahead)),
        sources_ok(*ctx, src_wires@),
        ctx.chipdb.valid_wire(dst_wire),
        bbox is Some ==> measurable(bbox->0),
    ensures
        exists|trace: AStarTrace| #[trigger]
            astar_found(
                *ctx,
                src_wires@,
                dst_wire,
                wire_penalty@,
                bbox,
                lent(lookahead),
                route_options(visit_limit, true),
                AStarResult { path: r, trace },
            ),
{
    astar_route(ctx, src_wires, dst_wire, wire_penalty, bbox, lookahead, visit_limit)
}

} // verus!
