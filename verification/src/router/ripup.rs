//! Making room for a net whose way is taken: the nets in the way are taken apart, the net is routed,
//! and then they are routed again; or everything stays as it was.

use crate::chipdb::{PipId, WireId};
use crate::context::{Binding, Context};
use crate::ids::IdMap;
use crate::metrics::BoundingBox;
use crate::netlist::{NetId, PipMap};
use crate::router::astar::{
    astar_search, default_pip_cost, result_ok, sources_ok, AStarOptions, AStarResult,
};
use crate::router::attempt::{
    add_conductor, attempt_sink, attempts_ok, lemma_attempts_push, outcome_ok, reached, tree_upto,
};
use crate::router::common::{
    apply_route_plan, collect_sink_wires, pips_of, plan_conflict, resolve_source_wire, sinks_upto,
    steps_bound, RoutePlan, SinkRoute,
};
use crate::router::graph::{lemma_path_pips, PathCostModel, WireSet};
use crate::router::lookahead::Lookahead;
use crate::router::maze::{box_list, penalties_ok, route_options};
use crate::router::plan::as_map;
use crate::router::region::{boxes_ok, measurable};
use crate::router::validate::{in_tree, is_in_tree};
use crate::timing::delay::DelayT;
use vstd::prelude::*;

verus! {

/// How often room may be made in one run.
pub const MAX_RIPUP_ATTEMPTS_PER_RUN: u32 = 8;

/// The visits of a search that does not mind what is taken.
pub const EXPLORE_VISIT_LIMIT: usize = 10_000_000;

/// The least margin around a net in which such a search stays.
pub const EXPLORE_BBOX_MARGIN_MIN: i32 = 60;

/// The margin for each tile that a net spans.
pub const EXPLORE_BBOX_SPAN_MULT: i32 = 3;

/// The visits of a search for the net that room is made for.
pub const SCOPED_RIPUP_RETRY_LIMIT: usize = 5_000_000;

/// The visits of a search for a net that was in the way.
pub const RIPUP_REROUTE_LIMIT: usize = 5_000_000;

/// Costs for a net: the delay of pips and a penalty for each wire in a table. The search stays off
/// wires that other nets hold and has estimates; or it does not mind them and has none.
pub struct DetourCostModel<'a> {
    pub net: NetId,
    pub wire_penalty: &'a IdMap<WireId, DelayT>,
    pub boxes: Vec<BoundingBox>,
    pub lookahead: &'a Lookahead,
    pub explore: bool,
}

impl<'a> PathCostModel for DetourCostModel<'a> {
    open spec fn ready(&self, ctx: Context) -> bool {
        penalties_ok(self.wire_penalty@) && self.lookahead.wf()
    }

    open spec fn pip_cost_of(&self, ctx: Context, pip: PipId) -> int {
        ctx.chipdb.pip(pip).delay.greatest() + 1
    }

    open spec fn penalty_of(&self, ctx: Context, wire: WireId) -> int {
        if self.wire_penalty@.contains_key(wire) {
            self.wire_penalty@[wire] as int
        } else {
            0
        }
    }

    open spec fn heuristic_of(&self, ctx: Context, wire: WireId, dst: WireId) -> int {
        if self.explore {
            0
        } else {
            self.lookahead.estimate_spec(ctx.chipdb, wire, dst, self.lookahead.default_class)
        }
    }

    open spec fn blocks(&self, ctx: Context, wire: WireId) -> bool {
        !self.explore && ctx.owner(wire) is Some && ctx.owner(wire) != Some(self.net)
    }

    open spec fn boxes(&self) -> Seq<BoundingBox> {
        self.boxes@
    }

    fn pip_cost(&self, ctx: &Context, pip: PipId) -> (r: DelayT) {
        default_pip_cost(ctx, pip)
    }

    fn wire_penalty(&self, ctx: &Context, wire: WireId) -> (r: DelayT) {
        match self.wire_penalty.get(wire) {
            Some(p) => *p,
            None => 0,
        }
    }

    fn heuristic(&self, ctx: &Context, wire: WireId, dst: WireId) -> (r: DelayT) {
        if self.explore {
            0
        } else {
            self.lookahead.estimate_delay(&ctx.chipdb, wire, dst, self.lookahead.default_class)
        }
    }

    fn is_blocked(&self, ctx: &Context, wire: WireId) -> (r: bool) {
        if self.explore {
            return false;
        }
        match ctx.wire_binding(wire) {
            Some(b) => b.net != self.net,
            None => false,
        }
    }

    fn bboxes(&self) -> (r: &Vec<BoundingBox>) {
        &self.boxes
    }
}

/// The model for a net with given penalties, estimates and rectangle.
pub open spec fn detour_model(
    net: NetId,
    pen: Map<WireId, DelayT>,
    la: Lookahead,
    bbox: Option<BoundingBox>,
    explore: bool,
    m: DetourCostModel,
) -> bool {
    &&& m.net == net
    &&& m.wire_penalty@ == pen
    &&& *m.lookahead == la
    &&& m.boxes@ == box_list(bbox)
    &&& m.explore == explore
}

pub(crate) fn make_model<'a>(
    net: NetId,
    wire_penalty: &'a IdMap<WireId, DelayT>,
    lookahead: &'a Lookahead,
    bbox: Option<BoundingBox>,
    explore: bool,
) -> (m: DetourCostModel<'a>)
    requires
        bbox is Some ==> measurable(bbox->0),
    ensures
        m.wire_penalty == wire_penalty,
        m.lookahead == lookahead,
        detour_model(net, wire_penalty@, *lookahead, bbox, explore, m),
        forall|chip: crate::chipdb::ChipDb| #[trigger] boxes_ok(chip, m.boxes@),
{
    let mut boxes: Vec<BoundingBox> = Vec::new();
    if let Some(b) = bbox {
        boxes.push(b);
    }
    assert(boxes@ =~= box_list(bbox));
    DetourCostModel { net, wire_penalty, boxes, lookahead, explore }
}

/// What the search for a route to one wire gives.
pub open spec fn detour_found<'a>(
    ctx: Context,
    net: NetId,
    src_wires: Set<WireId>,
    dst: WireId,
    pen: Map<WireId, DelayT>,
    la: Lookahead,
    bbox: Option<BoundingBox>,
    explore: bool,
    limit: Option<usize>,
    path: Option<Vec<PipId>>,
) -> bool {
    exists|m: DetourCostModel<'a>, res: AStarResult|
        detour_model(net, pen, la, bbox, explore, m) && res.path == path && #[trigger] result_ok(
            ctx,
            &m,
            as_map(src_wires),
            dst,
            route_options(limit, false),
            res,
        )
}

fn search_detour(
    ctx: &Context,
    net: NetId,
    src_wires: &WireSet,
    dst: WireId,
    wire_penalty: &IdMap<WireId, DelayT>,
    bbox: Option<BoundingBox>,
    lookahead: &Lookahead,
    explore: bool,
    limit: Option<usize>,
) -> (r: Option<Vec<PipId>>)
    requires
        ctx.wf(),
        penalties_ok(wire_penalty@),
        lookahead.wf(),
        sources_ok(*ctx, src_wires@),
        ctx.chipdb.valid_wire(dst),
        bbox is Some ==> measurable(bbox->0),
    ensures
        detour_found(
            *ctx,
            net,
            src_wires@.dom(),
            dst,
            wire_penalty@,
            *lookahead,
            bbox,
            explore,
            limit,
            r,
        ),
        r is Some ==> forall|i: int| 0 <= i < r->0@.len() ==> ctx.chipdb.valid_pip(#[trigger] r->0@[i]),
{
    let model = make_model(net, wire_penalty, lookahead, bbox, explore);
    let opts = AStarOptions {
        visit_limit: limit,
        exhaustive: false,
        retain_trace: false,
        stop_on_first_touch: false,
    };
    assert(src_wires@ =~= as_map(src_wires@.dom()));
    assert(boxes_ok(ctx.chipdb, model.boxes@));
    let result = astar_search(ctx, &model, src_wires, dst, &opts);
    let ghost res = result;
    proof {
        assert(result_ok(*ctx, &model, as_map(src_wires@.dom()), dst, opts, res));
        if res.path is Some {
            lemma_path_pips(*ctx, &model, src_wires@, res.path->0@, dst);
        }
    }
    result.path
}

/// Searches a route for a net without minding what is taken, and without estimates.
pub fn astar_route_explore(
    ctx: &Context,
    net: NetId,
    src_wires: &WireSet,
    dst: WireId,
    wire_penalty: &IdMap<WireId, DelayT>,
    bbox: Option<BoundingBox>,
    lookahead: &Lookahead,
    limit: Option<usize>,
) -> (r: Option<Vec<PipId>>)
    requires
        ctx.wf(),
        penalties_ok(wire_penalty@),
        lookahead.wf(),
        sources_ok(*ctx, src_wires@),
        ctx.chipdb.valid_wire(dst),
        bbox is Some ==> measurable(bbox->0),
    ensures
        detour_found(
            *ctx,
            net,
            src_wires@.dom(),
            dst,
            wire_penalty@,
            *lookahead,
            bbox,
            true,
            limit,
            r,
        ),
        r is Some ==> forall|i: int| 0 <= i < r->0@.len() ==> ctx.chipdb.valid_pip(#[trigger] r->0@[i]),
{
    search_detour(ctx, net, src_wires, dst, wire_penalty, bbox, lookahead, true, limit)
}

/// Searches a route for a net, off the wires that other nets hold.
pub fn astar_route_bound(
    ctx: &Context,
    net: NetId,
    src_wires: &WireSet,
    dst: WireId,
    wire_penalty: &IdMap<WireId, DelayT>,
    bbox: Option<BoundingBox>,
    lookahead: &Lookahead,
    limit: Option<usize>,
) -> (r: Option<Vec<PipId>>)
    requires
        ctx.wf(),
        penalties_ok(wire_penalty@),
        lookahead.wf(),
        sources_ok(*ctx, src_wires@),
        ctx.chipdb.valid_wire(dst),
        bbox is Some ==> measurable(bbox->0),
    ensures
        detour_found(
            *ctx,
            net,
            src_wires@.dom(),
            dst,
            wire_penalty@,
            *lookahead,
            bbox,
            false,
            limit,
            r,
        ),
        r is Some ==> forall|i: int| 0 <= i < r->0@.len() ==> ctx.chipdb.valid_pip(#[trigger] r->0@[i]),
{
    search_detour(ctx, net, src_wires, dst, wire_penalty, bbox, lookahead, false, limit)
}

/// Every sink of the net that has a wire has its conductor in the net's tree.
pub open spec fn fully_routed(ctx: Context, net: NetId) -> bool {
    let n = ctx.design.net_of(net);
    forall|i: int|
        0 <= i < n.users@.len() && (#[trigger] n.users@[i]).connected() && ctx.wire_of_pin(n.users@[i])
            is Some ==> in_tree(ctx, n.wires@, ctx.wire_of_pin(n.users@[i])->0)
}

/// Whether every sink of the net is in the net's tree.
pub fn net_fully_routed(ctx: &Context, net: NetId) -> (r: bool)
    requires
        ctx.wf(),
        ctx.design.valid_net(net),
    ensures
        r == fully_routed(*ctx, net),
{
    let n = ctx.net(net);
    for i in 0..n.users.len()
        invariant
            ctx.wf(),
            ctx.design.valid_net(net),
            *n == ctx.design.net_of(net),
            forall|j: int|
                0 <= j < i && (#[trigger] n.users@[j]).connected() && ctx.wire_of_pin(n.users@[j]) is Some
                    ==> in_tree(*ctx, n.wires@, ctx.wire_of_pin(n.users@[j])->0),
    {
        assert(ctx.design.net_ok(ctx.design.nets@[net.0 as int]));
        assert(ctx.design.pin_ok(n.users@[i as int]));
        if n.users[i].is_valid() {
            if let Some(w) = ctx.pin_wire(n.users[i]) {
                if !is_in_tree(ctx, &n.wires, w) {
                    return false;
                }
            }
        }
    }
    true
}

/// The wires of the conductors that a tree has a wire of.
pub open spec fn conductors(ctx: Context, tree: Map<WireId, PipMap>) -> Set<WireId> {
    Set::new(
        |x: WireId| exists|w: WireId| #[trigger] tree.contains_key(w) && ctx.conductor_of(w).contains(x),
    )
}

/// `new` is `old` with all conductors and pips of the net's tree set free, and the tree emptied.
pub open spec fn ripped_up(old_ctx: Context, net: NetId, new: Context) -> bool {
    let tree = old_ctx.design.net_of(net).wires@;
    &&& new.same_base(old_ctx)
    &&& new.wire_bindings@ == old_ctx.wire_bindings@.remove_keys(conductors(old_ctx, tree))
    &&& new.pip_bindings@ == old_ctx.pip_bindings@.remove_keys(pips_of(tree))
    &&& old_ctx.design.rerouted(net, Map::<WireId, PipMap>::empty(), new.design)
}

/// Sets all wires of a conductor free.
fn free_conductor(ctx: &mut Context, w: WireId)
    requires
        old(ctx).chipdb.wf(),
    ensures
        old(ctx).rebound_wires(
            old(ctx).wire_bindings@.remove_keys(old(ctx).conductor_of(w).to_set()),
            *final(ctx),
        ),
{
    let wires = ctx.conductor(w);
    proof {
        assert(ctx.wire_bindings@ =~= ctx.wire_bindings@.remove_keys(wires@.take(0).to_set()));
    }
    for i in 0..wires.len()
        invariant
            wires@ == old(ctx).conductor_of(w),
            old(ctx).rebound_wires(
                old(ctx).wire_bindings@.remove_keys(wires@.take(i as int).to_set()),
                *ctx,
            ),
    {
        let ghost before = ctx.wire_bindings@;
        ctx.unbind_wire(wires[i]);
        proof {
            let part = wires@.take(i as int);
            let whole = wires@.take(i + 1);
            assert forall|x: WireId| #[trigger] whole.to_set().contains(x) <==> part.to_set().contains(x) || x
                == wires@[i as int] by {
                if part.contains(x) {
                    let j = choose|j: int| 0 <= j < part.len() && part[j] == x;
                    assert(whole[j] == x);
                }
                if x == wires@[i as int] {
                    assert(whole[i as int] == x);
                }
                if whole.contains(x) {
                    let j = choose|j: int| 0 <= j < whole.len() && whole[j] == x;
                    if j < i {
                        assert(part[j] == x);
                    }
                }
            }
            assert(ctx.wire_bindings@ =~= old(ctx).wire_bindings@.remove_keys(whole.to_set()));
        }
    }
    proof {
        assert(wires@.take(wires@.len() as int) =~= wires@);
    }
}

/// Takes a net apart: its wires, the other wires of their nodes and its pips are set free.
#[verifier::rlimit(30)]
pub fn ripup_net_with_equivs(ctx: &mut Context, net: NetId)
    requires
        old(ctx).wf(),
        old(ctx).design.valid_net(net),
    ensures
        final(ctx).wf(),
        ripped_up(*old(ctx), net, *final(ctx)),
{
    let keys = ctx.design.net(net).wires.keys();
    let ghost tree = ctx.design.net_of(net).wires@;
    for i in 0..keys.len()
        invariant
            old(ctx).wf(),
            old(ctx).design.valid_net(net),
            tree == old(ctx).design.net_of(net).wires@,
            forall|w: WireId| #[trigger] keys@.contains(w) <==> tree.contains_key(w),
            ctx.same_base(*old(ctx)),
            ctx.design == old(ctx).design,
            forall|x: WireId| #[trigger]
                ctx.wire_bindings@.contains_key(x) <==> old(ctx).wire_bindings@.contains_key(x) && !(exists|
                    j: int,
                |
                    0 <= j < i && old(ctx).conductor_of(#[trigger] keys@[j]).contains(x)),
            forall|x: WireId| #[trigger]
                ctx.wire_bindings@.contains_key(x) ==> ctx.wire_bindings@[x]
                    == old(ctx).wire_bindings@[x],
            forall|p: PipId| #[trigger]
                ctx.pip_bindings@.contains_key(p) <==> old(ctx).pip_bindings@.contains_key(p) && !(exists|
                    j: int,
                |
                    0 <= j < i && tree[#[trigger] keys@[j]].pip == Some(p)),
            forall|p: PipId| #[trigger]
                ctx.pip_bindings@.contains_key(p) ==> ctx.pip_bindings@[p] == old(ctx).pip_bindings@[p],
    {
        let w: WireId = keys[i];
        let ghost before = *ctx;
        assert(keys@.contains(w));
        let pip: Option<PipId> = match ctx.design.net(net).wires.get(w) {
            Some(pm) => pm.pip,
            None => None,
        };
        free_conductor(ctx, w);
        if let Some(p) = pip {
            ctx.unbind_pip(p);
        }
        assert(before.conductor_of(w) == old(ctx).conductor_of(w));
        assert forall|x: WireId| #[trigger] ctx.wire_bindings@.contains_key(x) <==> old(
            ctx,
        ).wire_bindings@.contains_key(x) && !(exists|j: int|
            0 <= j < i + 1 && old(ctx).conductor_of(#[trigger] keys@[j]).contains(x)) by {
            if old(ctx).conductor_of(w).contains(x) {
                assert(old(ctx).conductor_of(keys@[i as int]).contains(x));
                assert(before.conductor_of(w).to_set().contains(x));
            }
            if exists|j: int| 0 <= j < i + 1 && old(ctx).conductor_of(#[trigger] keys@[j]).contains(x) {
                let j = choose|j: int|
                    0 <= j < i + 1 && old(ctx).conductor_of(#[trigger] keys@[j]).contains(x);
                if j < i {
                    assert(!before.wire_bindings@.contains_key(x));
                }
            }
        }
        assert forall|p: PipId| #[trigger] ctx.pip_bindings@.contains_key(p) <==> old(
            ctx,
        ).pip_bindings@.contains_key(p) && !(exists|j: int|
            0 <= j < i + 1 && tree[#[trigger] keys@[j]].pip == Some(p)) by {
            if pip == Some(p) {
                assert(tree[keys@[i as int]].pip == Some(p));
            }
            if exists|j: int| 0 <= j < i + 1 && tree[#[trigger] keys@[j]].pip == Some(p) {
                let j = choose|j: int| 0 <= j < i + 1 && tree[#[trigger] keys@[j]].pip == Some(p);
                if j < i {
                    assert(!before.pip_bindings@.contains_key(p));
                }
            }
        }
    }
    ctx.design.clear_wires(net);
    proof {
        assert forall|x: WireId| #[trigger] conductors(*old(ctx), tree).contains(x) <==> exists|j: int|
            0 <= j < keys@.len() && old(ctx).conductor_of(#[trigger] keys@[j]).contains(x) by {
            if conductors(*old(ctx), tree).contains(x) {
                let w = choose|w: WireId| #[trigger]
                    tree.contains_key(w) && old(ctx).conductor_of(w).contains(x);
                assert(keys@.contains(w));
                let j = choose|j: int| 0 <= j < keys@.len() && keys@[j] == w;
                assert(old(ctx).conductor_of(keys@[j]).contains(x));
            }
            if exists|j: int| 0 <= j < keys@.len() && old(ctx).conductor_of(#[trigger] keys@[j]).contains(x) {
                let j = choose|j: int|
                    0 <= j < keys@.len() && old(ctx).conductor_of(#[trigger] keys@[j]).contains(x);
                assert(keys@.contains(keys@[j]));
                assert(tree.contains_key(keys@[j]));
            }
        }
        assert(ctx.wire_bindings@ =~= old(ctx).wire_bindings@.remove_keys(conductors(*old(ctx), tree)));
        assert forall|p: PipId| #[trigger] pips_of(tree).contains(p) <==> exists|j: int|
            0 <= j < keys@.len() && tree[#[trigger] keys@[j]].pip == Some(p) by {
            if pips_of(tree).contains(p) {
                let w = choose|w: WireId| #[trigger] tree.contains_key(w) && tree[w].pip == Some(p);
                assert(keys@.contains(w));
                let j = choose|j: int| 0 <= j < keys@.len() && keys@[j] == w;
                assert(tree[keys@[j]].pip == Some(p));
            }
            if exists|j: int| 0 <= j < keys@.len() && tree[#[trigger] keys@[j]].pip == Some(p) {
                let j = choose|j: int| 0 <= j < keys@.len() && tree[#[trigger] keys@[j]].pip == Some(p);
                assert(keys@.contains(keys@[j]));
                assert(tree.contains_key(keys@[j]));
            }
        }
        assert(ctx.pip_bindings@ =~= old(ctx).pip_bindings@.remove_keys(pips_of(tree)));
        old(ctx).lemma_rerouted_wf(net, Map::<WireId, PipMap>::empty(), *ctx);
    }
}

/// The conductor of the source of a net, as the tree that it is routed from.
pub open spec fn source_tree(ctx: Context, source: WireId) -> Set<WireId> {
    ctx.conductor_of(source).to_set()
}

/// All sinks were reached.
pub open spec fn all_reached(outcomes: Seq<Option<SinkRoute>>) -> bool {
    forall|i: int| 0 <= i < outcomes.len() ==> (#[trigger] outcomes[i]) is Some
}

/// What routing a net from its source gives, for given outcomes: nothing if a sink was missed or
/// another net holds a wire that the plan needs, else the plan is bound.
pub open spec fn rerouted_by(
    old_ctx: Context,
    net: NetId,
    source: WireId,
    sinks: Seq<WireId>,
    outcomes: Seq<Option<SinkRoute>>,
    r: bool,
    new: Context,
) -> bool {
    if outcomes.len() > 0 && outcomes.last() is None {
        !r && new == old_ctx
    } else {
        &&& outcomes.len() == sinks.len()
        &&& all_reached(outcomes)
        &&& exists|plan: RoutePlan|
            {
                let steps = #[trigger] plan.steps(old_ctx.chipdb);
                &&& plan.net == net
                &&& plan.source_wire == source
                &&& plan.sink_routes@ == reached(outcomes, outcomes.len() as int)
                &&& r == (plan_conflict(old_ctx, net, steps) is None)
                &&& if r {
                    steps_bound(old_ctx, net, steps, steps.len() as int, new)
                } else {
                    new == old_ctx
                }
            }
    }
}

/// What routing a net from its source gives.
pub open spec fn rerouted_from_scratch<'a>(
    old_ctx: Context,
    net: NetId,
    pen: Map<WireId, DelayT>,
    la: Lookahead,
    limit: usize,
    bbox: Option<BoundingBox>,
    r: bool,
    new: Context,
) -> bool {
    let n = old_ctx.design.net_of(net);
    let source = old_ctx.wire_of_pin(n.driver);
    let sinks = sinks_upto(old_ctx, n.users@, n.users@.len() as int);
    if !n.driver.connected() || source is None {
        !r && new == old_ctx
    } else if sinks.len() == 0 {
        r && new == old_ctx
    } else {
        exists|m: DetourCostModel<'a>, outcomes: Seq<Option<SinkRoute>>|
            {
                &&& detour_model(net, pen, la, bbox, false, m)
                &&& #[trigger] attempts_ok(
                    old_ctx,
                    &m,
                    source_tree(old_ctx, source->0),
                    false,
                    sinks,
                    route_options(Some(limit), false),
                    outcomes,
                )
                &&& rerouted_by(old_ctx, net, source->0, sinks, outcomes, r, new)
            }
    }
}

/// Routes a net from its source alone, off the wires that other nets hold.
#[verifier::rlimit(60)]
#[verifier::spinoff_prover]
pub fn reroute_from_scratch(
    ctx: &mut Context,
    net: NetId,
    wire_penalty: &IdMap<WireId, DelayT>,
    lookahead: &Lookahead,
    visit_limit: usize,
    bbox: Option<BoundingBox>,
) -> (r: bool)
    requires
        old(ctx).wf(),
        old(ctx).design.valid_net(net),
        penalties_ok(wire_penalty@),
        lookahead.wf(),
        bbox is Some ==> measurable(bbox->0),
    ensures
        final(ctx).wf(),
        final(ctx).same_base(*old(ctx)),
        final(ctx).design.nets@.len() == old(ctx).design.nets@.len(),
        rerouted_from_scratch(
            *old(ctx),
            net,
            wire_penalty@,
            *lookahead,
            visit_limit,
            bbox,
            r,
            *final(ctx),
        ),
        exists|wires: Map<WireId, PipMap>| #[trigger]
            old(ctx).design.rerouted(net, wires, final(ctx).design),
{
    proof {
        assert(old(ctx).design.rerouted(net, old(ctx).design.net_of(net).wires@, ctx.design));
    }
    let source: WireId = match resolve_source_wire(ctx, net) {
        Ok(Some(w)) => w,
        _ => {
            return false;
        },
    };
    let sinks = collect_sink_wires(ctx, net);
    if sinks.len() == 0 {
        return true;
    }
    let model = make_model(net, wire_penalty, lookahead, bbox, false);
    let opts = AStarOptions {
        visit_limit: Some(visit_limit),
        exhaustive: false,
        retain_trace: false,
        stop_on_first_touch: false,
    };
    let ghost start = source_tree(*ctx, source);
    let mut tree: WireSet = IdMap::new();
    add_conductor(ctx, &mut tree, source);
    assert(tree@.dom() =~= start);
    assert(boxes_ok(ctx.chipdb, model.boxes@));
    let mut routes: Vec<SinkRoute> = Vec::new();
    let ghost mut outcomes: Seq<Option<SinkRoute>> = Seq::empty();
    for k in 0..sinks.len()
        invariant
            *ctx == *old(ctx),
            ctx.wf(),
            model.ready(*ctx),
            boxes_ok(ctx.chipdb, model.boxes@),
            detour_model(net, wire_penalty@, *lookahead, bbox, false, model),
            opts == route_options(Some(visit_limit), false),
            ctx.design.net_of(net).driver.connected(),
            ctx.wire_of_pin(ctx.design.net_of(net).driver) == Some(source),
            sinks@.len() > 0,
            sinks@ == sinks_upto(
                *ctx,
                ctx.design.net_of(net).users@,
                ctx.design.net_of(net).users@.len() as int,
            ),
            start == source_tree(*ctx, source),
            forall|i: int| 0 <= i < sinks@.len() ==> ctx.chipdb.valid_wire(#[trigger] sinks@[i]),
            outcomes.len() == k,
            all_reached(outcomes),
            attempts_ok(*ctx, &model, start, false, sinks@, opts, outcomes),
            tree@.dom() == tree_upto(*ctx, start, false, outcomes, k as int),
            sources_ok(*ctx, tree@),
            routes@ == reached(outcomes, k as int),
            forall|i: int, j: int|
                0 <= i < routes@.len() && 0 <= j < routes@[i].pips@.len() ==> ctx.chipdb.valid_pip(
                    #[trigger] routes@[i].pips@[j],
                ),
            old(ctx).design.rerouted(net, old(ctx).design.net_of(net).wires@, ctx.design),
    {
        let sink: WireId = sinks[k];
        assert(ctx.chipdb.valid_wire(sinks@[k as int]));
        let ghost before = routes@;
        let outcome = attempt_sink(ctx, &model, &mut tree, sink, false, &opts);
        proof {
            lemma_attempts_push(*ctx, &model, start, false, sinks@, opts, outcomes, outcome);
            outcomes = outcomes.push(outcome);
        }
        match outcome {
            Some(route) => {
                routes.push(route);
                proof {
                    assert forall|i: int, j: int|
                        0 <= i < routes@.len() && 0 <= j < routes@[i].pips@.len() implies ctx.chipdb.valid_pip(
                        #[trigger] routes@[i].pips@[j],
                    ) by {
                        if i < before.len() {
                            assert(routes@[i] == before[i]);
                            assert(ctx.chipdb.valid_pip(before[i].pips@[j]));
                        } else {
                            assert(routes@[i] == route);
                            assert(outcome_ok(*ctx, outcome));
                            assert(ctx.chipdb.valid_pip(route.pips@[j]));
                        }
                    }
                }
            },
            None => {
                proof {
                    assert(outcomes.last() is None);
                    assert(rerouted_by(*ctx, net, source, sinks@, outcomes, false, *ctx));
                    let n = old(ctx).design.net_of(net);
                    assert(attempts_ok(
                        *old(ctx),
                        &model,
                        source_tree(*old(ctx), old(ctx).wire_of_pin(n.driver)->0),
                        false,
                        sinks_upto(*old(ctx), n.users@, n.users@.len() as int),
                        route_options(Some(visit_limit), false),
                        outcomes,
                    ));
                    assert(rerouted_from_scratch(
                        *old(ctx),
                        net,
                        wire_penalty@,
                        *lookahead,
                        visit_limit,
                        bbox,
                        false,
                        *ctx,
                    ));
                }
                return false;
            },
        }
    }
    let plan = RoutePlan { net, source_wire: source, sink_routes: routes };
    let ghost steps = plan.steps(ctx.chipdb);
    let ok: bool = match apply_route_plan(ctx, &plan) {
        Ok(_) => true,
        Err(_) => false,
    };
    proof {
        if outcomes.len() > 0 {
            assert(outcomes[outcomes.len() - 1] is Some);
        }
        assert(plan.steps(old(ctx).chipdb) == steps);
        assert(rerouted_by(*old(ctx), net, source, sinks@, outcomes, ok, *ctx));
    }
    ok
}

/// The routing of some nets, and who holds what.
pub struct RoutingSnapshot {
    pub wire_bindings: IdMap<WireId, Binding>,
    pub pip_bindings: IdMap<PipId, Binding>,
    pub nets: Vec<NetId>,
    pub trees: Vec<IdMap<WireId, PipMap>>,
}

impl RoutingSnapshot {
    /// The snapshot shows the state.
    pub open spec fn shows(self, ctx: Context) -> bool {
        &&& self.wire_bindings@ == ctx.wire_bindings@
        &&& self.pip_bindings@ == ctx.pip_bindings@
        &&& self.trees@.len() == self.nets@.len()
        &&& forall|i: int|
            0 <= i < self.nets@.len() ==> ctx.design.valid_net(#[trigger] self.nets@[i])
                && self.trees@[i]@ == ctx.design.net_of(self.nets@[i]).wires@
    }
}

/// Keeps the routing of the nets of a list, and who holds what.
pub fn snapshot_nets(ctx: &Context, nets: &Vec<NetId>) -> (r: RoutingSnapshot)
    requires
        ctx.wf(),
        forall|i: int| 0 <= i < nets@.len() ==> ctx.design.valid_net(#[trigger] nets@[i]),
    ensures
        r.nets@ == nets@,
        r.shows(*ctx),
{
    let mut list: Vec<NetId> = Vec::new();
    let mut trees: Vec<IdMap<WireId, PipMap>> = Vec::new();
    for i in 0..nets.len()
        invariant
            forall|i: int| 0 <= i < nets@.len() ==> ctx.design.valid_net(#[trigger] nets@[i]),
            list@ == nets@.take(i as int),
            trees@.len() == i,
            forall|j: int| 0 <= j < i ==> (#[trigger] trees@[j])@ == ctx.design.net_of(nets@[j]).wires@,
    {
        assert(ctx.design.valid_net(nets@[i as int]));
        let copy = ctx.net(nets[i]).wires.duplicate();
        trees.push(copy);
        list.push(nets[i]);
        assert(nets@.take(i + 1) =~= nets@.take(i as int).push(nets@[i as int]));
    }
    assert(nets@.take(nets@.len() as int) =~= nets@);
    RoutingSnapshot {
        wire_bindings: ctx.wire_bindings.duplicate(),
        pip_bindings: ctx.pip_bindings.duplicate(),
        nets: list,
        trees,
    }
}

/// Two states with the same routing and the same holders.
pub open spec fn same_routing(a: Context, b: Context) -> bool {
    &&& b.same_base(a)
    &&& b.wire_bindings@ == a.wire_bindings@
    &&& b.pip_bindings@ == a.pip_bindings@
    &&& b.design.cells == a.design.cells
    &&& b.design.nets@.len() == a.design.nets@.len()
    &&& forall|i: int|
        0 <= i < a.design.nets@.len() ==> a.design.nets@[i].with_wires(
            a.design.nets@[i].wires@,
            #[trigger] b.design.nets@[i],
        )
}

/// Puts back what a snapshot shows of an earlier state. Where only nets of the snapshot have changed
/// since, the routing and the holders are those of that state again.
pub(crate) fn restore_nets(ctx: &mut Context, snap: RoutingSnapshot, Ghost(then): Ghost<Context>)
    requires
        then.wf(),
        snap.shows(then),
        old(ctx).wf(),
        old(ctx).same_base(then),
        then.design.rerouted_within(snap.nets@.to_set(), old(ctx).design),
    ensures
        final(ctx).wf(),
        same_routing(then, *final(ctx)),
        then.design.rerouted_within(snap.nets@.to_set(), final(ctx).design),
{
    let RoutingSnapshot { wire_bindings, pip_bindings, nets, trees } = snap;
    ctx.wire_bindings = wire_bindings;
    ctx.pip_bindings = pip_bindings;
    for i in 0..nets.len()
        invariant
            nets@ == snap.nets@,
            trees@ == snap.trees@,
            snap.shows(then),
            then.wf(),
            ctx.same_base(then),
            ctx.wire_bindings@ == then.wire_bindings@,
            ctx.pip_bindings@ == then.pip_bindings@,
            then.design.rerouted_within(nets@.to_set(), ctx.design),
            forall|j: int|
                0 <= j < i ==> ctx.design.net_of(#[trigger] nets@[j]).wires@ == then.design.net_of(
                    nets@[j],
                ).wires@,
    {
        let net: NetId = nets[i];
        let ghost mid = ctx.design;
        proof {
            assert(then.design.valid_net(snap.nets@[i as int]));
            assert(nets@.contains(nets@[i as int]));
        }
        let copy = trees[i].duplicate();
        ctx.design.set_wires(net, copy);
        proof {
            then.design.lemma_reroute_one(nets@.to_set(), mid, net, copy@, ctx.design);
            assert forall|j: int| 0 <= j < i + 1 implies ctx.design.net_of(#[trigger] nets@[j]).wires@
                == then.design.net_of(nets@[j]).wires@ by {
                assert(then.design.valid_net(snap.nets@[j]));
                if nets@[j] != net {
                    assert(ctx.design.nets@[nets@[j].0 as int] == mid.nets@[nets@[j].0 as int]);
                }
            }
        }
    }
    proof {
        assert forall|k: int| 0 <= k < then.design.nets@.len() implies then.design.nets@[k].with_wires(
            then.design.nets@[k].wires@,
            #[trigger] ctx.design.nets@[k],
        ) by {
            let n = NetId(k as u32);
            assert(then.design.nets@[k].with_wires(ctx.design.nets@[k].wires@, ctx.design.nets@[k]));
            if nets@.to_set().contains(n) {
                let j = choose|j: int| 0 <= j < nets@.len() && nets@[j] == n;
                assert(ctx.design.net_of(nets@[j]).wires@ == then.design.net_of(nets@[j]).wires@);
            } else {
                assert(ctx.design.nets@[k] == then.design.nets@[k]);
            }
        }
        lemma_same_routing_wf(then, *ctx);
    }
}

proof fn lemma_same_routing_wf(a: Context, b: Context)
    requires
        a.wf(),
        same_routing(a, b),
    ensures
        b.wf(),
{
    assert forall|i: int| 0 <= i < b.design.nets@.len() implies b.design.net_ok(
        #[trigger] b.design.nets@[i],
    ) && b.routing_ok(b.design.nets@[i].wires@) by {
        assert(a.design.net_ok(a.design.nets@[i]));
        assert(a.routing_ok(a.design.nets@[i].wires@));
        let n = b.design.nets@[i];
        assert forall|j: int| 0 <= j < n.users@.len() implies b.design.pin_ok(#[trigger] n.users@[j]) by {
            assert(a.design.pin_ok(a.design.nets@[i].users@[j]));
        }
    }
    assert forall|i: int| 0 <= i < b.design.cells@.len() implies b.design.cell_ok(
        #[trigger] b.design.cells@[i],
    ) by {
        assert(a.design.cell_ok(a.design.cells@[i]));
    }
    assert forall|i: int| 0 <= i < b.bels@.len() implies b.bel_ok(#[trigger] b.bels@[i]) by {
        assert(a.bel_ok(a.bels@[i]));
    }
}

} // verus!
