//! The negotiating router: nets that share a wire are planned again with costs that depend on who
//! uses the wire and on how contested it was before.
//!
//! The costs of wires are numbers that the caller works out between the rounds; what is decided from
//! them, and from the use of the wires, is decided here.

use crate::chipdb::{PipId, WireId};
use crate::context::Context;
use crate::ids::IdMap;
use crate::metrics::{compute_bbox, net_box, BoundingBox};
use crate::netlist::{Design, NetId};
use crate::parallel::map_in_parallel;
use crate::router::astar::{
    astar_search, default_pip_cost, result_ok, sources_ok, AStarOptions, AStarResult, AStarTrace,
};
use crate::router::common::{
    collect_sink_wires, distinct_nets, firsts, resolve_source_wire, sinks_upto, RoutePlan,
};
use crate::router::error::RouterError;
use crate::router::graph::{PathCostModel, WireSet};
use crate::router::maze::{bind_plan, plan_bound, route_options};
use crate::router::negotiation::{claimed, given_up, NegotiationCfg, NegotiationState};
use crate::router::plan::{plan_made, plan_routes};
use crate::router::region::measurable;
use crate::router::rounds::{
    all_sharing, before, bindable, lemma_before, lemma_sharing_is_touching, lemma_sharing_listed,
    lemma_users_stay, plans_bound, plans_taken, shares, take_apart, take_plans, taken_apart, within,
    Planned,
};
use crate::router::usage::{
    congested, counts_users, lemma_count_fewer, lemma_count_more, nets_touching, one_fewer, overused_set,
    users_of, uses, wires_of,
};
use crate::timing::delay::DelayT;
use vstd::prelude::*;

verus! {

/// How the negotiating router works.
#[derive(Clone, Copy, PartialEq, Eq, Hash, Debug, Structural)]
pub struct Router2Cfg {
    pub negotiation: NegotiationCfg,
    pub max_iterations: usize,
    /// How far around its pins a net may go.
    pub bb_margin: i32,
    pub verbose: bool,
}

impl Default for Router2Cfg {
    fn default() -> (r: Self)
        ensures
            r.negotiation.sticky_ripup_threshold == 1,
            r.max_iterations == 50,
            r.bb_margin == 3,
            !r.verbose,
    {
        Router2Cfg {
            negotiation: NegotiationCfg::default(),
            max_iterations: 50,
            bb_margin: 3,
            verbose: false,
        }
    }
}

/// What wires cost: `own` for the net that claimed the wire last, `shared` for others, and `base` for
/// wires in neither table.
pub struct WireCosts {
    pub own: IdMap<WireId, DelayT>,
    pub shared: IdMap<WireId, DelayT>,
    pub base: DelayT,
}

/// The entry of a table, or a value where there is none.
pub open spec fn entry_or(table: Map<WireId, DelayT>, w: WireId, base: DelayT) -> int {
    if table.contains_key(w) {
        table[w] as int
    } else {
        base as int
    }
}

impl WireCosts {
    /// No cost is negative.
    pub open spec fn wf(self) -> bool {
        &&& self.base >= 0
        &&& forall|w: WireId| #[trigger] self.own@.contains_key(w) ==> self.own@[w] >= 0
        &&& forall|w: WireId| #[trigger] self.shared@.contains_key(w) ==> self.shared@[w] >= 0
    }

    /// What a wire costs a net.
    pub open spec fn cost_of(self, owner: Map<WireId, NetId>, w: WireId, net: NetId) -> int {
        if owner.contains_key(w) && owner[w] == net {
            entry_or(self.own@, w, self.base)
        } else {
            entry_or(self.shared@, w, self.base)
        }
    }

    /// Costs where every wire costs the same.
    pub fn flat(base: DelayT) -> (r: Self)
        requires
            base >= 0,
        ensures
            r.wf(),
            r.base == base,
            r.own@ == Map::<WireId, DelayT>::empty(),
            r.shared@ == Map::<WireId, DelayT>::empty(),
    {
        WireCosts { own: IdMap::new(), shared: IdMap::new(), base }
    }

    /// What a wire costs a net.
    pub fn wire_cost(&self, owner: &IdMap<WireId, NetId>, w: WireId, net: NetId) -> (r: DelayT)
        ensures
            r == self.cost_of(owner@, w, net),
    {
        let is_own: bool = match owner.get(w) {
            Some(o) => *o == net,
            None => false,
        };
        let entry = if is_own {
            self.own.get(w)
        } else {
            self.shared.get(w)
        };
        match entry {
            Some(c) => *c,
            None => self.base,
        }
    }
}

/// The costs of the negotiating router for one net: the delay of pips, the cost of wires, and
/// estimates from the distance.
pub struct Router2CostModel<'a> {
    pub owner: &'a IdMap<WireId, NetId>,
    pub costs: &'a WireCosts,
    pub net: NetId,
    pub boxes: Vec<BoundingBox>,
}

impl<'a> PathCostModel for Router2CostModel<'a> {
    open spec fn ready(&self, ctx: Context) -> bool {
        self.costs.wf()
    }

    open spec fn pip_cost_of(&self, ctx: Context, pip: PipId) -> int {
        ctx.chipdb.pip(pip).delay.greatest() + 1
    }

    open spec fn penalty_of(&self, ctx: Context, wire: WireId) -> int {
        self.costs.cost_of(self.owner@, wire, self.net)
    }

    open spec fn heuristic_of(&self, ctx: Context, wire: WireId, dst: WireId) -> int {
        ctx.estimate(wire, dst)
    }

    open spec fn blocks(&self, ctx: Context, wire: WireId) -> bool {
        false
    }

    open spec fn boxes(&self) -> Seq<BoundingBox> {
        self.boxes@
    }

    fn pip_cost(&self, ctx: &Context, pip: PipId) -> (r: DelayT) {
        default_pip_cost(ctx, pip)
    }

    fn wire_penalty(&self, ctx: &Context, wire: WireId) -> (r: DelayT) {
        self.costs.wire_cost(self.owner, wire, self.net)
    }

    fn heuristic(&self, ctx: &Context, wire: WireId, dst: WireId) -> (r: DelayT) {
        ctx.estimate_delay(wire, dst)
    }

    fn is_blocked(&self, ctx: &Context, wire: WireId) -> (r: bool) {
        false
    }

    fn bboxes(&self) -> (r: &Vec<BoundingBox>) {
        &self.boxes
    }
}

/// The options that the negotiating router searches with.
pub open spec fn r2_options() -> AStarOptions {
    route_options(None, false)
}

/// The model of a net with given costs and one rectangle.
pub open spec fn r2_model(
    owner: Map<WireId, NetId>,
    costs: WireCosts,
    net: NetId,
    bbox: BoundingBox,
    m: Router2CostModel,
) -> bool {
    &&& m.owner@ == owner
    &&& *m.costs == costs
    &&& m.net == net
    &&& m.boxes@ == seq![bbox]
}

/// What the search for a route to one wire gives, with the costs of the negotiating router.
pub open spec fn r2_found<'a>(
    ctx: Context,
    src_wires: Map<WireId, ()>,
    dst_wire: WireId,
    owner: Map<WireId, NetId>,
    costs: WireCosts,
    net: NetId,
    bbox: BoundingBox,
    result: AStarResult,
) -> bool {
    exists|m: Router2CostModel<'a>|
        r2_model(owner, costs, net, bbox, m) && #[trigger] result_ok(
            ctx,
            &m,
            src_wires,
            dst_wire,
            r2_options(),
            result,
        )
}

/// Searches a route to a wire.
pub fn astar_route_r2(
    ctx: &Context,
    src_wires: &WireSet,
    dst_wire: WireId,
    net: NetId,
    state: &NegotiationState,
    costs: &WireCosts,
    bbox: BoundingBox,
) -> (r: Option<Vec<PipId>>)
    requires
        ctx.wf(),
        costs.wf(),
        sources_ok(*ctx, src_wires@),
        ctx.chipdb.valid_wire(dst_wire),
        measurable(bbox),
    ensures
        exists|trace: AStarTrace| #[trigger]
            r2_found(
                *ctx,
                src_wires@,
                dst_wire,
                state.wire_owner@,
                *costs,
                net,
                bbox,
                AStarResult { path: r, trace },
            ),
{
    let mut boxes: Vec<BoundingBox> = Vec::new();
    boxes.push(bbox);
    assert(boxes@ =~= seq![bbox]);
    let model = Router2CostModel { owner: &state.wire_owner, costs, net, boxes };
    let opts = AStarOptions {
        visit_limit: None,
        exhaustive: false,
        retain_trace: false,
        stop_on_first_touch: false,
    };
    let result = astar_search(ctx, &model, src_wires, dst_wire, &opts);
    let path = result.path;
    let ghost trace = result.trace;
    assert(r2_found(
        *ctx,
        src_wires@,
        dst_wire,
        state.wire_owner@,
        *costs,
        net,
        bbox,
        AStarResult { path, trace },
    ));
    path
}

/// What planning a net gives with the costs of the negotiating router, sinks in the order of the net.
pub open spec fn r2_made<'a>(
    ctx: Context,
    net: NetId,
    owner: Map<WireId, NetId>,
    costs: WireCosts,
    margin: i32,
    r: Planned,
) -> bool {
    let n = ctx.design.net_of(net);
    exists|m: Router2CostModel<'a>|
        r2_model(owner, costs, net, net_box(ctx, net, margin as int), m) && #[trigger] plan_made(
            ctx,
            &m,
            net,
            sinks_upto(ctx, n.users@, n.users@.len() as int),
            r2_options(),
            r,
        )
}

/// Plans the route of a net.
pub fn compute_route_r2(
    ctx: &Context,
    net: NetId,
    state: &NegotiationState,
    costs: &WireCosts,
    bb_margin: i32,
) -> (r: Planned)
    requires
        ctx.wf(),
        costs.wf(),
        ctx.design.valid_net(net),
    ensures
        r2_made(*ctx, net, state.wire_owner@, *costs, bb_margin, r),
{
    let bbox = compute_bbox(ctx, net, bb_margin);
    let mut boxes: Vec<BoundingBox> = Vec::new();
    boxes.push(bbox);
    assert(boxes@ =~= seq![bbox]);
    let model = Router2CostModel { owner: &state.wire_owner, costs, net, boxes };
    let opts = AStarOptions {
        visit_limit: None,
        exhaustive: false,
        retain_trace: false,
        stop_on_first_touch: false,
    };
    let sinks = collect_sink_wires(ctx, net);
    match resolve_source_wire(ctx, net) {
        Err(e) => {
            let r: Planned = Err(e);
            assert(plan_made(*ctx, &model, net, sinks@, opts, r));
            r
        },
        Ok(None) => {
            let plan = RoutePlan { net, source_wire: WireId::invalid(), sink_routes: Vec::new() };
            let r: Planned = Ok(plan);
            assert(plan_made(*ctx, &model, net, sinks@, opts, r));
            r
        },
        Ok(Some(source)) => plan_routes(ctx, &model, net, source, &sinks, &opts),
    }
}

/// A plan that was made can be bound, and no plan fails for congestion.
proof fn lemma_r2_plan(
    ctx: Context,
    net: NetId,
    owner: Map<WireId, NetId>,
    costs: WireCosts,
    margin: i32,
    r: Planned,
)
    requires
        ctx.wf(),
        ctx.design.valid_net(net),
        r2_made(ctx, net, owner, costs, margin, r),
    ensures
        r is Ok ==> r->Ok_0.net == net && r->Ok_0.pips_ok(ctx.chipdb) && (r->Ok_0.source_wire
            == WireId::nowhere() || ctx.chipdb.valid_wire(r->Ok_0.source_wire)),
        r is Err ==> !(r->Err_0 is Congestion),
{
    let n = ctx.design.net_of(net);
    assert(ctx.design.net_ok(ctx.design.nets@[net.0 as int]));
    if n.driver.connected() {
        ctx.lemma_wire_of_pin(n.driver);
    }
}

/// Routes one net: plans it and binds the plan.
pub fn route_net_r2(
    ctx: &mut Context,
    net: NetId,
    state: &NegotiationState,
    costs: &WireCosts,
    bb_margin: i32,
) -> (r: Result<(), RouterError>)
    requires
        old(ctx).wf(),
        costs.wf(),
        old(ctx).design.valid_net(net),
    ensures
        final(ctx).wf(),
        final(ctx).same_base(*old(ctx)),
        match r {
            Ok(_) => exists|plan: RoutePlan| #[trigger]
                r2_made(*old(ctx), net, state.wire_owner@, *costs, bb_margin, Ok(plan)) && plan_bound(
                    *old(ctx),
                    plan,
                    *final(ctx),
                ),
            Err(e) => r2_made(*old(ctx), net, state.wire_owner@, *costs, bb_margin, Err(e)) && *final(ctx)
                == *old(ctx),
        },
{
    match compute_route_r2(ctx, net, state, costs, bb_margin) {
        Ok(plan) => {
            proof {
                lemma_r2_plan(*ctx, net, state.wire_owner@, *costs, bb_margin, Ok(plan));
            }
            bind_plan(ctx, &plan);
            Ok(())
        },
        Err(e) => Err(e),
    }
}

/// Each net of a list is planned for the same state.
pub open spec fn r2_planned(
    ctx: Context,
    nets: Seq<NetId>,
    owner: Map<WireId, NetId>,
    costs: WireCosts,
    margin: i32,
    plans: Seq<Planned>,
) -> bool {
    &&& plans.len() == nets.len()
    &&& forall|i: int| 0 <= i < nets.len() ==> r2_made(ctx, nets[i], owner, costs, margin, #[trigger] plans[i])
}

/// The nets of a list are planned and their plans bound.
pub open spec fn r2_bound(
    old_ctx: Context,
    nets: Seq<NetId>,
    owner: Map<WireId, NetId>,
    costs: WireCosts,
    margin: i32,
    r: Result<(), RouterError>,
    new: Context,
) -> bool {
    exists|plans: Seq<Planned>| #[trigger]
        r2_planned(old_ctx, nets, owner, costs, margin, plans) && plans_taken(old_ctx, plans, r, new)
}

spec fn can_plan(ctx: &Context, net: NetId, costs: &WireCosts) -> bool {
    ctx.wf() && costs.wf() && ctx.design.valid_net(net)
}

spec fn has_planned(
    ctx: &Context,
    net: NetId,
    state: &NegotiationState,
    costs: &WireCosts,
    margin: i32,
    r: Planned,
) -> bool {
    r2_made(*ctx, net, state.wire_owner@, *costs, margin, r)
}

/// Plans the nets of a list, all of them for the state as it is.
fn plan_all_r2(
    ctx: &Context,
    nets: &Vec<NetId>,
    state: &NegotiationState,
    costs: &WireCosts,
    bb_margin: i32,
) -> (plans: Vec<Planned>)
    requires
        ctx.wf(),
        costs.wf(),
        forall|i: int| 0 <= i < nets@.len() ==> ctx.design.valid_net(#[trigger] nets@[i]),
    ensures
        r2_planned(*ctx, nets@, state.wire_owner@, *costs, bb_margin, plans@),
{
    let plan_one = |net: NetId| -> (r: Planned)
        requires
            can_plan(ctx, net, costs),
        ensures
            has_planned(ctx, net, state, costs, bb_margin, r),
        {
            compute_route_r2(ctx, net, state, costs, bb_margin)
        };
    map_in_parallel(nets, plan_one)
}

/// The owners after the first `n` nets of a list claimed their wires.
pub open spec fn claimed_upto(
    owner: Map<WireId, NetId>,
    design: Design,
    nets: Seq<NetId>,
    n: int,
) -> Map<WireId, NetId>
    decreases n,
{
    if n <= 0 {
        owner
    } else {
        claimed(
            claimed_upto(owner, design, nets, n - 1),
            wires_of(design, nets[n - 1]),
            nets[n - 1],
        )
    }
}

/// The counts after the first `n` nets of a list were taken out.
pub open spec fn fewer_upto(usage: Map<WireId, u32>, design: Design, nets: Seq<NetId>, n: int) -> Map<
    WireId,
    u32,
>
    decreases n,
{
    if n <= 0 {
        usage
    } else {
        one_fewer(fewer_upto(usage, design, nets, n - 1), wires_of(design, nets[n - 1]))
    }
}

/// The owners after the first `n` nets of a list gave up their wires.
pub open spec fn given_up_upto(
    owner: Map<WireId, NetId>,
    usage: Map<WireId, u32>,
    design: Design,
    nets: Seq<NetId>,
    n: int,
) -> Map<WireId, NetId>
    decreases n,
{
    if n <= 0 {
        owner
    } else {
        given_up(
            given_up_upto(owner, usage, design, nets, n - 1),
            fewer_upto(usage, design, nets, n - 1),
            wires_of(design, nets[n - 1]),
        )
    }
}

/// What is to be done next in a negotiation.
#[derive(Clone, Copy, PartialEq, Eq, Debug, Structural)]
pub enum NegotiationAction {
    /// No wire is shared.
    Converged,
    /// The pending nets are to be routed again, with new costs.
    Reroute,
    /// The rounds are used up, and so many wires are still shared.
    GaveUp(usize),
}

/// A negotiation among nets: those that are routed, and those that are pending.
pub struct Negotiation {
    pub nets: Vec<NetId>,
    pub pending: Vec<NetId>,
    pub iteration: usize,
    pub state: NegotiationState,
}

impl Negotiation {
    /// The nets that are not pending.
    pub open spec fn routed(self) -> Set<NetId> {
        self.nets@.to_set().difference(self.pending@.to_set())
    }

    /// Nets are listed once, the pending ones among them, and the wires of the others are counted.
    pub open spec fn wf(self, ctx: Context) -> bool {
        &&& self.nets@.no_duplicates()
        &&& self.pending@.no_duplicates()
        &&& self.pending@.to_set().subset_of(self.nets@.to_set())
        &&& forall|i: int| 0 <= i < self.nets@.len() ==> ctx.design.valid_net(#[trigger] self.nets@[i])
        &&& counts_users(self.state.wire_usage@, ctx.design, self.routed())
    }

    /// Starts with all nets pending; a net that is listed again counts once.
    pub fn new(ctx: &Context, nets: &Vec<NetId>, cfg: NegotiationCfg) -> (r: Self)
        requires
            forall|i: int| 0 <= i < nets@.len() ==> ctx.design.valid_net(#[trigger] nets@[i]),
        ensures
            r.wf(*ctx),
            r.nets@ == firsts(nets@),
            r.pending@ == firsts(nets@),
            r.iteration == 0,
            r.state.cfg == cfg,
            r.state.wire_owner@ == Map::<WireId, NetId>::empty(),
    {
        let a = distinct_nets(nets);
        let b = distinct_nets(nets);
        proof {
            assert forall|i: int| 0 <= i < a@.len() implies ctx.design.valid_net(#[trigger] a@[i]) by {
                assert(a@.to_set().contains(a@[i]));
                assert(nets@.contains(a@[i]));
            }
        }
        let r = Negotiation { nets: a, pending: b, iteration: 0, state: NegotiationState::new(cfg) };
        proof {
            let none = Set::<NetId>::empty();
            assert(r.routed() =~= none);
            assert forall|w: WireId| (#[trigger] users_of(ctx.design, none, w)).len() == 0 by {
                assert(users_of(ctx.design, none, w) =~= none);
            }
        }
        r
    }

    /// The pending nets are nets of the design that are not counted.
    proof fn lemma_pending(self, ctx: Context)
        requires
            self.wf(ctx),
        ensures
            forall|i: int|
                0 <= i < self.pending@.len() ==> ctx.design.valid_net(#[trigger] self.pending@[i])
                    && !self.routed().contains(self.pending@[i]),
            self.pending@.to_set().disjoint(self.routed()),
            self.routed().union(self.pending@.to_set()) == self.nets@.to_set(),
    {
        assert forall|i: int| 0 <= i < self.pending@.len() implies ctx.design.valid_net(
            #[trigger] self.pending@[i],
        ) && !self.routed().contains(self.pending@[i]) by {
            assert(self.pending@.to_set().contains(self.pending@[i]));
            assert(self.nets@.to_set().contains(self.pending@[i]));
            let j = choose|j: int| 0 <= j < self.nets@.len() && self.nets@[j] == self.pending@[i];
            assert(ctx.design.valid_net(self.nets@[j]));
        }
        assert(self.routed().union(self.pending@.to_set()) =~= self.nets@.to_set());
    }

    /// Plans and binds the pending nets; then none is pending.
    #[verifier::rlimit(40)]
    pub fn route_pending(&mut self, ctx: &mut Context, costs: &WireCosts, bb_margin: i32) -> (r: Result<
        (),
        RouterError,
    >)
        requires
            old(ctx).wf(),
            costs.wf(),
            old(self).wf(*old(ctx)),
        ensures
            final(ctx).wf(),
            within(*old(ctx), old(self).pending@.to_set(), *final(ctx)),
            r2_bound(
                *old(ctx),
                old(self).pending@,
                old(self).state.wire_owner@,
                *costs,
                bb_margin,
                r,
                *final(ctx),
            ),
            final(self).nets == old(self).nets,
            final(self).iteration == old(self).iteration,
            final(self).state.same_nets(old(self).state),
            r is Ok ==> final(self).pending@.len() == 0 && final(self).wf(*final(ctx)),
            r is Ok ==> final(self).state.wire_owner@ == claimed_upto(
                old(self).state.wire_owner@,
                final(ctx).design,
                old(self).pending@,
                old(self).pending@.len() as int,
            ),
            r is Err ==> *final(self) == *old(self) && !(r->Err_0 is Congestion),
    {
        let ghost start = *ctx;
        let ghost kept = self.routed();
        let ghost owner = self.state.wire_owner@;
        let ghost listed = self.pending@;
        proof {
            self.lemma_pending(*ctx);
        }
        let plans = plan_all_r2(ctx, &self.pending, &self.state, costs, bb_margin);
        let ghost all = plans@;
        proof {
            assert forall|i: int| 0 <= i < plans@.len() implies (#[trigger] plans@[i] is Ok
                ==> plans@[i]->Ok_0.net == listed[i] && plans@[i]->Ok_0.pips_ok(ctx.chipdb) && (
            plans@[i]->Ok_0.source_wire == WireId::nowhere() || ctx.chipdb.valid_wire(
                plans@[i]->Ok_0.source_wire,
            ))) && (plans@[i] is Err ==> !(plans@[i]->Err_0 is Congestion)) by {
                assert(ctx.design.valid_net(listed[i]));
                lemma_r2_plan(*ctx, listed[i], owner, *costs, bb_margin, plans@[i]);
            }
            assert(bindable(*ctx, listed, plans@));
        }
        match take_plans(ctx, &self.pending, plans) {
            Ok(_) => {},
            Err(e) => {
                proof {
                    let k = choose|k: int|
                        0 <= k < all.len() && #[trigger] all[k] == Err::<RoutePlan, RouterError>(e)
                            && plans_bound(start, all, k, *ctx);
                    assert(all[k] is Err);
                }
                return Err(e);
            },
        }
        proof {
            lemma_users_stay(start.design, listed.to_set(), ctx.design, kept, self.state.wire_usage@);
            assert(kept.union(before(listed, 0)) =~= kept);
        }
        let count: usize = self.pending.len();
        for k in 0..count
            invariant
                ctx.wf(),
                count == listed.len(),
                self.pending@ == listed,
                self.nets == old(self).nets,
                self.iteration == old(self).iteration,
                self.state.same_nets(old(self).state),
                listed.no_duplicates(),
                start.design.nets@.len() == ctx.design.nets@.len(),
                forall|i: int|
                    0 <= i < listed.len() ==> start.design.valid_net(#[trigger] listed[i]) && !kept.contains(
                        listed[i],
                    ),
                counts_users(self.state.wire_usage@, ctx.design, kept.union(before(listed, k as int))),
                self.state.wire_owner@ == claimed_upto(owner, ctx.design, listed, k as int),
        {
            let net: NetId = self.pending[k];
            proof {
                let so_far = kept.union(before(listed, k as int));
                assert(start.design.valid_net(listed[k as int]));
                lemma_before(listed, k as int);
                lemma_count_more(self.state.wire_usage@, ctx.design, so_far, net);
                assert(so_far.insert(net) =~= kept.union(before(listed, k + 1)));
            }
            self.state.add_net_usage(&ctx.design, net);
        }
        self.pending = Vec::new();
        proof {
            assert(listed.take(listed.len() as int) =~= listed);
            assert(self.routed() =~= kept.union(listed.to_set()));
            assert forall|i: int| 0 <= i < self.nets@.len() implies ctx.design.valid_net(
                #[trigger] self.nets@[i],
            ) by {
                assert(start.design.valid_net(old(self).nets@[i]));
            }
        }
        Ok(())
    }

    /// Decides how to go on when no net is pending: the nets that share wires are taken apart and
    /// become pending, unless there are none or the rounds are used up.
    #[verifier::rlimit(40)]
    pub fn next(&mut self, ctx: &mut Context, max_iterations: usize) -> (r: NegotiationAction)
        requires
            old(ctx).wf(),
            old(self).wf(*old(ctx)),
            old(self).pending@.len() == 0,
        ensures
            final(ctx).wf(),
            final(self).wf(*final(ctx)),
            final(self).nets == old(self).nets,
            final(self).state.same_nets(old(self).state),
            ({
                let list = all_sharing(old(ctx).design, old(self).nets@);
                let shared = overused_set(old(self).state.wire_usage@);
                if old(self).iteration < max_iterations {
                    if list.len() == 0 {
                        &&& r == NegotiationAction::Converged
                        &&& *final(ctx) == *old(ctx)
                        &&& *final(self) == *old(self)
                    } else {
                        &&& r == NegotiationAction::Reroute
                        &&& final(self).pending@ == list
                        &&& final(self).iteration == old(self).iteration + 1
                        &&& final(self).state.wire_owner@ == given_up_upto(
                            old(self).state.wire_owner@,
                            old(self).state.wire_usage@,
                            old(ctx).design,
                            list,
                            list.len() as int,
                        )
                        &&& taken_apart(*old(ctx), list, list.len() as int, *final(ctx))
                        &&& within(*old(ctx), list.to_set(), *final(ctx))
                    }
                } else {
                    &&& shared.finite()
                    &&& r == (if shared.len() == 0 {
                        NegotiationAction::Converged
                    } else {
                        NegotiationAction::GaveUp(shared.len() as usize)
                    })
                    &&& *final(ctx) == *old(ctx)
                    &&& *final(self) == *old(self)
                }
            }),
    {
        proof {
            assert(self.routed() =~= self.nets@.to_set());
        }
        if self.iteration >= max_iterations {
            let n: usize = self.state.count_congested_wires();
            return if n == 0 {
                NegotiationAction::Converged
            } else {
                NegotiationAction::GaveUp(n)
            };
        }
        let list = nets_touching(&ctx.design, &self.state.wire_usage, &self.nets);
        proof {
            lemma_sharing_is_touching(
                ctx.design,
                self.state.wire_usage@,
                self.nets@,
                self.nets@.len() as int,
            );
            lemma_sharing_listed(ctx.design, self.nets@);
        }
        if list.len() == 0 {
            return NegotiationAction::Converged;
        }
        let ghost start = *ctx;
        let ghost all = self.nets@.to_set();
        let ghost usage = self.state.wire_usage@;
        let ghost owner = self.state.wire_owner@;
        proof {
            assert(all.difference(before(list@, 0)) =~= all);
            assert(list@.to_set().subset_of(all)) by {
                assert forall|x: NetId| #[trigger] list@.to_set().contains(x) implies all.contains(x) by {
                    let i = choose|i: int| 0 <= i < list@.len() && list@[i] == x;
                    assert(self.nets@.contains(all_sharing(ctx.design, self.nets@)[i]));
                }
            }
        }
        for k in 0..list.len()
            invariant
                ctx.wf(),
                *ctx == start,
                self.nets == old(self).nets,
                self.iteration == old(self).iteration,
                self.state.same_nets(old(self).state),
                list@.no_duplicates(),
                list@.to_set().subset_of(all),
                forall|i: int| 0 <= i < list@.len() ==> ctx.design.valid_net(#[trigger] list@[i]),
                counts_users(
                    self.state.wire_usage@,
                    ctx.design,
                    all.difference(before(list@, k as int)),
                ),
                self.state.wire_usage@ == fewer_upto(usage, start.design, list@, k as int),
                self.state.wire_owner@ == given_up_upto(owner, usage, start.design, list@, k as int),
        {
            let net: NetId = list[k];
            proof {
                let left = all.difference(before(list@, k as int));
                assert(ctx.design.valid_net(list@[k as int]));
                assert(list@.to_set().contains(list@[k as int]));
                lemma_before(list@, k as int);
                lemma_count_fewer(self.state.wire_usage@, ctx.design, left, net);
                assert(left.remove(net) =~= all.difference(before(list@, k + 1)));
            }
            self.state.remove_net_usage(&ctx.design, net);
        }
        let ghost kept = all.difference(list@.to_set());
        proof {
            assert(list@.take(list@.len() as int) =~= list@);
        }
        take_apart(ctx, &list);
        proof {
            lemma_users_stay(start.design, list@.to_set(), ctx.design, kept, self.state.wire_usage@);
            assert forall|i: int| 0 <= i < self.nets@.len() implies ctx.design.valid_net(
                #[trigger] self.nets@[i],
            ) by {
                assert(start.design.valid_net(old(self).nets@[i]));
            }
        }
        self.pending = list;
        self.iteration = self.iteration + 1;
        NegotiationAction::Reroute
    }
}

/// The router that negotiates.
pub struct Router2;

impl Router2 {
    /// What the end of a negotiation means: nothing is left to do, or the nets still share wires.
    pub fn outcome(action: NegotiationAction, cfg: &Router2Cfg) -> (r: Option<Result<(), RouterError>>)
        ensures
            match action {
                NegotiationAction::Converged => r == Some(Ok::<(), RouterError>(())),
                NegotiationAction::Reroute => r is None,
                NegotiationAction::GaveUp(n) => r == Some(
                    Err::<(), RouterError>(RouterError::Congestion(cfg.max_iterations, n)),
                ),
            },
    {
        match action {
            NegotiationAction::Converged => Some(Ok(())),
            NegotiationAction::Reroute => None,
            NegotiationAction::GaveUp(n) => Some(Err(RouterError::Congestion(cfg.max_iterations, n))),
        }
    }
}

/// Where the counts of the nets of a list show no shared wire, no net of the list shares a wire: a
/// negotiation that converged has the nets routed apart.
pub proof fn converged_nets_share_nothing(
    ctx: Context,
    run: Negotiation,
)
    requires
        run.wf(ctx),
        run.pending@.len() == 0,
        overused_set(run.state.wire_usage@).finite(),
        overused_set(run.state.wire_usage@).len() == 0,
    ensures
        all_sharing(ctx.design, run.nets@).len() == 0,
{
    let nets = run.nets@;
    assert(run.routed() =~= nets.to_set());
    let list = all_sharing(ctx.design, nets);
    if list.len() > 0 {
        lemma_sharing_listed(ctx.design, nets);
        assert(shares(ctx.design, nets, list[0]));
        let w = choose|w: WireId| #[trigger]
            uses(ctx.design, list[0], w) && congested(ctx.design, nets.to_set(), w);
        assert(run.state.wire_usage@.contains_key(w));
        assert(overused_set(run.state.wire_usage@).contains(w));
    }
}

} // verus!
