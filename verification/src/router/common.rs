//! What the routers share: route plans and their application, taking nets apart, and the wires
//! and nets that a router asks for.

use crate::chipdb::{ChipDb, PipId, WireId};
use crate::context::{Binding, Context};
use crate::ids::IdMap;
use crate::netlist::{CellPin, Design, NetId, PipMap};
use crate::router::error::RouterError;
use crate::text::{contains_text, has_text, join3, same_text};
use crate::types::enums::PlaceStrength;
use vstd::prelude::*;

verus! {

/// The pips that lead to a sink.
pub struct SinkRoute {
    pub sink_wire: WireId,
    pub pips: Vec<PipId>,
}

/// How a net is to be routed.
pub struct RoutePlan {
    pub net: NetId,
    pub source_wire: WireId,
    pub sink_routes: Vec<SinkRoute>,
}

/// A wire that a plan takes, and the pip that drives it there.
pub struct PlanStep {
    pub wire: WireId,
    pub pip: Option<PipId>,
}

/// The steps of a list of pips.
pub open spec fn pip_steps(chip: ChipDb, pips: Seq<PipId>) -> Seq<PlanStep> {
    Seq::new(pips.len(), |i: int| PlanStep { wire: chip.dst(pips[i]), pip: Some(pips[i]) })
}

/// The steps of the first `n` sink routes.
pub open spec fn route_steps(chip: ChipDb, routes: Seq<SinkRoute>, n: int) -> Seq<PlanStep>
    decreases n,
{
    if n <= 0 {
        Seq::empty()
    } else {
        route_steps(chip, routes, n - 1) + pip_steps(chip, routes[n - 1].pips@)
    }
}

impl RoutePlan {
    /// The source wire, then the wires along the sink routes.
    pub open spec fn steps(self, chip: ChipDb) -> Seq<PlanStep> {
        seq![PlanStep { wire: self.source_wire, pip: None }] + route_steps(
            chip,
            self.sink_routes@,
            self.sink_routes@.len() as int,
        )
    }

    /// The pips of the plan are pips of the device.
    pub open spec fn pips_ok(self, chip: ChipDb) -> bool {
        forall|i: int, j: int|
            0 <= i < self.sink_routes@.len() && 0 <= j < self.sink_routes@[i].pips@.len()
                ==> chip.valid_pip(#[trigger] self.sink_routes@[i].pips@[j])
    }
}

/// Every step is a wire of the device, driven by a pip of the device.
pub open spec fn steps_ok(chip: ChipDb, steps: Seq<PlanStep>) -> bool {
    forall|i: int|
        0 <= i < steps.len() ==> chip.valid_wire((#[trigger] steps[i]).wire) && (steps[i].pip is Some
            ==> chip.valid_pip(steps[i].pip->0))
}

/// The steps of a plan.
pub fn plan_steps(chipdb: &ChipDb, plan: &RoutePlan) -> (r: Vec<PlanStep>)
    requires
        chipdb.wf(),
        chipdb.valid_wire(plan.source_wire),
        plan.pips_ok(*chipdb),
    ensures
        r@ == plan.steps(*chipdb),
        steps_ok(*chipdb, r@),
{
    let mut out: Vec<PlanStep> = Vec::new();
    out.push(PlanStep { wire: plan.source_wire, pip: None });
    let ghost head = seq![PlanStep { wire: plan.source_wire, pip: None }];
    assert(out@ =~= head + route_steps(*chipdb, plan.sink_routes@, 0));
    for i in 0..plan.sink_routes.len()
        invariant
            chipdb.wf(),
            plan.pips_ok(*chipdb),
            out@ == head + route_steps(*chipdb, plan.sink_routes@, i as int),
            steps_ok(*chipdb, out@),
    {
        let pips = &plan.sink_routes[i].pips;
        let ghost start = out@;
        let ghost part = pip_steps(*chipdb, pips@);
        for j in 0..pips.len()
            invariant
                chipdb.wf(),
                plan.pips_ok(*chipdb),
                i < plan.sink_routes@.len(),
                pips == plan.sink_routes@[i as int].pips,
                part == pip_steps(*chipdb, pips@),
                out@ == start + part.take(j as int),
                steps_ok(*chipdb, out@),
        {
            let pip: PipId = pips[j];
            assert(chipdb.valid_pip(plan.sink_routes@[i as int].pips@[j as int]));
            out.push(PlanStep { wire: chipdb.pip_dst_wire(pip), pip: Some(pip) });
            assert(part.take(j + 1) =~= part.take(j as int).push(part[j as int]));
        }
        assert(part.take(pips@.len() as int) =~= part);
        assert(out@ =~= head + route_steps(*chipdb, plan.sink_routes@, i + 1));
    }
    out
}

/// The first wire, in the order of the steps, that another net holds.
pub open spec fn plan_conflict(ctx: Context, net: NetId, steps: Seq<PlanStep>) -> Option<WireId>
    decreases steps.len(),
{
    if steps.len() == 0 {
        None
    } else if ctx.first_taken(net, ctx.conductor_of(steps[0].wire)) is Some {
        ctx.first_taken(net, ctx.conductor_of(steps[0].wire))
    } else {
        plan_conflict(ctx, net, steps.skip(1))
    }
}

/// How a router holds what it binds.
pub open spec fn held(net: NetId) -> Binding {
    Binding { net, strength: PlaceStrength::Strong }
}

/// The wire bindings after the first `n` steps.
pub open spec fn wires_after(
    ctx: Context,
    bindings: Map<WireId, Binding>,
    net: NetId,
    steps: Seq<PlanStep>,
    n: int,
) -> Map<WireId, Binding>
    decreases n,
{
    if n <= 0 {
        bindings
    } else {
        ctx.node_bound(wires_after(ctx, bindings, net, steps, n - 1), steps[n - 1].wire, held(net))
    }
}

/// The pip bindings after the first `n` steps.
pub open spec fn pips_after(
    bindings: Map<PipId, Binding>,
    net: NetId,
    steps: Seq<PlanStep>,
    n: int,
) -> Map<PipId, Binding>
    decreases n,
{
    if n <= 0 {
        bindings
    } else {
        let before = pips_after(bindings, net, steps, n - 1);
        match steps[n - 1].pip {
            Some(p) => before.insert(p, held(net)),
            None => before,
        }
    }
}

/// The wires of the net after the first `n` steps.
pub open spec fn tree_after(tree: Map<WireId, PipMap>, steps: Seq<PlanStep>, n: int) -> Map<WireId, PipMap>
    decreases n,
{
    if n <= 0 {
        tree
    } else {
        tree_after(tree, steps, n - 1).insert(
            steps[n - 1].wire,
            PipMap { pip: steps[n - 1].pip, strength: PlaceStrength::Strong },
        )
    }
}

/// `new` is `old` with the first `n` steps of a route of `net` bound.
pub open spec fn steps_bound(old_ctx: Context, net: NetId, steps: Seq<PlanStep>, n: int, new: Context) -> bool {
    &&& new.same_base(old_ctx)
    &&& new.wire_bindings@ == wires_after(old_ctx, old_ctx.wire_bindings@, net, steps, n)
    &&& new.pip_bindings@ == pips_after(old_ctx.pip_bindings@, net, steps, n)
    &&& old_ctx.design.rerouted(
        net,
        tree_after(old_ctx.design.net_of(net).wires@, steps, n),
        new.design,
    )
}

/// Binding steps keeps the state well-formed.
pub proof fn lemma_steps_bound_wf(
    old_ctx: Context,
    net: NetId,
    steps: Seq<PlanStep>,
    n: int,
    new: Context,
)
    requires
        old_ctx.wf(),
        old_ctx.design.valid_net(net),
        steps_ok(old_ctx.chipdb, steps),
        0 <= n <= steps.len(),
        steps_bound(old_ctx, net, steps, n, new),
    ensures
        new.wf(),
{
    lemma_after_ok(old_ctx, net, steps, n);
    let tree = tree_after(old_ctx.design.net_of(net).wires@, steps, n);
    old_ctx.lemma_rerouted_wf(net, tree, new);
}

proof fn lemma_after_ok(ctx: Context, net: NetId, steps: Seq<PlanStep>, n: int)
    requires
        ctx.wf(),
        ctx.design.valid_net(net),
        steps_ok(ctx.chipdb, steps),
        0 <= n <= steps.len(),
    ensures
        ctx.routing_ok(tree_after(ctx.design.net_of(net).wires@, steps, n)),
        forall|w: WireId| #[trigger]
            wires_after(ctx, ctx.wire_bindings@, net, steps, n).contains_key(w) ==> ctx.design.valid_net(
                wires_after(ctx, ctx.wire_bindings@, net, steps, n)[w].net,
            ),
        forall|p: PipId| #[trigger]
            pips_after(ctx.pip_bindings@, net, steps, n).contains_key(p) ==> ctx.design.valid_net(
                pips_after(ctx.pip_bindings@, net, steps, n)[p].net,
            ),
    decreases n,
{
    if n > 0 {
        lemma_after_ok(ctx, net, steps, n - 1);
        ctx.lemma_node_bound(
            wires_after(ctx, ctx.wire_bindings@, net, steps, n - 1),
            steps[n - 1].wire,
            held(net),
        );
    } else {
        assert(ctx.routing_ok(ctx.design.nets@[net.0 as int].wires@));
    }
}

/// Binds the steps of a route.
fn bind_steps(ctx: &mut Context, net: NetId, steps: &Vec<PlanStep>)
    requires
        old(ctx).wf(),
        old(ctx).design.valid_net(net),
        steps_ok(old(ctx).chipdb, steps@),
    ensures
        final(ctx).wf(),
        steps_bound(*old(ctx), net, steps@, steps@.len() as int, *final(ctx)),
{
    for i in 0..steps.len()
        invariant
            old(ctx).wf(),
            old(ctx).design.valid_net(net),
            steps_ok(old(ctx).chipdb, steps@),
            steps_bound(*old(ctx), net, steps@, i as int, *ctx),
            ctx.wf(),
    {
        let w: WireId = steps[i].wire;
        ctx.bind_wire_node(w, net, PlaceStrength::Strong);
        if let Some(p) = steps[i].pip {
            ctx.bind_pip(p, net, PlaceStrength::Strong);
        }
        ctx.design.add_wire(net, w, steps[i].pip, PlaceStrength::Strong);
        proof {
            lemma_steps_bound_wf(*old(ctx), net, steps@, i + 1, *ctx);
        }
    }
}

/// Binds the wires and pips of a plan, all or none of them.
///
/// If another net holds a wire that the plan needs, that wire is returned (the first one, in the
/// order of the plan) and the state is as it was.
pub fn apply_route_plan(ctx: &mut Context, plan: &RoutePlan) -> (r: Result<(), WireId>)
    requires
        old(ctx).wf(),
        old(ctx).design.valid_net(plan.net),
        old(ctx).chipdb.valid_wire(plan.source_wire),
        plan.pips_ok(old(ctx).chipdb),
    ensures
        final(ctx).wf(),
        match r {
            Ok(_) => {
                let steps = plan.steps(old(ctx).chipdb);
                &&& plan_conflict(*old(ctx), plan.net, steps) is None
                &&& steps_bound(*old(ctx), plan.net, steps, steps.len() as int, *final(ctx))
            },
            Err(w) => {
                &&& plan_conflict(*old(ctx), plan.net, plan.steps(old(ctx).chipdb)) == Some(w)
                &&& *final(ctx) == *old(ctx)
            },
        },
{
    let steps = plan_steps(&ctx.chipdb, plan);
    let mut i: usize = 0;
    assert(steps@.skip(0) =~= steps@);
    while i < steps.len()
        invariant
            i <= steps@.len(),
            ctx.wf(),
            *ctx == *old(ctx),
            steps@ == plan.steps(ctx.chipdb),
            plan_conflict(*ctx, plan.net, steps@) == plan_conflict(
                *ctx,
                plan.net,
                steps@.skip(i as int),
            ),
        decreases steps@.len() - i,
    {
        assert(steps@.skip(i as int).skip(1) =~= steps@.skip(i + 1));
        if let Some(x) = ctx.node_conflict(steps[i].wire, plan.net) {
            return Err(x);
        }
        i = i + 1;
    }
    bind_steps(ctx, plan.net, &steps);
    Ok(())
}

/// A wire that was not free of other nets at some step is a conflict of the plan.
proof fn lemma_no_conflict_at(ctx: Context, net: NetId, steps: Seq<PlanStep>, i: int)
    requires
        plan_conflict(ctx, net, steps) is None,
        0 <= i < steps.len(),
    ensures
        ctx.first_taken(net, ctx.conductor_of(steps[i].wire)) is None,
    decreases steps.len(),
{
    if i > 0 {
        assert(steps.skip(1)[i - 1] == steps[i]);
        lemma_no_conflict_at(ctx, net, steps.skip(1), i - 1);
    }
}

proof fn lemma_none_taken(ctx: Context, net: NetId, wires: Seq<WireId>, x: WireId)
    requires
        ctx.first_taken(net, wires) is None,
        wires.contains(x),
    ensures
        ctx.owner(x) is Some ==> ctx.owner(x) == Some(net),
    decreases wires.len(),
{
    let i = choose|i: int| 0 <= i < wires.len() && wires[i] == x;
    if i > 0 {
        assert(wires.skip(1)[i - 1] == x);
        lemma_none_taken(ctx, net, wires.skip(1), x);
    }
}

/// Applying a plan takes no wire from another net: what another net held it still holds.
pub proof fn applied_plans_take_nothing(
    ctx: Context,
    net: NetId,
    steps: Seq<PlanStep>,
    n: int,
    x: WireId,
)
    requires
        plan_conflict(ctx, net, steps) is None,
        0 <= n <= steps.len(),
        ctx.owner(x) is Some,
        ctx.owner(x) != Some(net),
    ensures
        wires_after(ctx, ctx.wire_bindings@, net, steps, n).contains_key(x),
        wires_after(ctx, ctx.wire_bindings@, net, steps, n)[x] == ctx.wire_bindings@[x],
    decreases n,
{
    if n > 0 {
        applied_plans_take_nothing(ctx, net, steps, n - 1, x);
        lemma_no_conflict_at(ctx, net, steps, n - 1);
        let wires = ctx.conductor_of(steps[n - 1].wire);
        assert(!wires.contains(x)) by {
            if wires.contains(x) {
                lemma_none_taken(ctx, net, wires, x);
            }
        }
        assert(wires.take(wires.len() as int) =~= wires);
        Context::lemma_bound_upto(
            wires_after(ctx, ctx.wire_bindings@, net, steps, n - 1),
            wires,
            held(net),
            wires.len() as int,
            x,
        );
    }
}

/// Applying a plan gives the net every wire of the plan.
pub proof fn applied_plans_hold_their_wires(
    ctx: Context,
    net: NetId,
    steps: Seq<PlanStep>,
    n: int,
    i: int,
)
    requires
        0 <= i < n <= steps.len(),
    ensures
        wires_after(ctx, ctx.wire_bindings@, net, steps, n).contains_key(steps[i].wire),
        wires_after(ctx, ctx.wire_bindings@, net, steps, n)[steps[i].wire] == held(net),
        tree_after(ctx.design.net_of(net).wires@, steps, n).contains_key(steps[i].wire),
    decreases n,
{
    let before = wires_after(ctx, ctx.wire_bindings@, net, steps, n - 1);
    ctx.lemma_node_bound(before, steps[n - 1].wire, held(net));
    if i < n - 1 {
        applied_plans_hold_their_wires(ctx, net, steps, n - 1, i);
        assert(ctx.node_bound(before, steps[n - 1].wire, held(net)).contains_key(steps[i].wire));
    }
}

/// The steps of a path, bound wire by wire.
pub open spec fn path_wires_after(
    chip: ChipDb,
    bindings: Map<WireId, Binding>,
    net: NetId,
    path: Seq<PipId>,
    n: int,
) -> Map<WireId, Binding>
    decreases n,
{
    if n <= 0 {
        bindings
    } else {
        path_wires_after(chip, bindings, net, path, n - 1).insert(chip.dst(path[n - 1]), held(net))
    }
}

/// Binds the pips of a path and the wires that they drive.
pub fn bind_route(ctx: &mut Context, net: NetId, path: &Vec<PipId>)
    requires
        old(ctx).wf(),
        old(ctx).design.valid_net(net),
        forall|i: int| 0 <= i < path@.len() ==> old(ctx).chipdb.valid_pip(#[trigger] path@[i]),
    ensures
        final(ctx).wf(),
        final(ctx).same_base(*old(ctx)),
        ({
            let steps = pip_steps(old(ctx).chipdb, path@);
            let n = path@.len() as int;
            &&& final(ctx).wire_bindings@ == path_wires_after(
                old(ctx).chipdb,
                old(ctx).wire_bindings@,
                net,
                path@,
                n,
            )
            &&& final(ctx).pip_bindings@ == pips_after(old(ctx).pip_bindings@, net, steps, n)
            &&& old(ctx).design.rerouted(
                net,
                tree_after(old(ctx).design.net_of(net).wires@, steps, n),
                final(ctx).design,
            )
        }),
{
    let ghost steps = pip_steps(ctx.chipdb, path@);
    proof {
        assert(ctx.routing_ok(ctx.design.nets@[net.0 as int].wires@));
        assert(steps_ok(ctx.chipdb, steps)) by {
            assert forall|i: int| 0 <= i < steps.len() implies ctx.chipdb.valid_wire(
                (#[trigger] steps[i]).wire,
            ) by {
                assert(ctx.chipdb.valid_pip(path@[i]));
                assert(ctx.chipdb.tile_types@[ctx.chipdb.tiles@[path@[i].tile as int] as int].wf());
            }
        }
    }
    for i in 0..path.len()
        invariant
            old(ctx).wf(),
            old(ctx).design.valid_net(net),
            forall|i: int| 0 <= i < path@.len() ==> old(ctx).chipdb.valid_pip(#[trigger] path@[i]),
            steps == pip_steps(old(ctx).chipdb, path@),
            steps_ok(old(ctx).chipdb, steps),
            ctx.same_base(*old(ctx)),
            ctx.bindings_ok(),
            ctx.wire_bindings@ == path_wires_after(
                old(ctx).chipdb,
                old(ctx).wire_bindings@,
                net,
                path@,
                i as int,
            ),
            ctx.pip_bindings@ == pips_after(old(ctx).pip_bindings@, net, steps, i as int),
            old(ctx).design.rerouted(
                net,
                tree_after(old(ctx).design.net_of(net).wires@, steps, i as int),
                ctx.design,
            ),
            old(ctx).routing_ok(tree_after(old(ctx).design.net_of(net).wires@, steps, i as int)),
    {
        let pip: PipId = path[i];
        assert(old(ctx).chipdb.valid_pip(path@[i as int]));
        let w: WireId = ctx.chipdb.pip_dst_wire(pip);
        assert(steps[i as int] == PlanStep { wire: w, pip: Some(pip) });
        ctx.bind_pip(pip, net, PlaceStrength::Strong);
        ctx.bind_wire(w, net, PlaceStrength::Strong);
        ctx.design.add_wire(net, w, Some(pip), PlaceStrength::Strong);
    }
    proof {
        old(ctx).lemma_rerouted_wf(
            net,
            tree_after(old(ctx).design.net_of(net).wires@, steps, path@.len() as int),
            *ctx,
        );
    }
}

/// The pips that a routing tree uses.
pub open spec fn pips_of(tree: Map<WireId, PipMap>) -> Set<PipId> {
    Set::new(|p: PipId| exists|w: WireId| #[trigger] tree.contains_key(w) && tree[w].pip == Some(p))
}

/// `new` is `old` with the wires and pips of the net's routing tree set free, and the tree emptied.
pub open spec fn unrouted(old_ctx: Context, net: NetId, new: Context) -> bool {
    let tree = old_ctx.design.net_of(net).wires@;
    &&& new.same_base(old_ctx)
    &&& new.wire_bindings@ == old_ctx.wire_bindings@.remove_keys(tree.dom())
    &&& new.pip_bindings@ == old_ctx.pip_bindings@.remove_keys(pips_of(tree))
    &&& old_ctx.design.rerouted(net, Map::<WireId, PipMap>::empty(), new.design)
}

/// Sets the wires and pips of a net free.
pub fn unroute_net(ctx: &mut Context, net: NetId)
    requires
        old(ctx).wf(),
        old(ctx).design.valid_net(net),
    ensures
        final(ctx).wf(),
        unrouted(*old(ctx), net, *final(ctx)),
{
    let keys = ctx.design.net(net).wires.keys();
    let ghost tree = ctx.design.net_of(net).wires@;
    for i in 0..keys.len()
        invariant
            old(ctx).wf(),
            old(ctx).design.valid_net(net),
            tree == old(ctx).design.net_of(net).wires@,
            forall|w: WireId| #[trigger] keys@.contains(w) <==> tree.contains_key(w),
            ctx.same_base(*old(ctx)),
            ctx.design == old(ctx).design,
            forall|w: WireId| #[trigger]
                ctx.wire_bindings@.contains_key(w) <==> old(ctx).wire_bindings@.contains_key(w)
                    && !keys@.take(i as int).contains(w),
            forall|w: WireId| #[trigger]
                ctx.wire_bindings@.contains_key(w) ==> ctx.wire_bindings@[w]
                    == old(ctx).wire_bindings@[w],
            forall|p: PipId| #[trigger]
                ctx.pip_bindings@.contains_key(p) <==> old(ctx).pip_bindings@.contains_key(p) && !(exists|
                    j: int,
                |
                    0 <= j < i && tree[#[trigger] keys@[j]].pip == Some(p)),
            forall|p: PipId| #[trigger]
                ctx.pip_bindings@.contains_key(p) ==> ctx.pip_bindings@[p] == old(ctx).pip_bindings@[p],
    {
        let w: WireId = keys[i];
        let ghost before = *ctx;
        proof {
            assert(keys@.contains(w));
            assert(keys@.take(i + 1) =~= keys@.take(i as int).push(w));
            assert forall|x: WireId| #[trigger] keys@.take(i + 1).contains(x) <==> keys@.take(
                i as int,
            ).contains(x) || x == w by {
                if keys@.take(i as int).contains(x) {
                    let part = keys@.take(i as int);
                    let j = choose|j: int| 0 <= j < part.len() && part[j] == x;
                    assert(keys@.take(i + 1)[j] == x);
                }
                if x == w {
                    assert(keys@.take(i + 1)[i as int] == x);
                }
            }
        }
        let pip: Option<PipId> = match ctx.design.net(net).wires.get(w) {
            Some(pm) => pm.pip,
            None => None,
        };
        ctx.unbind_wire(w);
        if let Some(p) = pip {
            ctx.unbind_pip(p);
        }
        assert forall|p: PipId| #[trigger] ctx.pip_bindings@.contains_key(p) <==> old(
            ctx,
        ).pip_bindings@.contains_key(p) && !(exists|j: int|
            0 <= j < i + 1 && tree[#[trigger] keys@[j]].pip == Some(p)) by {
            if pip == Some(p) {
                assert(tree[keys@[i as int]].pip == Some(p));
            }
            if exists|j: int| 0 <= j < i + 1 && tree[#[trigger] keys@[j]].pip == Some(p) {
                let j = choose|j: int| 0 <= j < i + 1 && tree[#[trigger] keys@[j]].pip == Some(p);
                if j < i {
                    assert(!before.pip_bindings@.contains_key(p));
                }
            }
        }
    }
    ctx.design.clear_wires(net);
    proof {
        assert(keys@.take(keys@.len() as int) =~= keys@);
        assert(ctx.wire_bindings@ =~= old(ctx).wire_bindings@.remove_keys(tree.dom()));
        assert forall|p: PipId| #[trigger] pips_of(tree).contains(p) <==> exists|j: int|
            0 <= j < keys@.len() && tree[#[trigger] keys@[j]].pip == Some(p) by {
            if pips_of(tree).contains(p) {
                let w = choose|w: WireId| #[trigger] tree.contains_key(w) && tree[w].pip == Some(p);
                assert(keys@.contains(w));
                let j = choose|j: int| 0 <= j < keys@.len() && keys@[j] == w;
                assert(tree[keys@[j]].pip == Some(p));
            }
            if exists|j: int| 0 <= j < keys@.len() && tree[#[trigger] keys@[j]].pip == Some(p) {
                let j = choose|j: int| 0 <= j < keys@.len() && tree[#[trigger] keys@[j]].pip == Some(p);
                assert(keys@.contains(keys@[j]));
                assert(tree.contains_key(keys@[j]));
            }
        }
        assert(ctx.pip_bindings@ =~= old(ctx).pip_bindings@.remove_keys(pips_of(tree)));
        old(ctx).lemma_rerouted_wf(net, Map::<WireId, PipMap>::empty(), *ctx);
    }
}

/// The message for a net whose driver has no place.
pub open spec fn unplaced_driver_text(name: Seq<char>) -> Seq<char> {
    "Driver cell for net "@ + name + " is not placed"@
}

/// The message for a net whose driver has no wire.
pub open spec fn missing_driver_wire_text(name: Seq<char>) -> Seq<char> {
    "Cannot find driver wire for net "@ + name + ""@
}

/// The wire that a net starts from; `None` for a net without a driver.
pub fn resolve_source_wire(ctx: &Context, net: NetId) -> (r: Result<Option<WireId>, RouterError>)
    requires
        ctx.wf(),
        ctx.design.valid_net(net),
    ensures
        ({
            let n = ctx.design.net_of(net);
            if !n.driver.connected() {
                r == Ok::<Option<WireId>, RouterError>(None)
            } else if ctx.design.cell_of(n.driver.cell).bel is None {
                &&& r is Err
                &&& r->Err_0 is Generic
                &&& r->Err_0->Generic_0@ == unplaced_driver_text(ctx.name_text(n.name))
            } else if ctx.wire_of_pin(n.driver) is None {
                &&& r is Err
                &&& r->Err_0 is Generic
                &&& r->Err_0->Generic_0@ == missing_driver_wire_text(ctx.name_text(n.name))
            } else {
                &&& r == Ok::<Option<WireId>, RouterError>(ctx.wire_of_pin(n.driver))
                &&& ctx.chipdb.valid_wire(ctx.wire_of_pin(n.driver)->0)
            }
        }),
{
    let n = ctx.net(net);
    assert(ctx.design.net_ok(ctx.design.nets@[net.0 as int]));
    if !n.driver.is_valid() {
        return Ok(None);
    }
    if ctx.cell(n.driver.cell).bel.is_none() {
        return Err(
            RouterError::Generic(join3("Driver cell for net ", ctx.name_of(n.name), " is not placed")),
        );
    }
    match ctx.pin_wire(n.driver) {
        Some(w) => Ok(Some(w)),
        None => Err(
            RouterError::Generic(join3("Cannot find driver wire for net ", ctx.name_of(n.name), "")),
        ),
    }
}

/// The nets among the first `n` that take part in routing.
pub open spec fn routable_upto(design: Design, n: int) -> Seq<NetId>
    decreases n,
{
    if n <= 0 {
        Seq::empty()
    } else if design.nets@[n - 1].routable() {
        routable_upto(design, n - 1).push(NetId((n - 1) as u32))
    } else {
        routable_upto(design, n - 1)
    }
}

/// The nets that are alive and have a driver and users, in order.
pub fn collect_routable_nets(ctx: &Context) -> (r: Vec<NetId>)
    requires
        ctx.wf(),
    ensures
        r@ == routable_upto(ctx.design, ctx.design.nets@.len() as int),
{
    let mut out: Vec<NetId> = Vec::new();
    for i in 0..ctx.design.nets.len()
        invariant
            ctx.wf(),
            out@ == routable_upto(ctx.design, i as int),
    {
        let net = &ctx.design.nets[i];
        if net.alive && net.has_driver() && net.num_users() > 0 {
            out.push(NetId(i as u32));
        }
    }
    out
}

/// A net is collected exactly if it takes part in routing.
pub proof fn lemma_routable_upto(design: Design, n: int, net: NetId)
    requires
        0 <= n <= design.nets@.len() < u32::MAX,
    ensures
        routable_upto(design, n).contains(net) <==> net.0 < n && design.net_of(net).routable(),
        routable_upto(design, n).no_duplicates(),
        forall|i: int| 0 <= i < routable_upto(design, n).len() ==> (#[trigger] routable_upto(design, n)[i]).0 < n,
    decreases n,
{
    if n > 0 {
        lemma_routable_upto(design, n - 1, net);
        let before = routable_upto(design, n - 1);
        let all = routable_upto(design, n);
        if design.nets@[n - 1].routable() {
            assert(all.last() == NetId((n - 1) as u32));
            if before.contains(net) {
                let i = choose|i: int| 0 <= i < before.len() && before[i] == net;
                assert(all[i] == net);
            }
            if all.contains(net) {
                let i = choose|i: int| 0 <= i < all.len() && all[i] == net;
                if i < before.len() {
                    assert(before[i] == net);
                }
            }
            if net.0 == n - 1 {
                assert(all[before.len() as int] == net);
            }
        }
    }
}

/// The sink wires of the first `n` users.
pub open spec fn sinks_upto(ctx: Context, users: Seq<CellPin>, n: int) -> Seq<WireId>
    decreases n,
{
    if n <= 0 {
        Seq::empty()
    } else {
        let before = sinks_upto(ctx, users, n - 1);
        let u = users[n - 1];
        if u.connected() && ctx.wire_of_pin(u) is Some {
            before.push(ctx.wire_of_pin(u)->0)
        } else {
            before
        }
    }
}

/// The wires behind the users of a net, in order; users without a place or a wire are left out.
pub fn collect_sink_wires(ctx: &Context, net: NetId) -> (r: Vec<WireId>)
    requires
        ctx.wf(),
        ctx.design.valid_net(net),
    ensures
        r@ == sinks_upto(
            *ctx,
            ctx.design.net_of(net).users@,
            ctx.design.net_of(net).users@.len() as int,
        ),
        forall|i: int| 0 <= i < r@.len() ==> ctx.chipdb.valid_wire(#[trigger] r@[i]),
{
    let n = ctx.net(net);
    let mut out: Vec<WireId> = Vec::new();
    for i in 0..n.users.len()
        invariant
            ctx.wf(),
            ctx.design.valid_net(net),
            *n == ctx.design.net_of(net),
            out@ == sinks_upto(*ctx, n.users@, i as int),
            forall|j: int| 0 <= j < out@.len() ==> ctx.chipdb.valid_wire(#[trigger] out@[j]),
    {
        assert(ctx.design.net_ok(ctx.design.nets@[net.0 as int]));
        assert(ctx.design.pin_ok(n.users@[i as int]));
        let u: CellPin = n.users[i];
        if u.is_valid() {
            if let Some(w) = ctx.pin_wire(u) {
                out.push(w);
            }
        }
    }
    out
}

/// Holds of the wires that carry a constant.
pub open spec fn carries(chip: ChipDb, value: i32) -> spec_fn(WireId) -> bool {
    |w: WireId| chip.wire(w).const_value == value
}

/// All wires that carry a constant, tile by tile.
pub fn collect_constant_source_wires(ctx: &Context, const_value: i32) -> (r: Vec<WireId>)
    requires
        ctx.wf(),
    ensures
        r@ == ctx.chipdb.all_wires().filter(carries(ctx.chipdb, const_value)),
        forall|i: int| 0 <= i < r@.len() ==> ctx.chipdb.valid_wire(#[trigger] r@[i]),
{
    let all = ctx.chipdb.wires();
    let mut out: Vec<WireId> = Vec::new();
    let ghost pred = carries(ctx.chipdb, const_value);
    assert(all@.take(0).filter(pred) =~= Seq::<WireId>::empty()) by {
        reveal(Seq::filter);
    }
    for i in 0..all.len()
        invariant
            ctx.wf(),
            all@ == ctx.chipdb.all_wires(),
            pred == carries(ctx.chipdb, const_value),
            out@ == all@.take(i as int).filter(pred),
            forall|j: int| 0 <= j < out@.len() ==> ctx.chipdb.valid_wire(#[trigger] out@[j]),
    {
        let w: WireId = all[i];
        proof {
            assert(all@.contains(w));
            ctx.chipdb.lemma_wires_upto(ctx.chipdb.tiles@.len() as int, w);
            assert(all@.take(i + 1).drop_last() =~= all@.take(i as int));
            reveal(Seq::filter);
        }
        if ctx.chipdb.wire_info(w).const_value == const_value {
            out.push(w);
        }
    }
    assert(all@.take(all@.len() as int) =~= all@);
    out
}

/// The constant that a source wire carries; zero for none.
pub fn source_wire_const_value(ctx: &Context, source_wire: WireId) -> (r: i32)
    requires
        ctx.wf(),
        ctx.chipdb.valid_wire(source_wire),
    ensures
        r == ctx.chipdb.wire(source_wire).const_value,
{
    ctx.chipdb.wire_info(source_wire).const_value
}

/// The first pip of a list that leads from a wire with the constant.
pub open spec fn first_const_pip(chip: ChipDb, tile: i32, list: Seq<i32>, value: i32) -> Option<PipId>
    decreases list.len(),
{
    if list.len() == 0 {
        None
    } else {
        let p = PipId { tile, index: list[0] };
        if chip.wire(chip.src(p)).const_value == value {
            Some(p)
        } else {
            first_const_pip(chip, tile, list.skip(1), value)
        }
    }
}

/// The first pip into one of the wires, wire by wire, that leads from a wire with the constant.
pub open spec fn first_const_pip_of(chip: ChipDb, wires: Seq<WireId>, value: i32) -> Option<PipId>
    decreases wires.len(),
{
    if wires.len() == 0 {
        None
    } else {
        let here = first_const_pip(chip, wires[0].tile, chip.wire(wires[0]).pips_uphill@, value);
        if here is Some {
            here
        } else {
            first_const_pip_of(chip, wires.skip(1), value)
        }
    }
}

fn const_pip_into(chipdb: &ChipDb, w: WireId, value: i32) -> (r: Option<PipId>)
    requires
        chipdb.wf(),
        chipdb.valid_wire(w),
    ensures
        r == first_const_pip(*chipdb, w.tile, chipdb.wire(w).pips_uphill@, value),
{
    let list = &chipdb.wire_info(w).pips_uphill;
    let mut i: usize = 0;
    assert(list@.skip(0) =~= list@);
    while i < list.len()
        invariant
            chipdb.wf(),
            chipdb.valid_wire(w),
            list == chipdb.wire(w).pips_uphill,
            i <= list@.len(),
            first_const_pip(*chipdb, w.tile, list@, value) == first_const_pip(
                *chipdb,
                w.tile,
                list@.skip(i as int),
                value,
            ),
        decreases list@.len() - i,
    {
        let pip: PipId = PipId { tile: w.tile, index: list[i] };
        proof {
            assert(list@.skip(i as int).skip(1) =~= list@.skip(i + 1));
            let t = chipdb.type_of(w.tile as int);
            assert(chipdb.tile_types@[chipdb.tiles@[w.tile as int] as int].wf());
            assert(t.lists_pip(t.wires@[w.index as int].pips_uphill@[i as int], w.index as int, false));
        }
        let src: WireId = chipdb.pip_src_wire(pip);
        if chipdb.wire_info(src).const_value == value {
            return Some(pip);
        }
        i = i + 1;
    }
    None
}

/// A pip into the conductor of a sink from a wire with the constant: one into the sink itself if
/// there is one, else one into another wire of its node.
pub fn find_local_const_pip(ctx: &Context, sink: WireId, const_value: i32) -> (r: Option<PipId>)
    requires
        ctx.wf(),
        ctx.chipdb.valid_wire(sink),
    ensures
        r == first_const_pip_of(ctx.chipdb, ctx.conductor_of(sink), const_value),
{
    let wires = ctx.conductor(sink);
    let mut i: usize = 0;
    proof {
        ctx.chipdb.lemma_peers(sink);
        assert(wires@.skip(0) =~= wires@);
        assert forall|j: int| 0 <= j < wires@.len() implies ctx.chipdb.valid_wire(#[trigger] wires@[j]) by {
            if j > 0 {
                assert(wires@[j] == ctx.chipdb.peers(sink)[j - 1]);
            }
        }
    }
    while i < wires.len()
        invariant
            ctx.wf(),
            wires@ == ctx.conductor_of(sink),
            i <= wires@.len(),
            forall|j: int| 0 <= j < wires@.len() ==> ctx.chipdb.valid_wire(#[trigger] wires@[j]),
            first_const_pip_of(ctx.chipdb, wires@, const_value) == first_const_pip_of(
                ctx.chipdb,
                wires@.skip(i as int),
                const_value,
            ),
        decreases wires@.len() - i,
    {
        assert(wires@.skip(i as int).skip(1) =~= wires@.skip(i + 1));
        if let Some(p) = const_pip_into(&ctx.chipdb, wires[i], const_value) {
            return Some(p);
        }
        i = i + 1;
    }
    None
}

/// The wire types of the global clock network.
pub open spec fn global_clock_type(t: Seq<char>) -> bool {
    ||| t == "GCLK_SPINE"@
    ||| t == "CLK_IN"@
    ||| t == "GCLK"@
    ||| t == "GLOBAL"@
    ||| t == "BUFGROUT"@
    ||| t == "NODE_GLOBAL_BUFG"@
    ||| t == "NODE_GLOBAL_VROUTE"@
    ||| t == "NODE_GLOBAL_HROUTE"@
    ||| t == "NODE_GLOBAL_HDISTR"@
    ||| t == "NODE_GLOBAL_VDISTR"@
    ||| t == "NODE_GLOBAL_LEAF"@
    ||| has_text(t, "GCLK"@)
    ||| has_text(t, "HCLK"@)
    ||| has_text(t, "BUFG"@)
}

/// Whether a wire belongs to the global clock network.
pub fn is_global_clock_wire(ctx: &Context, wire: WireId) -> (r: bool)
    requires
        ctx.wf(),
        ctx.chipdb.valid_wire(wire),
    ensures
        r == global_clock_type(ctx.chipdb.wire(wire).wire_type@),
{
    let t = ctx.chipdb.wire_info(wire).wire_type.as_str();
    same_text(t, "GCLK_SPINE") || same_text(t, "CLK_IN") || same_text(t, "GCLK") || same_text(t, "GLOBAL")
        || same_text(t, "BUFGROUT") || same_text(t, "NODE_GLOBAL_BUFG") || same_text(
        t,
        "NODE_GLOBAL_VROUTE",
    ) || same_text(t, "NODE_GLOBAL_HROUTE") || same_text(t, "NODE_GLOBAL_HDISTR") || same_text(
        t,
        "NODE_GLOBAL_VDISTR",
    ) || same_text(t, "NODE_GLOBAL_LEAF") || contains_text(t, "GCLK") || contains_text(t, "HCLK")
        || contains_text(t, "BUFG")
}

/// Whether a pip starts or ends in the global clock network.
pub fn is_global_clock_pip(ctx: &Context, pip: PipId) -> (r: bool)
    requires
        ctx.wf(),
        ctx.chipdb.valid_pip(pip),
    ensures
        r == (global_clock_type(ctx.chipdb.wire(ctx.chipdb.src(pip)).wire_type@) || global_clock_type(
            ctx.chipdb.wire(ctx.chipdb.dst(pip)).wire_type@,
        )),
{
    is_global_clock_wire(ctx, ctx.chipdb.pip_src_wire(pip)) || is_global_clock_wire(
        ctx,
        ctx.chipdb.pip_dst_wire(pip),
    )
}

/// The first `n` nets of a list, those left out that stood before.
pub open spec fn firsts_upto(nets: Seq<NetId>, n: int) -> Seq<NetId>
    decreases n,
{
    if n <= 0 {
        Seq::empty()
    } else {
        let rest = firsts_upto(nets, n - 1);
        if rest.contains(nets[n - 1]) {
            rest
        } else {
            rest.push(nets[n - 1])
        }
    }
}

/// The nets of a list, each once, where it stands first.
pub open spec fn firsts(nets: Seq<NetId>) -> Seq<NetId> {
    firsts_upto(nets, nets.len() as int)
}

/// Leaving out what stood before leaves each net once; a list without repeated nets stays as it is.
pub proof fn lemma_firsts(nets: Seq<NetId>, n: int)
    requires
        0 <= n <= nets.len(),
    ensures
        firsts_upto(nets, n).no_duplicates(),
        forall|x: NetId| #[trigger] firsts_upto(nets, n).contains(x) <==> nets.take(n).contains(x),
        nets.no_duplicates() ==> firsts_upto(nets, n) == nets.take(n),
    decreases n,
{
    if n > 0 {
        lemma_firsts(nets, n - 1);
        let head = nets.take(n - 1);
        let rest = firsts_upto(nets, n - 1);
        let last = nets[n - 1];
        assert(nets.take(n) =~= head.push(last));
        assert forall|x: NetId| #[trigger] firsts_upto(nets, n).contains(x) <==> nets.take(n).contains(x) by {
            if nets.take(n).contains(x) {
                let j = choose|j: int| 0 <= j < n && nets.take(n)[j] == x;
                if j < n - 1 {
                    assert(head[j] == x);
                    assert(head.contains(x));
                    assert(rest.contains(x));
                    let k = choose|k: int| 0 <= k < rest.len() && rest[k] == x;
                    assert(firsts_upto(nets, n)[k] == x);
                } else if !rest.contains(last) {
                    assert(firsts_upto(nets, n)[rest.len() as int] == x);
                }
            }
            if firsts_upto(nets, n).contains(x) {
                if rest.contains(x) {
                    assert(head.contains(x));
                    let k = choose|k: int| 0 <= k < head.len() && head[k] == x;
                    assert(nets.take(n)[k] == x);
                } else {
                    let k = choose|k: int| 0 <= k < firsts_upto(nets, n).len() && firsts_upto(nets, n)[k] == x;
                    assert(k == rest.len());
                    assert(nets.take(n)[n - 1] == x);
                }
            }
        }
        if nets.no_duplicates() {
            if head.contains(last) {
                let k = choose|k: int| 0 <= k < head.len() && head[k] == last;
                assert(nets[k] == nets[n - 1]);
            }
            assert(!rest.contains(last));
            assert(firsts_upto(nets, n) =~= nets.take(n));
        }
    } else {
        assert(firsts_upto(nets, n) =~= nets.take(0));
    }
}

/// The nets of a list, each once, where it stands first.
pub fn distinct_nets(nets: &Vec<NetId>) -> (r: Vec<NetId>)
    ensures
        r@ == firsts(nets@),
        r@.no_duplicates(),
        r@.to_set() == nets@.to_set(),
        nets@.no_duplicates() ==> r@ == nets@,
{
    let mut seen: IdMap<NetId, ()> = IdMap::new();
    let mut out: Vec<NetId> = Vec::new();
    for i in 0..nets.len()
        invariant
            out@ == firsts_upto(nets@, i as int),
            forall|x: NetId| #[trigger] seen@.contains_key(x) <==> out@.contains(x),
    {
        let net: NetId = nets[i];
        let ghost before = out@;
        if !seen.contains_key(net) {
            let _ = seen.insert(net, ());
            out.push(net);
            proof {
                assert forall|x: NetId| #[trigger] seen@.contains_key(x) <==> out@.contains(x) by {
                    if before.contains(x) {
                        let k = choose|k: int| 0 <= k < before.len() && before[k] == x;
                        assert(out@[k] == x);
                    }
                    assert(out@[before.len() as int] == net);
                    if out@.contains(x) && x != net {
                        let k = choose|k: int| 0 <= k < out@.len() && out@[k] == x;
                        assert(before[k] == x);
                    }
                }
            }
        }
    }
    proof {
        lemma_firsts(nets@, nets@.len() as int);
        assert(nets@.take(nets@.len() as int) =~= nets@);
        assert(out@.to_set() =~= nets@.to_set()) by {
            assert forall|x: NetId| out@.to_set().contains(x) <==> nets@.to_set().contains(x) by {
                assert(out@.contains(x) <==> nets@.contains(x));
            }
        }
    }
    out
}

} // verus!
