//! The rounds of the maze router: all nets are planned and bound; then, as long as nets share
//! wires, those nets are taken apart, the shared wires get dearer, and the nets are planned and bound
//! again.

use crate::chipdb::WireId;
use crate::context::Context;
use crate::ids::IdMap;
use crate::netlist::{Design, NetId, PipMap};
use crate::parallel::map_in_parallel;
use crate::router::common::{
    collect_routable_nets, distinct_nets, firsts, lemma_firsts, lemma_routable_upto, routable_upto, tree_after,
    unroute_net, unrouted, RoutePlan,
};
use crate::router::error::RouterError;
use crate::router::lookahead::Lookahead;
use crate::router::maze::{
    bind_plan, compute_route_r1, lemma_made_plan, lent, net_routed, penalties_ok, plan_bound, r1_made,
    r1_ready, route_within, Router1Cfg,
};
use crate::router::traits::Router;
use crate::router::usage::{
    add_wire_usage, congested, counts_users, lemma_count_fewer, lemma_count_more, lemma_take_step,
    nets_touching, overused, remove_wire_usage, touches, touching, users_of, uses,
};
use crate::timing::delay::{sat_add, sat_sum, DelayT};
use vstd::prelude::*;

verus! {

/// What planning a net gives.
pub type Planned = Result<RoutePlan, RouterError>;

/// Each net of a list is planned for the same state.
pub open spec fn planned(
    ctx: Context,
    nets: Seq<NetId>,
    pen: Map<WireId, DelayT>,
    margin: i32,
    la: Option<Lookahead>,
    plans: Seq<Result<RoutePlan, RouterError>>,
) -> bool {
    &&& plans.len() == nets.len()
    &&& forall|i: int| 0 <= i < nets.len() ==> r1_made(ctx, nets[i], pen, margin, la, #[trigger] plans[i])
}

/// A net can be planned for a state.
spec fn can_plan(
    ctx: &Context,
    net: NetId,
    wire_penalty: &IdMap<WireId, DelayT>,
    lookahead: Option<&Lookahead>,
) -> bool {
    r1_ready(*ctx, wire_penalty@, lent(lookahead)) && ctx.design.valid_net(net)
}

/// What planning a net for a state gives.
spec fn has_planned(
    ctx: &Context,
    net: NetId,
    wire_penalty: &IdMap<WireId, DelayT>,
    bb_margin: i32,
    lookahead: Option<&Lookahead>,
    r: Planned,
) -> bool {
    r1_made(*ctx, net, wire_penalty@, bb_margin, lent(lookahead), r)
}

/// Plans the nets of a list, all of them for the state as it is.
fn plan_all(
    ctx: &Context,
    nets: &Vec<NetId>,
    wire_penalty: &IdMap<WireId, DelayT>,
    bb_margin: i32,
    lookahead: Option<&Lookahead>,
) -> (plans: Vec<Result<RoutePlan, RouterError>>)
    requires
        r1_ready(*ctx, wire_penalty@, lent(lookahead)),
        forall|i: int| 0 <= i < nets@.len() ==> ctx.design.valid_net(#[trigger] nets@[i]),
    ensures
        planned(*ctx, nets@, wire_penalty@, bb_margin, lent(lookahead), plans@),
{
    let plan_one = |net: NetId| -> (r: Planned)
        requires
            can_plan(ctx, net, wire_penalty, lookahead),
        ensures
            has_planned(ctx, net, wire_penalty, bb_margin, lookahead, r),
        {
            compute_route_r1(ctx, net, wire_penalty, bb_margin, lookahead)
        };
    map_in_parallel(nets, plan_one)
}

/// The plan at a position leads from one state of a trail to the next.
pub open spec fn bound_at(
    trail: Seq<Context>,
    plans: Seq<Result<RoutePlan, RouterError>>,
    i: int,
) -> bool {
    plans[i] is Ok && plan_bound(trail[i], plans[i]->Ok_0, trail[i + 1])
}

/// The states that binding the first `k` plans leads through, one after the other.
pub open spec fn bound_along(
    trail: Seq<Context>,
    plans: Seq<Result<RoutePlan, RouterError>>,
    k: int,
) -> bool {
    &&& trail.len() == k + 1
    &&& forall|i: int| 0 <= i < k ==> #[trigger] bound_at(trail, plans, i)
}

/// `new` is `old` after the first `k` plans were bound, one after the other.
pub open spec fn plans_bound(
    old_ctx: Context,
    plans: Seq<Result<RoutePlan, RouterError>>,
    k: int,
    new: Context,
) -> bool {
    exists|trail: Seq<Context>| #[trigger]
        bound_along(trail, plans, k) && trail[0] == old_ctx && trail[k] == new
}

proof fn lemma_no_plans_bound(ctx: Context, plans: Seq<Result<RoutePlan, RouterError>>)
    ensures
        plans_bound(ctx, plans, 0, ctx),
{
    assert(bound_along(seq![ctx], plans, 0));
}

proof fn lemma_plans_bound_more(
    old_ctx: Context,
    plans: Seq<Result<RoutePlan, RouterError>>,
    k: int,
    mid: Context,
    new: Context,
)
    requires
        0 <= k < plans.len(),
        plans_bound(old_ctx, plans, k, mid),
        plans[k] is Ok,
        plan_bound(mid, plans[k]->Ok_0, new),
    ensures
        plans_bound(old_ctx, plans, k + 1, new),
{
    let trail = choose|trail: Seq<Context>| #[trigger]
        bound_along(trail, plans, k) && trail[0] == old_ctx && trail[k] == mid;
    let more = trail.push(new);
    assert forall|i: int| 0 <= i < k + 1 implies #[trigger] bound_at(more, plans, i) by {
        if i < k {
            assert(bound_at(trail, plans, i));
        }
    }
    assert(bound_along(more, plans, k + 1));
}

/// What becomes of a list of plans: all are bound, or those before the first that failed.
pub open spec fn plans_taken(
    old_ctx: Context,
    plans: Seq<Result<RoutePlan, RouterError>>,
    r: Result<(), RouterError>,
    new: Context,
) -> bool {
    match r {
        Ok(_) => plans_bound(old_ctx, plans, plans.len() as int, new),
        Err(e) => exists|k: int|
            0 <= k < plans.len() && #[trigger] plans[k] == Err::<RoutePlan, RouterError>(e) && plans_bound(
                old_ctx,
                plans,
                k,
                new,
            ),
    }
}

/// The nets of a list are planned and their plans bound.
pub open spec fn nets_bound(
    old_ctx: Context,
    nets: Seq<NetId>,
    pen: Map<WireId, DelayT>,
    margin: i32,
    la: Option<Lookahead>,
    r: Result<(), RouterError>,
    new: Context,
) -> bool {
    exists|plans: Seq<Result<RoutePlan, RouterError>>| #[trigger]
        planned(old_ctx, nets, pen, margin, la, plans) && plans_taken(old_ctx, plans, r, new)
}

/// Only nets of the set differ in their routing, and nothing but bindings and routing differs.
pub open spec fn within(old_ctx: Context, nets: Set<NetId>, new: Context) -> bool {
    &&& new.same_base(old_ctx)
    &&& old_ctx.design.rerouted_within(nets, new.design)
}

/// Rerouting nets leaves the users of wires among other nets as they are.
pub proof fn lemma_users_stay(
    old_design: Design,
    part: Set<NetId>,
    new: Design,
    nets: Set<NetId>,
    usage: Map<WireId, u32>,
)
    requires
        old_design.rerouted_within(part, new),
        part.disjoint(nets),
        counts_users(usage, old_design, nets),
    ensures
        counts_users(usage, new, nets),
{
    assert forall|w: WireId| #[trigger] users_of(new, nets, w) =~= users_of(old_design, nets, w) by {
        assert forall|x: NetId| nets.contains(x) implies uses(new, x, w) == uses(old_design, x, w) by {
            assert(old_design.valid_net(x));
            assert(!part.contains(x));
            assert(NetId(x.0 as int as u32) == x);
            assert(new.nets@[x.0 as int] == old_design.nets@[x.0 as int]);
        }
    }
    assert forall|w: WireId|
        (#[trigger] usage.contains_key(w) <==> users_of(new, nets, w).len() > 0) && (usage.contains_key(w)
            ==> usage[w] == users_of(new, nets, w).len()) by {
        assert(users_of(new, nets, w) =~= users_of(old_design, nets, w));
    }
}

/// Binding a plan reroutes its net at most.
proof fn lemma_plan_bound_reroutes(old_ctx: Context, plan: RoutePlan, new: Context)
    requires
        plan_bound(old_ctx, plan, new),
        old_ctx.design.valid_net(plan.net),
    ensures
        exists|wires: Map<WireId, PipMap>| #[trigger] old_ctx.design.rerouted(plan.net, wires, new.design),
        new.same_base(old_ctx),
{
    let steps = plan.steps(old_ctx.chipdb);
    let same = old_ctx.design.net_of(plan.net).wires@;
    let more = tree_after(same, steps, steps.len() as int);
    if new == old_ctx {
        assert(old_ctx.design.rerouted(plan.net, same, new.design));
    } else {
        assert(old_ctx.design.rerouted(plan.net, more, new.design));
    }
}

/// The nets of a list before a position.
pub open spec fn before(nets: Seq<NetId>, k: int) -> Set<NetId> {
    nets.take(k).to_set()
}

pub proof fn lemma_before(nets: Seq<NetId>, k: int)
    requires
        nets.no_duplicates(),
        0 <= k < nets.len(),
    ensures
        before(nets, k + 1) == before(nets, k).insert(nets[k]),
        !before(nets, k).contains(nets[k]),
        before(nets, k).finite(),
{
    let part = nets.take(k);
    let whole = nets.take(k + 1);
    assert(whole =~= part.push(nets[k]));
    assert forall|x: NetId| whole.to_set().contains(x) <==> part.to_set().insert(nets[k]).contains(x) by {
        if part.contains(x) {
            let j = choose|j: int| 0 <= j < part.len() && part[j] == x;
            assert(whole[j] == x);
        }
        if x == nets[k] {
            assert(whole[k] == x);
        }
        if whole.contains(x) {
            let j = choose|j: int| 0 <= j < whole.len() && whole[j] == x;
            if j < k {
                assert(part[j] == x);
            }
        }
    }
    assert(whole.to_set() =~= part.to_set().insert(nets[k]));
    if part.contains(nets[k]) {
        let j = choose|j: int| 0 <= j < part.len() && part[j] == nets[k];
        assert(nets[j] == nets[k]);
    }
    vstd::seq_lib::seq_to_set_is_finite(part);
}

/// Plans that can be bound for the nets of a list.
pub open spec fn bindable(ctx: Context, nets: Seq<NetId>, plans: Seq<Result<RoutePlan, RouterError>>) -> bool {
    &&& plans.len() == nets.len()
    &&& forall|i: int| 0 <= i < nets.len() ==> ctx.design.valid_net(#[trigger] nets[i])
    &&& forall|i: int|
        0 <= i < plans.len() && (#[trigger] plans[i]) is Ok ==> {
            let plan = plans[i]->Ok_0;
            &&& plan.net == nets[i]
            &&& plan.pips_ok(ctx.chipdb)
            &&& plan.source_wire == WireId::nowhere() || ctx.chipdb.valid_wire(plan.source_wire)
        }
}

/// Binds the plans of a list of nets, up to the first that failed.
pub(crate) fn take_plans(
    ctx: &mut Context,
    nets: &Vec<NetId>,
    plans: Vec<Result<RoutePlan, RouterError>>,
) -> (r: Result<(), RouterError>)
    requires
        old(ctx).wf(),
        bindable(*old(ctx), nets@, plans@),
    ensures
        final(ctx).wf(),
        within(*old(ctx), nets@.to_set(), *final(ctx)),
        plans_taken(*old(ctx), plans@, r, *final(ctx)),
{
    let mut plans = plans;
    let ghost all = plans@;
    let mut k: usize = 0;
    let mut failed: bool = false;
    proof {
        lemma_no_plans_bound(*ctx, all);
    }
    while k < plans.len() && !failed
        invariant
            old(ctx).wf(),
            ctx.wf(),
            plans@ == all,
            bindable(*old(ctx), nets@, all),
            0 <= k <= all.len(),
            failed ==> k < all.len() && all[k as int] is Err,
            within(*old(ctx), nets@.to_set(), *ctx),
            plans_bound(*old(ctx), all, k as int, *ctx),
        decreases all.len() - k, (if failed { 0int } else { 1int }),
    {
        let ghost mid = *ctx;
        let net: NetId = nets[k];
        assert(old(ctx).design.valid_net(nets@[k as int]));
        match &plans[k] {
            Ok(plan) => {
                assert(all[k as int] is Ok);
                bind_plan(ctx, plan);
                proof {
                    lemma_plan_bound_reroutes(mid, *plan, *ctx);
                    let wires = choose|wires: Map<WireId, PipMap>| #[trigger]
                        mid.design.rerouted(net, wires, ctx.design);
                    assert(nets@.contains(nets@[k as int]));
                    old(ctx).design.lemma_reroute_one(nets@.to_set(), mid.design, net, wires, ctx.design);
                    lemma_plans_bound_more(*old(ctx), all, k as int, mid, *ctx);
                }
                k = k + 1;
            },
            Err(_) => {
                failed = true;
            },
        }
    }
    if failed {
        let first = plans.swap_remove(k);
        match first {
            Err(e) => {
                assert(all[k as int] == Err::<RoutePlan, RouterError>(e));
                return Err(e);
            },
            Ok(_) => {},
        }
    }
    Ok(())
}

/// Counts the wires of the nets of a list.
fn count_nets(
    ctx: &Context,
    nets: &Vec<NetId>,
    usage: &mut IdMap<WireId, u32>,
    Ghost(kept): Ghost<Set<NetId>>,
)
    requires
        ctx.wf(),
        nets@.no_duplicates(),
        forall|i: int|
            0 <= i < nets@.len() ==> ctx.design.valid_net(#[trigger] nets@[i]) && !kept.contains(nets@[i]),
        counts_users(old(usage)@, ctx.design, kept),
    ensures
        counts_users(final(usage)@, ctx.design, kept.union(nets@.to_set())),
{
    proof {
        assert(kept.union(before(nets@, 0)) =~= kept);
    }
    for k in 0..nets.len()
        invariant
            ctx.wf(),
            nets@.no_duplicates(),
            forall|i: int|
                0 <= i < nets@.len() ==> ctx.design.valid_net(#[trigger] nets@[i]) && !kept.contains(nets@[i]),
            counts_users(usage@, ctx.design, kept.union(before(nets@, k as int))),
    {
        let net: NetId = nets[k];
        proof {
            let so_far = kept.union(before(nets@, k as int));
            assert(ctx.design.valid_net(nets@[k as int]));
            lemma_before(nets@, k as int);
            lemma_count_more(usage@, ctx.design, so_far, net);
            assert(so_far.insert(net) =~= kept.union(before(nets@, k + 1)));
        }
        add_wire_usage(&ctx.design, usage, net);
    }
    proof {
        assert(nets@.take(nets@.len() as int) =~= nets@);
    }
}

/// Takes the nets of a list out of the count.
fn uncount_nets(
    ctx: &Context,
    nets: &Vec<NetId>,
    usage: &mut IdMap<WireId, u32>,
    Ghost(kept): Ghost<Set<NetId>>,
)
    requires
        ctx.wf(),
        nets@.no_duplicates(),
        forall|i: int|
            0 <= i < nets@.len() ==> ctx.design.valid_net(#[trigger] nets@[i]) && !kept.contains(nets@[i]),
        counts_users(old(usage)@, ctx.design, kept.union(nets@.to_set())),
    ensures
        counts_users(final(usage)@, ctx.design, kept),
{
    let ghost all = kept.union(nets@.to_set());
    proof {
        assert(all.difference(before(nets@, 0)) =~= all);
    }
    for k in 0..nets.len()
        invariant
            ctx.wf(),
            nets@.no_duplicates(),
            all == kept.union(nets@.to_set()),
            forall|i: int|
                0 <= i < nets@.len() ==> ctx.design.valid_net(#[trigger] nets@[i]) && !kept.contains(nets@[i]),
            counts_users(usage@, ctx.design, all.difference(before(nets@, k as int))),
    {
        let net: NetId = nets[k];
        proof {
            let left = all.difference(before(nets@, k as int));
            assert(ctx.design.valid_net(nets@[k as int]));
            assert(nets@.contains(nets@[k as int]));
            lemma_before(nets@, k as int);
            lemma_count_fewer(usage@, ctx.design, left, net);
            assert(left.remove(net) =~= all.difference(before(nets@, k + 1)));
        }
        remove_wire_usage(&ctx.design, usage, net);
    }
    proof {
        assert(nets@.take(nets@.len() as int) =~= nets@);
        assert forall|x: NetId| kept.contains(x) implies !nets@.to_set().contains(x) by {
            if nets@.contains(x) {
                let i = choose|i: int| 0 <= i < nets@.len() && nets@[i] == x;
                assert(!kept.contains(nets@[i]));
            }
        }
        assert(all.difference(before(nets@, nets@.len() as int)) =~= kept);
    }
}

/// Taking the net at a position apart leads from one state of a trail to the next.
pub open spec fn apart_at(trail: Seq<Context>, nets: Seq<NetId>, i: int) -> bool {
    unrouted(trail[i], nets[i], trail[i + 1])
}

/// The states that taking the first `k` nets of a list apart leads through, one after the other.
pub open spec fn apart_along(trail: Seq<Context>, nets: Seq<NetId>, k: int) -> bool {
    &&& trail.len() == k + 1
    &&& forall|i: int| 0 <= i < k ==> #[trigger] apart_at(trail, nets, i)
}

/// `new` is `old` after the first `k` nets of a list were taken apart, one after the other.
pub open spec fn taken_apart(old_ctx: Context, nets: Seq<NetId>, k: int, new: Context) -> bool {
    exists|trail: Seq<Context>| #[trigger]
        apart_along(trail, nets, k) && trail[0] == old_ctx && trail[k] == new
}

proof fn lemma_none_apart(ctx: Context, nets: Seq<NetId>)
    ensures
        taken_apart(ctx, nets, 0, ctx),
{
    assert(apart_along(seq![ctx], nets, 0));
}

proof fn lemma_taken_apart_more(old_ctx: Context, nets: Seq<NetId>, k: int, mid: Context, new: Context)
    requires
        0 <= k < nets.len(),
        taken_apart(old_ctx, nets, k, mid),
        unrouted(mid, nets[k], new),
    ensures
        taken_apart(old_ctx, nets, k + 1, new),
{
    let trail = choose|trail: Seq<Context>| #[trigger]
        apart_along(trail, nets, k) && trail[0] == old_ctx && trail[k] == mid;
    let more = trail.push(new);
    assert forall|i: int| 0 <= i < k + 1 implies #[trigger] apart_at(more, nets, i) by {
        if i < k {
            assert(apart_at(trail, nets, i));
        }
    }
    assert(apart_along(more, nets, k + 1));
}

/// Takes the nets of a list apart.
pub(crate) fn take_apart(ctx: &mut Context, nets: &Vec<NetId>)
    requires
        old(ctx).wf(),
        forall|i: int| 0 <= i < nets@.len() ==> old(ctx).design.valid_net(#[trigger] nets@[i]),
    ensures
        final(ctx).wf(),
        within(*old(ctx), nets@.to_set(), *final(ctx)),
        taken_apart(*old(ctx), nets@, nets@.len() as int, *final(ctx)),
{
    proof {
        lemma_none_apart(*ctx, nets@);
    }
    for k in 0..nets.len()
        invariant
            old(ctx).wf(),
            ctx.wf(),
            forall|i: int| 0 <= i < nets@.len() ==> old(ctx).design.valid_net(#[trigger] nets@[i]),
            within(*old(ctx), nets@.to_set(), *ctx),
            taken_apart(*old(ctx), nets@, k as int, *ctx),
    {
        let net: NetId = nets[k];
        let ghost mid = *ctx;
        proof {
            assert(old(ctx).design.valid_net(nets@[k as int]));
            assert(nets@.contains(nets@[k as int]));
        }
        unroute_net(ctx, net);
        proof {
            let wires = Map::<WireId, PipMap>::empty();
            old(ctx).design.lemma_reroute_one(nets@.to_set(), mid.design, net, wires, ctx.design);
            lemma_taken_apart_more(*old(ctx), nets@, k as int, mid, *ctx);
        }
    }
}

/// A wire of the net is used by more than one net of the list.
pub open spec fn shares(design: Design, nets: Seq<NetId>, net: NetId) -> bool {
    exists|w: WireId| #[trigger] uses(design, net, w) && congested(design, nets.to_set(), w)
}

/// The first `n` nets of the list, those that share a wire.
pub open spec fn sharing(design: Design, nets: Seq<NetId>, n: int) -> Seq<NetId>
    decreases n,
{
    if n <= 0 {
        Seq::empty()
    } else if shares(design, nets, nets[n - 1]) {
        sharing(design, nets, n - 1).push(nets[n - 1])
    } else {
        sharing(design, nets, n - 1)
    }
}

/// All nets of the list that share a wire with another net of the list, in order.
pub open spec fn all_sharing(design: Design, nets: Seq<NetId>) -> Seq<NetId> {
    sharing(design, nets, nets.len() as int)
}

pub proof fn lemma_sharing_is_touching(design: Design, usage: Map<WireId, u32>, nets: Seq<NetId>, n: int)
    requires
        counts_users(usage, design, nets.to_set()),
        0 <= n <= nets.len(),
    ensures
        sharing(design, nets, n) == touching(design, usage, nets, n),
    decreases n,
{
    if n > 0 {
        lemma_sharing_is_touching(design, usage, nets, n - 1);
        let net = nets[n - 1];
        assert(shares(design, nets, net) == touches(design, usage, net)) by {
            if shares(design, nets, net) {
                let w = choose|w: WireId| #[trigger]
                    uses(design, net, w) && congested(design, nets.to_set(), w);
                assert(usage.contains_key(w));
                assert(uses(design, net, w));
            }
            if touches(design, usage, net) {
                let w = choose|w: WireId| #[trigger]
                    uses(design, net, w) && usage.contains_key(w) && usage[w] > 1;
                assert(uses(design, net, w) && congested(design, nets.to_set(), w));
            }
        }
    }
}

/// What stands among the nets that share a wire.
proof fn lemma_sharing(design: Design, nets: Seq<NetId>, n: int, x: NetId)
    requires
        0 <= n <= nets.len(),
    ensures
        sharing(design, nets, n).contains(x) <==> nets.take(n).contains(x) && shares(design, nets, x),
        nets.no_duplicates() ==> sharing(design, nets, n).no_duplicates(),
    decreases n,
{
    if n > 0 {
        lemma_sharing(design, nets, n - 1, x);
        lemma_sharing(design, nets, n - 1, nets[n - 1]);
        let part = nets.take(n - 1);
        let whole = nets.take(n);
        let fewer = sharing(design, nets, n - 1);
        let all = sharing(design, nets, n);
        assert(whole[n - 1] == nets[n - 1]);
        if part.contains(x) {
            let i = choose|i: int| 0 <= i < part.len() && part[i] == x;
            assert(whole[i] == x);
        }
        if whole.contains(x) {
            let i = choose|i: int| 0 <= i < whole.len() && whole[i] == x;
            if i < n - 1 {
                assert(part[i] == x);
            }
        }
        if shares(design, nets, nets[n - 1]) {
            assert(all[fewer.len() as int] == nets[n - 1]);
            if fewer.contains(x) {
                let i = choose|i: int| 0 <= i < fewer.len() && fewer[i] == x;
                assert(all[i] == x);
            }
            if all.contains(x) {
                let i = choose|i: int| 0 <= i < all.len() && all[i] == x;
                if i < fewer.len() {
                    assert(fewer[i] == x);
                }
            }
            if nets.no_duplicates() && part.contains(nets[n - 1]) {
                let i = choose|i: int| 0 <= i < part.len() && part[i] == nets[n - 1];
                assert(nets[i] == nets[n - 1]);
            }
        }
    }
}

/// Where no net of a list shares a wire, the routing trees of any two of them have no wire in common.
pub proof fn routed_apart(design: Design, nets: Seq<NetId>, a: NetId, b: NetId, w: WireId)
    requires
        all_sharing(design, nets).len() == 0,
        nets.contains(a),
        nets.contains(b),
        a != b,
    ensures
        !(uses(design, a, w) && uses(design, b, w)),
{
    if uses(design, a, w) && uses(design, b, w) {
        let users = users_of(design, nets.to_set(), w);
        vstd::seq_lib::seq_to_set_is_finite(nets);
        vstd::set_lib::lemma_set_subset_finite(nets.to_set(), users);
        let two = Set::<NetId>::empty().insert(a).insert(b);
        assert(two.subset_of(users));
        vstd::set_lib::lemma_len_subset(two, users);
        assert(two.len() == 2);
        assert(congested(design, nets.to_set(), w));
        assert(shares(design, nets, a));
        assert(nets.take(nets.len() as int) =~= nets);
        lemma_sharing(design, nets, nets.len() as int, a);
        assert(all_sharing(design, nets).contains(a));
    }
}

/// The penalties after the shared wires have got dearer.
pub open spec fn raised(
    pen: Map<WireId, DelayT>,
    design: Design,
    nets: Seq<NetId>,
    by: DelayT,
) -> Map<WireId, DelayT> {
    Map::new(
        |w: WireId| pen.contains_key(w) || congested(design, nets.to_set(), w),
        |w: WireId|
            {
                let p = if pen.contains_key(w) {
                    pen[w]
                } else {
                    0
                };
                if congested(design, nets.to_set(), w) {
                    sat_sum(p as int, by as int) as DelayT
                } else {
                    p
                }
            },
    )
}

/// Makes the wires that are counted more than once dearer.
fn raise_penalties(
    pen: &mut IdMap<WireId, DelayT>,
    usage: &IdMap<WireId, u32>,
    by: DelayT,
    Ghost(design): Ghost<Design>,
    Ghost(nets): Ghost<Seq<NetId>>,
)
    requires
        penalties_ok(old(pen)@),
        by >= 0,
        counts_users(usage@, design, nets.to_set()),
    ensures
        final(pen)@ == raised(old(pen)@, design, nets, by),
        penalties_ok(final(pen)@),
{
    let wires = overused(usage);
    for i in 0..wires.len()
        invariant
            by >= 0,
            penalties_ok(old(pen)@),
            wires@.no_duplicates(),
            forall|w: WireId| #[trigger]
                pen@.contains_key(w) <==> old(pen)@.contains_key(w) || wires@.take(i as int).contains(w),
            forall|w: WireId| #[trigger]
                pen@.contains_key(w) ==> pen@[w] == ({
                    let p = if old(pen)@.contains_key(w) {
                        old(pen)@[w]
                    } else {
                        0
                    };
                    if wires@.take(i as int).contains(w) {
                        sat_sum(p as int, by as int)
                    } else {
                        p as int
                    }
                }),
    {
        let w: WireId = wires[i];
        proof {
            lemma_take_step(wires@, i as int);
        }
        let p: DelayT = match pen.get(w) {
            Some(p) => *p,
            None => 0,
        };
        let _ = pen.insert(w, sat_add(p, by));
    }
    proof {
        assert(wires@.take(wires@.len() as int) =~= wires@);
        assert forall|w: WireId| #[trigger] wires@.contains(w) <==> congested(design, nets.to_set(), w) by {
            assert(usage@.contains_key(w) <==> users_of(design, nets.to_set(), w).len() > 0);
        }
        assert(pen@ =~= raised(old(pen)@, design, nets, by));
    }
}

/// What a round does: the nets that share wires are taken apart, and planned and bound again with
/// the shared wires made dearer.
pub open spec fn round_made(
    nets: Seq<NetId>,
    cfg: Router1Cfg,
    ctx: Context,
    pen: Map<WireId, DelayT>,
    r: Result<(), RouterError>,
    new: Context,
    new_pen: Map<WireId, DelayT>,
) -> bool {
    let list = all_sharing(ctx.design, nets);
    &&& list.len() > 0
    &&& new_pen == raised(pen, ctx.design, nets, cfg.rip_up_penalty)
    &&& exists|mid: Context| #[trigger]
        taken_apart(ctx, list, list.len() as int, mid) && nets_bound(
            mid,
            list,
            new_pen,
            cfg.bb_margin,
            cfg.lookahead,
            r,
            new,
        )
}

/// A round leads from one state of a trail, with its penalties, to the next.
pub open spec fn round_at(
    trail: Seq<(Context, Map<WireId, DelayT>)>,
    nets: Seq<NetId>,
    cfg: Router1Cfg,
    i: int,
) -> bool {
    round_made(
        nets,
        cfg,
        trail[i].0,
        trail[i].1,
        Ok::<(), RouterError>(()),
        trail[i + 1].0,
        trail[i + 1].1,
    )
}

/// The states, with the penalties, that `n` rounds lead through.
pub open spec fn rounds_along(
    old_ctx: Context,
    trail: Seq<(Context, Map<WireId, DelayT>)>,
    nets: Seq<NetId>,
    cfg: Router1Cfg,
    n: int,
) -> bool {
    &&& trail.len() == n + 1
    &&& trail[0].1 == Map::<WireId, DelayT>::empty()
    &&& nets_bound(
        old_ctx,
        nets,
        trail[0].1,
        cfg.bb_margin,
        cfg.lookahead,
        Ok::<(), RouterError>(()),
        trail[0].0,
    )
    &&& forall|i: int| 0 <= i < n ==> #[trigger] round_at(trail, nets, cfg, i)
}

/// The state and the penalties after all nets were planned and bound, and `n` rounds after that.
pub open spec fn after_rounds(
    old_ctx: Context,
    nets: Seq<NetId>,
    cfg: Router1Cfg,
    n: int,
    new: Context,
    pen: Map<WireId, DelayT>,
) -> bool {
    exists|trail: Seq<(Context, Map<WireId, DelayT>)>| #[trigger]
        rounds_along(old_ctx, trail, nets, cfg, n) && trail[n] == (new, pen)
}

proof fn lemma_first_rounds(
    old_ctx: Context,
    nets: Seq<NetId>,
    cfg: Router1Cfg,
    new: Context,
    pen: Map<WireId, DelayT>,
)
    requires
        pen == Map::<WireId, DelayT>::empty(),
        nets_bound(
            old_ctx,
            nets,
            pen,
            cfg.bb_margin,
            cfg.lookahead,
            Ok::<(), RouterError>(()),
            new,
        ),
    ensures
        after_rounds(old_ctx, nets, cfg, 0, new, pen),
{
    assert(rounds_along(old_ctx, seq![(new, pen)], nets, cfg, 0));
}

proof fn lemma_more_rounds(
    old_ctx: Context,
    nets: Seq<NetId>,
    cfg: Router1Cfg,
    n: int,
    mid: Context,
    pen: Map<WireId, DelayT>,
    new: Context,
    new_pen: Map<WireId, DelayT>,
)
    requires
        n >= 0,
        after_rounds(old_ctx, nets, cfg, n, mid, pen),
        round_made(nets, cfg, mid, pen, Ok::<(), RouterError>(()), new, new_pen),
    ensures
        after_rounds(old_ctx, nets, cfg, n + 1, new, new_pen),
{
    let trail = choose|trail: Seq<(Context, Map<WireId, DelayT>)>| #[trigger]
        rounds_along(old_ctx, trail, nets, cfg, n) && trail[n] == (mid, pen);
    let more = trail.push((new, new_pen));
    assert forall|i: int| 0 <= i < n + 1 implies #[trigger] round_at(more, nets, cfg, i) by {
        if i < n {
            assert(round_at(trail, nets, cfg, i));
        }
    }
    assert(rounds_along(old_ctx, more, nets, cfg, n + 1));
}

/// A net could not be planned: at the start, or in the round after `n` others.
pub open spec fn planning_failed(
    old_ctx: Context,
    nets: Seq<NetId>,
    cfg: Router1Cfg,
    n: int,
    ctx: Context,
    pen: Map<WireId, DelayT>,
    e: RouterError,
    new: Context,
) -> bool {
    &&& 0 <= n < cfg.max_iterations
    &&& after_rounds(old_ctx, nets, cfg, n, ctx, pen)
    &&& exists|new_pen: Map<WireId, DelayT>| #[trigger]
        round_made(nets, cfg, ctx, pen, Err::<(), RouterError>(e), new, new_pen)
}

/// What routing a list of nets in rounds gives.
pub open spec fn rounds_done(
    old_ctx: Context,
    nets: Seq<NetId>,
    cfg: Router1Cfg,
    r: Result<(), RouterError>,
    new: Context,
) -> bool {
    match r {
        Ok(_) => {
            &&& all_sharing(new.design, nets).len() == 0
            &&& exists|n: int, pen: Map<WireId, DelayT>|
                0 <= n <= cfg.max_iterations && #[trigger] after_rounds(old_ctx, nets, cfg, n, new, pen)
        },
        Err(RouterError::Congestion(limit, count)) => {
            &&& limit == cfg.max_iterations
            &&& count == all_sharing(new.design, nets).len()
            &&& count > 0
            &&& exists|pen: Map<WireId, DelayT>| #[trigger]
                after_rounds(old_ctx, nets, cfg, cfg.max_iterations as int, new, pen)
        },
        Err(e) => {
            ||| nets_bound(
                old_ctx,
                nets,
                Map::<WireId, DelayT>::empty(),
                cfg.bb_margin,
                cfg.lookahead,
                Err::<(), RouterError>(e),
                new,
            )
            ||| exists|n: int, ctx: Context, pen: Map<WireId, DelayT>| #[trigger]
                planning_failed(old_ctx, nets, cfg, n, ctx, pen, e, new)
        },
    }
}

/// What the rounds keep from one to the next.
pub struct Router1State {
    /// What each wire costs on top.
    pub wire_penalty: IdMap<WireId, DelayT>,
    /// How many nets use each wire.
    pub wire_usage: IdMap<WireId, u32>,
}

impl Router1State {
    pub fn new() -> (r: Self)
        ensures
            r.wire_penalty@ == Map::<WireId, DelayT>::empty(),
            r.wire_usage@ == Map::<WireId, u32>::empty(),
    {
        Router1State { wire_penalty: IdMap::new(), wire_usage: IdMap::new() }
    }
}

/// The router that routes nets one by one and takes those apart that share wires.
pub struct Router1;

/// Plans and binds the nets of a list, and counts their wires.
fn plan_and_take(
    ctx: &mut Context,
    cfg: &Router1Cfg,
    nets: &Vec<NetId>,
    state: &mut Router1State,
    Ghost(kept): Ghost<Set<NetId>>,
) -> (r: Result<(), RouterError>)
    requires
        r1_ready(*old(ctx), old(state).wire_penalty@, cfg.lookahead),
        nets@.no_duplicates(),
        counts_users(old(state).wire_usage@, old(ctx).design, kept),
        forall|i: int|
            0 <= i < nets@.len() ==> old(ctx).design.valid_net(#[trigger] nets@[i]) && !kept.contains(nets@[i]),
    ensures
        final(ctx).wf(),
        within(*old(ctx), nets@.to_set(), *final(ctx)),
        final(state).wire_penalty@ == old(state).wire_penalty@,
        nets_bound(
            *old(ctx),
            nets@,
            old(state).wire_penalty@,
            cfg.bb_margin,
            cfg.lookahead,
            r,
            *final(ctx),
        ),
        r is Ok ==> counts_users(
            final(state).wire_usage@,
            final(ctx).design,
            kept.union(nets@.to_set()),
        ),
        r is Err ==> !(r->Err_0 is Congestion),
{
    let lookahead: Option<&Lookahead> = cfg.lookahead.as_ref();
    assert(lent(lookahead) == cfg.lookahead);
    let plans = plan_all(ctx, nets, &state.wire_penalty, cfg.bb_margin, lookahead);
    proof {
        assert forall|i: int| 0 <= i < plans@.len() && (#[trigger] plans@[i]) is Ok implies {
            let plan = plans@[i]->Ok_0;
            &&& plan.net == nets@[i]
            &&& plan.pips_ok(ctx.chipdb)
            &&& plan.source_wire == WireId::nowhere() || ctx.chipdb.valid_wire(plan.source_wire)
        } by {
            assert(ctx.design.valid_net(nets@[i]));
            lemma_made_plan(
                *ctx,
                nets@[i],
                state.wire_penalty@,
                cfg.bb_margin,
                cfg.lookahead,
                plans@[i]->Ok_0,
            );
        }
    }
    let ghost before_plans = *ctx;
    let ghost all = plans@;
    let r = take_plans(ctx, nets, plans);
    proof {
        assert forall|x: NetId| nets@.to_set().contains(x) implies !kept.contains(x) by {
            let i = choose|i: int| 0 <= i < nets@.len() && nets@[i] == x;
            assert(!kept.contains(nets@[i]));
        }
        lemma_users_stay(before_plans.design, nets@.to_set(), ctx.design, kept, state.wire_usage@);
        assert forall|i: int| 0 <= i < nets@.len() implies ctx.design.valid_net(#[trigger] nets@[i]) by {
            assert(before_plans.design.valid_net(nets@[i]));
        }
        if r is Err {
            let e = r->Err_0;
            let k = choose|k: int|
                0 <= k < all.len() && #[trigger] all[k] == Err::<RoutePlan, RouterError>(e) && plans_bound(
                    before_plans,
                    all,
                    k,
                    *ctx,
                );
            assert(r1_made(
                before_plans,
                nets@[k],
                state.wire_penalty@,
                cfg.bb_margin,
                cfg.lookahead,
                all[k],
            ));
        }
    }
    if r.is_ok() {
        count_nets(ctx, nets, &mut state.wire_usage, Ghost(kept));
    }
    r
}

/// The nets that share wires stand in the list.
pub proof fn lemma_sharing_listed(design: Design, nets: Seq<NetId>)
    requires
        nets.no_duplicates(),
    ensures
        all_sharing(design, nets).no_duplicates(),
        forall|i: int|
            0 <= i < all_sharing(design, nets).len() ==> nets.contains(
                #[trigger] all_sharing(design, nets)[i],
            ) && shares(design, nets, all_sharing(design, nets)[i]),
{
    let list = all_sharing(design, nets);
    assert(nets.take(nets.len() as int) =~= nets);
    lemma_sharing(design, nets, nets.len() as int, NetId(0));
    assert forall|i: int| 0 <= i < list.len() implies nets.contains(#[trigger] list[i]) && shares(
        design,
        nets,
        list[i],
    ) by {
        assert(list.contains(list[i]));
        lemma_sharing(design, nets, nets.len() as int, list[i]);
    }
}

/// Rerouting within a part of a set is rerouting within the set, and can follow on it.
proof fn lemma_within_more(a: Context, nets: Set<NetId>, b: Context, part: Set<NetId>, c: Context)
    requires
        within(a, nets, b),
        within(b, part, c),
        part.subset_of(nets),
    ensures
        within(a, nets, c),
{
    assert forall|i: int| 0 <= i < a.design.nets@.len() implies a.design.nets@[i].with_wires(
        (#[trigger] c.design.nets@[i]).wires@,
        c.design.nets@[i],
    ) by {
        assert(a.design.nets@[i].with_wires(b.design.nets@[i].wires@, b.design.nets@[i]));
    }
    assert forall|i: int|
        0 <= i < a.design.nets@.len() && !nets.contains(NetId(i as u32)) implies #[trigger] c.design.nets@[i]
        == a.design.nets@[i] by {
        assert(!part.contains(NetId(i as u32)));
        assert(b.design.nets@[i] == a.design.nets@[i]);
    }
}

/// Makes one round for nets that share wires.
#[verifier::rlimit(40)]
fn make_round(
    ctx: &mut Context,
    cfg: &Router1Cfg,
    nets: &Vec<NetId>,
    list: &Vec<NetId>,
    state: &mut Router1State,
) -> (r: Result<(), RouterError>)
    requires
        r1_ready(*old(ctx), old(state).wire_penalty@, cfg.lookahead),
        cfg.rip_up_penalty >= 0,
        nets@.no_duplicates(),
        forall|i: int| 0 <= i < nets@.len() ==> old(ctx).design.valid_net(#[trigger] nets@[i]),
        counts_users(old(state).wire_usage@, old(ctx).design, nets@.to_set()),
        list@ == all_sharing(old(ctx).design, nets@),
        list@.len() > 0,
    ensures
        final(ctx).wf(),
        within(*old(ctx), nets@.to_set(), *final(ctx)),
        round_made(
            nets@,
            *cfg,
            *old(ctx),
            old(state).wire_penalty@,
            r,
            *final(ctx),
            final(state).wire_penalty@,
        ),
        penalties_ok(final(state).wire_penalty@),
        r is Ok ==> counts_users(final(state).wire_usage@, final(ctx).design, nets@.to_set()),
        r is Err ==> !(r->Err_0 is Congestion),
{
    raise_penalties(
        &mut state.wire_penalty,
        &state.wire_usage,
        cfg.rip_up_penalty,
        Ghost(ctx.design),
        Ghost(nets@),
    );
    let ghost start = *ctx;
    let ghost listed = list@.to_set();
    let ghost kept = nets@.to_set().difference(listed);
    proof {
        lemma_sharing_listed(ctx.design, nets@);
        assert forall|x: NetId| #[trigger] listed.contains(x) implies nets@.to_set().contains(x) by {
            let i = choose|i: int| 0 <= i < list@.len() && list@[i] == x;
            assert(nets@.contains(all_sharing(ctx.design, nets@)[i]));
        }
        assert(kept.union(listed) =~= nets@.to_set());
        assert forall|i: int| 0 <= i < list@.len() implies ctx.design.valid_net(#[trigger] list@[i])
            && !kept.contains(list@[i]) by {
            assert(list@.contains(list@[i]));
            assert(nets@.contains(list@[i]));
            let j = choose|j: int| 0 <= j < nets@.len() && nets@[j] == list@[i];
            assert(ctx.design.valid_net(nets@[j]));
        }
    }
    uncount_nets(ctx, list, &mut state.wire_usage, Ghost(kept));
    take_apart(ctx, list);
    let ghost mid = *ctx;
    proof {
        lemma_users_stay(start.design, listed, mid.design, kept, state.wire_usage@);
        assert forall|i: int| 0 <= i < list@.len() implies ctx.design.valid_net(#[trigger] list@[i])
            && !kept.contains(list@[i]) by {
            assert(start.design.valid_net(list@[i]));
        }
    }
    let r = plan_and_take(ctx, cfg, list, state, Ghost(kept));
    proof {
        lemma_within_self(start, nets@.to_set());
        lemma_within_more(start, nets@.to_set(), start, listed, mid);
        lemma_within_more(start, nets@.to_set(), mid, listed, *ctx);
    }
    r
}

proof fn lemma_within_self(a: Context, nets: Set<NetId>)
    ensures
        within(a, nets, a),
{
}

impl Router1 {
    /// What the router needs of its configuration: no negative penalty, and a lookahead in order.
    pub open spec fn config_in_order(cfg: Router1Cfg) -> bool {
        cfg.rip_up_penalty >= 0 && (cfg.lookahead is Some ==> cfg.lookahead->0.wf())
    }
}

/// Routes the nets of a list, each of which stands once, in rounds.
fn route_in_rounds(ctx: &mut Context, cfg: &Router1Cfg, nets: &Vec<NetId>) -> (r: Result<(), RouterError>)
    requires
        old(ctx).wf(),
        Router1::config_in_order(*cfg),
        nets@.no_duplicates(),
        forall|i: int| 0 <= i < nets@.len() ==> old(ctx).design.valid_net(#[trigger] nets@[i]),
    ensures
        final(ctx).wf(),
        within(*old(ctx), nets@.to_set(), *final(ctx)),
        rounds_done(*old(ctx), nets@, *cfg, r, *final(ctx)),
{
    let mut state = Router1State::new();
    let ghost empty = Set::<NetId>::empty();
    proof {
        assert forall|w: WireId| (#[trigger] users_of(ctx.design, empty, w)).len() == 0 by {
            assert(users_of(ctx.design, empty, w) =~= empty);
        }
        assert(counts_users(state.wire_usage@, ctx.design, empty));
        assert(empty.union(nets@.to_set()) =~= nets@.to_set());
    }
    match plan_and_take(ctx, cfg, nets, &mut state, Ghost(empty)) {
        Ok(_) => {},
        Err(e) => {
            return Err(e);
        },
    }
    proof {
        lemma_first_rounds(*old(ctx), nets@, *cfg, *ctx, state.wire_penalty@);
    }
    for iter in 0..cfg.max_iterations
        invariant
            Router1::config_in_order(*cfg),
            old(ctx).wf(),
            ctx.wf(),
            nets@.no_duplicates(),
            forall|i: int| 0 <= i < nets@.len() ==> old(ctx).design.valid_net(#[trigger] nets@[i]),
            within(*old(ctx), nets@.to_set(), *ctx),
            penalties_ok(state.wire_penalty@),
            counts_users(state.wire_usage@, ctx.design, nets@.to_set()),
            after_rounds(*old(ctx), nets@, *cfg, iter as int, *ctx, state.wire_penalty@),
    {
        let ghost mid = *ctx;
        let ghost pen = state.wire_penalty@;
        assert forall|i: int| 0 <= i < nets@.len() implies ctx.design.valid_net(#[trigger] nets@[i]) by {
            assert(old(ctx).design.valid_net(nets@[i]));
        }
        let list = nets_touching(&ctx.design, &state.wire_usage, nets);
        proof {
            lemma_sharing_is_touching(
                ctx.design,
                state.wire_usage@,
                nets@,
                nets@.len() as int,
            );
        }
        if list.len() == 0 {
            return Ok(());
        }
        match make_round(ctx, cfg, nets, &list, &mut state) {
            Ok(_) => {
                proof {
                    lemma_within_more(*old(ctx), nets@.to_set(), mid, nets@.to_set(), *ctx);
                    lemma_more_rounds(
                        *old(ctx),
                        nets@,
                        *cfg,
                        iter as int,
                        mid,
                        pen,
                        *ctx,
                        state.wire_penalty@,
                    );
                }
            },
            Err(e) => {
                proof {
                    lemma_within_more(*old(ctx), nets@.to_set(), mid, nets@.to_set(), *ctx);
                    assert(planning_failed(*old(ctx), nets@, *cfg, iter as int, mid, pen, e, *ctx));
                }
                return Err(e);
            },
        }
    }
    assert forall|i: int| 0 <= i < nets@.len() implies ctx.design.valid_net(#[trigger] nets@[i]) by {
        assert(old(ctx).design.valid_net(nets@[i]));
    }
    let remaining = nets_touching(&ctx.design, &state.wire_usage, nets);
    proof {
        lemma_sharing_is_touching(ctx.design, state.wire_usage@, nets@, nets@.len() as int);
    }
    if remaining.len() == 0 {
        Ok(())
    } else {
        Err(RouterError::Congestion(cfg.max_iterations, remaining.len()))
    }
}

impl Router for Router1 {
    type Config = Router1Cfg;

    open spec fn config_ok(cfg: &Router1Cfg) -> bool {
        Router1::config_in_order(*cfg)
    }

    open spec fn net_done(
        &self,
        cfg: &Router1Cfg,
        old_ctx: Context,
        net: NetId,
        r: Result<(), RouterError>,
        new: Context,
    ) -> bool {
        net_routed(old_ctx, net, Map::<WireId, DelayT>::empty(), cfg.bb_margin, None, r, new)
    }

    /// Routes all nets that take part in routing, in rounds.
    fn route(&self, ctx: &mut Context, cfg: &Router1Cfg) -> (r: Result<(), RouterError>)
        ensures
            within(
                *old(ctx),
                routable_upto(old(ctx).design, old(ctx).design.nets@.len() as int).to_set(),
                *final(ctx),
            ),
            rounds_done(
                *old(ctx),
                routable_upto(old(ctx).design, old(ctx).design.nets@.len() as int),
                *cfg,
                r,
                *final(ctx),
            ),
    {
        let nets = collect_routable_nets(ctx);
        proof {
            lemma_routable_upto(ctx.design, ctx.design.nets@.len() as int, NetId(0));
            lemma_firsts(nets@, nets@.len() as int);
            assert(nets@.take(nets@.len() as int) =~= nets@);
        }
        self.route_nets(ctx, cfg, &nets)
    }

    /// Routes one net, with no penalties and without a lookahead.
    fn route_net(&self, ctx: &mut Context, cfg: &Router1Cfg, net: NetId) -> (r: Result<(), RouterError>)
        ensures
            net_routed(
                *old(ctx),
                net,
                Map::<WireId, DelayT>::empty(),
                cfg.bb_margin,
                None,
                r,
                *final(ctx),
            ),
    {
        let none: IdMap<WireId, DelayT> = IdMap::new();
        route_within(ctx, net, &none, cfg.bb_margin)
    }

    /// Routes a set of nets in rounds; a net that the list names twice is one net of the set.
    fn route_nets(&self, ctx: &mut Context, cfg: &Router1Cfg, nets: &Vec<NetId>) -> (r: Result<
        (),
        RouterError,
    >)
        ensures
            within(*old(ctx), nets@.to_set(), *final(ctx)),
            rounds_done(*old(ctx), firsts(nets@), *cfg, r, *final(ctx)),
    {
        let once = distinct_nets(nets);
        proof {
            assert forall|i: int| 0 <= i < once@.len() implies ctx.design.valid_net(#[trigger] once@[i]) by {
                assert(once@.to_set().contains(once@[i]));
                assert(nets@.contains(once@[i]));
            }
        }
        route_in_rounds(ctx, cfg, &once)
    }
}

} // verus!
