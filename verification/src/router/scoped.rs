//! Routing a net by making room for it, within bounds.

use crate::chipdb::{PipId, WireId};
use crate::context::Context;
use crate::ids::IdMap;
use crate::metrics::{compute_bbox, net_box, BoundingBox};
use crate::netlist::{Design, NetId, PipMap};
use crate::router::attempt::{add_conductor, conducted};
use crate::router::common::{collect_sink_wires, resolve_source_wire, sinks_upto};
use crate::router::graph::WireSet;
use crate::router::lookahead::Lookahead;
use crate::router::maze::penalties_ok;
use crate::router::negotiation::{bumped, NegotiationState};
use crate::router::region::measurable;
use crate::router::ripup::{
    astar_route_bound, astar_route_explore, detour_found, reroute_from_scratch, rerouted_from_scratch,
    restore_nets, ripped_up, ripup_net_with_equivs, same_routing, snapshot_nets, source_tree,
    EXPLORE_BBOX_MARGIN_MIN, EXPLORE_BBOX_SPAN_MULT, EXPLORE_VISIT_LIMIT, RIPUP_REROUTE_LIMIT,
    SCOPED_RIPUP_RETRY_LIMIT,
};
use crate::timing::delay::DelayT;
use vstd::prelude::*;

verus! {

/// The margin around a net that spans so many tiles.
pub open spec fn margin_for(span: int) -> int {
    let m = if span * EXPLORE_BBOX_SPAN_MULT > EXPLORE_BBOX_MARGIN_MIN {
        span * EXPLORE_BBOX_SPAN_MULT
    } else {
        EXPLORE_BBOX_MARGIN_MIN as int
    };
    if m > i32::MAX {
        i32::MAX as int
    } else {
        m
    }
}

/// How many tiles a rectangle spans in its longer direction.
pub open spec fn span_of(b: BoundingBox) -> int {
    let dx = b.x1 - b.x0;
    let dy = b.y1 - b.y0;
    let d = if dx > dy {
        dx
    } else {
        dy
    };
    if d > 0 {
        d
    } else {
        0
    }
}

/// The rectangle in which room is made for a net.
pub open spec fn explore_box(ctx: Context, net: NetId) -> BoundingBox {
    net_box(ctx, net, margin_for(span_of(net_box(ctx, net, 0))))
}

/// The margin around a net that spans so many tiles: at least a fixed one.
pub fn explore_margin(span: i32) -> (r: i32)
    requires
        span >= 0,
    ensures
        r == margin_for(span as int),
{
    assert(0 <= span * EXPLORE_BBOX_SPAN_MULT <= i32::MAX * 3) by (nonlinear_arith)
        requires
            0 <= span <= i32::MAX,
            EXPLORE_BBOX_SPAN_MULT == 3,
    ;
    let m: i64 = span as i64 * EXPLORE_BBOX_SPAN_MULT as i64;
    if m <= EXPLORE_BBOX_MARGIN_MIN as i64 {
        EXPLORE_BBOX_MARGIN_MIN
    } else if m > i32::MAX as i64 {
        i32::MAX
    } else {
        m as i32
    }
}

/// The rectangle in which room is made for a net.
pub fn explore_bbox(ctx: &Context, net: NetId) -> (r: BoundingBox)
    requires
        ctx.wf(),
        ctx.design.valid_net(net),
    ensures
        r == explore_box(*ctx, net),
        measurable(r),
{
    let b = compute_bbox(ctx, net, 0);
    let dx: i32 = b.x1 - b.x0;
    let dy: i32 = b.y1 - b.y0;
    let d: i32 = if dx > dy {
        dx
    } else {
        dy
    };
    let span: i32 = if d > 0 {
        d
    } else {
        0
    };
    compute_bbox(ctx, net, explore_margin(span))
}

/// Another net that holds a wire of a conductor along the path.
pub open spec fn in_the_way(ctx: Context, net: NetId, path: Seq<PipId>, other: NetId) -> bool {
    other != net && exists|x: WireId| #[trigger]
        conducted(ctx, path).contains(x) && ctx.owner(x) == Some(other)
}

/// The nets that hold a wire of a conductor along the path, each once.
pub fn blockers_on(ctx: &Context, net: NetId, path: &Vec<PipId>) -> (r: Vec<NetId>)
    requires
        ctx.wf(),
        forall|i: int| 0 <= i < path@.len() ==> ctx.chipdb.valid_pip(#[trigger] path@[i]),
    ensures
        r@.no_duplicates(),
        forall|n: NetId| #[trigger] r@.contains(n) <==> in_the_way(*ctx, net, path@, n),
        forall|i: int| 0 <= i < r@.len() ==> ctx.design.valid_net(#[trigger] r@[i]) && r@[i] != net,
{
    let mut out: Vec<NetId> = Vec::new();
    let mut seen: IdMap<NetId, ()> = IdMap::new();
    for i in 0..path.len()
        invariant
            ctx.wf(),
            forall|i: int| 0 <= i < path@.len() ==> ctx.chipdb.valid_pip(#[trigger] path@[i]),
            out@.no_duplicates(),
            forall|n: NetId| #[trigger] seen@.contains_key(n) <==> out@.contains(n),
            forall|n: NetId| #[trigger] out@.contains(n) <==> in_the_way(*ctx, net, path@.take(i as int), n),
            forall|j: int| 0 <= j < out@.len() ==> ctx.design.valid_net(#[trigger] out@[j]) && out@[j] != net,
    {
        assert(ctx.chipdb.valid_pip(path@[i as int]));
        let w: WireId = ctx.chipdb.pip_dst_wire(path[i]);
        let wires = ctx.conductor(w);
        let ghost part = path@.take(i as int);
        let ghost whole = path@.take(i + 1);
        for k in 0..wires.len()
            invariant
                ctx.wf(),
                wires@ == ctx.conductor_of(w),
                out@.no_duplicates(),
                forall|n: NetId| #[trigger] seen@.contains_key(n) <==> out@.contains(n),
                forall|n: NetId| #[trigger]
                    out@.contains(n) <==> in_the_way(*ctx, net, part, n) || (n != net && exists|q: int|
                        0 <= q < k && ctx.owner(#[trigger] wires@[q]) == Some(n)),
                forall|j: int|
                    0 <= j < out@.len() ==> ctx.design.valid_net(#[trigger] out@[j]) && out@[j] != net,
        {
            let ghost before = out@;
            let ghost mut added: Option<NetId> = None;
            if let Some(b) = ctx.wire_binding(wires[k]) {
                assert(ctx.wire_bindings@.contains_key(wires@[k as int]));
                if b.net != net && !seen.contains_key(b.net) {
                    out.push(b.net);
                    let _ = seen.insert(b.net, ());
                    proof {
                        added = Some(b.net);
                        assert(out@[before.len() as int] == b.net);
                    }
                }
            }
            proof {
                assert forall|n: NetId| #[trigger] out@.contains(n) <==> before.contains(n) || added == Some(
                    n,
                ) by {
                    if before.contains(n) {
                        let j = choose|j: int| 0 <= j < before.len() && before[j] == n;
                        assert(out@[j] == n);
                    }
                }
                assert forall|n: NetId| #[trigger] out@.contains(n) <==> in_the_way(*ctx, net, part, n) || (n
                    != net && exists|q: int|
                    0 <= q < k + 1 && ctx.owner(#[trigger] wires@[q]) == Some(n)) by {
                    if ctx.owner(wires@[k as int]) == Some(n) && n != net {
                        assert(out@.contains(n));
                    }
                    if out@.contains(n) && added == Some(n) {
                        assert(ctx.owner(wires@[k as int]) == Some(n));
                    }
                }
            }
        }
        proof {
            assert forall|x: WireId| #[trigger] conducted(*ctx, whole).contains(x) <==> conducted(
                *ctx,
                part,
            ).contains(x) || wires@.contains(x) by {
                if conducted(*ctx, part).contains(x) {
                    let j = choose|j: int|
                        0 <= j < part.len() && ctx.conductor_of(ctx.chipdb.dst(#[trigger] part[j])).contains(x);
                    assert(whole[j] == part[j]);
                }
                if wires@.contains(x) {
                    assert(whole[i as int] == path@[i as int]);
                }
                if conducted(*ctx, whole).contains(x) {
                    let j = choose|j: int|
                        0 <= j < whole.len() && ctx.conductor_of(ctx.chipdb.dst(#[trigger] whole[j])).contains(
                            x,
                        );
                    if j < i {
                        assert(part[j] == whole[j]);
                    }
                }
            }
            assert forall|n: NetId| #[trigger] out@.contains(n) <==> in_the_way(*ctx, net, whole, n) by {
                if in_the_way(*ctx, net, part, n) {
                    let x = choose|x: WireId| #[trigger]
                        conducted(*ctx, part).contains(x) && ctx.owner(x) == Some(n);
                    assert(conducted(*ctx, whole).contains(x));
                }
                if n != net && exists|q: int|
                    0 <= q < wires@.len() && ctx.owner(#[trigger] wires@[q]) == Some(n) {
                    let q = choose|q: int|
                        0 <= q < wires@.len() && ctx.owner(#[trigger] wires@[q]) == Some(n);
                    assert(wires@.contains(wires@[q]));
                    assert(conducted(*ctx, whole).contains(wires@[q]));
                }
                if in_the_way(*ctx, net, whole, n) {
                    let x = choose|x: WireId| #[trigger]
                        conducted(*ctx, whole).contains(x) && ctx.owner(x) == Some(n);
                    if !conducted(*ctx, part).contains(x) {
                        let q = choose|q: int| 0 <= q < wires@.len() && wires@[q] == x;
                        assert(ctx.owner(wires@[q]) == Some(n));
                    }
                }
            }
        }
    }
    proof {
        assert(path@.take(path@.len() as int) =~= path@);
    }
    out
}

/// Taking the net at a position apart leads from one state of a trail to the next.
pub open spec fn ripped_at(trail: Seq<Context>, nets: Seq<NetId>, i: int) -> bool {
    ripped_up(trail[i], nets[i], trail[i + 1])
}

/// The states that taking the first `k` nets of a list apart leads through.
pub open spec fn ripped_along(trail: Seq<Context>, nets: Seq<NetId>, k: int) -> bool {
    &&& trail.len() == k + 1
    &&& forall|i: int| 0 <= i < k ==> #[trigger] ripped_at(trail, nets, i)
}

/// `new` is `old` after all nets of a list were taken apart.
pub open spec fn all_ripped(old_ctx: Context, nets: Seq<NetId>, k: int, new: Context) -> bool {
    exists|trail: Seq<Context>| #[trigger]
        ripped_along(trail, nets, k) && trail[0] == old_ctx && trail[k] == new
}

proof fn lemma_none_ripped(ctx: Context, nets: Seq<NetId>)
    ensures
        all_ripped(ctx, nets, 0, ctx),
{
    assert(ripped_along(seq![ctx], nets, 0));
}

proof fn lemma_ripped_more(old_ctx: Context, nets: Seq<NetId>, k: int, mid: Context, new: Context)
    requires
        0 <= k < nets.len(),
        all_ripped(old_ctx, nets, k, mid),
        ripped_up(mid, nets[k], new),
    ensures
        all_ripped(old_ctx, nets, k + 1, new),
{
    let trail = choose|trail: Seq<Context>| #[trigger]
        ripped_along(trail, nets, k) && trail[0] == old_ctx && trail[k] == mid;
    let more = trail.push(new);
    assert forall|i: int| 0 <= i < k + 1 implies #[trigger] ripped_at(more, nets, i) by {
        if i < k {
            assert(ripped_at(trail, nets, i));
        }
    }
    assert(ripped_along(more, nets, k + 1));
}

/// The counts after the first `k` nets of a list were taken apart once more.
pub open spec fn bumped_upto(counts: Map<NetId, u32>, nets: Seq<NetId>, k: int) -> Map<NetId, u32>
    decreases k,
{
    if k <= 0 {
        counts
    } else {
        bumped(bumped_upto(counts, nets, k - 1), nets[k - 1])
    }
}

/// Takes the nets of a list apart and notes that.
fn rip_up_all(ctx: &mut Context, nets: &Vec<NetId>, state: &mut NegotiationState)
    requires
        old(ctx).wf(),
        forall|i: int| 0 <= i < nets@.len() ==> old(ctx).design.valid_net(#[trigger] nets@[i]),
    ensures
        final(ctx).wf(),
        final(ctx).same_base(*old(ctx)),
        old(ctx).design.rerouted_within(nets@.to_set(), final(ctx).design),
        all_ripped(*old(ctx), nets@, nets@.len() as int, *final(ctx)),
        final(state).rip_up_count@ == bumped_upto(old(state).rip_up_count@, nets@, nets@.len() as int),
        final(state).cfg == old(state).cfg,
        final(state).wire_usage == old(state).wire_usage,
        final(state).wire_owner == old(state).wire_owner,
        final(state).ever_seen_partial == old(state).ever_seen_partial,
{
    proof {
        lemma_none_ripped(*ctx, nets@);
    }
    for k in 0..nets.len()
        invariant
            ctx.wf(),
            ctx.same_base(*old(ctx)),
            forall|i: int| 0 <= i < nets@.len() ==> old(ctx).design.valid_net(#[trigger] nets@[i]),
            old(ctx).design.rerouted_within(nets@.to_set(), ctx.design),
            all_ripped(*old(ctx), nets@, k as int, *ctx),
            state.rip_up_count@ == bumped_upto(old(state).rip_up_count@, nets@, k as int),
            state.cfg == old(state).cfg,
            state.wire_usage == old(state).wire_usage,
            state.wire_owner == old(state).wire_owner,
            state.ever_seen_partial == old(state).ever_seen_partial,
    {
        let net: NetId = nets[k];
        let ghost mid = *ctx;
        proof {
            assert(old(ctx).design.valid_net(nets@[k as int]));
            assert(nets@.contains(nets@[k as int]));
        }
        ripup_net_with_equivs(ctx, net);
        state.bump_rip_up(net);
        proof {
            old(ctx).design.lemma_reroute_one(
                nets@.to_set(),
                mid.design,
                net,
                Map::<WireId, PipMap>::empty(),
                ctx.design,
            );
            lemma_ripped_more(*old(ctx), nets@, k as int, mid, *ctx);
        }
    }
}

/// Routing the net at a position from its source leads from one state of a trail to the next.
pub open spec fn back_at(
    trail: Seq<Context>,
    nets: Seq<NetId>,
    pen: Map<WireId, DelayT>,
    la: Lookahead,
    i: int,
) -> bool {
    rerouted_from_scratch(
        trail[i],
        nets[i],
        pen,
        la,
        RIPUP_REROUTE_LIMIT,
        Some(explore_box(trail[i], nets[i])),
        true,
        trail[i + 1],
    )
}

/// The states that routing the first `k` nets of a list again leads through.
pub open spec fn back_along(
    trail: Seq<Context>,
    nets: Seq<NetId>,
    pen: Map<WireId, DelayT>,
    la: Lookahead,
    k: int,
) -> bool {
    &&& trail.len() == k + 1
    &&& forall|i: int| 0 <= i < k ==> #[trigger] back_at(trail, nets, pen, la, i)
}

/// `new` is `old` after the first `k` nets of a list were routed again.
pub open spec fn routed_back(
    old_ctx: Context,
    nets: Seq<NetId>,
    pen: Map<WireId, DelayT>,
    la: Lookahead,
    k: int,
    new: Context,
) -> bool {
    exists|trail: Seq<Context>| #[trigger]
        back_along(trail, nets, pen, la, k) && trail[0] == old_ctx && trail[k] == new
}

/// The net after the first `k` of a list could not be routed again.
pub open spec fn stuck_at(
    old_ctx: Context,
    nets: Seq<NetId>,
    pen: Map<WireId, DelayT>,
    la: Lookahead,
    k: int,
    mid: Context,
) -> bool {
    &&& 0 <= k < nets.len()
    &&& routed_back(old_ctx, nets, pen, la, k, mid)
    &&& rerouted_from_scratch(
        mid,
        nets[k],
        pen,
        la,
        RIPUP_REROUTE_LIMIT,
        Some(explore_box(mid, nets[k])),
        false,
        mid,
    )
}

proof fn lemma_none_back(ctx: Context, nets: Seq<NetId>, pen: Map<WireId, DelayT>, la: Lookahead)
    ensures
        routed_back(ctx, nets, pen, la, 0, ctx),
{
    assert(back_along(seq![ctx], nets, pen, la, 0));
}

proof fn lemma_back_more(
    old_ctx: Context,
    nets: Seq<NetId>,
    pen: Map<WireId, DelayT>,
    la: Lookahead,
    k: int,
    mid: Context,
    new: Context,
)
    requires
        0 <= k < nets.len(),
        routed_back(old_ctx, nets, pen, la, k, mid),
        rerouted_from_scratch(
            mid,
            nets[k],
            pen,
            la,
            RIPUP_REROUTE_LIMIT,
            Some(explore_box(mid, nets[k])),
            true,
            new,
        ),
    ensures
        routed_back(old_ctx, nets, pen, la, k + 1, new),
{
    let trail = choose|trail: Seq<Context>| #[trigger]
        back_along(trail, nets, pen, la, k) && trail[0] == old_ctx && trail[k] == mid;
    let more = trail.push(new);
    assert forall|i: int| 0 <= i < k + 1 implies #[trigger] back_at(more, nets, pen, la, i) by {
        if i < k {
            assert(back_at(trail, nets, pen, la, i));
        }
    }
    assert(back_along(more, nets, pen, la, k + 1));
}

/// Routes the nets of a list again, up to the first that cannot be.
fn route_back(
    ctx: &mut Context,
    nets: &Vec<NetId>,
    wire_penalty: &IdMap<WireId, DelayT>,
    lookahead: &Lookahead,
) -> (r: bool)
    requires
        old(ctx).wf(),
        penalties_ok(wire_penalty@),
        lookahead.wf(),
        forall|i: int| 0 <= i < nets@.len() ==> old(ctx).design.valid_net(#[trigger] nets@[i]),
    ensures
        final(ctx).wf(),
        final(ctx).same_base(*old(ctx)),
        old(ctx).design.rerouted_within(nets@.to_set(), final(ctx).design),
        if r {
            routed_back(
                *old(ctx),
                nets@,
                wire_penalty@,
                *lookahead,
                nets@.len() as int,
                *final(ctx),
            )
        } else {
            exists|k: int, mid: Context| #[trigger]
                stuck_at(*old(ctx), nets@, wire_penalty@, *lookahead, k, mid)
        },
{
    proof {
        lemma_none_back(*ctx, nets@, wire_penalty@, *lookahead);
    }
    for k in 0..nets.len()
        invariant
            ctx.wf(),
            ctx.same_base(*old(ctx)),
            penalties_ok(wire_penalty@),
            lookahead.wf(),
            forall|i: int| 0 <= i < nets@.len() ==> old(ctx).design.valid_net(#[trigger] nets@[i]),
            old(ctx).design.rerouted_within(nets@.to_set(), ctx.design),
            routed_back(*old(ctx), nets@, wire_penalty@, *lookahead, k as int, *ctx),
    {
        let net: NetId = nets[k];
        let ghost mid = *ctx;
        proof {
            assert(old(ctx).design.valid_net(nets@[k as int]));
            assert(nets@.contains(nets@[k as int]));
        }
        let bbox = explore_bbox(ctx, net);
        let ok: bool = reroute_from_scratch(
            ctx,
            net,
            wire_penalty,
            lookahead,
            RIPUP_REROUTE_LIMIT,
            Some(bbox),
        );
        proof {
            let wires = choose|wires: Map<WireId, PipMap>| #[trigger]
                mid.design.rerouted(net, wires, ctx.design);
            old(ctx).design.lemma_reroute_one(nets@.to_set(), mid.design, net, wires, ctx.design);
        }
        if !ok {
            proof {
                assert(*ctx == mid);
                assert(stuck_at(*old(ctx), nets@, wire_penalty@, *lookahead, k as int, mid));
            }
            return false;
        }
        proof {
            lemma_back_more(*old(ctx), nets@, wire_penalty@, *lookahead, k as int, mid, *ctx);
        }
    }
    true
}

/// What making room for a net gives once the nets in its way are known: they are taken apart, the
/// net is routed, and they are routed again; if any of that fails, the routing is as it was.
pub open spec fn room_made(
    old_ctx: Context,
    net: NetId,
    list: Seq<NetId>,
    pen: Map<WireId, DelayT>,
    la: Lookahead,
    r: bool,
    new: Context,
) -> bool {
    exists|cleared: Context| #[trigger]
        all_ripped(old_ctx, list, list.len() as int, cleared) && room_used(
            old_ctx,
            net,
            list,
            pen,
            la,
            cleared,
            r,
            new,
        )
}

/// What comes of the room that was made.
pub open spec fn room_used(
    old_ctx: Context,
    net: NetId,
    list: Seq<NetId>,
    pen: Map<WireId, DelayT>,
    la: Lookahead,
    cleared: Context,
    r: bool,
    new: Context,
) -> bool {
    let bbox = Some(explore_box(old_ctx, net));
    ||| {
        &&& rerouted_from_scratch(
            cleared,
            net,
            pen,
            la,
            SCOPED_RIPUP_RETRY_LIMIT,
            bbox,
            false,
            cleared,
        )
        &&& !r
        &&& same_routing(old_ctx, new)
    }
    ||| exists|placed: Context|
        {
            &&& #[trigger] rerouted_from_scratch(
                cleared,
                net,
                pen,
                la,
                SCOPED_RIPUP_RETRY_LIMIT,
                bbox,
                true,
                placed,
            )
            &&& if r {
                routed_back(placed, list, pen, la, list.len() as int, new)
            } else {
                &&& same_routing(old_ctx, new)
                &&& exists|k: int, mid: Context| #[trigger] stuck_at(placed, list, pen, la, k, mid)
            }
        }
}

/// Takes the nets in the way apart, routes the net, and routes them again; if any of that fails,
/// everything is put back.
#[verifier::rlimit(60)]
#[verifier::spinoff_prover]
fn make_room(
    ctx: &mut Context,
    net: NetId,
    list: &Vec<NetId>,
    wire_penalty: &IdMap<WireId, DelayT>,
    lookahead: &Lookahead,
    bbox: BoundingBox,
    state: &mut NegotiationState,
) -> (r: bool)
    requires
        old(ctx).wf(),
        old(ctx).design.valid_net(net),
        penalties_ok(wire_penalty@),
        lookahead.wf(),
        list@.no_duplicates(),
        forall|i: int| 0 <= i < list@.len() ==> old(ctx).design.valid_net(#[trigger] list@[i]),
        bbox == explore_box(*old(ctx), net),
        measurable(bbox),
    ensures
        final(ctx).wf(),
        final(ctx).same_base(*old(ctx)),
        old(ctx).design.rerouted_within(list@.to_set().insert(net), final(ctx).design),
        room_made(*old(ctx), net, list@, wire_penalty@, *lookahead, r, *final(ctx)),
        final(state).rip_up_count@ == bumped_upto(old(state).rip_up_count@, list@, list@.len() as int),
        final(state).cfg == old(state).cfg,
        final(state).wire_usage == old(state).wire_usage,
        final(state).wire_owner == old(state).wire_owner,
        final(state).ever_seen_partial == old(state).ever_seen_partial,
{
    let ghost start = *ctx;
    let ghost touched = list@.to_set().insert(net);
    let mut affected: Vec<NetId> = Vec::new();
    affected.push(net);
    for i in 0..list.len()
        invariant
            affected@ == seq![net] + list@.take(i as int),
    {
        affected.push(list[i]);
        assert(affected@ =~= seq![net] + list@.take(i + 1));
    }
    proof {
        assert(list@.take(list@.len() as int) =~= list@);
        assert forall|i: int| 0 <= i < affected@.len() implies ctx.design.valid_net(#[trigger] affected@[i]) by {
            if i > 0 {
                assert(affected@[i] == list@[i - 1]);
            }
        }
        assert forall|x: NetId| #[trigger] affected@.to_set().contains(x) <==> touched.contains(x) by {
            if affected@.contains(x) {
                let i = choose|i: int| 0 <= i < affected@.len() && affected@[i] == x;
                if i > 0 {
                    assert(list@[i - 1] == x);
                    assert(list@.contains(x));
                }
            }
            if list@.contains(x) {
                let i = choose|i: int| 0 <= i < list@.len() && list@[i] == x;
                assert(affected@[i + 1] == x);
            }
            if x == net {
                assert(affected@[0] == x);
            }
        }
        assert(affected@.to_set() =~= touched);
    }
    let snap = snapshot_nets(ctx, &affected);
    rip_up_all(ctx, list, state);
    let ghost cleared = *ctx;
    proof {
        assert forall|i: int| 0 <= i < list@.len() implies ctx.design.valid_net(#[trigger] list@[i]) by {
            assert(start.design.valid_net(list@[i]));
        }
        lemma_within_self(start.design, touched);
        lemma_within_step(start.design, touched, start.design, list@.to_set(), cleared.design);
    }
    let placed: bool = reroute_from_scratch(
        ctx,
        net,
        wire_penalty,
        lookahead,
        SCOPED_RIPUP_RETRY_LIMIT,
        Some(bbox),
    );
    let ghost mid = *ctx;
    proof {
        let wires = choose|wires: Map<WireId, PipMap>| #[trigger]
            cleared.design.rerouted(net, wires, mid.design);
        start.design.lemma_reroute_one(touched, cleared.design, net, wires, mid.design);
    }
    if !placed {
        proof {
            assert(mid == cleared);
        }
        restore_nets(ctx, snap, Ghost(start));
        proof {
            assert(room_used(start, net, list@, wire_penalty@, *lookahead, cleared, false, *ctx));
        }
        return false;
    }
    let back: bool = route_back(ctx, list, wire_penalty, lookahead);
    proof {
        lemma_within_step(start.design, touched, mid.design, list@.to_set(), ctx.design);
    }
    if !back {
        restore_nets(ctx, snap, Ghost(start));
        proof {
            assert(room_used(start, net, list@, wire_penalty@, *lookahead, cleared, false, *ctx));
        }
        return false;
    }
    proof {
        assert(room_used(start, net, list@, wire_penalty@, *lookahead, cleared, true, *ctx));
    }
    true
}

proof fn lemma_within_self(d: Design, nets: Set<NetId>)
    ensures
        d.rerouted_within(nets, d),
{
}

proof fn lemma_within_step(a: Design, nets: Set<NetId>, b: Design, part: Set<NetId>, c: Design)
    requires
        a.rerouted_within(nets, b),
        b.rerouted_within(part, c),
        part.subset_of(nets),
    ensures
        a.rerouted_within(nets, c),
{
    assert forall|i: int| 0 <= i < a.nets@.len() implies a.nets@[i].with_wires(
        (#[trigger] c.nets@[i]).wires@,
        c.nets@[i],
    ) by {
        assert(a.nets@[i].with_wires(b.nets@[i].wires@, b.nets@[i]));
    }
    assert forall|i: int|
        0 <= i < a.nets@.len() && !nets.contains(NetId(i as u32)) implies #[trigger] c.nets@[i]
        == a.nets@[i] by {
        assert(!part.contains(NetId(i as u32)));
        assert(b.nets@[i] == a.nets@[i]);
    }
}

/// The list holds the nets in the way, each once.
pub open spec fn lists_blockers(ctx: Context, net: NetId, path: Seq<PipId>, list: Seq<NetId>) -> bool {
    &&& list.no_duplicates()
    &&& forall|n: NetId| #[trigger] list.contains(n) <==> in_the_way(ctx, net, path, n)
}

/// Nothing was done.
pub open spec fn left_alone(
    old_ctx: Context,
    counts: Map<NetId, u32>,
    r: bool,
    spent: bool,
    new: Context,
    new_counts: Map<NetId, u32>,
) -> bool {
    !r && !spent && new == old_ctx && new_counts == counts
}

/// Room was made for the net, or it was tried.
pub open spec fn room_tried(
    old_ctx: Context,
    counts: Map<NetId, u32>,
    net: NetId,
    pen: Map<WireId, DelayT>,
    la: Lookahead,
    list: Seq<NetId>,
    r: bool,
    spent: bool,
    new: Context,
    new_counts: Map<NetId, u32>,
) -> bool {
    &&& room_made(old_ctx, net, list, pen, la, r, new)
    &&& new_counts == bumped_upto(counts, list, list.len() as int)
    &&& spent == r
}

/// What is done when nets are in the way: a detour is taken if there is one and the net can be
/// routed without moving others, else room is made.
pub open spec fn way_found(
    old_ctx: Context,
    counts: Map<NetId, u32>,
    net: NetId,
    pen: Map<WireId, DelayT>,
    la: Lookahead,
    path: Seq<PipId>,
    detour: Option<Vec<PipId>>,
    r: bool,
    spent: bool,
    new: Context,
    new_counts: Map<NetId, u32>,
) -> bool {
    let bbox = Some(explore_box(old_ctx, net));
    ||| {
        &&& detour is Some
        &&& rerouted_from_scratch(old_ctx, net, pen, la, SCOPED_RIPUP_RETRY_LIMIT, bbox, true, new)
        &&& r && !spent && new_counts == counts
    }
    ||| {
        &&& detour is Some ==> rerouted_from_scratch(
            old_ctx,
            net,
            pen,
            la,
            SCOPED_RIPUP_RETRY_LIMIT,
            bbox,
            false,
            old_ctx,
        )
        &&& exists|list: Seq<NetId>| #[trigger]
            lists_blockers(old_ctx, net, path, list) && room_tried(
                old_ctx,
                counts,
                net,
                pen,
                la,
                list,
                r,
                spent,
                new,
                new_counts,
            )
    }
}

/// What follows from the path that the exploring search found.
pub open spec fn explored(
    old_ctx: Context,
    counts: Map<NetId, u32>,
    net: NetId,
    source: WireId,
    sink: WireId,
    pen: Map<WireId, DelayT>,
    la: Lookahead,
    path: Option<Vec<PipId>>,
    r: bool,
    spent: bool,
    new: Context,
    new_counts: Map<NetId, u32>,
) -> bool {
    match path {
        None => left_alone(old_ctx, counts, r, spent, new, new_counts),
        Some(pips) => if forall|n: NetId| !#[trigger] in_the_way(old_ctx, net, pips@, n) {
            left_alone(old_ctx, counts, r, spent, new, new_counts)
        } else {
            exists|detour: Option<Vec<PipId>>|
                {
                    &&& #[trigger] detour_found(
                        old_ctx,
                        net,
                        source_tree(old_ctx, source),
                        sink,
                        pen,
                        la,
                        None,
                        false,
                        Some(SCOPED_RIPUP_RETRY_LIMIT),
                        detour,
                    )
                    &&& way_found(
                        old_ctx,
                        counts,
                        net,
                        pen,
                        la,
                        pips@,
                        detour,
                        r,
                        spent,
                        new,
                        new_counts,
                    )
                }
        },
    }
}

/// What routing a net by making room gives. `spent` tells whether the budget was drawn on.
pub open spec fn scoped_done(
    old_ctx: Context,
    counts: Map<NetId, u32>,
    net: NetId,
    pen: Map<WireId, DelayT>,
    la: Lookahead,
    budget: u32,
    r: bool,
    spent: bool,
    new: Context,
    new_counts: Map<NetId, u32>,
) -> bool {
    let n = old_ctx.design.net_of(net);
    let source = old_ctx.wire_of_pin(n.driver);
    let sinks = sinks_upto(old_ctx, n.users@, n.users@.len() as int);
    if budget == 0 || !n.driver.connected() || source is None || sinks.len() == 0 {
        left_alone(old_ctx, counts, r, spent, new, new_counts)
    } else {
        exists|path: Option<Vec<PipId>>|
            {
                &&& #[trigger] detour_found(
                    old_ctx,
                    net,
                    source_tree(old_ctx, source->0),
                    sinks[0],
                    pen,
                    la,
                    Some(explore_box(old_ctx, net)),
                    true,
                    Some(EXPLORE_VISIT_LIMIT),
                    path,
                )
                &&& explored(
                    old_ctx,
                    counts,
                    net,
                    source->0,
                    sinks[0],
                    pen,
                    la,
                    path,
                    r,
                    spent,
                    new,
                    new_counts,
                )
            }
    }
}

/// Routes a net whose way is taken, by a detour or by making room for it. If that fails, the routing
/// is as it was.
#[verifier::rlimit(60)]
#[verifier::spinoff_prover]
pub fn scoped_ripup_route(
    ctx: &mut Context,
    net: NetId,
    wire_penalty: &IdMap<WireId, DelayT>,
    lookahead: &Lookahead,
    budget: &mut u32,
    state: &mut NegotiationState,
) -> (r: bool)
    requires
        old(ctx).wf(),
        old(ctx).design.valid_net(net),
        penalties_ok(wire_penalty@),
        lookahead.wf(),
    ensures
        final(ctx).wf(),
        final(ctx).same_base(*old(ctx)),
        final(ctx).design.nets@.len() == old(ctx).design.nets@.len(),
        !r ==> same_routing(*old(ctx), *final(ctx)),
        *final(budget) <= *old(budget),
        scoped_done(
            *old(ctx),
            old(state).rip_up_count@,
            net,
            wire_penalty@,
            *lookahead,
            *old(budget),
            r,
            *final(budget) + 1 == *old(budget),
            *final(ctx),
            final(state).rip_up_count@,
        ),
        *final(budget) == *old(budget) || *final(budget) + 1 == *old(budget),
        final(state).cfg == old(state).cfg,
        final(state).wire_usage == old(state).wire_usage,
        final(state).wire_owner == old(state).wire_owner,
        final(state).ever_seen_partial == old(state).ever_seen_partial,
{
    let ghost start = *ctx;
    let ghost counts = state.rip_up_count@;
    proof {
        lemma_same_self(start);
    }
    if *budget == 0 {
        return false;
    }
    let source: WireId = match resolve_source_wire(ctx, net) {
        Ok(Some(w)) => w,
        _ => {
            return false;
        },
    };
    let sinks = collect_sink_wires(ctx, net);
    if sinks.len() == 0 {
        return false;
    }
    let mut src_set: WireSet = IdMap::new();
    add_conductor(ctx, &mut src_set, source);
    assert(src_set@.dom() =~= source_tree(*ctx, source));
    let sink: WireId = sinks[0];
    assert(ctx.chipdb.valid_wire(sinks@[0]));
    let bbox = explore_bbox(ctx, net);
    let found = astar_route_explore(
        ctx,
        net,
        &src_set,
        sink,
        wire_penalty,
        Some(bbox),
        lookahead,
        Some(EXPLORE_VISIT_LIMIT),
    );
    let ghost path = found;
    let pips: Vec<PipId> = match found {
        Some(p) => p,
        None => {
            proof {
                assert(explored(
                    start,
                    counts,
                    net,
                    source,
                    sink,
                    wire_penalty@,
                    *lookahead,
                    path,
                    false,
                    false,
                    *ctx,
                    state.rip_up_count@,
                ));
            }
            return false;
        },
    };
    let list = blockers_on(ctx, net, &pips);
    if list.len() == 0 {
        proof {
            assert forall|n: NetId| !#[trigger] in_the_way(start, net, pips@, n) by {
                assert(!list@.contains(n));
            }
            assert(explored(
                start,
                counts,
                net,
                source,
                sink,
                wire_penalty@,
                *lookahead,
                path,
                false,
                false,
                *ctx,
                state.rip_up_count@,
            ));
        }
        return false;
    }
    proof {
        assert(list@.contains(list@[0]));
        assert(in_the_way(start, net, pips@, list@[0]));
    }
    let detour = astar_route_bound(
        ctx,
        net,
        &src_set,
        sink,
        wire_penalty,
        None,
        lookahead,
        Some(SCOPED_RIPUP_RETRY_LIMIT),
    );
    if detour.is_some() {
        let ok: bool = reroute_from_scratch(
            ctx,
            net,
            wire_penalty,
            lookahead,
            SCOPED_RIPUP_RETRY_LIMIT,
            Some(bbox),
        );
        if ok {
            proof {
                assert(way_found(
                    start,
                    counts,
                    net,
                    wire_penalty@,
                    *lookahead,
                    pips@,
                    detour,
                    true,
                    false,
                    *ctx,
                    counts,
                ));
                assert(explored(
                    start,
                    counts,
                    net,
                    source,
                    sink,
                    wire_penalty@,
                    *lookahead,
                    path,
                    true,
                    false,
                    *ctx,
                    counts,
                ));
            }
            return true;
        }
    }
    assert(*ctx == start);
    let ok: bool = make_room(ctx, net, &list, wire_penalty, lookahead, bbox, state);
    if ok {
        *budget = *budget - 1;
    }
    proof {
        assert(lists_blockers(start, net, pips@, list@));
        assert(room_tried(
            start,
            counts,
            net,
            wire_penalty@,
            *lookahead,
            list@,
            ok,
            ok,
            *ctx,
            state.rip_up_count@,
        ));
        assert(way_found(
            start,
            counts,
            net,
            wire_penalty@,
            *lookahead,
            pips@,
            detour,
            ok,
            ok,
            *ctx,
            state.rip_up_count@,
        ));
        assert(explored(
            start,
            counts,
            net,
            source,
            sink,
            wire_penalty@,
            *lookahead,
            path,
            ok,
            ok,
            *ctx,
            state.rip_up_count@,
        ));
    }
    ok
}

proof fn lemma_same_self(ctx: Context)
    ensures
        same_routing(ctx, ctx),
{
}

} // verus!
