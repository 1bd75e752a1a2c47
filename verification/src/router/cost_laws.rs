//! What the costs of the routers mean.

use crate::chipdb::{PipId, WireId};
use crate::context::Context;
use crate::router::graph::{path_ok, step_cost, PathCostModel};
use crate::router::maze::MazeCostModel;
use crate::router::raster_laws::held_by_another;
use crate::router::ripup::DetourCostModel;
use crate::router::router2::Router2CostModel;
use crate::router::segments::{LocalModel, SegmentCostModel};
use crate::timing::delay::{DelayQuad, DelayT};
use vstd::prelude::*;

verus! {

/// The number is the largest of the four of a delay.
pub open spec fn is_slowest(d: DelayQuad, t: int) -> bool {
    &&& d.rise.min_delay <= t
    &&& d.rise.max_delay <= t
    &&& d.fall.min_delay <= t
    &&& d.fall.max_delay <= t
    &&& d.rise.min_delay == t || d.rise.max_delay == t || d.fall.min_delay == t || d.fall.max_delay == t
}

/// The tiles of two wires lie so many columns and rows apart.
pub open spec fn lie_apart(ctx: Context, a: int, b: int, dx: int, dy: int) -> bool {
    let w = ctx.chipdb.width as int;
    &&& dx >= 0
    &&& dy >= 0
    &&& a % w - b % w == dx || b % w - a % w == dx
    &&& a / w - b / w == dy || b / w - a / w == dy
}

/// In the maze router a pip costs one more than the slowest of its delays, and a wire what the table
/// says of it, nothing where the table says nothing: giving one wire another penalty changes the steps
/// into that wire by the difference and no other step. No wire is closed, whoever holds it.
pub proof fn maze_steps_cost_delay_and_penalty<'a>(
    ctx: Context,
    m: MazeCostModel<'a>,
    other: MazeCostModel<'a>,
    p: PipId,
    w: WireId,
    penalty: DelayT,
)
    requires
        other.wire_penalty@ == m.wire_penalty@.insert(w, penalty),
    ensures
        is_slowest(ctx.chipdb.pip(p).delay, m.pip_cost_of(ctx, p) - 1),
        !m.wire_penalty@.contains_key(ctx.chipdb.dst(p)) ==> step_cost(ctx, &m, p) == m.pip_cost_of(ctx, p),
        ctx.chipdb.dst(p) == w ==> step_cost(ctx, &other, p) == m.pip_cost_of(ctx, p) + penalty,
        ctx.chipdb.dst(p) != w ==> step_cost(ctx, &other, p) == step_cost(ctx, &m, p),
        !m.blocks(ctx, w),
{
}

/// In the negotiating router a pip costs one more than the slowest of its delays. A wire costs the net
/// that claimed it last what the one table says, and every other net what the other table says; a wire
/// that is in neither table costs all nets the same.
pub proof fn claimed_wires_cost_by_their_owner<'a>(
    ctx: Context,
    m: Router2CostModel<'a>,
    p: PipId,
    w: WireId,
)
    ensures
        is_slowest(ctx.chipdb.pip(p).delay, m.pip_cost_of(ctx, p) - 1),
        m.owner@.contains_key(w) && m.owner@[w] == m.net && m.costs.own@.contains_key(w) ==> m.penalty_of(ctx, w)
            == m.costs.own@[w],
        (!m.owner@.contains_key(w) || m.owner@[w] != m.net) && m.costs.shared@.contains_key(w) ==> m.penalty_of(
            ctx,
            w,
        ) == m.costs.shared@[w],
        !m.costs.own@.contains_key(w) && !m.costs.shared@.contains_key(w) ==> m.penalty_of(ctx, w) == m.costs.base,
        m.owner@.contains_key(w) && m.owner@[w] == m.net && !m.costs.own@.contains_key(w) ==> m.penalty_of(ctx, w)
            == m.costs.base,
        (!m.owner@.contains_key(w) || m.owner@[w] != m.net) && !m.costs.shared@.contains_key(w) ==> m.penalty_of(
            ctx,
            w,
        ) == m.costs.base,
        !m.blocks(ctx, w),
{
}

/// A detour costs what the maze router counts: one more than the slowest delay of each pip, and the
/// penalty of each wire; without the search for room it is closed to the wires of other nets, and to
/// no others; with it nothing is closed and nothing is estimated.
pub proof fn detours_stay_off_other_nets<'a>(ctx: Context, m: DetourCostModel<'a>, p: PipId, w: WireId, dst: WireId)
    ensures
        is_slowest(ctx.chipdb.pip(p).delay, m.pip_cost_of(ctx, p) - 1),
        m.wire_penalty@.contains_key(w) ==> m.penalty_of(ctx, w) == m.wire_penalty@[w],
        !m.wire_penalty@.contains_key(w) ==> m.penalty_of(ctx, w) == 0,
        m.blocks(ctx, w) <==> !m.explore && held_by_another(ctx, m.net, w),
        m.explore ==> m.heuristic_of(ctx, w, dst) == 0,
{
}

/// Where a detour does not make room, no pip of its path drives a wire of another net.
pub proof fn detour_paths_enter_no_wire_of_another_net<'a>(
    ctx: Context,
    m: DetourCostModel<'a>,
    srcs: Map<WireId, ()>,
    path: Seq<PipId>,
    w: WireId,
)
    requires
        !m.explore,
        path_ok(ctx, &m, srcs, path, w),
    ensures
        forall|i: int| 0 <= i < path.len() ==> !held_by_another(ctx, m.net, ctx.chipdb.dst(#[trigger] path[i])),
    decreases path.len(),
{
    if path.len() > 0 {
        detour_paths_enter_no_wire_of_another_net(ctx, m, srcs, path.drop_last(), ctx.chipdb.src(path.last()));
        assert forall|i: int| 0 <= i < path.len() implies !held_by_another(
            ctx,
            m.net,
            ctx.chipdb.dst(#[trigger] path[i]),
        ) by {
            if i < path.len() - 1 {
                assert(path.drop_last()[i] == path[i]);
            }
        }
    }
}

/// Along a run a wire costs what its tile costs, and the estimate is the number of columns and rows to
/// the target tile; close by a wire costs nothing, and the estimate is that to the wire searched.
pub proof fn runs_cost_by_the_tile<'a>(
    ctx: Context,
    m: SegmentCostModel<'a>,
    l: LocalModel,
    p: PipId,
    w: WireId,
    dst: WireId,
    dx: int,
    dy: int,
)
    requires
        ctx.wf(),
    ensures
        is_slowest(ctx.chipdb.pip(p).delay, m.pip_cost_of(ctx, p) - 1),
        is_slowest(ctx.chipdb.pip(p).delay, l.pip_cost_of(ctx, p) - 1),
        m.penalty_of(ctx, w) == m.costs.penalty@[w.tile as int],
        l.penalty_of(ctx, w) == 0,
        lie_apart(ctx, w.tile as int, m.target as int, dx, dy) ==> m.heuristic_of(ctx, w, dst) == dx + dy,
        lie_apart(ctx, w.tile as int, dst.tile as int, dx, dy) ==> l.heuristic_of(ctx, w, dst) == dx + dy,
        !m.blocks(ctx, w),
        !l.blocks(ctx, w),
{
}

/// The estimate between two wires is the delay per tile for each column and row between them, up to
/// the largest number, and nothing for a delay per tile below zero. It does not matter which wire
/// comes first.
pub proof fn estimates_count_columns_and_rows(ctx: Context, a: WireId, b: WireId, dx: int, dy: int)
    requires
        lie_apart(ctx, a.tile as int, b.tile as int, dx, dy),
    ensures
        ctx.delay_per_tile < 0 ==> ctx.estimate(a, b) == 0,
        ctx.delay_per_tile >= 0 && (dx + dy) * ctx.delay_per_tile <= i32::MAX ==> ctx.estimate(a, b) == (dx + dy)
            * ctx.delay_per_tile,
        ctx.delay_per_tile >= 0 && (dx + dy) * ctx.delay_per_tile > i32::MAX ==> ctx.estimate(a, b) == i32::MAX,
        ctx.estimate(a, b) == ctx.estimate(b, a),
{
    assert((dx + dy) * 0 == 0) by (nonlinear_arith);
}

} // verus!
