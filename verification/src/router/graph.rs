//! The routing graph as the path search sees it: cost models, steps between wires, walks, and
//! what a finished search says of them.

use crate::chipdb::{ChipDb, PipId, WireId};
use crate::context::Context;
use crate::ids::IdMap;
use crate::metrics::BoundingBox;
use crate::router::region::in_boxes;
use crate::timing::delay::{sat_sum, DelayT};
use vstd::prelude::*;

verus! {

/// A set of wires.
pub type WireSet = IdMap<WireId, ()>;

/// What a search pays for a step, what it expects the rest of the way to cost, and where it may go.
pub trait PathCostModel {
    /// What the model needs of the state it is used on.
    spec fn ready(&self, ctx: Context) -> bool;

    spec fn pip_cost_of(&self, ctx: Context, pip: PipId) -> int;

    spec fn penalty_of(&self, ctx: Context, wire: WireId) -> int;

    spec fn heuristic_of(&self, ctx: Context, wire: WireId, dst: WireId) -> int;

    spec fn blocks(&self, ctx: Context, wire: WireId) -> bool;

    spec fn boxes(&self) -> Seq<BoundingBox>;

    /// The cost of a pip; never negative.
    fn pip_cost(&self, ctx: &Context, pip: PipId) -> (r: DelayT)
        requires
            ctx.wf(),
            self.ready(*ctx),
            ctx.chipdb.valid_pip(pip),
        ensures
            r == self.pip_cost_of(*ctx, pip),
            r >= 0,
    ;

    /// What entering a wire costs beyond the pip; never negative.
    fn wire_penalty(&self, ctx: &Context, wire: WireId) -> (r: DelayT)
        requires
            ctx.wf(),
            self.ready(*ctx),
            ctx.chipdb.valid_wire(wire),
        ensures
            r == self.penalty_of(*ctx, wire),
            r >= 0,
    ;

    /// The estimated cost from a wire to the target; never negative.
    fn heuristic(&self, ctx: &Context, wire: WireId, dst: WireId) -> (r: DelayT)
        requires
            ctx.wf(),
            self.ready(*ctx),
            ctx.chipdb.valid_wire(wire),
            ctx.chipdb.valid_wire(dst),
        ensures
            r == self.heuristic_of(*ctx, wire, dst),
            r >= 0,
    ;

    /// Whether the search must stay off a wire.
    fn is_blocked(&self, ctx: &Context, wire: WireId) -> (r: bool)
        requires
            ctx.wf(),
            self.ready(*ctx),
            ctx.chipdb.valid_wire(wire),
        ensures
            r == self.blocks(*ctx, wire),
    ;

    /// The rectangles that the search stays in; none for the whole grid.
    fn bboxes(&self) -> (r: &Vec<BoundingBox>)
        ensures
            r@ == self.boxes(),
    ;
}

/// How a search came to a wire: the cost and penalty of the way, the pip of the last step (none
/// for a source or a step within a node), and the wire before.
#[derive(Clone, Copy, PartialEq, Eq, Hash, Debug, Structural)]
pub struct Visit {
    pub cost: DelayT,
    pub penalty: DelayT,
    pub pip: Option<PipId>,
    pub from: WireId,
}

impl Visit {
    /// Cost and penalty together.
    pub open spec fn score(self) -> int {
        sat_sum(self.cost as int, self.penalty as int)
    }
}

/// The pip leaves the wire.
pub open spec fn leaves(chip: ChipDb, u: WireId, p: PipId) -> bool {
    &&& chip.valid_wire(u)
    &&& p.tile == u.tile
    &&& chip.wire(u).pips_downhill@.contains(p.index)
}

/// A pip that leaves a wire starts from it and ends at a wire of the device.
pub proof fn lemma_leaves(chip: ChipDb, u: WireId, p: PipId)
    requires
        chip.wf(),
        leaves(chip, u, p),
    ensures
        chip.valid_pip(p),
        chip.src(p) == u,
        chip.valid_wire(chip.dst(p)),
{
    let t = chip.type_of(u.tile as int);
    assert(chip.tile_types@[chip.tiles@[u.tile as int] as int].wf());
    let list = t.wires@[u.index as int].pips_downhill@;
    let j = choose|j: int| 0 <= j < list.len() && list[j] == p.index;
    assert(t.lists_pip(t.wires@[u.index as int].pips_downhill@[j], u.index as int, true));
}

/// The search may enter the wire.
pub open spec fn allowed<M: PathCostModel>(ctx: Context, m: &M, w: WireId) -> bool {
    in_boxes(ctx.chipdb, m.boxes(), w.tile as int) && !m.blocks(ctx, w)
}

/// What a step over a pip costs.
pub open spec fn step_cost<M: PathCostModel>(ctx: Context, m: &M, p: PipId) -> int {
    m.pip_cost_of(ctx, p) + m.penalty_of(ctx, ctx.chipdb.dst(p))
}

/// One step of a walk: within a node (no pip), or over a pip to a wire that may be entered.
pub struct Hop {
    pub pip: Option<PipId>,
    pub to: WireId,
}

pub open spec fn hop_ok<M: PathCostModel>(ctx: Context, m: &M, u: WireId, h: Hop) -> bool {
    match h.pip {
        None => ctx.chipdb.joined(u, h.to),
        Some(p) => leaves(ctx.chipdb, u, p) && h.to == ctx.chipdb.dst(p) && allowed(ctx, m, h.to),
    }
}

pub open spec fn hop_cost<M: PathCostModel>(ctx: Context, m: &M, h: Hop) -> int {
    match h.pip {
        None => 0,
        Some(p) => step_cost(ctx, m, p),
    }
}

/// The hops lead from wire to wire, starting at `u`.
pub open spec fn walk_ok<M: PathCostModel>(ctx: Context, m: &M, u: WireId, walk: Seq<Hop>) -> bool
    decreases walk.len(),
{
    walk.len() == 0 || (hop_ok(ctx, m, u, walk[0]) && walk_ok(ctx, m, walk[0].to, walk.skip(1)))
}

pub open spec fn walk_cost<M: PathCostModel>(ctx: Context, m: &M, walk: Seq<Hop>) -> int
    decreases walk.len(),
{
    if walk.len() == 0 {
        0
    } else {
        hop_cost(ctx, m, walk[0]) + walk_cost(ctx, m, walk.skip(1))
    }
}

pub open spec fn walk_end(u: WireId, walk: Seq<Hop>) -> WireId {
    if walk.len() == 0 {
        u
    } else {
        walk.last().to
    }
}

/// There is a walk from a source to `w`.
pub open spec fn reachable<M: PathCostModel>(ctx: Context, m: &M, srcs: Map<WireId, ()>, w: WireId) -> bool {
    exists|s: WireId, walk: Seq<Hop>|
        srcs.contains_key(s) && #[trigger] walk_ok(ctx, m, s, walk) && walk_end(s, walk) == w
}

/// The pips lead from a source to `w`: each starts at the conductor that the one before drives,
/// and none enters a wire that may not be entered.
pub open spec fn path_ok<M: PathCostModel>(
    ctx: Context,
    m: &M,
    srcs: Map<WireId, ()>,
    path: Seq<PipId>,
    w: WireId,
) -> bool
    decreases path.len(),
{
    if path.len() == 0 {
        exists|s: WireId| #[trigger] srcs.contains_key(s) && ctx.chipdb.joined(s, w)
    } else {
        let p = path.last();
        &&& leaves(ctx.chipdb, ctx.chipdb.src(p), p)
        &&& ctx.chipdb.valid_pip(p)
        &&& allowed(ctx, m, ctx.chipdb.dst(p))
        &&& ctx.chipdb.joined(ctx.chipdb.dst(p), w)
        &&& path_ok(ctx, m, srcs, path.drop_last(), ctx.chipdb.src(p))
    }
}

/// What the pips of a path cost.
pub open spec fn path_cost<M: PathCostModel>(ctx: Context, m: &M, path: Seq<PipId>) -> int
    decreases path.len(),
{
    if path.len() == 0 {
        0
    } else {
        path_cost(ctx, m, path.drop_last()) + step_cost(ctx, m, path.last())
    }
}

/// Every pip of a path is a pip of the device.
pub proof fn lemma_path_pips<M: PathCostModel>(
    ctx: Context,
    m: &M,
    srcs: Map<WireId, ()>,
    path: Seq<PipId>,
    w: WireId,
)
    requires
        path_ok(ctx, m, srcs, path, w),
    ensures
        forall|i: int| 0 <= i < path.len() ==> ctx.chipdb.valid_pip(#[trigger] path[i]),
    decreases path.len(),
{
    if path.len() > 0 {
        lemma_path_pips(ctx, m, srcs, path.drop_last(), ctx.chipdb.src(path.last()));
        assert forall|i: int| 0 <= i < path.len() implies ctx.chipdb.valid_pip(#[trigger] path[i]) by {
            if i < path.len() - 1 {
                assert(path.drop_last()[i] == path[i]);
            }
        }
    }
}

/// Following the visits back from `w` comes to an end within `n` steps.
pub open spec fn settles(chip: ChipDb, vis: Map<WireId, Visit>, w: WireId, n: nat) -> bool
    decreases n,
{
    if !vis.contains_key(w) {
        true
    } else {
        match vis[w].pip {
            Some(p) => chip.valid_pip(p) && n > 0 && settles(chip, vis, chip.src(p), (n - 1) as nat),
            None => vis[w].from == w || (n > 0 && settles(chip, vis, vis[w].from, (n - 1) as nat)),
        }
    }
}

/// The pips met on the way back from `w`, in the order of the way there.
pub open spec fn trace_back(chip: ChipDb, vis: Map<WireId, Visit>, w: WireId, n: nat) -> Seq<PipId>
    decreases n,
{
    if n == 0 || !vis.contains_key(w) {
        Seq::empty()
    } else {
        match vis[w].pip {
            Some(p) => trace_back(chip, vis, chip.src(p), (n - 1) as nat).push(p),
            None => if vis[w].from == w {
                Seq::empty()
            } else {
                trace_back(chip, vis, vis[w].from, (n - 1) as nat)
            },
        }
    }
}

/// More steps than are needed change nothing.
pub proof fn lemma_settled(chip: ChipDb, vis: Map<WireId, Visit>, w: WireId, n: nat, k: nat)
    requires
        settles(chip, vis, w, n),
        n <= k,
    ensures
        settles(chip, vis, w, k),
        trace_back(chip, vis, w, k) == trace_back(chip, vis, w, n),
    decreases n,
{
    if vis.contains_key(w) {
        match vis[w].pip {
            Some(p) => {
                lemma_settled(chip, vis, chip.src(p), (n - 1) as nat, (k - 1) as nat);
            },
            None => {
                if vis[w].from != w {
                    lemma_settled(chip, vis, vis[w].from, (n - 1) as nat, (k - 1) as nat);
                }
            },
        }
    }
}

/// The visits of a search: every wire that was come to can be followed back to a source, over a
/// path that costs no more than the score of the visit.
pub open spec fn visits_sound<M: PathCostModel>(
    ctx: Context,
    m: &M,
    srcs: Map<WireId, ()>,
    vis: Map<WireId, Visit>,
) -> bool {
    forall|w: WireId| #[trigger]
        vis.contains_key(w) ==> ctx.chipdb.valid_wire(w) && exists|n: nat| #[trigger]
            settles(ctx.chipdb, vis, w, n) && path_ok(
                ctx,
                m,
                srcs,
                trace_back(ctx.chipdb, vis, w, n),
                w,
            ) && sat_sum(path_cost(ctx, m, trace_back(ctx.chipdb, vis, w, n)), 0) <= vis[w].score()
}

/// Every step from a visited wire leads to a visited wire, and the sources are visited.
pub open spec fn visits_closed<M: PathCostModel>(
    ctx: Context,
    m: &M,
    srcs: Map<WireId, ()>,
    vis: Map<WireId, Visit>,
) -> bool {
    &&& forall|s: WireId| #[trigger] srcs.contains_key(s) ==> vis.contains_key(s)
    &&& forall|w: WireId, h: Hop|
        vis.contains_key(w) && #[trigger] hop_ok(ctx, m, w, h) ==> vis.contains_key(h.to)
}

/// Visits that are closed hold everything that can be reached.
pub proof fn lemma_closed_holds_reachable<M: PathCostModel>(
    ctx: Context,
    m: &M,
    srcs: Map<WireId, ()>,
    vis: Map<WireId, Visit>,
    u: WireId,
    walk: Seq<Hop>,
)
    requires
        visits_closed(ctx, m, srcs, vis),
        vis.contains_key(u),
        walk_ok(ctx, m, u, walk),
    ensures
        vis.contains_key(walk_end(u, walk)),
    decreases walk.len(),
{
    if walk.len() > 0 {
        assert(hop_ok(ctx, m, u, walk[0]));
        lemma_closed_holds_reachable(ctx, m, srcs, vis, walk[0].to, walk.skip(1));
        if walk.len() > 1 {
            assert(walk.skip(1).last() == walk.last());
        }
    }
}

/// The pip leads to the wire, which may be entered.
pub open spec fn enters<M: PathCostModel>(ctx: Context, m: &M, p: PipId, w: WireId) -> bool {
    leaves(ctx.chipdb, ctx.chipdb.src(p), p) && ctx.chipdb.dst(p) == w && allowed(ctx, m, w)
}

/// A walk can enter the node of the wire at the wire: it is a source, or a pip leads to it.
pub open spec fn is_entry<M: PathCostModel>(ctx: Context, m: &M, srcs: Map<WireId, ()>, w: WireId) -> bool {
    srcs.contains_key(w) || exists|p: PipId| #[trigger] enters(ctx, m, p, w)
}

/// A walk can enter the node of the wire.
pub open spec fn has_entry<M: PathCostModel>(ctx: Context, m: &M, srcs: Map<WireId, ()>, w: WireId) -> bool {
    exists|a: WireId| #[trigger] is_entry(ctx, m, srcs, a) && ctx.chipdb.joined(a, w)
}

/// The estimate for the node of a wire: that of the wire if the node can be entered there, else that of a
/// wire at which it can be entered.
pub open spec fn node_estimate<M: PathCostModel>(
    ctx: Context,
    m: &M,
    srcs: Map<WireId, ()>,
    dst: WireId,
    w: WireId,
) -> int {
    if is_entry(ctx, m, srcs, w) {
        m.heuristic_of(ctx, w, dst)
    } else {
        m.heuristic_of(
            ctx,
            choose|a: WireId| #[trigger] is_entry(ctx, m, srcs, a) && ctx.chipdb.joined(a, w),
            dst,
        )
    }
}

/// The estimates never promise more than the steps take away: from a wire at which a node can be entered,
/// over a pip that leaves the node, the estimate drops by no more than the step costs; and it is the same
/// for all wires at which one node can be entered.
pub open spec fn consistent<M: PathCostModel>(ctx: Context, m: &M, srcs: Map<WireId, ()>, dst: WireId) -> bool {
    &&& forall|a: WireId, b: WireId| #[trigger]
        is_entry(ctx, m, srcs, a) && #[trigger] is_entry(ctx, m, srcs, b) && ctx.chipdb.joined(a, b)
            ==> m.heuristic_of(ctx, a, dst) == m.heuristic_of(ctx, b, dst)
    &&& forall|a: WireId, p: PipId| #[trigger]
        is_entry(ctx, m, srcs, a) && ctx.chipdb.joined(a, ctx.chipdb.src(p)) && #[trigger] enters(
            ctx,
            m,
            p,
            ctx.chipdb.dst(p),
        ) ==> m.heuristic_of(ctx, a, dst) <= step_cost(ctx, m, p) + m.heuristic_of(
            ctx,
            ctx.chipdb.dst(p),
            dst,
        )
}

/// All wires at which a node can be entered have the estimate of the node.
pub proof fn lemma_node_estimate<M: PathCostModel>(
    ctx: Context,
    m: &M,
    srcs: Map<WireId, ()>,
    dst: WireId,
    a: WireId,
    w: WireId,
)
    requires
        consistent(ctx, m, srcs, dst),
        is_entry(ctx, m, srcs, a),
        ctx.chipdb.joined(a, w),
    ensures
        node_estimate(ctx, m, srcs, dst, w) == m.heuristic_of(ctx, a, dst),
        has_entry(ctx, m, srcs, w),
{
    if !is_entry(ctx, m, srcs, w) {
        let b = choose|b: WireId| #[trigger] is_entry(ctx, m, srcs, b) && ctx.chipdb.joined(b, w);
        assert(is_entry(ctx, m, srcs, b) && ctx.chipdb.joined(b, w));
        assert(ctx.chipdb.joined(a, b));
    }
}

/// The estimate of a node drops along a hop by no more than the hop costs.
proof fn lemma_hop_estimate<M: PathCostModel>(
    ctx: Context,
    m: &M,
    srcs: Map<WireId, ()>,
    dst: WireId,
    u: WireId,
    h: Hop,
)
    requires
        ctx.wf(),
        consistent(ctx, m, srcs, dst),
        has_entry(ctx, m, srcs, u),
        hop_ok(ctx, m, u, h),
    ensures
        has_entry(ctx, m, srcs, h.to),
        h.pip is Some ==> is_entry(ctx, m, srcs, h.to),
        h.pip is None ==> node_estimate(ctx, m, srcs, dst, u) == node_estimate(ctx, m, srcs, dst, h.to),
        node_estimate(ctx, m, srcs, dst, u) <= hop_cost(ctx, m, h) + node_estimate(ctx, m, srcs, dst, h.to),
{
    let a = choose|a: WireId| #[trigger] is_entry(ctx, m, srcs, a) && ctx.chipdb.joined(a, u);
    lemma_node_estimate(ctx, m, srcs, dst, a, u);
    match h.pip {
        None => {
            assert(ctx.chipdb.joined(a, h.to));
            lemma_node_estimate(ctx, m, srcs, dst, a, h.to);
        },
        Some(p) => {
            lemma_leaves(ctx.chipdb, u, p);
            assert(enters(ctx, m, p, h.to));
            assert(is_entry(ctx, m, srcs, h.to));
            assert(ctx.chipdb.joined(h.to, h.to));
            lemma_node_estimate(ctx, m, srcs, dst, h.to, h.to);
        },
    }
}

/// A consistent estimate drops along a walk by no more than the walk costs.
pub proof fn lemma_consistent_walk<M: PathCostModel>(
    ctx: Context,
    m: &M,
    srcs: Map<WireId, ()>,
    dst: WireId,
    u: WireId,
    walk: Seq<Hop>,
)
    requires
        ctx.wf(),
        consistent(ctx, m, srcs, dst),
        has_entry(ctx, m, srcs, u),
        walk_ok(ctx, m, u, walk),
    ensures
        node_estimate(ctx, m, srcs, dst, u) <= walk_cost(ctx, m, walk) + node_estimate(
            ctx,
            m,
            srcs,
            dst,
            walk_end(u, walk),
        ),
    decreases walk.len(),
{
    if walk.len() > 0 {
        assert(hop_ok(ctx, m, u, walk[0]));
        lemma_hop_estimate(ctx, m, srcs, dst, u, walk[0]);
        lemma_consistent_walk(ctx, m, srcs, dst, walk[0].to, walk.skip(1));
        if walk.len() > 1 {
            assert(walk.skip(1).last() == walk.last());
        }
    }
}

/// The wires of a path may be joined on at the end: what leads to a wire leads to its node.
pub proof fn lemma_path_joined<M: PathCostModel>(
    ctx: Context,
    m: &M,
    srcs: Map<WireId, ()>,
    path: Seq<PipId>,
    a: WireId,
    b: WireId,
)
    requires
        path_ok(ctx, m, srcs, path, a),
        ctx.chipdb.joined(a, b),
    ensures
        path_ok(ctx, m, srcs, path, b),
{
    if path.len() == 0 {
        let s = choose|s: WireId| #[trigger] srcs.contains_key(s) && ctx.chipdb.joined(s, a);
        assert(srcs.contains_key(s) && ctx.chipdb.joined(s, b));
    }
}

/// A path of pips is a walk: what a path leads to can be reached.
pub proof fn lemma_path_is_walk<M: PathCostModel>(
    ctx: Context,
    m: &M,
    srcs: Map<WireId, ()>,
    path: Seq<PipId>,
    w: WireId,
) -> (r: (WireId, Seq<Hop>))
    requires
        path_ok(ctx, m, srcs, path, w),
    ensures
        srcs.contains_key(r.0),
        walk_ok(ctx, m, r.0, r.1),
        walk_end(r.0, r.1) == w,
        walk_cost(ctx, m, r.1) == path_cost(ctx, m, path),
    decreases path.len(),
{
    if path.len() == 0 {
        let s = choose|s: WireId| #[trigger] srcs.contains_key(s) && ctx.chipdb.joined(s, w);
        let h = Hop { pip: None, to: w };
        let walk = seq![h];
        assert(walk.skip(1) =~= Seq::<Hop>::empty());
        assert(walk_ok(ctx, m, w, walk.skip(1)));
        assert(walk_cost(ctx, m, walk.skip(1)) == 0);
        (s, walk)
    } else {
        let p = path.last();
        let (s, before) = lemma_path_is_walk(ctx, m, srcs, path.drop_last(), ctx.chipdb.src(p));
        let h1 = Hop { pip: Some(p), to: ctx.chipdb.dst(p) };
        let h2 = Hop { pip: None, to: w };
        lemma_walk_push(ctx, m, s, before, h1);
        lemma_walk_push(ctx, m, s, before.push(h1), h2);
        (s, before.push(h1).push(h2))
    }
}

/// A walk can be continued by a hop from its end.
pub proof fn lemma_walk_push<M: PathCostModel>(ctx: Context, m: &M, u: WireId, walk: Seq<Hop>, h: Hop)
    requires
        walk_ok(ctx, m, u, walk),
        hop_ok(ctx, m, walk_end(u, walk), h),
    ensures
        walk_ok(ctx, m, u, walk.push(h)),
        walk_end(u, walk.push(h)) == h.to,
        walk_cost(ctx, m, walk.push(h)) == walk_cost(ctx, m, walk) + hop_cost(ctx, m, h),
    decreases walk.len(),
{
    let longer = walk.push(h);
    if walk.len() == 0 {
        assert(longer.skip(1) =~= Seq::<Hop>::empty());
        assert(walk_ok(ctx, m, h.to, longer.skip(1)));
        assert(walk_cost(ctx, m, longer.skip(1)) == 0);
    } else {
        let rest = walk.skip(1);
        if walk.len() > 1 {
            assert(rest.last() == walk.last());
        }
        lemma_walk_push(ctx, m, walk[0].to, rest, h);
        assert(longer.skip(1) =~= rest.push(h));
        assert(longer[0] == walk[0]);
    }
}

} // verus!
