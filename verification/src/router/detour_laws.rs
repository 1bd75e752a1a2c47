//! What searches do about wires that are much dearer than others: they go round them wherever there
//! is a way round.

use crate::chipdb::{PipId, WireId};
use crate::context::Context;
use crate::router::astar::{offered, result_ok, visits_made, AStarOptions, AStarResult};
use crate::router::graph::{
    allowed, leaves, lemma_leaves, lemma_settled, path_cost, path_ok, settles, step_cost, trace_back,
    visits_sound, walk_end, walk_ok, Hop, PathCostModel, Visit,
};
use crate::router::heap::{goes_first, is_next, next_entry, QueueEntry};
use crate::router::run::{
    after_entry, after_member, after_members, after_step, after_steps, begins, come_to, entry_for,
    members_of, nodes_with, run, run_from, run_ok, source_entry, step_counts, step_visit, turn, used_up,
    way_out, Board, Turn,
};
use crate::router::search::entry_score;
use crate::timing::delay::sat_sum;
use vstd::multiset::Multiset;
use vstd::prelude::*;

verus! {

/// What steps cost: a fair one at most `low`, a dear one at least `high`; no estimate is above `far`.
pub struct Gap {
    pub low: int,
    pub high: int,
    pub far: int,
}

/// The costs of a search leave a gap: so many fair steps and an estimate together are cheaper than
/// one dear step.
pub open spec fn has_gap<M: PathCostModel>(ctx: Context, m: &M, dst: WireId, g: Gap, turns: int) -> bool {
    &&& 0 <= g.low
    &&& 0 <= g.far
    &&& turns * g.low + g.far < g.high <= i32::MAX
    &&& forall|w: WireId| #[trigger]
        ctx.chipdb.valid_wire(w) ==> 0 <= m.heuristic_of(ctx, w, dst) <= g.far
    &&& forall|p: PipId|
        #[trigger] ctx.chipdb.valid_pip(p) && allowed(ctx, m, ctx.chipdb.dst(p)) ==> {
            &&& 0 <= m.pip_cost_of(ctx, p)
            &&& 0 <= m.penalty_of(ctx, ctx.chipdb.dst(p))
            &&& step_cost(ctx, m, p) <= g.low || step_cost(ctx, m, p) >= g.high
        }
}

/// A walk that takes fair steps only.
pub open spec fn fair_walk<M: PathCostModel>(ctx: Context, m: &M, g: Gap, u: WireId, walk: Seq<Hop>) -> bool {
    &&& walk_ok(ctx, m, u, walk)
    &&& forall|i: int|
        0 <= i < walk.len() && (#[trigger] walk[i]).pip is Some ==> step_cost(ctx, m, walk[i].pip->0) < g.high
}

/// Some source leads to the wire by fair steps.
pub open spec fn fairly_reachable<M: PathCostModel>(
    ctx: Context,
    m: &M,
    g: Gap,
    srcs: Map<WireId, ()>,
    w: WireId,
) -> bool {
    exists|s: WireId, walk: Seq<Hop>|
        srcs.contains_key(s) && #[trigger] fair_walk(ctx, m, g, s, walk) && walk_end(s, walk) == w
}

/// Nothing is lost and no score grows from one set of visits to the other.
spec fn kept_by(a: Map<WireId, Visit>, b: Map<WireId, Visit>) -> bool {
    forall|w: WireId| #[trigger] a.contains_key(w) ==> b.contains_key(w) && b[w].score() <= a[w].score()
}

/// The wire was come to by fair steps.
spec fn fair_visit(g: Gap, vis: Map<WireId, Visit>, w: WireId) -> bool {
    vis.contains_key(w) && vis[w].score() < g.high
}

/// All fair steps from the wire lead to wires that were come to by fair steps.
spec fn stepped_out<M: PathCostModel>(ctx: Context, m: &M, g: Gap, vis: Map<WireId, Visit>, x: WireId) -> bool {
    forall|p: PipId|
        #[trigger] leaves(ctx.chipdb, x, p) && allowed(ctx, m, ctx.chipdb.dst(p)) && step_cost(ctx, m, p) < g.high
            ==> fair_visit(g, vis, ctx.chipdb.dst(p))
}

/// All wires of the conductor were come to by fair steps, and so was what they lead to.
spec fn spread<M: PathCostModel>(ctx: Context, m: &M, g: Gap, vis: Map<WireId, Visit>, w: WireId) -> bool {
    forall|x: WireId| #[trigger]
        ctx.chipdb.joined(w, x) ==> fair_visit(g, vis, x) && stepped_out(ctx, m, g, vis, x)
}

/// An entry with the score of the visit waits.
spec fn waits(b: Board, w: WireId) -> bool {
    exists|e: QueueEntry| #[trigger] b.heap.contains(e) && e.wire == w && entry_score(e) == b.vis[w].score()
}

/// The score is that of at most `n` fair steps, or that of a way with a dear one.
spec fn score_ok(g: Gap, n: int, s: int) -> bool {
    0 <= s <= i32::MAX && (s <= n * g.low || s >= g.high)
}

spec fn entry_ok<M: PathCostModel>(
    ctx: Context,
    m: &M,
    dst: WireId,
    g: Gap,
    n: int,
    vis: Map<WireId, Visit>,
    e: QueueEntry,
) -> bool {
    &&& ctx.chipdb.valid_wire(e.wire)
    &&& e.cost >= 0
    &&& e.penalty >= 0
    &&& e.estimate == sat_sum(entry_score(e), m.heuristic_of(ctx, e.wire, dst))
    &&& vis.contains_key(e.wire)
    &&& vis[e.wire].score() <= entry_score(e)
    &&& score_ok(g, n, entry_score(e))
}

/// What holds of the visits and the queue after `n` turns, whatever is being expanded.
spec fn sane<M: PathCostModel>(ctx: Context, m: &M, dst: WireId, g: Gap, n: int, b: Board) -> bool {
    &&& forall|e: QueueEntry| #[trigger] b.heap.contains(e) ==> entry_ok(ctx, m, dst, g, n, b.vis, e)
    &&& forall|w: WireId| #[trigger]
        b.vis.contains_key(w) ==> ctx.chipdb.valid_wire(w) && b.vis[w].cost >= 0 && b.vis[w].penalty >= 0
            && score_ok(g, n, b.vis[w].score())
    &&& forall|w: WireId| #[trigger]
        ctx.chipdb.valid_wire(w) && ctx.chipdb.node(w) is Some && b.nodes.contains(ctx.chipdb.node(w)->0) ==> spread(
            ctx,
            m,
            g,
            b.vis,
            w,
        )
}

/// As long as no dear way was followed: every wire that was come to by fair steps waits or was spread.
spec fn quiet<M: PathCostModel>(
    ctx: Context,
    m: &M,
    srcs: Map<WireId, ()>,
    dst: WireId,
    g: Gap,
    n: int,
    b: Board,
) -> bool {
    &&& sane(ctx, m, dst, g, n, b)
    &&& forall|s: WireId| #[trigger] srcs.contains_key(s) ==> fair_visit(g, b.vis, s)
    &&& forall|w: WireId| #[trigger] fair_visit(g, b.vis, w) ==> waits(b, w) || spread(ctx, m, g, b.vis, w)
}

/// Every wire that fair steps lead to was come to by fair steps.
spec fn settled<M: PathCostModel>(
    ctx: Context,
    m: &M,
    srcs: Map<WireId, ()>,
    g: Gap,
    vis: Map<WireId, Visit>,
) -> bool {
    forall|w: WireId| #[trigger] fairly_reachable(ctx, m, g, srcs, w) ==> fair_visit(g, vis, w)
}

proof fn lemma_spread_stays<M: PathCostModel>(
    ctx: Context,
    m: &M,
    g: Gap,
    a: Map<WireId, Visit>,
    b: Map<WireId, Visit>,
    w: WireId,
)
    requires
        kept_by(a, b),
        spread(ctx, m, g, a, w),
    ensures
        spread(ctx, m, g, b, w),
{
    assert forall|x: WireId| #[trigger] ctx.chipdb.joined(w, x) implies fair_visit(g, b, x) && stepped_out(
        ctx,
        m,
        g,
        b,
        x,
    ) by {
        assert(fair_visit(g, a, x) && stepped_out(ctx, m, g, a, x));
        assert forall|p: PipId|
            #[trigger] leaves(ctx.chipdb, x, p) && allowed(ctx, m, ctx.chipdb.dst(p)) && step_cost(ctx, m, p)
                < g.high implies fair_visit(g, b, ctx.chipdb.dst(p)) by {
            assert(fair_visit(g, a, ctx.chipdb.dst(p)));
        }
    }
}

/// What is being expanded: the entry was taken from the queue in turn `n`, on a fair way.
spec fn expands(ctx: Context, g: Gap, n: int, e: QueueEntry, vis: Map<WireId, Visit>) -> bool {
    &&& e.cost >= 0
    &&& e.penalty >= 0
    &&& 0 <= entry_score(e) <= n * g.low
    &&& entry_score(e) < g.high
    &&& ctx.chipdb.valid_wire(e.wire)
    &&& vis.contains_key(e.wire)
    &&& vis[e.wire].score() <= entry_score(e)
}

/// Every wire that was come to by fair steps waits, was spread, or is being expanded.
spec fn busy<M: PathCostModel>(ctx: Context, m: &M, g: Gap, e: QueueEntry, b: Board) -> bool {
    forall|w: WireId| #[trigger]
        fair_visit(g, b.vis, w) ==> waits(b, w) || spread(ctx, m, g, b.vis, w) || ctx.chipdb.joined(e.wire, w)
}

proof fn lemma_scores<M: PathCostModel>(
    ctx: Context,
    m: &M,
    dst: WireId,
    g: Gap,
    n: int,
    e: QueueEntry,
    vis: Map<WireId, Visit>,
    from: WireId,
    p: PipId,
    turns: int,
)
    requires
        has_gap(ctx, m, dst, g, turns),
        0 <= n < turns,
        expands(ctx, g, n, e, vis),
        ctx.chipdb.valid_pip(p),
        allowed(ctx, m, ctx.chipdb.dst(p)),
    ensures
        ({
            let v = step_visit(ctx, m, e, from, p);
            &&& v.cost >= 0
            &&& v.penalty >= 0
            &&& score_ok(g, n + 1, v.score())
            &&& step_cost(ctx, m, p) < g.high ==> v.score() < g.high
        }),
{
    let v = step_visit(ctx, m, e, from, p);
    assert(v.score() == sat_sum(entry_score(e), step_cost(ctx, m, p)));
    assert((n + 1) * g.low == n * g.low + g.low) by (nonlinear_arith);
    assert((n + 1) * g.low <= turns * g.low) by (nonlinear_arith)
        requires
            n + 1 <= turns,
            g.low >= 0,
    ;
}

/// What one step of an expansion does.
proof fn lemma_step<M: PathCostModel>(
    ctx: Context,
    m: &M,
    dst: WireId,
    g: Gap,
    n: int,
    stop: bool,
    e: QueueEntry,
    from: WireId,
    p: PipId,
    b: Board,
    turns: int,
)
    requires
        ctx.wf(),
        has_gap(ctx, m, dst, g, turns),
        0 <= n < turns,
        expands(ctx, g, n, e, b.vis),
        ctx.chipdb.joined(e.wire, from),
        leaves(ctx.chipdb, from, p),
        sane(ctx, m, dst, g, n + 1, b),
        busy(ctx, m, g, e, b),
    ensures
        ({
            let (c, stopped) = after_step(ctx, m, dst, stop, e, from, p, b);
            &&& kept_by(b.vis, c.vis)
            &&& expands(ctx, g, n, e, c.vis)
            &&& c.nodes == b.nodes
            &&& stopped ==> c.vis.contains_key(dst) && c.vis[dst].pip == Some(p) && ctx.chipdb.dst(p) == dst
            &&& !stopped ==> sane(ctx, m, dst, g, n + 1, c) && busy(ctx, m, g, e, c)
            &&& allowed(ctx, m, ctx.chipdb.dst(p)) && step_cost(ctx, m, p) < g.high ==> fair_visit(
                g,
                c.vis,
                ctx.chipdb.dst(p),
            )
            &&& stopped ==> (forall|x: WireId| #[trigger] b.vis.contains_key(x) && x != dst ==> c.vis[x] == b.vis[x])
        }),
{
    let (c, stopped) = after_step(ctx, m, dst, stop, e, from, p, b);
    let next = ctx.chipdb.dst(p);
    let v = step_visit(ctx, m, e, from, p);
    lemma_leaves(ctx.chipdb, from, p);
    if allowed(ctx, m, next) {
        lemma_scores(ctx, m, dst, g, n, e, b.vis, from, p, turns);
    }
    if step_counts(ctx, m, e, from, p, b) && !stopped {
        let f = entry_for(ctx, m, dst, next, v);
        assert(entry_score(f) == v.score());
        assert(c.heap == b.heap.insert(f));
        assert forall|x: QueueEntry| #[trigger] c.heap.contains(x) implies entry_ok(ctx, m, dst, g, n + 1, c.vis, x) by {
            if x != f {
                assert(b.heap.contains(x));
            }
        }
        assert forall|w: WireId| #[trigger]
            ctx.chipdb.valid_wire(w) && ctx.chipdb.node(w) is Some && c.nodes.contains(
                ctx.chipdb.node(w)->0,
            ) implies spread(ctx, m, g, c.vis, w) by {
            lemma_spread_stays(ctx, m, g, b.vis, c.vis, w);
        }
        assert forall|w: WireId| #[trigger] fair_visit(g, c.vis, w) implies waits(c, w) || spread(
            ctx,
            m,
            g,
            c.vis,
            w,
        ) || ctx.chipdb.joined(e.wire, w) by {
            if w == next {
                assert(c.heap.contains(f));
            } else {
                assert(fair_visit(g, b.vis, w));
                if waits(b, w) {
                    let y = choose|y: QueueEntry| #[trigger]
                        b.heap.contains(y) && y.wire == w && entry_score(y) == b.vis[w].score();
                    assert(c.heap.contains(y));
                } else if spread(ctx, m, g, b.vis, w) {
                    lemma_spread_stays(ctx, m, g, b.vis, c.vis, w);
                }
            }
        }
    }
}

proof fn lemma_steps<M: PathCostModel>(
    ctx: Context,
    m: &M,
    dst: WireId,
    g: Gap,
    n: int,
    stop: bool,
    e: QueueEntry,
    from: WireId,
    k: int,
    b: Board,
    turns: int,
)
    requires
        ctx.wf(),
        has_gap(ctx, m, dst, g, turns),
        0 <= n < turns,
        expands(ctx, g, n, e, b.vis),
        ctx.chipdb.joined(e.wire, from),
        ctx.chipdb.valid_wire(from),
        fair_visit(g, b.vis, from),
        0 <= k <= ctx.chipdb.wire(from).pips_downhill@.len(),
        sane(ctx, m, dst, g, n + 1, b),
        busy(ctx, m, g, e, b),
    ensures
        ({
            let (c, stopped) = after_steps(ctx, m, dst, stop, e, from, k, b);
            &&& expands(ctx, g, n, e, c.vis)
            &&& c.nodes == b.nodes
            &&& kept_by(b.vis, c.vis)
            &&& stopped ==> touched(ctx, g, dst, c.vis)
            &&& !stopped ==> {
                &&& sane(ctx, m, dst, g, n + 1, c)
                &&& busy(ctx, m, g, e, c)
                &&& forall|j: int|
                    0 <= j < k ==> {
                        let p = #[trigger] way_out(ctx.chipdb, from, j);
                        allowed(ctx, m, ctx.chipdb.dst(p)) && step_cost(ctx, m, p) < g.high ==> fair_visit(
                            g,
                            c.vis,
                            ctx.chipdb.dst(p),
                        )
                    }
            }
        }),
    decreases k,
{
    if k > 0 {
        lemma_steps(ctx, m, dst, g, n, stop, e, from, k - 1, b, turns);
        let (c, stopped) = after_steps(ctx, m, dst, stop, e, from, k - 1, b);
        if !stopped {
            let p = way_out(ctx.chipdb, from, k - 1);
            assert(ctx.chipdb.wire(from).pips_downhill@[k - 1] == p.index);
            assert(leaves(ctx.chipdb, from, p));
            lemma_step(ctx, m, dst, g, n, stop, e, from, p, c, turns);
            lemma_leaves(ctx.chipdb, from, p);
            let (d, now) = after_step(ctx, m, dst, stop, e, from, p, c);
            assert((d, now) == after_steps(ctx, m, dst, stop, e, from, k, b));
            if now {
                assert(fair_visit(g, c.vis, from));
                assert(fair_visit(g, d.vis, from));
                assert(touched(ctx, g, dst, d.vis));
            } else {
                assert forall|j: int| 0 <= j < k implies ({
                    let q = #[trigger] way_out(ctx.chipdb, from, j);
                    allowed(ctx, m, ctx.chipdb.dst(q)) && step_cost(ctx, m, q) < g.high ==> fair_visit(
                        g,
                        d.vis,
                        ctx.chipdb.dst(q),
                    )
                }) by {
                    let q = way_out(ctx.chipdb, from, j);
                    if j < k - 1 && allowed(ctx, m, ctx.chipdb.dst(q)) && step_cost(ctx, m, q) < g.high {
                        assert(fair_visit(g, c.vis, ctx.chipdb.dst(q)));
                    }
                }
            }
        }
    }
}

/// The target was come to over a pip whose start was come to by fair steps.
spec fn touched(ctx: Context, g: Gap, dst: WireId, vis: Map<WireId, Visit>) -> bool {
    &&& vis.contains_key(dst)
    &&& vis[dst].pip is Some
    &&& fair_visit(g, vis, ctx.chipdb.src(vis[dst].pip->0))
}

proof fn lemma_member<M: PathCostModel>(
    ctx: Context,
    m: &M,
    dst: WireId,
    g: Gap,
    n: int,
    stop: bool,
    e: QueueEntry,
    w: WireId,
    b: Board,
    turns: int,
)
    requires
        ctx.wf(),
        has_gap(ctx, m, dst, g, turns),
        0 <= n < turns,
        expands(ctx, g, n, e, b.vis),
        ctx.chipdb.joined(e.wire, w),
        ctx.chipdb.valid_wire(w),
        sane(ctx, m, dst, g, n + 1, b),
        busy(ctx, m, g, e, b),
    ensures
        ({
            let (c, stopped) = after_member(ctx, m, dst, stop, e, w, b);
            &&& expands(ctx, g, n, e, c.vis)
            &&& c.nodes == b.nodes
            &&& kept_by(b.vis, c.vis)
            &&& stopped ==> touched(ctx, g, dst, c.vis)
            &&& !stopped ==> {
                &&& sane(ctx, m, dst, g, n + 1, c)
                &&& busy(ctx, m, g, e, c)
                &&& fair_visit(g, c.vis, w)
                &&& stepped_out(ctx, m, g, c.vis, w)
            }
        }),
{
    let d = come_to(e, w, b);
    assert(n * g.low <= (n + 1) * g.low) by (nonlinear_arith)
        requires
            g.low >= 0,
    ;
    assert(kept_by(b.vis, d.vis));
    assert(fair_visit(g, d.vis, w));
    assert(sane(ctx, m, dst, g, n + 1, d)) by {
        assert forall|x: QueueEntry| #[trigger] d.heap.contains(x) implies entry_ok(ctx, m, dst, g, n + 1, d.vis, x) by {
            assert(b.heap.contains(x));
        }
        assert forall|x: WireId| #[trigger]
            ctx.chipdb.valid_wire(x) && ctx.chipdb.node(x) is Some && d.nodes.contains(
                ctx.chipdb.node(x)->0,
            ) implies spread(ctx, m, g, d.vis, x) by {
            lemma_spread_stays(ctx, m, g, b.vis, d.vis, x);
        }
    }
    assert(busy(ctx, m, g, e, d)) by {
        assert forall|x: WireId| #[trigger] fair_visit(g, d.vis, x) implies waits(d, x) || spread(
            ctx,
            m,
            g,
            d.vis,
            x,
        ) || ctx.chipdb.joined(e.wire, x) by {
            if x != w {
                assert(fair_visit(g, b.vis, x));
                if waits(b, x) {
                    let y = choose|y: QueueEntry| #[trigger]
                        b.heap.contains(y) && y.wire == x && entry_score(y) == b.vis[x].score();
                    assert(d.heap.contains(y));
                } else if spread(ctx, m, g, b.vis, x) {
                    lemma_spread_stays(ctx, m, g, b.vis, d.vis, x);
                }
            }
        }
    }
    let k = ctx.chipdb.wire(w).pips_downhill@.len() as int;
    lemma_steps(ctx, m, dst, g, n, stop, e, w, k, d, turns);
    let (c, stopped) = after_member(ctx, m, dst, stop, e, w, b);
    assert((c, stopped) == after_steps(ctx, m, dst, stop, e, w, k, d));
    assert(kept_by(b.vis, c.vis)) by {
        assert forall|x: WireId| #[trigger] b.vis.contains_key(x) implies c.vis.contains_key(x) && c.vis[x].score()
            <= b.vis[x].score() by {
            assert(d.vis.contains_key(x));
        }
    }
    if !stopped {
        assert(stepped_out(ctx, m, g, c.vis, w)) by {
            assert forall|p: PipId|
                #[trigger] leaves(ctx.chipdb, w, p) && allowed(ctx, m, ctx.chipdb.dst(p)) && step_cost(ctx, m, p)
                    < g.high implies fair_visit(g, c.vis, ctx.chipdb.dst(p)) by {
                let list = ctx.chipdb.wire(w).pips_downhill@;
                let j = choose|j: int| 0 <= j < list.len() && list[j] == p.index;
                assert(way_out(ctx.chipdb, w, j) == p);
            }
        }
    }
}

proof fn lemma_stepped_out_stays<M: PathCostModel>(
    ctx: Context,
    m: &M,
    g: Gap,
    a: Map<WireId, Visit>,
    b: Map<WireId, Visit>,
    x: WireId,
)
    requires
        kept_by(a, b),
        stepped_out(ctx, m, g, a, x),
    ensures
        stepped_out(ctx, m, g, b, x),
{
    assert forall|p: PipId|
        #[trigger] leaves(ctx.chipdb, x, p) && allowed(ctx, m, ctx.chipdb.dst(p)) && step_cost(ctx, m, p)
            < g.high implies fair_visit(g, b, ctx.chipdb.dst(p)) by {
        assert(fair_visit(g, a, ctx.chipdb.dst(p)));
    }
}

proof fn lemma_members<M: PathCostModel>(
    ctx: Context,
    m: &M,
    dst: WireId,
    g: Gap,
    n: int,
    stop: bool,
    e: QueueEntry,
    k: int,
    b: Board,
    turns: int,
)
    requires
        ctx.wf(),
        has_gap(ctx, m, dst, g, turns),
        0 <= n < turns,
        expands(ctx, g, n, e, b.vis),
        0 <= k <= members_of(ctx.chipdb, e.wire).len(),
        sane(ctx, m, dst, g, n + 1, b),
        busy(ctx, m, g, e, b),
    ensures
        ({
            let (c, stopped) = after_members(ctx, m, dst, stop, e, k, b);
            &&& expands(ctx, g, n, e, c.vis)
            &&& c.nodes == b.nodes
            &&& kept_by(b.vis, c.vis)
            &&& stopped ==> touched(ctx, g, dst, c.vis)
            &&& !stopped ==> {
                &&& sane(ctx, m, dst, g, n + 1, c)
                &&& busy(ctx, m, g, e, c)
                &&& forall|i: int|
                    0 <= i < k ==> fair_visit(g, c.vis, #[trigger] members_of(ctx.chipdb, e.wire)[i])
                        && stepped_out(ctx, m, g, c.vis, members_of(ctx.chipdb, e.wire)[i])
            }
        }),
    decreases k,
{
    let list = members_of(ctx.chipdb, e.wire);
    if k > 0 {
        lemma_members(ctx, m, dst, g, n, stop, e, k - 1, b, turns);
        let (c, stopped) = after_members(ctx, m, dst, stop, e, k - 1, b);
        if !stopped {
            let w = list[k - 1];
            ctx.chipdb.lemma_peers(e.wire);
            if k > 1 {
                assert(w == ctx.chipdb.peers(e.wire)[k - 2]);
            }
            lemma_member(ctx, m, dst, g, n, stop, e, w, c, turns);
            let (d, now) = after_member(ctx, m, dst, stop, e, w, c);
            assert((d, now) == after_members(ctx, m, dst, stop, e, k, b));
            assert(kept_by(b.vis, d.vis)) by {
                assert forall|x: WireId| #[trigger] b.vis.contains_key(x) implies d.vis.contains_key(x)
                    && d.vis[x].score() <= b.vis[x].score() by {
                    assert(c.vis.contains_key(x));
                }
            }
            if !now {
                assert forall|i: int| 0 <= i < k implies fair_visit(g, d.vis, #[trigger] list[i]) && stepped_out(
                    ctx,
                    m,
                    g,
                    d.vis,
                    list[i],
                ) by {
                    if i < k - 1 {
                        assert(fair_visit(g, c.vis, list[i]));
                        lemma_stepped_out_stays(ctx, m, g, c.vis, d.vis, list[i]);
                    }
                }
            }
        }
    }
}

/// Once no entry on a fair way waits, every wire that fair steps lead to was come to by fair steps.
proof fn lemma_settles<M: PathCostModel>(
    ctx: Context,
    m: &M,
    srcs: Map<WireId, ()>,
    g: Gap,
    vis: Map<WireId, Visit>,
    u: WireId,
    walk: Seq<Hop>,
)
    requires
        forall|w: WireId| #[trigger] fair_visit(g, vis, w) ==> spread(ctx, m, g, vis, w),
        fair_visit(g, vis, u),
        fair_walk(ctx, m, g, u, walk),
    ensures
        fair_visit(g, vis, walk_end(u, walk)),
    decreases walk.len(),
{
    if walk.len() > 0 {
        let h = walk[0];
        let rest = walk.skip(1);
        assert(spread(ctx, m, g, vis, u));
        match h.pip {
            None => {
                assert(ctx.chipdb.joined(u, h.to));
            },
            Some(p) => {
                assert(ctx.chipdb.joined(u, u));
                assert(stepped_out(ctx, m, g, vis, u));
                assert(leaves(ctx.chipdb, u, p));
            },
        }
        assert(fair_walk(ctx, m, g, h.to, rest)) by {
            assert forall|i: int| 0 <= i < rest.len() && (#[trigger] rest[i]).pip is Some implies step_cost(
                ctx,
                m,
                rest[i].pip->0,
            ) < g.high by {
                assert(rest[i] == walk[i + 1]);
            }
        }
        lemma_settles(ctx, m, srcs, g, vis, h.to, rest);
        if rest.len() > 0 {
            assert(rest.last() == walk.last());
        }
    }
}

proof fn lemma_settled_now<M: PathCostModel>(
    ctx: Context,
    m: &M,
    srcs: Map<WireId, ()>,
    dst: WireId,
    g: Gap,
    n: int,
    b: Board,
    turns: int,
)
    requires
        has_gap(ctx, m, dst, g, turns),
        0 <= n <= turns,
        quiet(ctx, m, srcs, dst, g, n, b),
        forall|x: QueueEntry| #[trigger] b.heap.contains(x) ==> x.estimate >= g.high,
    ensures
        settled(ctx, m, srcs, g, b.vis),
{
    assert(n * g.low <= turns * g.low) by (nonlinear_arith)
        requires
            n <= turns,
            g.low >= 0,
    ;
    assert forall|w: WireId| #[trigger] fair_visit(g, b.vis, w) implies spread(ctx, m, g, b.vis, w) by {
        if waits(b, w) {
            let y = choose|y: QueueEntry| #[trigger]
                b.heap.contains(y) && y.wire == w && entry_score(y) == b.vis[w].score();
            assert(entry_ok(ctx, m, dst, g, n, b.vis, y));
            assert(y.estimate < g.high);
        }
    }
    assert forall|w: WireId| #[trigger] fairly_reachable(ctx, m, g, srcs, w) implies fair_visit(g, b.vis, w) by {
        let (s, walk) = choose|s: WireId, walk: Seq<Hop>|
            srcs.contains_key(s) && #[trigger] fair_walk(ctx, m, g, s, walk) && walk_end(s, walk) == w;
        lemma_settles(ctx, m, srcs, g, b.vis, s, walk);
    }
}

/// How a search whose target was reached ends: by a fair way, over a pip from a fair way, or after
/// everything that fair steps lead to was come to by fair steps.
spec fn ends_well<M: PathCostModel>(
    ctx: Context,
    m: &M,
    srcs: Map<WireId, ()>,
    dst: WireId,
    g: Gap,
    vis: Map<WireId, Visit>,
) -> bool {
    ||| fair_visit(g, vis, dst)
    ||| touched(ctx, g, dst, vis)
    ||| settled(ctx, m, srcs, g, vis)
}

/// What a turn leads to as long as no dear way is followed.
spec fn turned_well<M: PathCostModel>(
    ctx: Context,
    m: &M,
    srcs: Map<WireId, ()>,
    dst: WireId,
    g: Gap,
    n: int,
    t: Turn,
) -> bool {
    match t {
        Turn::On(c) => quiet(ctx, m, srcs, dst, g, n + 1, c),
        Turn::There(vis, score) => ends_well(ctx, m, srcs, dst, g, vis),
    }
}

proof fn lemma_grows<M: PathCostModel>(
    ctx: Context,
    m: &M,
    dst: WireId,
    g: Gap,
    n: int,
    b: Board,
)
    requires
        sane(ctx, m, dst, g, n, b),
        g.low >= 0,
    ensures
        sane(ctx, m, dst, g, n + 1, b),
{
    assert(n * g.low <= (n + 1) * g.low) by (nonlinear_arith)
        requires
            g.low >= 0,
    ;
    assert forall|e: QueueEntry| #[trigger] b.heap.contains(e) implies entry_ok(ctx, m, dst, g, n + 1, b.vis, e) by {
        assert(entry_ok(ctx, m, dst, g, n, b.vis, e));
    }
}

#[verifier::spinoff_prover]
#[verifier::rlimit(40)]
proof fn lemma_quiet_turn<M: PathCostModel>(
    ctx: Context,
    m: &M,
    srcs: Map<WireId, ()>,
    dst: WireId,
    g: Gap,
    n: int,
    exhaustive: bool,
    stop: bool,
    b: Board,
    turns: int,
)
    requires
        ctx.wf(),
        has_gap(ctx, m, dst, g, turns),
        0 <= n < turns,
        quiet(ctx, m, srcs, dst, g, n, b),
        is_next(b.heap, next_entry(b.heap)),
        next_entry(b.heap).estimate < g.high,
        ctx.chipdb.valid_wire(dst),
    ensures
        turned_well(ctx, m, srcs, dst, g, n, turn(ctx, m, dst, exhaustive, stop, b)),
{
    let chip = ctx.chipdb;
    let e = next_entry(b.heap);
    let c = Board { heap: b.heap.remove(e), ..b };
    let score = entry_score(e);
    assert(entry_ok(ctx, m, dst, g, n, b.vis, e));
    assert(score <= e.estimate);
    assert(score < g.high);
    assert forall|x: QueueEntry| #[trigger] c.heap.contains(x) implies b.heap.contains(x) by {
    }
    assert forall|x: QueueEntry| #[trigger] b.heap.contains(x) && x != e implies c.heap.contains(x) by {
    }
    lemma_grows(ctx, m, dst, g, n, b);
    assert(sane(ctx, m, dst, g, n + 1, c)) by {
        assert forall|x: QueueEntry| #[trigger] c.heap.contains(x) implies entry_ok(ctx, m, dst, g, n + 1, c.vis, x) by {
            assert(b.heap.contains(x));
        }
    }
    assert forall|w: WireId| #[trigger] fair_visit(g, c.vis, w) && w != e.wire implies waits(c, w) || spread(
        ctx,
        m,
        g,
        c.vis,
        w,
    ) by {
        assert(fair_visit(g, b.vis, w));
        if waits(b, w) {
            let y = choose|y: QueueEntry| #[trigger]
                b.heap.contains(y) && y.wire == w && entry_score(y) == b.vis[w].score();
            assert(c.heap.contains(y));
        }
    }
    if score > c.vis[e.wire].score() {
        assert forall|w: WireId| #[trigger] fair_visit(g, c.vis, w) implies waits(c, w) || spread(
            ctx,
            m,
            g,
            c.vis,
            w,
        ) by {
            if w == e.wire {
                assert(fair_visit(g, b.vis, w));
                if waits(b, w) {
                    let y = choose|y: QueueEntry| #[trigger]
                        b.heap.contains(y) && y.wire == w && entry_score(y) == b.vis[w].score();
                    assert(y != e);
                    assert(c.heap.contains(y));
                }
            }
        }
        assert(quiet(ctx, m, srcs, dst, g, n + 1, c));
    } else if !exhaustive && e.wire == dst {
    } else if used_up(chip, e.wire, c) {
        assert(chip.valid_wire(e.wire));
        assert(spread(ctx, m, g, c.vis, e.wire));
        assert(quiet(ctx, m, srcs, dst, g, n + 1, c));
    } else if !exhaustive && chip.node(e.wire) is Some && chip.node(dst) == chip.node(e.wire) {
        let v = Visit { cost: e.cost, penalty: e.penalty, pip: None, from: e.wire };
        assert(fair_visit(g, offered(c.vis, dst, v), dst));
    } else {
        assert(expands(ctx, g, n, e, c.vis));
        assert(chip.joined(e.wire, e.wire));
        assert(busy(ctx, m, g, e, c)) by {
            assert forall|w: WireId| #[trigger] fair_visit(g, c.vis, w) implies waits(c, w) || spread(
                ctx,
                m,
                g,
                c.vis,
                w,
            ) || chip.joined(e.wire, w) by {
                if w == e.wire {
                    assert(chip.joined(e.wire, w));
                }
            }
        }
        let list = members_of(chip, e.wire);
        lemma_members(ctx, m, dst, g, n, stop, e, list.len() as int, c, turns);
        let (d, stopped) = after_entry(ctx, m, dst, stop, e, c);
        if !stopped {
            let f = Board { nodes: nodes_with(chip, e.wire, d.nodes), ..d };
            assert forall|w: WireId| #[trigger] chip.joined(e.wire, w) implies spread(ctx, m, g, d.vis, w) by {
                assert forall|x: WireId| #[trigger] chip.joined(w, x) implies fair_visit(g, d.vis, x) && stepped_out(
                    ctx,
                    m,
                    g,
                    d.vis,
                    x,
                ) by {
                    assert(chip.joined(e.wire, x));
                    chip.lemma_peers(e.wire);
                    if x == e.wire {
                        assert(list[0] == x);
                    } else {
                        assert(chip.peers(e.wire).contains(x));
                        let i = choose|i: int| 0 <= i < chip.peers(e.wire).len() && chip.peers(e.wire)[i] == x;
                        assert(list[i + 1] == x);
                    }
                }
            }
            assert(sane(ctx, m, dst, g, n + 1, f)) by {
                assert forall|x: QueueEntry| #[trigger] f.heap.contains(x) implies entry_ok(
                    ctx,
                    m,
                    dst,
                    g,
                    n + 1,
                    f.vis,
                    x,
                ) by {
                    assert(d.heap.contains(x));
                }
                assert forall|w: WireId| #[trigger]
                    chip.valid_wire(w) && chip.node(w) is Some && f.nodes.contains(chip.node(w)->0) implies spread(
                    ctx,
                    m,
                    g,
                    f.vis,
                    w,
                ) by {
                    if !d.nodes.contains(chip.node(w)->0) {
                        assert(chip.joined(e.wire, w));
                    }
                }
            }
            assert forall|s: WireId| #[trigger] srcs.contains_key(s) implies fair_visit(g, f.vis, s) by {
                assert(fair_visit(g, c.vis, s));
            }
            assert forall|w: WireId| #[trigger] fair_visit(g, f.vis, w) implies waits(f, w) || spread(
                ctx,
                m,
                g,
                f.vis,
                w,
            ) by {
                assert(fair_visit(g, d.vis, w));
                if waits(d, w) {
                    let y = choose|y: QueueEntry| #[trigger]
                        d.heap.contains(y) && y.wire == w && entry_score(y) == d.vis[w].score();
                    assert(f.heap.contains(y));
                }
            }
            assert(quiet(ctx, m, srcs, dst, g, n + 1, f));
        }
    }
}

proof fn lemma_step_keeps<M: PathCostModel>(
    ctx: Context,
    m: &M,
    dst: WireId,
    stop: bool,
    e: QueueEntry,
    from: WireId,
    k: int,
    b: Board,
)
    ensures
        kept_by(b.vis, after_steps(ctx, m, dst, stop, e, from, k, b).0.vis),
    decreases k,
{
    if k > 0 {
        lemma_step_keeps(ctx, m, dst, stop, e, from, k - 1, b);
    }
}

proof fn lemma_members_keep<M: PathCostModel>(
    ctx: Context,
    m: &M,
    dst: WireId,
    stop: bool,
    e: QueueEntry,
    k: int,
    b: Board,
)
    ensures
        kept_by(b.vis, after_members(ctx, m, dst, stop, e, k, b).0.vis),
    decreases k,
{
    if k > 0 {
        lemma_members_keep(ctx, m, dst, stop, e, k - 1, b);
        let (c, stopped) = after_members(ctx, m, dst, stop, e, k - 1, b);
        if !stopped {
            let w = members_of(ctx.chipdb, e.wire)[k - 1];
            let d = come_to(e, w, c);
            assert(kept_by(c.vis, d.vis));
            let n = ctx.chipdb.wire(w).pips_downhill@.len() as int;
            lemma_step_keeps(ctx, m, dst, stop, e, w, n, d);
            let f = after_members(ctx, m, dst, stop, e, k, b).0;
            assert(f == after_steps(ctx, m, dst, stop, e, w, n, d).0);
            assert forall|x: WireId| #[trigger] b.vis.contains_key(x) implies f.vis.contains_key(x) && f.vis[x].score()
                <= b.vis[x].score() by {
                assert(c.vis.contains_key(x));
                assert(d.vis.contains_key(x));
            }
        }
    }
}

/// Turns never lose a visit nor raise a score.
proof fn lemma_run_keeps<M: PathCostModel>(
    ctx: Context,
    m: &M,
    dst: WireId,
    exhaustive: bool,
    stop: bool,
    b: Board,
    left: nat,
)
    ensures
        kept_by(b.vis, run(ctx, m, dst, exhaustive, stop, b, left).vis),
    decreases left,
{
    if b.heap != Multiset::<QueueEntry>::empty() && left > 0 {
        let e = next_entry(b.heap);
        let c = Board { heap: b.heap.remove(e), ..b };
        lemma_members_keep(ctx, m, dst, stop, e, members_of(ctx.chipdb, e.wire).len() as int, c);
        match turn(ctx, m, dst, exhaustive, stop, b) {
            Turn::On(d) => {
                assert(kept_by(b.vis, d.vis));
                lemma_run_keeps(ctx, m, dst, exhaustive, stop, d, (left - 1) as nat);
                let end = run(ctx, m, dst, exhaustive, stop, d, (left - 1) as nat);
                assert forall|x: WireId| #[trigger] b.vis.contains_key(x) implies end.vis.contains_key(x)
                    && end.vis[x].score() <= b.vis[x].score() by {
                    assert(d.vis.contains_key(x));
                }
            },
            Turn::There(vis, score) => {},
        }
    }
}

/// A queue with entries has a next one.
proof fn lemma_has_next(heap: Multiset<QueueEntry>)
    requires
        heap.len() > 0,
    ensures
        is_next(heap, next_entry(heap)),
    decreases heap.len(),
{
    broadcast use vstd::multiset::group_multiset_axioms;

    let e = heap.choose();
    assert(heap.contains(e));
    let rest = heap.remove(e);
    if rest.len() == 0 {
        assert forall|x: QueueEntry| #[trigger] heap.contains(x) implies goes_first(e, x) by {
            if x != e {
                assert(rest.count(x) > 0);
                assert(rest.count(x) <= rest.len());
            }
        }
        assert(is_next(heap, e));
    } else {
        lemma_has_next(rest);
        let f = next_entry(rest);
        let first = if goes_first(e, f) {
            e
        } else {
            f
        };
        assert(heap.contains(f));
        assert forall|x: QueueEntry| #[trigger] heap.contains(x) implies goes_first(first, x) by {
            if x != e {
                assert(rest.contains(x));
            }
        }
        assert(is_next(heap, first));
    }
}

proof fn lemma_run<M: PathCostModel>(
    ctx: Context,
    m: &M,
    srcs: Map<WireId, ()>,
    dst: WireId,
    g: Gap,
    n: int,
    exhaustive: bool,
    stop: bool,
    b: Board,
    left: nat,
    turns: int,
)
    requires
        ctx.wf(),
        has_gap(ctx, m, dst, g, turns),
        0 <= n,
        n + left == turns,
        quiet(ctx, m, srcs, dst, g, n, b),
        ctx.chipdb.valid_wire(dst),
    ensures
        ({
            let end = run(ctx, m, dst, exhaustive, stop, b, left);
            end.exit is Reached ==> ends_well(ctx, m, srcs, dst, g, end.vis)
        }),
    decreases left,
{
    broadcast use vstd::multiset::group_multiset_axioms;

    if b.heap != Multiset::<QueueEntry>::empty() && left > 0 {
        assert(b.heap.len() > 0) by {
            if b.heap.len() == 0 {
                assert forall|x: QueueEntry| b.heap.count(x) == 0 by {
                    assert(b.heap.count(x) <= b.heap.len());
                }
                assert(b.heap =~= Multiset::<QueueEntry>::empty());
            }
        }
        lemma_has_next(b.heap);
        let e = next_entry(b.heap);
        if e.estimate < g.high {
            lemma_quiet_turn(ctx, m, srcs, dst, g, n, exhaustive, stop, b, turns);
            match turn(ctx, m, dst, exhaustive, stop, b) {
                Turn::On(c) => {
                    lemma_run(ctx, m, srcs, dst, g, n + 1, exhaustive, stop, c, (left - 1) as nat, turns);
                },
                Turn::There(vis, score) => {},
            }
        } else {
            assert forall|x: QueueEntry| #[trigger] b.heap.contains(x) implies x.estimate >= g.high by {
                assert(goes_first(e, x));
            }
            lemma_settled_now(ctx, m, srcs, dst, g, n, b, turns);
            lemma_run_keeps(ctx, m, dst, exhaustive, stop, b, left);
            let end = run(ctx, m, dst, exhaustive, stop, b, left);
            assert forall|w: WireId| #[trigger] fairly_reachable(ctx, m, g, srcs, w) implies fair_visit(
                g,
                end.vis,
                w,
            ) by {
                assert(fair_visit(g, b.vis, w));
            }
        }
    }
}

/// A search begins quietly.
proof fn lemma_begins<M: PathCostModel>(
    ctx: Context,
    m: &M,
    srcs: Map<WireId, ()>,
    dst: WireId,
    g: Gap,
    b: Board,
    turns: int,
)
    requires
        has_gap(ctx, m, dst, g, turns),
        0 <= turns,
        forall|s: WireId| #[trigger] srcs.contains_key(s) ==> ctx.chipdb.valid_wire(s),
        begins(ctx, m, srcs, dst, b),
    ensures
        quiet(ctx, m, srcs, dst, g, 0, b),
{
    assert(turns * g.low >= 0) by (nonlinear_arith)
        requires
            turns >= 0,
            g.low >= 0,
    ;
    assert forall|e: QueueEntry| #[trigger] b.heap.contains(e) implies entry_ok(ctx, m, dst, g, 0, b.vis, e) by {
        assert(b.heap.count(e) > 0);
        assert(ctx.chipdb.valid_wire(e.wire));
    }
    assert forall|w: WireId| #[trigger] fair_visit(g, b.vis, w) implies waits(b, w) by {
        let e = source_entry(ctx, m, dst, w);
        assert(b.heap.count(e) == 1);
        assert(b.heap.contains(e));
    }
}

proof fn lemma_costs<M: PathCostModel>(
    ctx: Context,
    m: &M,
    srcs: Map<WireId, ()>,
    dst: WireId,
    g: Gap,
    path: Seq<PipId>,
    w: WireId,
    turns: int,
)
    requires
        has_gap(ctx, m, dst, g, turns),
        path_ok(ctx, m, srcs, path, w),
    ensures
        path_cost(ctx, m, path) >= 0,
        forall|i: int| 0 <= i < path.len() ==> step_cost(ctx, m, #[trigger] path[i]) <= path_cost(ctx, m, path),
    decreases path.len(),
{
    if path.len() > 0 {
        let p = path.last();
        lemma_costs(ctx, m, srcs, dst, g, path.drop_last(), ctx.chipdb.src(p), turns);
        assert(ctx.chipdb.valid_pip(p) && allowed(ctx, m, ctx.chipdb.dst(p)));
        assert forall|i: int| 0 <= i < path.len() implies step_cost(ctx, m, #[trigger] path[i]) <= path_cost(
            ctx,
            m,
            path,
        ) by {
            if i < path.len() - 1 {
                assert(path.drop_last()[i] == path[i]);
            }
        }
    }
}

/// A path without its last pip is the path to where that pip starts.
proof fn lemma_front(ctx: Context, vis: Map<WireId, Visit>, w: WireId, n: nat) -> (k: nat)
    requires
        settles(ctx.chipdb, vis, w, n),
        trace_back(ctx.chipdb, vis, w, n).len() > 0,
    ensures
        ({
            let path = trace_back(ctx.chipdb, vis, w, n);
            let u = ctx.chipdb.src(path.last());
            settles(ctx.chipdb, vis, u, k) && path.drop_last() == trace_back(ctx.chipdb, vis, u, k)
        }),
    decreases n,
{
    let path = trace_back(ctx.chipdb, vis, w, n);
    match vis[w].pip {
        Some(p) => {
            assert(path.drop_last() =~= trace_back(ctx.chipdb, vis, ctx.chipdb.src(p), (n - 1) as nat));
            (n - 1) as nat
        },
        None => lemma_front(ctx, vis, vis[w].from, (n - 1) as nat),
    }
}

/// The path to a wire that was come to by fair steps takes fair steps only.
proof fn lemma_fair_path<M: PathCostModel>(
    ctx: Context,
    m: &M,
    srcs: Map<WireId, ()>,
    dst: WireId,
    g: Gap,
    vis: Map<WireId, Visit>,
    w: WireId,
    n: nat,
    turns: int,
)
    requires
        has_gap(ctx, m, dst, g, turns),
        visits_sound(ctx, m, srcs, vis),
        fair_visit(g, vis, w),
        settles(ctx.chipdb, vis, w, n),
    ensures
        forall|i: int|
            0 <= i < trace_back(ctx.chipdb, vis, w, n).len() ==> step_cost(
                ctx,
                m,
                #[trigger] trace_back(ctx.chipdb, vis, w, n)[i],
            ) < g.high,
{
    let k = choose|k: nat| #[trigger]
        settles(ctx.chipdb, vis, w, k) && path_ok(ctx, m, srcs, trace_back(ctx.chipdb, vis, w, k), w) && sat_sum(
            path_cost(ctx, m, trace_back(ctx.chipdb, vis, w, k)),
            0,
        ) <= vis[w].score();
    if k <= n {
        lemma_settled(ctx.chipdb, vis, w, k, n);
    } else {
        lemma_settled(ctx.chipdb, vis, w, n, k);
    }
    lemma_costs(ctx, m, srcs, dst, g, trace_back(ctx.chipdb, vis, w, k), w, turns);
}

/// A search takes no dear step where fair ones would do: if fair steps lead from a source to where
/// the last pip of its path starts, the path takes fair steps up to there; and if fair steps lead to
/// the target and the search does not stop at the first touch, the whole path does. This asks for
/// costs with a gap: as many fair steps as the search has turns, and an estimate, together cost less
/// than one dear step.
pub proof fn searches_go_round_dear_wires<M: PathCostModel>(
    ctx: Context,
    m: &M,
    srcs: Map<WireId, ()>,
    dst: WireId,
    opts: AStarOptions,
    res: AStarResult,
    g: Gap,
)
    requires
        ctx.wf(),
        ctx.chipdb.valid_wire(dst),
        forall|s: WireId| #[trigger] srcs.contains_key(s) ==> ctx.chipdb.valid_wire(s),
        has_gap(ctx, m, dst, g, res.trace.max_visits as int),
        result_ok(ctx, m, srcs, dst, opts, res),
        res.path is Some,
    ensures
        res.path->0@.len() > 0 && fairly_reachable(ctx, m, g, srcs, ctx.chipdb.src(res.path->0@.last()))
            ==> forall|i: int|
            0 <= i < res.path->0@.len() - 1 ==> step_cost(ctx, m, #[trigger] res.path->0@[i]) < g.high,
        !opts.stop_on_first_touch && fairly_reachable(ctx, m, g, srcs, dst) ==> forall|i: int|
            0 <= i < res.path->0@.len() ==> step_cost(ctx, m, #[trigger] res.path->0@[i]) < g.high,
{
    let chip = ctx.chipdb;
    let path = res.path->0@;
    let vis = if opts.retain_trace {
        res.trace.visited@
    } else {
        choose|vis: Map<WireId, Visit>| #[trigger]
            visits_made(ctx, m, srcs, dst, opts.exhaustive, res.trace.exit, vis) && run_ok(
                ctx,
                m,
                srcs,
                dst,
                opts,
                res,
                vis,
            )
    };
    reveal(run_ok);
    if opts.exhaustive || !srcs.contains_key(dst) {
        let turns = res.trace.max_visits as int;
        let stop = opts.stop_on_first_touch && !opts.exhaustive;
        let b = choose|b: Board| #[trigger] run_from(ctx, m, srcs, dst, opts, res, vis, b);
        let end = run(ctx, m, dst, opts.exhaustive, stop, b, res.trace.max_visits as nat);
        lemma_begins(ctx, m, srcs, dst, g, b, turns);
        lemma_run(ctx, m, srcs, dst, g, 0, opts.exhaustive, stop, b, res.trace.max_visits as nat, turns);
        assert(ends_well(ctx, m, srcs, dst, g, vis));
        let n = choose|n: nat| #[trigger] settles(chip, vis, dst, n) && path == trace_back(chip, vis, dst, n);
        if fair_visit(g, vis, dst) {
            lemma_fair_path(ctx, m, srcs, dst, g, vis, dst, n, turns);
        }
        if path.len() > 0 && fairly_reachable(ctx, m, g, srcs, chip.src(path.last())) {
            let u = chip.src(path.last());
            let k = lemma_front(ctx, vis, dst, n);
            assert(fair_visit(g, vis, dst) || fair_visit(g, vis, u)) by {
                if !fair_visit(g, vis, dst) && touched(ctx, g, dst, vis) {
                    assert(path.last() == vis[dst].pip->0);
                }
            }
            if fair_visit(g, vis, u) {
                lemma_fair_path(ctx, m, srcs, dst, g, vis, u, k, turns);
                assert forall|i: int| 0 <= i < path.len() - 1 implies step_cost(ctx, m, #[trigger] path[i]) < g.high by {
                    assert(path.drop_last()[i] == path[i]);
                }
            }
        }
        if !opts.stop_on_first_touch && fairly_reachable(ctx, m, g, srcs, dst) {
            lemma_untouched(ctx, m, srcs, dst, g, 0, opts.exhaustive, b, res.trace.max_visits as nat, turns);
        }
    } else {
        let end = crate::router::run::ended_at_once(dst);
        let n = choose|n: nat| #[trigger] settles(chip, vis, dst, n) && path == trace_back(chip, vis, dst, n);
        assert(path.len() == 0);
    }
}

/// A search that does not stop at the first touch comes to its target by a fair way, or after
/// everything that fair steps lead to.
proof fn lemma_untouched<M: PathCostModel>(
    ctx: Context,
    m: &M,
    srcs: Map<WireId, ()>,
    dst: WireId,
    g: Gap,
    n: int,
    exhaustive: bool,
    b: Board,
    left: nat,
    turns: int,
)
    requires
        ctx.wf(),
        has_gap(ctx, m, dst, g, turns),
        0 <= n,
        n + left == turns,
        quiet(ctx, m, srcs, dst, g, n, b),
        ctx.chipdb.valid_wire(dst),
        fairly_reachable(ctx, m, g, srcs, dst),
    ensures
        ({
            let end = run(ctx, m, dst, exhaustive, false, b, left);
            end.exit is Reached ==> fair_visit(g, end.vis, dst)
        }),
    decreases left,
{
    broadcast use vstd::multiset::group_multiset_axioms;

    if b.heap != Multiset::<QueueEntry>::empty() && left > 0 {
        assert(b.heap.len() > 0) by {
            if b.heap.len() == 0 {
                assert forall|x: QueueEntry| b.heap.count(x) == 0 by {
                    assert(b.heap.count(x) <= b.heap.len());
                }
                assert(b.heap =~= Multiset::<QueueEntry>::empty());
            }
        }
        lemma_has_next(b.heap);
        let e = next_entry(b.heap);
        if e.estimate < g.high {
            lemma_quiet_turn(ctx, m, srcs, dst, g, n, exhaustive, false, b, turns);
            let c = Board { heap: b.heap.remove(e), ..b };
            lemma_never_stops(ctx, m, dst, e, members_of(ctx.chipdb, e.wire).len() as int, c);
            assert(entry_ok(ctx, m, dst, g, n, b.vis, e));
            match turn(ctx, m, dst, exhaustive, false, b) {
                Turn::On(d) => {
                    lemma_untouched(ctx, m, srcs, dst, g, n + 1, exhaustive, d, (left - 1) as nat, turns);
                },
                Turn::There(vis, score) => {
                    assert(entry_score(e) < g.high);
                },
            }
        } else {
            assert forall|x: QueueEntry| #[trigger] b.heap.contains(x) implies x.estimate >= g.high by {
                assert(goes_first(e, x));
            }
            lemma_settled_now(ctx, m, srcs, dst, g, n, b, turns);
            lemma_run_keeps(ctx, m, dst, exhaustive, false, b, left);
            assert(fair_visit(g, b.vis, dst));
        }
    }
}

proof fn lemma_never_stops_early<M: PathCostModel>(
    ctx: Context,
    m: &M,
    dst: WireId,
    e: QueueEntry,
    from: WireId,
    k: int,
    b: Board,
)
    ensures
        !after_steps(ctx, m, dst, false, e, from, k, b).1,
    decreases k,
{
    if k > 0 {
        lemma_never_stops_early(ctx, m, dst, e, from, k - 1, b);
    }
}

proof fn lemma_never_stops<M: PathCostModel>(
    ctx: Context,
    m: &M,
    dst: WireId,
    e: QueueEntry,
    k: int,
    b: Board,
)
    ensures
        !after_members(ctx, m, dst, false, e, k, b).1,
    decreases k,
{
    if k > 0 {
        lemma_never_stops(ctx, m, dst, e, k - 1, b);
        let c = after_members(ctx, m, dst, false, e, k - 1, b).0;
        let w = members_of(ctx.chipdb, e.wire)[k - 1];
        lemma_never_stops_early(
            ctx,
            m,
            dst,
            e,
            w,
            ctx.chipdb.wire(w).pips_downhill@.len() as int,
            come_to(e, w, c),
        );
    }
}

} // verus!
