//! A path search as a sequence of turns, each of which follows from the state before it.

use crate::chipdb::{ChipDb, PipId, WireId};
use crate::context::Context;
use crate::router::astar::{
    betters, lemma_one_limit, limit_used, offered, result_ok, visits_made, AStarExit, AStarOptions, AStarResult,
};
use crate::router::graph::{allowed, lemma_settled, settles, trace_back, PathCostModel, Visit};
use crate::router::heap::{next_entry, QueueEntry};
use crate::router::search::entry_score;
use crate::timing::delay::sat_sum;
use vstd::multiset::Multiset;
use vstd::prelude::*;

verus! {

/// What a search works on: the visits, the entries that wait, and the nodes that were expanded.
#[verifier::ext_equal]
pub struct Board {
    pub vis: Map<WireId, Visit>,
    pub heap: Multiset<QueueEntry>,
    pub nodes: Set<u64>,
}

/// How a search ends: with which visits, why, with which score, and with how many turns left.
pub struct Ending {
    pub vis: Map<WireId, Visit>,
    pub exit: AStarExit,
    pub score: int,
    pub left: nat,
}

/// The entry of a source.
pub open spec fn source_entry<M: PathCostModel>(ctx: Context, m: &M, dst: WireId, s: WireId) -> QueueEntry {
    QueueEntry { wire: s, cost: 0, penalty: 0, estimate: m.heuristic_of(ctx, s, dst) as i32 }
}

/// The visit of a source.
pub open spec fn source_visit(s: WireId) -> Visit {
    Visit { cost: 0, penalty: 0, pip: None, from: s }
}

/// A search begins with a visit and an entry for each source.
pub open spec fn begins<M: PathCostModel>(
    ctx: Context,
    m: &M,
    srcs: Map<WireId, ()>,
    dst: WireId,
    b: Board,
) -> bool {
    &&& b.vis == Map::new(|w: WireId| srcs.contains_key(w), |w: WireId| source_visit(w))
    &&& forall|e: QueueEntry| #[trigger]
        b.heap.count(e) == if srcs.contains_key(e.wire) && e == source_entry(ctx, m, dst, e.wire) {
            1nat
        } else {
            0nat
        }
    &&& b.nodes == Set::<u64>::empty()
}

/// Pip `j` of those that leave the wire.
pub open spec fn way_out(chip: ChipDb, w: WireId, j: int) -> PipId {
    PipId { tile: w.tile, index: chip.wire(w).pips_downhill@[j] }
}

/// The visit that a step from the conductor of an entry offers.
pub open spec fn step_visit<M: PathCostModel>(ctx: Context, m: &M, e: QueueEntry, from: WireId, p: PipId) -> Visit {
    Visit {
        cost: sat_sum(e.cost as int, m.pip_cost_of(ctx, p)) as i32,
        penalty: sat_sum(e.penalty as int, m.penalty_of(ctx, ctx.chipdb.dst(p))) as i32,
        pip: Some(p),
        from,
    }
}

/// The entry for a visit.
pub open spec fn entry_for<M: PathCostModel>(ctx: Context, m: &M, dst: WireId, w: WireId, v: Visit) -> QueueEntry {
    QueueEntry {
        wire: w,
        cost: v.cost,
        penalty: v.penalty,
        estimate: sat_sum(v.score(), m.heuristic_of(ctx, w, dst)) as i32,
    }
}

/// The step leads to a wire that may be entered, and is better than what is noted of it.
pub open spec fn step_counts<M: PathCostModel>(
    ctx: Context,
    m: &M,
    e: QueueEntry,
    from: WireId,
    p: PipId,
    b: Board,
) -> bool {
    let next = ctx.chipdb.dst(p);
    allowed(ctx, m, next) && betters(b.vis, next, step_visit(ctx, m, e, from, p))
}

/// The board after one step: where the step counts it is noted, and unless the search stops there
/// the wire gets an entry. The flag says whether the search stops.
pub open spec fn after_step<M: PathCostModel>(
    ctx: Context,
    m: &M,
    dst: WireId,
    stop: bool,
    e: QueueEntry,
    from: WireId,
    p: PipId,
    b: Board,
) -> (Board, bool) {
    let next = ctx.chipdb.dst(p);
    let v = step_visit(ctx, m, e, from, p);
    if !step_counts(ctx, m, e, from, p, b) {
        (b, false)
    } else if stop && next == dst {
        (Board { vis: b.vis.insert(next, v), ..b }, true)
    } else {
        (
            Board {
                vis: b.vis.insert(next, v),
                heap: b.heap.insert(entry_for(ctx, m, dst, next, v)),
                ..b
            },
            false,
        )
    }
}

/// The board after the first `k` steps from a wire.
pub open spec fn after_steps<M: PathCostModel>(
    ctx: Context,
    m: &M,
    dst: WireId,
    stop: bool,
    e: QueueEntry,
    from: WireId,
    k: int,
    b: Board,
) -> (Board, bool)
    decreases k,
{
    if k <= 0 {
        (b, false)
    } else {
        let (c, stopped) = after_steps(ctx, m, dst, stop, e, from, k - 1, b);
        if stopped {
            (c, true)
        } else {
            after_step(ctx, m, dst, stop, e, from, way_out(ctx.chipdb, from, k - 1), c)
        }
    }
}

/// The wires of a conductor, the one that is named first.
pub open spec fn members_of(chip: ChipDb, w: WireId) -> Seq<WireId> {
    seq![w] + chip.peers(w)
}

/// The board once a wire of the conductor of an entry was come to.
pub open spec fn come_to(e: QueueEntry, w: WireId, b: Board) -> Board {
    if w == e.wire {
        b
    } else {
        let v = Visit { cost: e.cost, penalty: e.penalty, pip: None, from: e.wire };
        Board { vis: offered(b.vis, w, v), ..b }
    }
}

/// The board after all steps from one wire of the conductor of an entry.
pub open spec fn after_member<M: PathCostModel>(
    ctx: Context,
    m: &M,
    dst: WireId,
    stop: bool,
    e: QueueEntry,
    w: WireId,
    b: Board,
) -> (Board, bool) {
    let n = ctx.chipdb.wire(w).pips_downhill@.len() as int;
    after_steps(ctx, m, dst, stop, e, w, n, come_to(e, w, b))
}

/// The board after all steps from the first `k` wires of the conductor of an entry.
pub open spec fn after_members<M: PathCostModel>(
    ctx: Context,
    m: &M,
    dst: WireId,
    stop: bool,
    e: QueueEntry,
    k: int,
    b: Board,
) -> (Board, bool)
    decreases k,
{
    if k <= 0 {
        (b, false)
    } else {
        let (c, stopped) = after_members(ctx, m, dst, stop, e, k - 1, b);
        if stopped {
            (c, true)
        } else {
            after_member(ctx, m, dst, stop, e, members_of(ctx.chipdb, e.wire)[k - 1], c)
        }
    }
}

/// The board after the conductor of an entry was expanded.
pub open spec fn after_entry<M: PathCostModel>(
    ctx: Context,
    m: &M,
    dst: WireId,
    stop: bool,
    e: QueueEntry,
    b: Board,
) -> (Board, bool) {
    after_members(ctx, m, dst, stop, e, members_of(ctx.chipdb, e.wire).len() as int, b)
}

/// What a turn comes to.
pub enum Turn {
    /// The search goes on.
    On(Board),
    /// The target was reached, with these visits and this score.
    There(Map<WireId, Visit>, int),
}

/// The node of the wire was expanded.
pub open spec fn used_up(chip: ChipDb, w: WireId, b: Board) -> bool {
    chip.node(w) is Some && b.nodes.contains(chip.node(w)->0)
}

/// The nodes that were expanded once the conductor of a wire was.
pub open spec fn nodes_with(chip: ChipDb, w: WireId, nodes: Set<u64>) -> Set<u64> {
    match chip.node(w) {
        Some(n) => nodes.insert(n),
        None => nodes,
    }
}

/// One turn: the next entry leaves the queue. It is passed over if its wire was since come to at a
/// lower score or its node was expanded. It ends the search if it stands for the target or its node,
/// and else its conductor is expanded.
pub open spec fn turn<M: PathCostModel>(
    ctx: Context,
    m: &M,
    dst: WireId,
    exhaustive: bool,
    stop: bool,
    b: Board,
) -> Turn {
    let chip = ctx.chipdb;
    let e = next_entry(b.heap);
    let c = Board { heap: b.heap.remove(e), ..b };
    let score = entry_score(e);
    if c.vis.contains_key(e.wire) && score > c.vis[e.wire].score() {
        Turn::On(c)
    } else if !exhaustive && e.wire == dst {
        Turn::There(c.vis, score)
    } else if used_up(chip, e.wire, c) {
        Turn::On(c)
    } else if !exhaustive && chip.node(e.wire) is Some && chip.node(dst) == chip.node(e.wire) {
        let v = Visit { cost: e.cost, penalty: e.penalty, pip: None, from: e.wire };
        Turn::There(offered(c.vis, dst, v), score)
    } else {
        let (d, stopped) = after_entry(ctx, m, dst, stop, e, c);
        if stopped {
            Turn::There(d.vis, d.vis[dst].score())
        } else {
            Turn::On(Board { nodes: nodes_with(chip, e.wire, d.nodes), ..d })
        }
    }
}

/// The rest of a search that may take `left` more turns.
pub open spec fn run<M: PathCostModel>(
    ctx: Context,
    m: &M,
    dst: WireId,
    exhaustive: bool,
    stop: bool,
    b: Board,
    left: nat,
) -> Ending
    decreases left,
{
    if b.heap == Multiset::<QueueEntry>::empty() {
        Ending { vis: b.vis, exit: AStarExit::HeapDrained, score: i32::MAX as int, left }
    } else if left == 0 {
        Ending { vis: b.vis, exit: AStarExit::VisitLimit, score: i32::MAX as int, left }
    } else {
        match turn(ctx, m, dst, exhaustive, stop, b) {
            Turn::On(c) => run(ctx, m, dst, exhaustive, stop, c, (left - 1) as nat),
            Turn::There(vis, score) => Ending {
                vis,
                exit: AStarExit::Reached,
                score,
                left: (left - 1) as nat,
            },
        }
    }
}

/// The result tells how the run of a search ended.
pub open spec fn tells_end(chip: ChipDb, dst: WireId, end: Ending, res: AStarResult) -> bool {
    &&& res.trace.exit == end.exit
    &&& res.trace.best_score == end.score
    &&& res.trace.visit_count == if end.exit is VisitLimit && res.trace.max_visits < usize::MAX {
        res.trace.max_visits + 1
    } else {
        res.trace.max_visits - end.left
    }
    &&& match res.path {
        Some(pips) => end.exit is Reached && exists|n: nat| #[trigger]
            settles(chip, end.vis, dst, n) && pips@ == trace_back(chip, end.vis, dst, n),
        None => !(end.exit is Reached),
    }
}

/// The result and the visits are those of the run from a board.
pub open spec fn run_from<M: PathCostModel>(
    ctx: Context,
    m: &M,
    srcs: Map<WireId, ()>,
    dst: WireId,
    opts: AStarOptions,
    res: AStarResult,
    vis: Map<WireId, Visit>,
    b: Board,
) -> bool {
    let stop = opts.stop_on_first_touch && !opts.exhaustive;
    let end = run(ctx, m, dst, opts.exhaustive, stop, b, res.trace.max_visits as nat);
    begins(ctx, m, srcs, dst, b) && end.vis == vis && tells_end(ctx.chipdb, dst, end, res)
}

/// How a search ends whose target is a source: at once.
pub open spec fn ended_at_once(dst: WireId) -> Ending {
    Ending {
        vis: Map::<WireId, Visit>::empty().insert(dst, source_visit(dst)),
        exit: AStarExit::Reached,
        score: 0,
        left: 0,
    }
}

/// The result and the visits of a search are those of its run. A target that is a source is found
/// without a turn.
#[verifier::opaque]
pub open spec fn run_ok<M: PathCostModel>(
    ctx: Context,
    m: &M,
    srcs: Map<WireId, ()>,
    dst: WireId,
    opts: AStarOptions,
    res: AStarResult,
    vis: Map<WireId, Visit>,
) -> bool {
    if !opts.exhaustive && srcs.contains_key(dst) {
        let end = ended_at_once(dst);
        res.trace.max_visits == 0 && end.vis == vis && tells_end(ctx.chipdb, dst, end, res)
    } else {
        &&& limit_used(ctx, m.boxes(), srcs, dst, opts.visit_limit, res.trace.max_visits)
        &&& exists|b: Board| #[trigger] run_from(ctx, m, srcs, dst, opts, res, vis, b)
    }
}

/// All searches with the same sources begin with the same board.
proof fn lemma_one_beginning<M: PathCostModel>(
    ctx: Context,
    m: &M,
    srcs: Map<WireId, ()>,
    dst: WireId,
    a: Board,
    b: Board,
)
    requires
        begins(ctx, m, srcs, dst, a),
        begins(ctx, m, srcs, dst, b),
    ensures
        a == b,
{
    assert forall|e: QueueEntry| a.heap.count(e) == b.heap.count(e) by {
        assert(a.heap.count(e) == b.heap.count(e));
    }
    assert(a.heap =~= b.heap);
    assert(a =~= b);
}

/// Two results that tell the same end.
proof fn lemma_same_end(chip: ChipDb, dst: WireId, end: Ending, a: AStarResult, b: AStarResult)
    requires
        tells_end(chip, dst, end, a),
        tells_end(chip, dst, end, b),
        a.trace.max_visits == b.trace.max_visits,
    ensures
        same_run(a, b),
{
    if a.path is Some && b.path is Some {
        let i = choose|n: nat| #[trigger]
            settles(chip, end.vis, dst, n) && a.path->0@ == trace_back(chip, end.vis, dst, n);
        let j = choose|n: nat| #[trigger]
            settles(chip, end.vis, dst, n) && b.path->0@ == trace_back(chip, end.vis, dst, n);
        if i <= j {
            lemma_settled(chip, end.vis, dst, i, j);
        } else {
            lemma_settled(chip, end.vis, dst, j, i);
        }
    }
}

/// Two results agree on the path, the exit, the score and the counts.
pub open spec fn same_run(a: AStarResult, b: AStarResult) -> bool {
    &&& a.path is Some <==> b.path is Some
    &&& a.path is Some ==> a.path->0@ == b.path->0@
    &&& a.trace.exit == b.trace.exit
    &&& a.trace.best_score == b.trace.best_score
    &&& a.trace.visit_count == b.trace.visit_count
    &&& a.trace.max_visits == b.trace.max_visits
}

/// The run does not read whether the visits are handed back.
pub proof fn lemma_run_without_trace<M: PathCostModel>(
    ctx: Context,
    m: &M,
    srcs: Map<WireId, ()>,
    dst: WireId,
    a_opts: AStarOptions,
    b_opts: AStarOptions,
    a: AStarResult,
    b: AStarResult,
    vis: Map<WireId, Visit>,
)
    requires
        (AStarOptions { retain_trace: true, ..a_opts }) == (AStarOptions { retain_trace: true, ..b_opts }),
        a.path == b.path,
        same_run(a, b),
        run_ok(ctx, m, srcs, dst, a_opts, a, vis),
    ensures
        run_ok(ctx, m, srcs, dst, b_opts, b, vis),
{
    reveal(run_ok);
    if a_opts.exhaustive || !srcs.contains_key(dst) {
        let x = choose|x: Board| #[trigger] run_from(ctx, m, srcs, dst, a_opts, a, vis, x);
        assert(run_from(ctx, m, srcs, dst, b_opts, b, vis, x));
    }
}

/// Runs of searches that differ in nothing but whether the visits are handed back.
proof fn lemma_same_run<M: PathCostModel>(
    ctx: Context,
    m: &M,
    srcs: Map<WireId, ()>,
    dst: WireId,
    a_opts: AStarOptions,
    b_opts: AStarOptions,
    a: AStarResult,
    b: AStarResult,
    a_vis: Map<WireId, Visit>,
    b_vis: Map<WireId, Visit>,
)
    requires
        (AStarOptions { retain_trace: true, ..a_opts }) == (AStarOptions { retain_trace: true, ..b_opts }),
        run_ok(ctx, m, srcs, dst, a_opts, a, a_vis),
        run_ok(ctx, m, srcs, dst, b_opts, b, b_vis),
    ensures
        same_run(a, b),
        a_vis == b_vis,
{
    reveal(run_ok);
    if !a_opts.exhaustive && srcs.contains_key(dst) {
        lemma_same_end(ctx.chipdb, dst, ended_at_once(dst), a, b);
    } else {
        lemma_one_limit(
            ctx,
            m.boxes(),
            srcs,
            dst,
            a_opts.visit_limit,
            a.trace.max_visits,
            b.trace.max_visits,
        );
        let x = choose|x: Board| #[trigger] run_from(ctx, m, srcs, dst, a_opts, a, a_vis, x);
        let y = choose|y: Board| #[trigger] run_from(ctx, m, srcs, dst, b_opts, b, b_vis, y);
        lemma_one_beginning(ctx, m, srcs, dst, x, y);
        let stop = a_opts.stop_on_first_touch && !a_opts.exhaustive;
        let end = run(ctx, m, dst, a_opts.exhaustive, stop, x, a.trace.max_visits as nat);
        lemma_same_end(ctx.chipdb, dst, end, a, b);
    }
}

/// Two searches on the same input, one that hands back the visits and one that does not, have the
/// same path, exit, score and counts. The second hands back no visits. Those of the first have all
/// sources, unless the target is one of them.
pub proof fn searches_agree_with_and_without_the_trace<M: PathCostModel>(
    ctx: Context,
    m: &M,
    srcs: Map<WireId, ()>,
    dst: WireId,
    opts: AStarOptions,
    kept: AStarResult,
    bare: AStarResult,
)
    requires
        result_ok(ctx, m, srcs, dst, (AStarOptions { retain_trace: true, ..opts }), kept),
        result_ok(ctx, m, srcs, dst, (AStarOptions { retain_trace: false, ..opts }), bare),
    ensures
        same_run(kept, bare),
        bare.trace.visited@ == Map::<WireId, Visit>::empty(),
        forall|s: WireId| #[trigger]
            srcs.contains_key(s) && !srcs.contains_key(dst) ==> kept.trace.visited@.contains_key(s),
{
    let with_trace = AStarOptions { retain_trace: true, ..opts };
    let without = AStarOptions { retain_trace: false, ..opts };
    let vis = choose|vis: Map<WireId, Visit>| #[trigger]
        visits_made(ctx, m, srcs, dst, opts.exhaustive, bare.trace.exit, vis) && run_ok(
            ctx,
            m,
            srcs,
            dst,
            without,
            bare,
            vis,
        );
    lemma_same_run(ctx, m, srcs, dst, with_trace, without, kept, bare, kept.trace.visited@, vis);
}

/// A search on the same input gives the same result: path, exit, score, counts and visits.
pub proof fn searches_repeat<M: PathCostModel>(
    ctx: Context,
    m: &M,
    srcs: Map<WireId, ()>,
    dst: WireId,
    opts: AStarOptions,
    first: AStarResult,
    second: AStarResult,
)
    requires
        result_ok(ctx, m, srcs, dst, opts, first),
        result_ok(ctx, m, srcs, dst, opts, second),
    ensures
        same_run(first, second),
        first.trace.visited@ == second.trace.visited@,
{
    let a = if opts.retain_trace {
        first.trace.visited@
    } else {
        choose|vis: Map<WireId, Visit>| #[trigger]
            visits_made(ctx, m, srcs, dst, opts.exhaustive, first.trace.exit, vis) && run_ok(
                ctx,
                m,
                srcs,
                dst,
                opts,
                first,
                vis,
            )
    };
    let b = if opts.retain_trace {
        second.trace.visited@
    } else {
        choose|vis: Map<WireId, Visit>| #[trigger]
            visits_made(ctx, m, srcs, dst, opts.exhaustive, second.trace.exit, vis) && run_ok(
                ctx,
                m,
                srcs,
                dst,
                opts,
                second,
                vis,
            )
    };
    lemma_same_run(ctx, m, srcs, dst, opts, opts, first, second, a, b);
}

} // verus!
