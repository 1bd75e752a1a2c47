//! The path search: A* over the wires of the device, in which the wires of a node count as one
//! vertex that is expanded once.

use crate::chipdb::{ChipDb, PipId, WireId};
use crate::context::Context;
use crate::ids::IdMap;
use crate::router::effort::{affordable, lemma_offers, lemma_pips, most_entries, plain_entries};
use crate::router::graph::{
    allowed, consistent, enters, hop_cost, hop_ok, is_entry, leaves, lemma_closed_holds_reachable,
    lemma_leaves, lemma_node_estimate, lemma_path_is_walk, lemma_settled, lemma_walk_push, node_estimate,
    path_cost, path_ok, reachable, settles, step_cost, trace_back, visits_closed, visits_sound, walk_cost,
    walk_end, walk_ok, Hop, Visit,
};
use crate::router::heap::{ahead, lemma_next_entry, EntryHeap};
use crate::router::region::{boxes_ok, build_search_region, default_visit_limit, region_size, SearchRegion};
use crate::router::run::{
    after_entry, after_member, after_members, after_step, after_steps, begins, come_to, ended_at_once,
    entry_for, lemma_run_without_trace, members_of, nodes_with, run, run_from, run_ok, source_entry,
    source_visit, step_visit, tells_end, turn, way_out, Board, Ending, Turn,
};
use crate::router::search::{
    entry_score, estimated, lemma_cheapest, lemma_close, lemma_close_counts, lemma_drained,
    lemma_expanded_stays, lemma_expanding, lemma_follow, lemma_init, lemma_inv_sound, lemma_next_estimate,
    lemma_peer, lemma_peer_counts, lemma_pop, lemma_pop_counts, lemma_set_visit, lemma_sources_visited,
    lemma_step, lemma_step_counts, lemma_visit_ok, lemma_visits_sound, lemma_waiting_entry, SearchState,
};
use crate::timing::delay::{sat_add, sat_sum, DelayT};
use vstd::multiset::Multiset;
use vstd::prelude::*;

pub use crate::router::graph::{PathCostModel, WireSet};
pub use crate::router::heap::QueueEntry;
pub use crate::router::region::default_visit_limit_for_search;

verus! {

/// How a search is run.
#[derive(Clone, Copy, PartialEq, Eq, Debug, Structural)]
pub struct AStarOptions {
    /// The number of entries to look at before giving up; a default is computed for none.
    pub visit_limit: Option<usize>,
    /// Whether to go on past the target and visit everything.
    pub exhaustive: bool,
    /// Whether to hand back the visits.
    pub retain_trace: bool,
    /// Whether to stop when the target is first come to.
    pub stop_on_first_touch: bool,
}

impl Default for AStarOptions {
    fn default() -> (r: Self)
        ensures
            r == (AStarOptions {
                visit_limit: None,
                exhaustive: false,
                retain_trace: true,
                stop_on_first_touch: false,
            }),
    {
        AStarOptions {
            visit_limit: None,
            exhaustive: false,
            retain_trace: true,
            stop_on_first_touch: false,
        }
    }
}

/// Why a search ended.
#[derive(Clone, Copy, PartialEq, Eq, Debug, Structural)]
pub enum AStarExit {
    /// The target was come to.
    Reached,
    /// Everything that can be reached was visited.
    HeapDrained,
    /// The limit on visits was hit.
    VisitLimit,
}

/// What a search did.
pub struct AStarTrace {
    pub visit_count: usize,
    pub max_visits: usize,
    /// The score at which the target was reached; the largest delay if it was not.
    pub best_score: DelayT,
    pub exit: AStarExit,
    pub visited: IdMap<WireId, Visit>,
}

/// The path that was found, if one was, and what the search did.
pub struct AStarResult {
    pub path: Option<Vec<PipId>>,
    pub trace: AStarTrace,
}

/// The cost of a pip: its largest delay, and one for the step itself.
pub fn default_pip_cost(ctx: &Context, pip: PipId) -> (r: DelayT)
    requires
        ctx.wf(),
        ctx.chipdb.valid_pip(pip),
    ensures
        r == ctx.chipdb.pip(pip).delay.greatest() + 1,
        r >= 1,
{
    ctx.chipdb.pip_delay(pip).max_delay() + 1
}

/// Follows the visits back from a wire and returns the pips in the order of the way there; `None`
/// if the wire was not visited.
pub fn reconstruct_path_to(chipdb: &ChipDb, visited: &IdMap<WireId, Visit>, end: WireId) -> (r: Option<
    Vec<PipId>,
>)
    requires
        chipdb.wf(),
        exists|n: nat| #[trigger] settles(*chipdb, visited@, end, n),
    ensures
        r is Some <==> visited@.contains_key(end),
        r is Some ==> forall|n: nat| #[trigger]
            settles(*chipdb, visited@, end, n) ==> r->0@ == trace_back(*chipdb, visited@, end, n),
{
    let ghost total = choose|n: nat| #[trigger] settles(*chipdb, visited@, end, n);
    if !visited.contains_key(end) {
        return None;
    }
    let mut pips: Vec<PipId> = Vec::new();
    let mut cursor: WireId = end;
    let ghost mut left: nat = total;
    loop
        invariant
            chipdb.wf(),
            settles(*chipdb, visited@, cursor, left),
            trace_back(*chipdb, visited@, end, total) == trace_back(*chipdb, visited@, cursor, left)
                + pips@.reverse(),
        ensures
            trace_back(*chipdb, visited@, end, total) == pips@.reverse(),
        decreases left,
    {
        match visited.get(cursor) {
            None => {
                assert(trace_back(*chipdb, visited@, cursor, left) + pips@.reverse()
                    =~= pips@.reverse());
                break;
            },
            Some(v) => {
                match v.pip {
                    Some(p) => {
                        let ghost before = pips@;
                        let ghost head = trace_back(
                            *chipdb,
                            visited@,
                            chipdb.src(p),
                            (left - 1) as nat,
                        );
                        pips.push(p);
                        proof {
                            assert(head.push(p) + before.reverse() =~= head + pips@.reverse());
                            left = (left - 1) as nat;
                        }
                        cursor = chipdb.pip_src_wire(p);
                    },
                    None => {
                        if v.from == cursor {
                            assert(trace_back(*chipdb, visited@, cursor, left) + pips@.reverse()
                                =~= pips@.reverse());
                            break;
                        }
                        cursor = v.from;
                        proof {
                            left = (left - 1) as nat;
                        }
                    },
                }
            },
        }
    }
    let path = reversed(&pips);
    proof {
        assert forall|n: nat| #[trigger] settles(*chipdb, visited@, end, n) implies path@ == trace_back(
            *chipdb,
            visited@,
            end,
            n,
        ) by {
            if n <= total {
                lemma_settled(*chipdb, visited@, end, n, total);
            } else {
                lemma_settled(*chipdb, visited@, end, total, n);
            }
        }
    }
    Some(path)
}

/// The pips in the opposite order.
fn reversed(pips: &Vec<PipId>) -> (r: Vec<PipId>)
    ensures
        r@ == pips@.reverse(),
{
    let mut out: Vec<PipId> = Vec::new();
    let n: usize = pips.len();
    for i in 0..n
        invariant
            n == pips@.len(),
            out@.len() == i,
            forall|j: int| 0 <= j < i ==> out@[j] == pips@[n - 1 - j],
    {
        out.push(pips[n - 1 - i]);
    }
    assert(out@ =~= pips@.reverse());
    out
}

/// The smallest distance from a source to the target; zero without sources.
pub open spec fn nearest(chip: ChipDb, srcs: Map<WireId, ()>, dst: WireId, d: int) -> bool {
    if srcs.dom() == Set::<WireId>::empty() {
        d == 0
    } else {
        &&& forall|s: WireId| #[trigger]
            srcs.contains_key(s) ==> d <= chip.distance(s.tile as int, dst.tile as int)
        &&& exists|s: WireId| #[trigger]
            srcs.contains_key(s) && d == chip.distance(s.tile as int, dst.tile as int)
    }
}

/// The limit that a search uses.
pub open spec fn limit_used(
    ctx: Context,
    boxes: Seq<crate::metrics::BoundingBox>,
    srcs: Map<WireId, ()>,
    dst: WireId,
    limit: Option<usize>,
    used: usize,
) -> bool {
    match limit {
        Some(n) => used == n,
        None => exists|d: int| #[trigger]
            nearest(ctx.chipdb, srcs, dst, d) && used == default_visit_limit(
                ctx.chipdb.tiles@.len() as int,
                d,
                region_size(ctx.chipdb, boxes),
            ),
    }
}

/// There is one such limit.
pub proof fn lemma_one_limit(
    ctx: Context,
    boxes: Seq<crate::metrics::BoundingBox>,
    srcs: Map<WireId, ()>,
    dst: WireId,
    limit: Option<usize>,
    a: usize,
    b: usize,
)
    requires
        limit_used(ctx, boxes, srcs, dst, limit, a),
        limit_used(ctx, boxes, srcs, dst, limit, b),
    ensures
        a == b,
{
    if limit is None {
        let n = ctx.chipdb.tiles@.len() as int;
        let size = region_size(ctx.chipdb, boxes);
        let i = choose|d: int| #[trigger]
            nearest(ctx.chipdb, srcs, dst, d) && a == default_visit_limit(n, d, size);
        let j = choose|d: int| #[trigger]
            nearest(ctx.chipdb, srcs, dst, d) && b == default_visit_limit(n, d, size);
        if srcs.dom() != Set::<WireId>::empty() {
            let s = choose|s: WireId| #[trigger]
                srcs.contains_key(s) && i == ctx.chipdb.distance(s.tile as int, dst.tile as int);
            let t = choose|t: WireId| #[trigger]
                srcs.contains_key(t) && j == ctx.chipdb.distance(t.tile as int, dst.tile as int);
            assert(j <= i && i <= j);
        }
    }
}

/// The sources of a search are wires of the device.
pub open spec fn sources_ok(ctx: Context, srcs: Map<WireId, ()>) -> bool {
    forall|s: WireId| #[trigger] srcs.contains_key(s) ==> ctx.chipdb.valid_wire(s)
}

/// What a search can be started on.
pub open spec fn search_ok<M: PathCostModel>(ctx: Context, m: &M, srcs: Map<WireId, ()>, dst: WireId) -> bool {
    &&& ctx.wf()
    &&& m.ready(ctx)
    &&& sources_ok(ctx, srcs)
    &&& ctx.chipdb.valid_wire(dst)
    &&& boxes_ok(ctx.chipdb, m.boxes())
}

/// No walk from a source to the wire is cheaper than the path.
pub open spec fn cheapest<M: PathCostModel>(
    ctx: Context,
    m: &M,
    srcs: Map<WireId, ()>,
    path: Seq<PipId>,
    w: WireId,
) -> bool {
    forall|s: WireId, walk: Seq<Hop>|
        srcs.contains_key(s) && #[trigger] walk_ok(ctx, m, s, walk) && walk_end(s, walk) == w ==> path_cost(
            ctx,
            m,
            path,
        ) <= walk_cost(ctx, m, walk)
}

/// No walk from a source to the node of `hub` costs less than `score`.
pub open spec fn none_cheaper<M: PathCostModel>(
    ctx: Context,
    m: &M,
    srcs: Map<WireId, ()>,
    hub: WireId,
    score: int,
) -> bool {
    forall|s: WireId, walk: Seq<Hop>|
        srcs.contains_key(s) && #[trigger] walk_ok(ctx, m, s, walk) && ctx.chipdb.joined(hub, walk_end(s, walk))
            ==> score <= walk_cost(ctx, m, walk)
}

/// The target was come to over a pip that leaves the node of `hub`, which was come to for `score`.
pub open spec fn touched_from<M: PathCostModel>(
    ctx: Context,
    m: &M,
    vis: Map<WireId, Visit>,
    dst: WireId,
    hub: WireId,
    score: int,
) -> bool {
    &&& vis.contains_key(dst)
    &&& vis[dst].pip is Some
    &&& {
        let p = vis[dst].pip->0;
        let u = ctx.chipdb.src(p);
        &&& enters(ctx, m, p, dst)
        &&& ctx.chipdb.joined(hub, u)
        &&& vis.contains_key(u)
        &&& vis[u].score() <= score
        &&& vis[dst].score() == sat_sum(score, step_cost(ctx, m, p))
        &&& m.heuristic_of(ctx, dst, dst) >= 0
    }
}

/// What the visits of a search say: each leads back to a source, the sources are among them, and when
/// the queue was drained they are closed. A target that is a source is the only visit.
pub open spec fn visits_made<M: PathCostModel>(
    ctx: Context,
    m: &M,
    srcs: Map<WireId, ()>,
    dst: WireId,
    exhaustive: bool,
    exit: AStarExit,
    visits: Map<WireId, Visit>,
) -> bool {
    &&& visits_sound(ctx, m, srcs, visits)
    &&& if !exhaustive && srcs.contains_key(dst) {
        visits == Map::<WireId, Visit>::empty().insert(
            dst,
            Visit { cost: 0, penalty: 0, pip: None, from: dst },
        )
    } else {
        &&& forall|s: WireId| #[trigger] srcs.contains_key(s) ==> visits.contains_key(s)
        &&& exit is HeapDrained ==> visits_closed(ctx, m, srcs, visits)
    }
}

/// What the result of a search says.
///
/// A path is returned exactly if the target was reached. It leads from a source to the target and
/// costs no more than the score. If everything was visited and the target was not among it, no way
/// leads there. The limit stops only a search that could have used more entries. If the estimates
/// are consistent, no walk to the target is cheaper than the path, whose cost is the score; a search that
/// was told to stop at the first touch has taken its last pip as it came, and the path up to there is a
/// cheapest one. The visits are handed back if that was asked for.
///
/// All of it is what the run of the search gives, turn by turn, so that the same search has the same
/// result.
pub open spec fn result_ok<M: PathCostModel>(
    ctx: Context,
    m: &M,
    srcs: Map<WireId, ()>,
    dst: WireId,
    opts: AStarOptions,
    res: AStarResult,
) -> bool {
    &&& outcome_ok(ctx, m, srcs, dst, opts, res)
    &&& if opts.retain_trace {
        &&& visits_made(ctx, m, srcs, dst, opts.exhaustive, res.trace.exit, res.trace.visited@)
        &&& run_ok(ctx, m, srcs, dst, opts, res, res.trace.visited@)
    } else {
        &&& res.trace.visited@ == Map::<WireId, Visit>::empty()
        &&& exists|visits: Map<WireId, Visit>| #[trigger]
            visits_made(ctx, m, srcs, dst, opts.exhaustive, res.trace.exit, visits) && run_ok(
                ctx,
                m,
                srcs,
                dst,
                opts,
                res,
                visits,
            )
    }
}

/// What a result says, but for the visits.
pub open spec fn outcome_ok<M: PathCostModel>(
    ctx: Context,
    m: &M,
    srcs: Map<WireId, ()>,
    dst: WireId,
    opts: AStarOptions,
    res: AStarResult,
) -> bool {
    let at_once = !opts.exhaustive && srcs.contains_key(dst);
    &&& res.path is Some <==> res.trace.exit is Reached
    &&& opts.exhaustive ==> !(res.trace.exit is Reached)
    &&& !(res.trace.exit is Reached) ==> res.trace.best_score == i32::MAX
    &&& res.path is Some ==> {
        &&& path_ok(ctx, m, srcs, res.path->0@, dst)
        &&& sat_sum(path_cost(ctx, m, res.path->0@), 0) <= res.trace.best_score
    }
    &&& at_once ==> {
        &&& res.path is Some
        &&& res.path->0@.len() == 0
        &&& res.trace.best_score == 0
        &&& res.trace.visit_count == 0
        &&& res.trace.max_visits == 0
    }
    &&& !at_once ==> {
        &&& limit_used(ctx, m.boxes(), srcs, dst, opts.visit_limit, res.trace.max_visits)
        &&& res.trace.exit is VisitLimit ==> res.trace.visit_count == (if res.trace.max_visits < usize::MAX {
            res.trace.max_visits + 1
        } else {
            usize::MAX as int
        })
        &&& !(res.trace.exit is VisitLimit) ==> res.trace.visit_count <= res.trace.max_visits
        &&& res.trace.exit is VisitLimit ==> res.trace.max_visits < most_entries(ctx.chipdb)
        &&& res.trace.exit is VisitLimit && !opts.exhaustive && consistent(ctx, m, srcs, dst) && affordable(
            ctx,
            m,
            srcs,
            dst,
        ) ==> res.trace.max_visits < plain_entries(ctx.chipdb, srcs)
        &&& res.trace.exit is HeapDrained && !opts.exhaustive ==> !reachable(ctx, m, srcs, dst)
        &&& res.trace.exit is Reached && consistent(ctx, m, srcs, dst) && res.trace.best_score
            + node_estimate(ctx, m, srcs, dst, dst) < i32::MAX ==> {
            &&& !opts.stop_on_first_touch ==> cheapest(ctx, m, srcs, res.path->0@, dst)
            &&& !opts.stop_on_first_touch ==> res.trace.best_score == path_cost(ctx, m, res.path->0@)
            &&& res.path->0@.len() > 0 ==> cheapest(
                ctx,
                m,
                srcs,
                res.path->0@.drop_last(),
                ctx.chipdb.src(res.path->0@.last()),
            )
        }
    }
}

/// Two results differ in nothing but the visits that they hand back.
pub open spec fn same_but_visits(a: AStarResult, b: AStarResult) -> bool {
    &&& a.path == b.path
    &&& a.trace.exit == b.trace.exit
    &&& a.trace.best_score == b.trace.best_score
    &&& a.trace.visit_count == b.trace.visit_count
    &&& a.trace.max_visits == b.trace.max_visits
}

/// Whether the visits are handed back makes no difference to a search: a result with them is one without
/// them if they are left out, and to every result without them there are visits, those of the sources
/// among them, with which it is a result with visits. The path, the exit, the score and the counts are
/// the same.
pub proof fn keeping_the_trace_changes_nothing<M: PathCostModel>(
    ctx: Context,
    m: &M,
    srcs: Map<WireId, ()>,
    dst: WireId,
    opts: AStarOptions,
    res: AStarResult,
)
    requires
        result_ok(ctx, m, srcs, dst, opts, res),
    ensures
        forall|bare: AStarResult|
            #![trigger same_but_visits(res, bare)]
            same_but_visits(res, bare) && bare.trace.visited@ == Map::<WireId, Visit>::empty() ==> result_ok(
                ctx,
                m,
                srcs,
                dst,
                AStarOptions { retain_trace: false, ..opts },
                bare,
            ),
        exists|visits: Map<WireId, Visit>|
            {
                &&& #[trigger] visits_made(ctx, m, srcs, dst, opts.exhaustive, res.trace.exit, visits)
                &&& opts.retain_trace ==> visits == res.trace.visited@
                &&& !srcs.contains_key(dst) || opts.exhaustive ==> forall|s: WireId| #[trigger]
                    srcs.contains_key(s) ==> visits.contains_key(s)
                &&& forall|full: AStarResult|
                    #![trigger same_but_visits(res, full)]
                    same_but_visits(res, full) && full.trace.visited@ == visits ==> result_ok(
                        ctx,
                        m,
                        srcs,
                        dst,
                        AStarOptions { retain_trace: true, ..opts },
                        full,
                    )
            },
{
    let visits = if opts.retain_trace {
        res.trace.visited@
    } else {
        choose|visits: Map<WireId, Visit>| #[trigger]
            visits_made(ctx, m, srcs, dst, opts.exhaustive, res.trace.exit, visits) && run_ok(
                ctx,
                m,
                srcs,
                dst,
                opts,
                res,
                visits,
            )
    };
    assert(visits_made(ctx, m, srcs, dst, opts.exhaustive, res.trace.exit, visits));
    assert forall|bare: AStarResult|
        #![trigger same_but_visits(res, bare)]
        same_but_visits(res, bare) && bare.trace.visited@ == Map::<WireId, Visit>::empty() implies result_ok(
        ctx,
        m,
        srcs,
        dst,
        AStarOptions { retain_trace: false, ..opts },
        bare,
    ) by {
        let bare_opts = AStarOptions { retain_trace: false, ..opts };
        assert(outcome_ok(ctx, m, srcs, dst, bare_opts, bare));
        assert(visits_made(ctx, m, srcs, dst, bare_opts.exhaustive, bare.trace.exit, visits));
        lemma_run_without_trace(ctx, m, srcs, dst, opts, bare_opts, res, bare, visits);
    }
    assert forall|full: AStarResult|
        #![trigger same_but_visits(res, full)]
        same_but_visits(res, full) && full.trace.visited@ == visits implies result_ok(
        ctx,
        m,
        srcs,
        dst,
        AStarOptions { retain_trace: true, ..opts },
        full,
    ) by {
        let full_opts = AStarOptions { retain_trace: true, ..opts };
        assert(outcome_ok(ctx, m, srcs, dst, full_opts, full));
        lemma_run_without_trace(ctx, m, srcs, dst, opts, full_opts, res, full, visits);
    }
}

/// A search with enough visits finds a way wherever there is one: for any costs the wires times the
/// scores are enough, and for consistent estimates the sources and the pips are, if the way is not
/// too dear to be counted.
pub proof fn enough_visits_find_a_way<M: PathCostModel>(
    ctx: Context,
    m: &M,
    srcs: Map<WireId, ()>,
    dst: WireId,
    opts: AStarOptions,
    res: AStarResult,
)
    requires
        result_ok(ctx, m, srcs, dst, opts, res),
        !opts.exhaustive,
        opts.visit_limit is Some,
    ensures
        reachable(ctx, m, srcs, dst) && opts.visit_limit->0 >= most_entries(ctx.chipdb) ==> res.path is Some,
        affordable(ctx, m, srcs, dst) && consistent(ctx, m, srcs, dst) && opts.visit_limit->0 >= plain_entries(
            ctx.chipdb,
            srcs,
        ) ==> res.path is Some,
{
    if affordable(ctx, m, srcs, dst) {
        assert(reachable(ctx, m, srcs, dst));
    }
}

/// The score of a visit.
fn visit_score(v: &Visit) -> (r: DelayT)
    requires
        v.cost >= 0,
        v.penalty >= 0,
    ensures
        r == v.score(),
{
    sat_add(v.cost, v.penalty)
}

/// The visits after one was offered: it is taken if the wire has none or one with a larger score.
pub open spec fn offered(visits: Map<WireId, Visit>, wire: WireId, nv: Visit) -> Map<WireId, Visit> {
    if betters(visits, wire, nv) {
        visits.insert(wire, nv)
    } else {
        visits
    }
}

/// The wire has no visit, or one with a larger score.
pub open spec fn betters(visits: Map<WireId, Visit>, wire: WireId, nv: Visit) -> bool {
    !visits.contains_key(wire) || nv.score() < visits[wire].score()
}

/// Notes a visit, if the wire has none or one with a larger score; whether it was noted. All other
/// visits stay.
fn note_visit(visited: &mut IdMap<WireId, Visit>, wire: WireId, nv: Visit) -> (r: bool)
    requires
        nv.cost >= 0,
        nv.penalty >= 0,
        old(visited)@.contains_key(wire) ==> old(visited)@[wire].cost >= 0 && old(visited)@[wire].penalty >= 0,
    ensures
        r == betters(old(visited)@, wire, nv),
        final(visited)@ == offered(old(visited)@, wire, nv),
{
    let better: bool = match visited.get(wire) {
        Some(v) => visit_score(&nv) < visit_score(v),
        None => true,
    };
    if better {
        let _ = visited.insert(wire, nv);
    }
    better
}

/// Notes that a wire was come to over a pip, if that is better than what is noted of it.
pub fn update_step(
    visited: &mut IdMap<WireId, Visit>,
    wire: WireId,
    cost: DelayT,
    penalty: DelayT,
    pip: PipId,
    from: WireId,
) -> (r: bool)
    requires
        cost >= 0,
        penalty >= 0,
        old(visited)@.contains_key(wire) ==> old(visited)@[wire].cost >= 0 && old(visited)@[wire].penalty >= 0,
    ensures
        r == (!old(visited)@.contains_key(wire) || sat_sum(cost as int, penalty as int) < old(
            visited,
        )@[wire].score()),
        final(visited)@ == offered(
            old(visited)@,
            wire,
            (Visit { cost, penalty, pip: Some(pip), from }),
        ),
{
    note_visit(visited, wire, Visit { cost, penalty, pip: Some(pip), from })
}

/// Notes that a wire was come to within a node, if that is better than what is noted of it.
pub fn update_peer(
    visited: &mut IdMap<WireId, Visit>,
    wire: WireId,
    cost: DelayT,
    penalty: DelayT,
    from: WireId,
) -> (r: bool)
    requires
        cost >= 0,
        penalty >= 0,
        old(visited)@.contains_key(wire) ==> old(visited)@[wire].cost >= 0 && old(visited)@[wire].penalty >= 0,
    ensures
        r == (!old(visited)@.contains_key(wire) || sat_sum(cost as int, penalty as int) < old(
            visited,
        )@[wire].score()),
        final(visited)@ == offered(old(visited)@, wire, (Visit { cost, penalty, pip: None, from })),
{
    note_visit(visited, wire, Visit { cost, penalty, pip: None, from })
}

/// A step improves the visits exactly if the wire had no score or a larger one. Then the wire has the
/// score and the parent of the step; else nothing changes. All other visits stay in either case.
pub proof fn a_step_relaxes_one_wire(visits: Map<WireId, Visit>, wire: WireId, nv: Visit)
    ensures
        ({
            let after = offered(visits, wire, nv);
            &&& betters(visits, wire, nv) <==> !visits.contains_key(wire) || nv.score() < visits[wire].score()
            &&& betters(visits, wire, nv) ==> after.contains_key(wire) && after[wire] == nv
            &&& !betters(visits, wire, nv) ==> after == visits
            &&& forall|w: WireId|
                w != wire ==> (#[trigger] after.contains_key(w) <==> visits.contains_key(w)) && (visits.contains_key(
                    w,
                ) ==> after[w] == visits[w])
        }),
{
}

/// The smallest distance from a source to the target.
fn nearest_distance(ctx: &Context, src_wires: &WireSet, srcs: &Vec<WireId>, dst: WireId) -> (d: usize)
    requires
        ctx.wf(),
        sources_ok(*ctx, src_wires@),
        ctx.chipdb.valid_wire(dst),
        forall|k: WireId| #[trigger] srcs@.contains(k) <==> src_wires@.contains_key(k),
    ensures
        nearest(ctx.chipdb, src_wires@, dst, d as int),
{
    if srcs.len() == 0 {
        proof {
            assert forall|k: WireId| !src_wires@.dom().contains(k) by {
                assert(!srcs@.contains(k));
            }
            assert(src_wires@.dom() =~= Set::<WireId>::empty());
        }
        return 0;
    }
    assert(srcs@.contains(srcs@[0]));
    assert(src_wires@.dom().contains(srcs@[0]));
    let mut best: i32 = ctx.chipdb.manhattan(srcs[0].tile, dst.tile);
    for i in 1..srcs.len()
        invariant
            ctx.wf(),
            sources_ok(*ctx, src_wires@),
            ctx.chipdb.valid_wire(dst),
            forall|k: WireId| #[trigger] srcs@.contains(k) <==> src_wires@.contains_key(k),
            best >= 0,
            forall|j: int|
                0 <= j < i ==> best <= ctx.chipdb.distance(
                    (#[trigger] srcs@[j]).tile as int,
                    dst.tile as int,
                ),
            exists|s: WireId| #[trigger]
                src_wires@.contains_key(s) && best == ctx.chipdb.distance(
                    s.tile as int,
                    dst.tile as int,
                ),
    {
        assert(srcs@.contains(srcs@[i as int]));
        let d: i32 = ctx.chipdb.manhattan(srcs[i].tile, dst.tile);
        if d < best {
            best = d;
        }
    }
    proof {
        assert forall|s: WireId| #[trigger] src_wires@.contains_key(s) implies best <= ctx.chipdb.distance(
            s.tile as int,
            dst.tile as int,
        ) by {
            assert(srcs@.contains(s));
            let j = choose|j: int| 0 <= j < srcs@.len() && srcs@[j] == s;
            assert(best <= ctx.chipdb.distance(srcs@[j].tile as int, dst.tile as int));
        }
    }
    best as usize
}

/// The wires of the conductor of `w`, that wire first.
fn conductor(chipdb: &ChipDb, w: WireId) -> (r: Vec<WireId>)
    requires
        chipdb.wf(),
        chipdb.valid_wire(w),
    ensures
        forall|x: WireId| #[trigger] r@.contains(x) <==> chipdb.joined(w, x),
        forall|i: int|
            0 <= i < r@.len() ==> chipdb.valid_wire(#[trigger] r@[i]) && chipdb.joined(w, r@[i]),
        r@ == members_of(*chipdb, w),
{
    let mut out: Vec<WireId> = Vec::new();
    out.push(w);
    let peers = chipdb.node_wires(w);
    proof {
        chipdb.lemma_peers(w);
    }
    for i in 0..peers.len()
        invariant
            peers@ == chipdb.peers(w),
            out@ == seq![w] + peers@.take(i as int),
    {
        out.push(peers[i]);
        assert(peers@.take(i + 1) =~= peers@.take(i as int).push(peers@[i as int]));
    }
    proof {
        assert(peers@.take(peers@.len() as int) =~= peers@);
        assert(out@ =~= seq![w] + peers@);
        assert forall|x: WireId| #[trigger] out@.contains(x) <==> chipdb.joined(w, x) by {
            if out@.contains(x) {
                let i = choose|i: int| 0 <= i < out@.len() && out@[i] == x;
                if i > 0 {
                    assert(peers@[i - 1] == x);
                    assert(chipdb.peers(w).contains(x));
                }
            }
            if chipdb.joined(w, x) {
                if x == w {
                    assert(out@[0] == w);
                } else {
                    assert(chipdb.peers(w).contains(x));
                    let i = choose|i: int| 0 <= i < peers@.len() && peers@[i] == x;
                    assert(out@[i + 1] == x);
                }
            }
        }
        assert forall|i: int| 0 <= i < out@.len() implies chipdb.valid_wire(#[trigger] out@[i])
            && chipdb.joined(w, out@[i]) by {
            if i > 0 {
                assert(out@[i] == chipdb.peers(w)[i - 1]);
            }
        }
    }
    out
}

/// What the search works on.
spec fn board_of(st: SearchState) -> Board {
    Board { vis: st.vis, heap: st.heap, nodes: st.nodes }
}

/// The visits, the queue and the flag are those that the steps lead to. Once the search stops the
/// queue does not matter.
spec fn stepped_to(
    shown: (Board, bool),
    vis: Map<WireId, Visit>,
    heap: Multiset<QueueEntry>,
    nodes: Set<u64>,
    stopped: bool,
) -> bool {
    &&& shown.1 == stopped
    &&& shown.0.vis == vis
    &&& shown.0.nodes == nodes
    &&& !stopped ==> shown.0.heap == heap
}

/// Once the search stops, the steps that are left change nothing.
proof fn lemma_stopped<M: PathCostModel>(
    ctx: Context,
    m: &M,
    dst: WireId,
    e: QueueEntry,
    from: WireId,
    k: int,
    n: int,
    b: Board,
)
    requires
        k <= n,
        after_steps(ctx, m, dst, true, e, from, k, b).1,
        k > 0,
    ensures
        after_steps(ctx, m, dst, true, e, from, n, b) == after_steps(ctx, m, dst, true, e, from, k, b),
    decreases n - k,
{
    if k < n {
        lemma_stopped(ctx, m, dst, e, from, k, n - 1, b);
    }
}

/// Once the search stops, the wires that are left change nothing.
proof fn lemma_stopped_early<M: PathCostModel>(
    ctx: Context,
    m: &M,
    dst: WireId,
    e: QueueEntry,
    k: int,
    n: int,
    b: Board,
)
    requires
        k <= n,
        after_members(ctx, m, dst, true, e, k, b).1,
        k > 0,
    ensures
        after_members(ctx, m, dst, true, e, n, b) == after_members(ctx, m, dst, true, e, k, b),
    decreases n - k,
{
    if k < n {
        lemma_stopped_early(ctx, m, dst, e, k, n - 1, b);
    }
}

/// A run is a turn and the rest of the run.
proof fn lemma_turn<M: PathCostModel>(
    ctx: Context,
    m: &M,
    dst: WireId,
    exhaustive: bool,
    stop: bool,
    b: Board,
    left: nat,
)
    requires
        b.heap != Multiset::<QueueEntry>::empty(),
    ensures
        run(ctx, m, dst, exhaustive, stop, b, left + 1) == match turn(ctx, m, dst, exhaustive, stop, b) {
            Turn::On(c) => run(ctx, m, dst, exhaustive, stop, c, left),
            Turn::There(vis, score) => Ending { vis, exit: AStarExit::Reached, score, left },
        },
{
}

/// What a list of wires holds after a push.
proof fn lemma_push_holds(s: Seq<WireId>, w: WireId, x: WireId)
    ensures
        s.push(w).contains(x) <==> s.contains(x) || x == w,
{
    if s.contains(x) {
        let i = choose|i: int| 0 <= i < s.len() && s[i] == x;
        assert(s.push(w)[i] == x);
    }
    if x == w {
        assert(s.push(w)[s.len() as int] == w);
    }
    if s.push(w).contains(x) {
        let i = choose|i: int| 0 <= i < s.push(w).len() && s.push(w)[i] == x;
        if i < s.len() {
            assert(s[i] == x);
        }
    }
}

/// Takes the steps from one wire of the conductor of `entry.wire`. The result says whether the
/// target was come to and the search is told to stop there.
#[verifier::rlimit(60)]
#[verifier::spinoff_prover]
fn expand_member<M: PathCostModel>(
    ctx: &Context,
    model: &M,
    src_wires: &WireSet,
    dst_wire: WireId,
    exhaustive: bool,
    stop_on_touch: bool,
    region: &SearchRegion,
    entry: &QueueEntry,
    member: WireId,
    visited: &mut IdMap<WireId, Visit>,
    heap: &mut EntryHeap,
    Ghost(start): Ghost<SearchState>,
) -> (r: (bool, Ghost<SearchState>))
    requires
        search_ok(*ctx, model, src_wires@, dst_wire),
        region.matches_boxes(ctx.chipdb, model.boxes()),
        stop_on_touch ==> !exhaustive,
        start.vis == old(visited)@,
        start.heap == old(heap)@,
        old(heap).wf(),
        start.inv(*ctx, model, src_wires@, dst_wire, exhaustive, Some(entry.wire)),
        start.expanding(*ctx, model, src_wires@, dst_wire, exhaustive, entry.wire, entry_score(*entry)),
        entry.cost >= 0,
        entry.penalty >= 0,
        ctx.chipdb.joined(entry.wire, member),
        ctx.chipdb.valid_wire(member),
        start.vis.contains_key(member),
        start.vis[member].score() <= entry_score(*entry),
        start.counted(*ctx),
    ensures
        stepped_to(
            after_steps(
                *ctx,
                model,
                dst_wire,
                stop_on_touch,
                *entry,
                member,
                ctx.chipdb.wire(member).pips_downhill@.len() as int,
                board_of(start),
            ),
            final(visited)@,
            final(heap)@,
            start.nodes,
            r.0,
        ),
        r.1@.vis == final(visited)@,
        r.1@.sound(*ctx, model, src_wires@),
        r.1@.improves(start.vis),
        r.0 ==> stop_on_touch && touched_from(
            *ctx,
            model,
            final(visited)@,
            dst_wire,
            entry.wire,
            entry_score(*entry),
        ),
        !r.0 ==> {
            &&& r.1@.taken == start.taken
            &&& r.1@.roots == start.roots
            &&& r.1@.low == start.low
            &&& r.1@.counted(*ctx)
            &&& consistent(*ctx, model, src_wires@, dst_wire) && start.low < i32::MAX && start.thrifty(
                *ctx,
                model,
                Some(entry.wire),
            ) ==> r.1@.thrifty(*ctx, model, Some(entry.wire))
            &&& final(heap).wf()
            &&& r.1@.heap == final(heap)@
            &&& r.1@.inv(*ctx, model, src_wires@, dst_wire, exhaustive, Some(entry.wire))
            &&& r.1@.nodes == start.nodes
            &&& r.1@.expanding(*ctx, model, src_wires@, dst_wire, exhaustive, entry.wire, entry_score(*entry))
            &&& r.1@.expanded(*ctx, model, member, entry_score(*entry))
        },
{
    let chipdb = &ctx.chipdb;
    let list = &chipdb.wire_info(member).pips_downhill;
    let ghost s = entry_score(*entry);
    let ghost mut st = start;
    let mut j: usize = 0;
    while j < list.len()
        invariant
            j <= list@.len(),
            search_ok(*ctx, model, src_wires@, dst_wire),
            region.matches_boxes(ctx.chipdb, model.boxes()),
            stop_on_touch ==> !exhaustive,
            chipdb == ctx.chipdb,
            list == chipdb.wire(member).pips_downhill,
            s == entry_score(*entry),
            entry.cost >= 0,
            entry.penalty >= 0,
            ctx.chipdb.joined(entry.wire, member),
            ctx.chipdb.valid_wire(member),
            st.vis == visited@,
            st.heap == heap@,
            heap.wf(),
            st.inv(*ctx, model, src_wires@, dst_wire, exhaustive, Some(entry.wire)),
            st.expanding(*ctx, model, src_wires@, dst_wire, exhaustive, entry.wire, s),
            st.vis.contains_key(member),
            st.vis[member].score() <= s,
            st.nodes == start.nodes,
            after_steps(
                *ctx,
                model,
                dst_wire,
                stop_on_touch,
                *entry,
                member,
                j as int,
                board_of(start),
            ) == (board_of(st), false),
            st.improves(start.vis),
            st.taken == start.taken,
            st.roots == start.roots,
            st.low == start.low,
            st.counted(*ctx),
            consistent(*ctx, model, src_wires@, dst_wire) && start.low < i32::MAX && start.thrifty(
                *ctx,
                model,
                Some(entry.wire),
            ) ==> st.thrifty(*ctx, model, Some(entry.wire)),
            forall|i: int|
                0 <= i < j ==> {
                    let p = PipId { tile: member.tile, index: #[trigger] list@[i] };
                    allowed(*ctx, model, chipdb.dst(p)) ==> st.vis.contains_key(chipdb.dst(p))
                        && st.vis[chipdb.dst(p)].score() <= sat_sum(s, step_cost(*ctx, model, p))
                },
        decreases list@.len() - j,
    {
        let pip: PipId = PipId { tile: member.tile, index: list[j] };
        j = j + 1;
        let ghost shown = after_steps(
            *ctx,
            model,
            dst_wire,
            stop_on_touch,
            *entry,
            member,
            j as int,
            board_of(start),
        );
        proof {
            assert(pip == way_out(*chipdb, member, j - 1));
            assert(shown == after_step(
                *ctx,
                model,
                dst_wire,
                stop_on_touch,
                *entry,
                member,
                pip,
                board_of(st),
            ));
            assert(chipdb.wire(member).pips_downhill@.contains(pip.index));
            assert(leaves(*chipdb, member, pip));
            lemma_leaves(*chipdb, member, pip);
        }
        let next: WireId = chipdb.pip_dst_wire(pip);
        proof {
            region.region_is_the_union_of_its_boxes(*chipdb, model.boxes(), next.tile as int);
        }
        if !region.contains_tile(chipdb, next.tile) {
            continue ;
        }
        if model.is_blocked(ctx, next) {
            continue ;
        }
        let pip_cost: DelayT = model.pip_cost(ctx, pip);
        let penalty: DelayT = model.wire_penalty(ctx, next);
        let new_cost: DelayT = sat_add(entry.cost, pip_cost);
        let new_pen: DelayT = sat_add(entry.penalty, penalty);
        let new_score: DelayT = sat_add(new_cost, new_pen);
        proof {
            lemma_inv_sound(*ctx, model, src_wires@, dst_wire, exhaustive, Some(entry.wire), st);
            if st.vis.contains_key(next) {
                lemma_visit_ok(*ctx, model, src_wires@, st, next);
            }
        }
        if !update_step(visited, next, new_cost, new_pen, pip, member) {
            continue ;
        }
        let ghost nv = Visit { cost: new_cost, penalty: new_pen, pip: Some(pip), from: member };
        let hval: DelayT = model.heuristic(ctx, next, dst_wire);
        let e = QueueEntry {
            wire: next,
            cost: new_cost,
            penalty: new_pen,
            estimate: sat_add(new_score, hval),
        };
        let ghost before = st;
        proof {
            lemma_step(
                *ctx,
                model,
                src_wires@,
                dst_wire,
                exhaustive,
                st,
                entry.wire,
                s,
                member,
                pip,
                nv,
                e,
            );
            lemma_step_counts(
                *ctx,
                model,
                src_wires@,
                dst_wire,
                exhaustive,
                st,
                entry.wire,
                s,
                member,
                pip,
                nv,
                e,
            );
        }
        if stop_on_touch && next == dst_wire {
            proof {
                assert(enters(*ctx, model, pip, dst_wire));
                assert(member != next) by {
                    assert(before.vis[member].score() <= s);
                }
            }
            proof {
                assert(nv == step_visit(*ctx, model, *entry, member, pip));
                lemma_stopped(
                    *ctx,
                    model,
                    dst_wire,
                    *entry,
                    member,
                    j as int,
                    list@.len() as int,
                    board_of(start),
                );
            }
            return (true, Ghost(before.with_visit(next, nv)));
        }
        heap.push(e);
        proof {
            st = before.with_visit(next, nv).with_entry(e);
            assert(nv == step_visit(*ctx, model, *entry, member, pip));
            assert(e == entry_for(*ctx, model, dst_wire, next, nv));
            assert(shown.0 =~= board_of(st));
            assert(before.vis.contains_key(member));
            assert forall|i: int| 0 <= i < j implies {
                let p = PipId { tile: member.tile, index: #[trigger] list@[i] };
                allowed(*ctx, model, chipdb.dst(p)) ==> st.vis.contains_key(chipdb.dst(p))
                    && st.vis[chipdb.dst(p)].score() <= sat_sum(s, step_cost(*ctx, model, p))
            } by {
                let p = PipId { tile: member.tile, index: list@[i] };
                if i < j - 1 && allowed(*ctx, model, chipdb.dst(p)) {
                    assert(before.vis.contains_key(chipdb.dst(p)));
                }
            }
            assert(st.improves(start.vis)) by {
                assert forall|x: WireId| #[trigger] start.vis.contains_key(x) implies st.vis.contains_key(
                    x,
                ) && st.vis[x].score() <= start.vis[x].score() by {
                    assert(before.vis.contains_key(x));
                }
            }
        }
    }
    proof {
        assert forall|h: Hop| #[trigger] hop_ok(*ctx, model, member, h)
            && h.pip is Some implies st.vis.contains_key(h.to) && st.vis[h.to].score() <= sat_sum(
            s,
            hop_cost(*ctx, model, h),
        ) by {
            let p = h.pip->0;
            let i = choose|i: int| 0 <= i < list@.len() && list@[i] == p.index;
            assert(p == PipId { tile: member.tile, index: list@[i] });
        }
        lemma_inv_sound(*ctx, model, src_wires@, dst_wire, exhaustive, Some(entry.wire), st);
    }
    (false, Ghost(st))
}

/// Expands the conductor of `entry.wire`: comes to all its wires and takes the steps from each.
/// The result says whether the target was come to and the search is told to stop there.
#[verifier::rlimit(60)]
#[verifier::spinoff_prover]
fn expand_conductor<M: PathCostModel>(
    ctx: &Context,
    model: &M,
    src_wires: &WireSet,
    dst_wire: WireId,
    exhaustive: bool,
    stop_on_touch: bool,
    region: &SearchRegion,
    entry: &QueueEntry,
    visited: &mut IdMap<WireId, Visit>,
    heap: &mut EntryHeap,
    Ghost(start): Ghost<SearchState>,
) -> (r: (bool, Ghost<SearchState>))
    requires
        search_ok(*ctx, model, src_wires@, dst_wire),
        region.matches_boxes(ctx.chipdb, model.boxes()),
        stop_on_touch ==> !exhaustive,
        start.vis == old(visited)@,
        start.heap == old(heap)@,
        old(heap).wf(),
        start.inv(*ctx, model, src_wires@, dst_wire, exhaustive, Some(entry.wire)),
        start.expanding(*ctx, model, src_wires@, dst_wire, exhaustive, entry.wire, entry_score(*entry)),
        entry.cost >= 0,
        entry.penalty >= 0,
        start.counted(*ctx),
    ensures
        stepped_to(
            after_entry(*ctx, model, dst_wire, stop_on_touch, *entry, board_of(start)),
            final(visited)@,
            final(heap)@,
            start.nodes,
            r.0,
        ),
        r.1@.vis == final(visited)@,
        r.1@.sound(*ctx, model, src_wires@),
        r.0 ==> stop_on_touch && touched_from(
            *ctx,
            model,
            final(visited)@,
            dst_wire,
            entry.wire,
            entry_score(*entry),
        ),
        !r.0 ==> {
            &&& r.1@.taken == start.taken
            &&& r.1@.roots == start.roots
            &&& r.1@.low == start.low
            &&& r.1@.counted(*ctx)
            &&& consistent(*ctx, model, src_wires@, dst_wire) && start.low < i32::MAX && start.thrifty(
                *ctx,
                model,
                Some(entry.wire),
            ) ==> r.1@.thrifty(*ctx, model, None)
            &&& final(heap).wf()
            &&& r.1@.heap == final(heap)@
            &&& r.1@.inv(*ctx, model, src_wires@, dst_wire, exhaustive, None)
            &&& r.1@.nodes == match ctx.chipdb.node(entry.wire) {
                Some(n) => start.nodes.insert(n),
                None => start.nodes,
            }
        },
{
    let ghost s = entry_score(*entry);
    let ghost mut st = start;
    proof {
        lemma_expanding(*ctx, model, src_wires@, dst_wire, exhaustive, st, entry.wire, s);
        lemma_inv_sound(*ctx, model, src_wires@, dst_wire, exhaustive, Some(entry.wire), st);
        lemma_visit_ok(*ctx, model, src_wires@, st, entry.wire);
    }
    let members = conductor(&ctx.chipdb, entry.wire);
    let total: usize = members.len();
    for k in 0..total
        invariant
            search_ok(*ctx, model, src_wires@, dst_wire),
            region.matches_boxes(ctx.chipdb, model.boxes()),
            stop_on_touch ==> !exhaustive,
            s == entry_score(*entry),
            entry.cost >= 0,
            entry.penalty >= 0,
            total == members@.len(),
            members@ == members_of(ctx.chipdb, entry.wire),
            after_members(*ctx, model, dst_wire, stop_on_touch, *entry, k as int, board_of(start)) == (
                board_of(st),
                false,
            ),
            forall|i: int|
                0 <= i < members@.len() ==> ctx.chipdb.valid_wire(#[trigger] members@[i])
                    && ctx.chipdb.joined(entry.wire, members@[i]),
            st.vis == visited@,
            st.heap == heap@,
            st.nodes == start.nodes,
            heap.wf(),
            st.inv(*ctx, model, src_wires@, dst_wire, exhaustive, Some(entry.wire)),
            st.expanding(*ctx, model, src_wires@, dst_wire, exhaustive, entry.wire, s),
            st.taken == start.taken,
            st.roots == start.roots,
            st.low == start.low,
            st.counted(*ctx),
            consistent(*ctx, model, src_wires@, dst_wire) && start.low < i32::MAX && start.thrifty(
                *ctx,
                model,
                Some(entry.wire),
            ) ==> st.thrifty(*ctx, model, Some(entry.wire)),
            forall|i: int|
                0 <= i < k ==> st.vis.contains_key(#[trigger] members@[i]) && st.vis[members@[i]].score()
                    <= s && st.expanded(*ctx, model, members@[i], s),
    {
        let member: WireId = members[k];
        let ghost first = st;
        proof {
            lemma_expanding(*ctx, model, src_wires@, dst_wire, exhaustive, st, entry.wire, s);
        }
        proof {
            lemma_inv_sound(*ctx, model, src_wires@, dst_wire, exhaustive, Some(entry.wire), st);
            if st.vis.contains_key(member) {
                lemma_visit_ok(*ctx, model, src_wires@, st, member);
            }
        }
        if member != entry.wire && update_peer(visited, member, entry.cost, entry.penalty, entry.wire) {
            let ghost nv = Visit { cost: entry.cost, penalty: entry.penalty, pip: None, from: entry.wire };
            proof {
                lemma_peer(
                    *ctx,
                    model,
                    src_wires@,
                    dst_wire,
                    exhaustive,
                    st,
                    entry.wire,
                    s,
                    member,
                    nv,
                );
                lemma_peer_counts(
                    *ctx,
                    model,
                    src_wires@,
                    dst_wire,
                    exhaustive,
                    st,
                    entry.wire,
                    s,
                    member,
                    nv,
                );
                st = first.with_visit(member, nv);
            }
        }
        let ghost second = st;
        assert(second.improves(first.vis));
        let ghost shown = after_members(
            *ctx,
            model,
            dst_wire,
            stop_on_touch,
            *entry,
            k + 1,
            board_of(start),
        );
        proof {
            assert(board_of(second) =~= come_to(*entry, member, board_of(first)));
            assert(shown == after_member(
                *ctx,
                model,
                dst_wire,
                stop_on_touch,
                *entry,
                member,
                board_of(first),
            ));
        }
        let (touched, after) = expand_member(
            ctx,
            model,
            src_wires,
            dst_wire,
            exhaustive,
            stop_on_touch,
            region,
            entry,
            member,
            visited,
            heap,
            Ghost(st),
        );
        if touched {
            proof {
                lemma_stopped_early(
                    *ctx,
                    model,
                    dst_wire,
                    *entry,
                    k + 1,
                    total as int,
                    board_of(start),
                );
            }
            return (true, after);
        }
        proof {
            st = after@;
            assert(shown.0 =~= board_of(st));
            assert(second.vis.contains_key(member));
            assert(st.improves(first.vis)) by {
                assert forall|x: WireId| #[trigger] first.vis.contains_key(x) implies st.vis.contains_key(
                    x,
                ) && st.vis[x].score() <= first.vis[x].score() by {
                    assert(second.vis.contains_key(x));
                }
            }
            assert forall|i: int| 0 <= i < k + 1 implies st.vis.contains_key(#[trigger] members@[i])
                && st.vis[members@[i]].score() <= s && st.expanded(*ctx, model, members@[i], s) by {
                if i < k {
                    assert(first.vis.contains_key(members@[i]));
                    lemma_expanded_stays(*ctx, model, first, st, members@[i], s);
                }
            }
        }
    }
    proof {
        assert forall|x: WireId| #[trigger] ctx.chipdb.joined(entry.wire, x) implies st.vis.contains_key(x)
            && st.vis[x].score() <= s && st.expanded(*ctx, model, x, s) by {
            assert(members@.contains(x));
            let i = choose|i: int| 0 <= i < members@.len() && members@[i] == x;
            assert(st.vis.contains_key(members@[i]));
        }
        lemma_close(*ctx, model, src_wires@, dst_wire, exhaustive, st, entry.wire, s);
        lemma_close_counts(*ctx, model, st, entry.wire);
        st = st.closed_off(ctx.chipdb, entry.wire);
        lemma_inv_sound(*ctx, model, src_wires@, dst_wire, exhaustive, None, st);
    }
    (false, Ghost(st))
}

/// Puts the sources into the queue.
fn seed<M: PathCostModel>(
    ctx: &Context,
    model: &M,
    src_wires: &WireSet,
    srcs: &Vec<WireId>,
    dst_wire: WireId,
    exhaustive: bool,
    visited: &mut IdMap<WireId, Visit>,
    heap: &mut EntryHeap,
) -> (r: Ghost<SearchState>)
    requires
        search_ok(*ctx, model, src_wires@, dst_wire),
        forall|k: WireId| #[trigger] srcs@.contains(k) <==> src_wires@.contains_key(k),
        srcs@.no_duplicates(),
        old(visited)@ == Map::<WireId, Visit>::empty(),
        old(heap).wf(),
        old(heap)@ == Multiset::<QueueEntry>::empty(),
    ensures
        final(heap).wf(),
        r@.vis == final(visited)@,
        r@.heap == final(heap)@,
        r@.nodes == Set::<u64>::empty(),
        r@.inv(*ctx, model, src_wires@, dst_wire, exhaustive, None),
        r@.low == 0,
        r@.taken == 0,
        r@.roots == srcs@.len(),
        r@.counted(*ctx),
        r@.thrifty(*ctx, model, None),
        begins(*ctx, model, src_wires@, dst_wire, board_of(r@)),
{
    let ghost mut offers: Set<(WireId, int)> = Set::empty();
    for i in 0..srcs.len()
        invariant
            search_ok(*ctx, model, src_wires@, dst_wire),
            srcs@.no_duplicates(),
            heap@.len() == i,
            forall|e: QueueEntry| #[trigger]
                heap@.count(e) == if srcs@.take(i as int).contains(e.wire) && e == source_entry(
                    *ctx,
                    model,
                    dst_wire,
                    e.wire,
                ) {
                    1nat
                } else {
                    0nat
                },
            offers.finite(),
            offers.len() == i,
            forall|o: (WireId, int)| #[trigger]
                offers.contains(o) ==> o.1 == 0 && srcs@.take(i as int).contains(o.0) && visited@.contains_key(o.0),
            forall|k: WireId| #[trigger] srcs@.contains(k) <==> src_wires@.contains_key(k),
            heap.wf(),
            forall|w: WireId| #[trigger]
                visited@.contains_key(w) ==> src_wires@.contains_key(w) && visited@[w] == (Visit {
                    cost: 0,
                    penalty: 0,
                    pip: None,
                    from: w,
                }) && exists|e: QueueEntry| #[trigger]
                    heap@.contains(e) && e.wire == w && e.cost == 0 && e.penalty == 0,
            forall|j: int| 0 <= j < i ==> visited@.contains_key(#[trigger] srcs@[j]),
            forall|e: QueueEntry| #[trigger]
                heap@.contains(e) ==> visited@.contains_key(e.wire) && e.cost == 0 && e.penalty == 0
                    && estimated(*ctx, model, dst_wire, e),
    {
        let src: WireId = srcs[i];
        assert(srcs@.contains(srcs@[i as int]));
        let hval: DelayT = model.heuristic(ctx, src, dst_wire);
        let e = QueueEntry { wire: src, cost: 0, penalty: 0, estimate: hval };
        let ghost before_heap = heap@;
        let ghost before_vis = visited@;
        heap.push(e);
        let _ = visited.insert(src, Visit { cost: 0, penalty: 0, pip: None, from: src });
        proof {
            let before_offers = offers;
            assert(srcs@.take(i + 1) =~= srcs@.take(i as int).push(src));
            assert(!before_offers.contains((src, 0int))) by {
                if srcs@.take(i as int).contains(src) {
                    let j = choose|j: int| 0 <= j < i && srcs@.take(i as int)[j] == src;
                    assert(srcs@[j] == srcs@[i as int]);
                }
            }
            offers = before_offers.insert((src, 0int));
            assert forall|x: QueueEntry| #[trigger] heap@.count(x) == if srcs@.take(i + 1).contains(x.wire)
                && x == source_entry(*ctx, model, dst_wire, x.wire) {
                1nat
            } else {
                0nat
            } by {
                assert(before_heap.count(x) == if srcs@.take(i as int).contains(x.wire) && x == source_entry(
                    *ctx,
                    model,
                    dst_wire,
                    x.wire,
                ) {
                    1nat
                } else {
                    0nat
                });
                lemma_push_holds(srcs@.take(i as int), src, x.wire);
                assert(!srcs@.take(i as int).contains(src)) by {
                    if srcs@.take(i as int).contains(src) {
                        let j = choose|j: int| 0 <= j < i && srcs@.take(i as int)[j] == src;
                        assert(srcs@[j] == srcs@[i as int]);
                    }
                }
                assert(e == source_entry(*ctx, model, dst_wire, src));
            }
            assert forall|o: (WireId, int)| #[trigger] offers.contains(o) implies o.1 == 0 && srcs@.take(
                i + 1,
            ).contains(o.0) && visited@.contains_key(o.0) by {
                if o == (src, 0int) {
                    assert(srcs@.take(i + 1)[i as int] == src);
                } else {
                    assert(before_offers.contains(o));
                    let j = choose|j: int| 0 <= j < i && srcs@.take(i as int)[j] == o.0;
                    assert(srcs@.take(i + 1)[j] == o.0);
                }
            }
            assert(heap@.contains(e));
            assert forall|x: QueueEntry| #[trigger] heap@.contains(x) implies x == e
                || before_heap.contains(x) by {
            }
            assert forall|w: WireId| #[trigger] visited@.contains_key(w) implies src_wires@.contains_key(w)
                && visited@[w] == (Visit { cost: 0, penalty: 0, pip: None, from: w }) && exists|
                e: QueueEntry,
            | #[trigger] heap@.contains(e) && e.wire == w && e.cost == 0 && e.penalty == 0 by {
                if w != src {
                    assert(before_vis.contains_key(w));
                    let y = choose|y: QueueEntry| #[trigger]
                        before_heap.contains(y) && y.wire == w && y.cost == 0 && y.penalty == 0;
                    assert(heap@.contains(y));
                }
            }
        }
    }
    let ghost st = SearchState {
        vis: visited@,
        heap: heap@,
        done: Set::empty(),
        nodes: Set::empty(),
        time: Map::new(|w: WireId| true, |w: WireId| 0nat),
        clock: 1,
        low: 0,
        taken: 0,
        roots: srcs@.len(),
        offers,
        steps: Set::empty(),
    };
    proof {
        assert forall|s: WireId| #[trigger] st.vis.contains_key(s) <==> src_wires@.contains_key(s) by {
            if src_wires@.contains_key(s) {
                assert(srcs@.contains(s));
                let j = choose|j: int| 0 <= j < srcs@.len() && srcs@[j] == s;
                assert(visited@.contains_key(srcs@[j]));
            }
        }
        assert forall|w: WireId| #[trigger] st.vis.contains_key(w) implies st.vis[w] == (Visit {
            cost: 0,
            penalty: 0,
            pip: None,
            from: w,
        }) && exists|e: QueueEntry| #[trigger]
            st.heap.contains(e) && e.wire == w && e.cost == 0 && e.penalty == 0 by {
            assert(visited@.contains_key(w));
            let y = choose|y: QueueEntry| #[trigger]
                heap@.contains(y) && y.wire == w && y.cost == 0 && y.penalty == 0;
            assert(st.heap.contains(y));
        }
        lemma_init(*ctx, model, src_wires@, dst_wire, exhaustive, st);
        assert(srcs@.take(srcs@.len() as int) =~= srcs@);
        let board = board_of(st);
        assert(board.vis =~= Map::new(
            |w: WireId| src_wires@.contains_key(w),
            |w: WireId| source_visit(w),
        ));
        assert(begins(*ctx, model, src_wires@, dst_wire, board));
        assert forall|o: (WireId, int)| #[trigger] st.offers.contains(o) implies ctx.chipdb.valid_wire(o.0)
            && st.vis.contains_key(o.0) && st.vis[o.0].score() <= o.1 && 0 <= o.1 <= i32::MAX by {
            assert(st.vis.contains_key(o.0));
            assert(src_wires@.contains_key(o.0));
        }
    }
    Ghost(st)
}

/// Searches a path from the sources to the target.
#[verifier::rlimit(80)]
#[verifier::spinoff_prover]
pub fn astar_search<M: PathCostModel>(
    ctx: &Context,
    model: &M,
    src_wires: &WireSet,
    dst_wire: WireId,
    opts: &AStarOptions,
) -> (res: AStarResult)
    requires
        search_ok(*ctx, model, src_wires@, dst_wire),
    ensures
        result_ok(*ctx, model, src_wires@, dst_wire, *opts, res),
{
    let chipdb = &ctx.chipdb;
    if !opts.exhaustive && src_wires.contains_key(dst_wire) {
        return found_at_once(ctx, model, src_wires, dst_wire, opts);
    }
    let mut heap = EntryHeap::new();
    let mut visited: IdMap<WireId, Visit> = IdMap::new();
    let mut nodes_expanded: IdMap<NodeKey, ()> = IdMap::new();
    let (region, region_tiles) = build_search_region(chipdb, model.bboxes());
    let srcs = src_wires.keys();
    let max_visits: usize = match opts.visit_limit {
        Some(n) => n,
        None => {
            let d: usize = nearest_distance(ctx, src_wires, &srcs, dst_wire);
            default_visit_limit_for_search(chipdb.tiles.len(), d, region_tiles)
        },
    };
    let dst_node: Option<u64> = chipdb.node_id(dst_wire);
    let seeded = seed(
        ctx,
        model,
        src_wires,
        &srcs,
        dst_wire,
        opts.exhaustive,
        &mut visited,
        &mut heap,
    );
    let ghost mut st = seeded@;
    let ghost lucky = !opts.exhaustive && consistent(*ctx, model, src_wires@, dst_wire) && affordable(
        *ctx,
        model,
        src_wires@,
        dst_wire,
    );
    let ghost first_board = board_of(st);
    let ghost whole = run(
        *ctx,
        model,
        dst_wire,
        opts.exhaustive,
        opts.stop_on_first_touch && !opts.exhaustive,
        first_board,
        max_visits as nat,
    );
    let ghost mut hub = dst_wire;
    let ghost mut hub_score: int = 0;
    let mut visit_count: usize = 0;
    let mut best_score: DelayT = i32::MAX;
    let mut exit: AStarExit = AStarExit::HeapDrained;
    let stop_on_touch: bool = opts.stop_on_first_touch && !opts.exhaustive;
    loop
        invariant_except_break
            search_ok(*ctx, model, src_wires@, dst_wire),
            chipdb == ctx.chipdb,
            region.matches_boxes(ctx.chipdb, model.boxes()),
            !opts.exhaustive ==> !src_wires@.contains_key(dst_wire),
            dst_node == chipdb.node(dst_wire),
            stop_on_touch == (opts.stop_on_first_touch && !opts.exhaustive),
            visit_count <= max_visits,
            best_score == i32::MAX,
            exit is HeapDrained,
            heap.wf(),
            whole == run(
                *ctx,
                model,
                dst_wire,
                opts.exhaustive,
                stop_on_touch,
                board_of(st),
                (max_visits - visit_count) as nat,
            ),
            st.vis == visited@,
            st.heap == heap@,
            st.inv(*ctx, model, src_wires@, dst_wire, opts.exhaustive, None),
            st.taken == visit_count,
            st.roots == src_wires@.dom().len(),
            st.counted(*ctx),
            lucky == (!opts.exhaustive && consistent(*ctx, model, src_wires@, dst_wire) && affordable(
                *ctx,
                model,
                src_wires@,
                dst_wire,
            )),
            lucky ==> st.low < i32::MAX && st.thrifty(*ctx, model, None),
            forall|n: u64| #[trigger]
                nodes_expanded@.contains_key(NodeKey(n)) <==> st.nodes.contains(n),
        ensures
            st.vis == visited@,
            whole == (Ending {
                vis: visited@,
                exit,
                score: best_score as int,
                left: (max_visits - visit_count) as nat,
            }),
            st.sound(*ctx, model, src_wires@),
            visit_count <= max_visits,
            exit is VisitLimit ==> visit_count == max_visits && max_visits < most_entries(ctx.chipdb),
            exit is VisitLimit && lucky ==> max_visits < plain_entries(ctx.chipdb, src_wires@),
            !(exit is Reached) ==> best_score == i32::MAX,
            exit is Reached ==> !opts.exhaustive && visited@.contains_key(dst_wire)
                && visited@[dst_wire].score() <= best_score,
            exit is HeapDrained ==> visits_closed(*ctx, model, src_wires@, visited@) && (!opts.exhaustive
                ==> !visited@.contains_key(dst_wire)),
            exit is Reached ==> {
                &&& is_entry(*ctx, model, src_wires@, hub)
                &&& model.heuristic_of(*ctx, hub, dst_wire) >= 0
                &&& hub_score >= 0
                &&& (ctx.chipdb.joined(hub, dst_wire) && best_score == hub_score) || (stop_on_touch
                    && touched_from(*ctx, model, visited@, dst_wire, hub, hub_score) && best_score
                    == visited@[dst_wire].score())
                &&& consistent(*ctx, model, src_wires@, dst_wire) && hub_score + model.heuristic_of(
                    *ctx,
                    hub,
                    dst_wire,
                ) < i32::MAX ==> none_cheaper(*ctx, model, src_wires@, hub, hub_score)
            },
        decreases max_visits - visit_count,
    {
        let entry: QueueEntry = match heap.pop() {
            None => {
                proof {
                    lemma_drained(*ctx, model, src_wires@, dst_wire, opts.exhaustive, st);
                    lemma_inv_sound(*ctx, model, src_wires@, dst_wire, opts.exhaustive, None, st);
                }
                break ;
            },
            Some(e) => e,
        };
        proof {
            lemma_inv_sound(*ctx, model, src_wires@, dst_wire, opts.exhaustive, None, st);
        }
        proof {
            lemma_pop_counts(*ctx, model, st, entry);
            lemma_next_entry(st.heap, entry);
            assert(st.heap.contains(entry));
            assert(st.heap != Multiset::<QueueEntry>::empty());
        }
        if visit_count == max_visits {
            exit = AStarExit::VisitLimit;
            proof {
                lemma_offers(ctx.chipdb, st.offers);
                if lucky {
                    lemma_pips(ctx.chipdb, st.steps);
                }
            }
            break ;
        }
        visit_count = visit_count + 1;
        let ghost before = st;
        proof {
            lemma_turn(
                *ctx,
                model,
                dst_wire,
                opts.exhaustive,
                stop_on_touch,
                board_of(before),
                (max_visits - visit_count) as nat,
            );
        }
        proof {
            if lucky {
                lemma_sources_visited(*ctx, model, src_wires@, st);
                let (s, walk) = choose|s: WireId, walk: Seq<Hop>|
                    src_wires@.contains_key(s) && #[trigger] walk_ok(*ctx, model, s, walk) && walk_end(
                        s,
                        walk,
                    ) == dst_wire && walk_cost(*ctx, model, walk) + node_estimate(
                        *ctx,
                        model,
                        src_wires@,
                        dst_wire,
                        dst_wire,
                    ) < i32::MAX;
                lemma_next_estimate(*ctx, model, src_wires@, dst_wire, st, entry, s, walk, 0);
            }
            lemma_pop(*ctx, model, src_wires@, dst_wire, opts.exhaustive, st, entry);
            st = before.popped(entry);
            assert(board_of(st) =~= (Board {
                heap: before.heap.remove(entry),
                ..board_of(before)
            }));
        }
        let score: DelayT = sat_add(entry.cost, entry.penalty);
        proof {
            lemma_visit_ok(*ctx, model, src_wires@, before, entry.wire);
        }
        let stale: bool = match visited.get(entry.wire) {
            Some(v) => score > visit_score(v),
            None => false,
        };
        if stale {
            continue ;
        }
        if !opts.exhaustive && entry.wire == dst_wire {
            best_score = score;
            exit = AStarExit::Reached;
            proof {
                lemma_end(*ctx, model, src_wires@, dst_wire, opts.exhaustive, before, entry);
                hub = entry.wire;
                hub_score = score as int;
            }
            break ;
        }
        let nid: Option<u64> = chipdb.node_id(entry.wire);
        let expand: bool = match nid {
            Some(id) => !nodes_expanded.contains_key(NodeKey(id)),
            None => true,
        };
        if !expand {
            continue ;
        }
        proof {
            lemma_end(*ctx, model, src_wires@, dst_wire, opts.exhaustive, before, entry);
            hub = entry.wire;
            hub_score = score as int;
        }
        if !opts.exhaustive && nid.is_some() && dst_node == nid {
            best_score = score;
            exit = AStarExit::Reached;
            proof {
                if before.vis.contains_key(dst_wire) {
                    lemma_visit_ok(*ctx, model, src_wires@, before, dst_wire);
                }
            }
            if update_peer(&mut visited, dst_wire, entry.cost, entry.penalty, entry.wire) {
                let ghost nv = Visit {
                    cost: entry.cost,
                    penalty: entry.penalty,
                    pip: None,
                    from: entry.wire,
                };
                proof {
                    lemma_set_visit(*ctx, model, src_wires@, st, entry.wire, dst_wire, nv);
                    st = st.with_visit(dst_wire, nv);
                }
            }
            break ;
        }
        if let Some(id) = nid {
            let _ = nodes_expanded.insert(NodeKey(id), ());
        }
        let (touched, after) = expand_conductor(
            ctx,
            model,
            src_wires,
            dst_wire,
            opts.exhaustive,
            stop_on_touch,
            &region,
            &entry,
            &mut visited,
            &mut heap,
            Ghost(st),
        );
        let ghost popped = st;
        proof {
            st = after@;
            let (d, stopped) = after_entry(
                *ctx,
                model,
                dst_wire,
                stop_on_touch,
                entry,
                board_of(popped),
            );
            assert(stopped == touched && d.vis == st.vis);
            if !touched {
                assert(board_of(st) =~= (Board { nodes: nodes_with(*chipdb, entry.wire, d.nodes), ..d }));
            }
        }
        if touched {
            proof {
                lemma_visit_ok(*ctx, model, src_wires@, st, dst_wire);
            }
            best_score = match visited.get(dst_wire) {
                Some(v) => visit_score(v),
                None => i32::MAX,
            };
            exit = AStarExit::Reached;
            break ;
        }
    }
    proof {
        lemma_visits_sound(*ctx, model, src_wires@, st);
        lemma_sources_visited(*ctx, model, src_wires@, st);
        if exit is HeapDrained && !opts.exhaustive {
            if reachable(*ctx, model, src_wires@, dst_wire) {
                let (s, walk) = choose|s: WireId, walk: Seq<Hop>|
                    src_wires@.contains_key(s) && #[trigger] walk_ok(*ctx, model, s, walk) && walk_end(
                        s,
                        walk,
                    ) == dst_wire;
                lemma_closed_holds_reachable(*ctx, model, src_wires@, visited@, s, walk);
            }
        }
    }
    let reached: bool = match exit {
        AStarExit::Reached => true,
        _ => false,
    };
    let ghost mut way: nat = 0;
    let path: Option<Vec<PipId>> = if reached {
        let ghost n = lemma_follow(*ctx, model, src_wires@, st, dst_wire);
        assert(settles(*chipdb, visited@, dst_wire, n));
        let found = reconstruct_path_to(chipdb, &visited, dst_wire);
        proof {
            way = n;
            if consistent(*ctx, model, src_wires@, dst_wire) && best_score + node_estimate(
                *ctx,
                model,
                src_wires@,
                dst_wire,
                dst_wire,
            ) < i32::MAX {
                lemma_reached(
                    *ctx,
                    model,
                    src_wires@,
                    dst_wire,
                    st,
                    hub,
                    hub_score,
                    best_score as int,
                    n,
                );
            }
        }
        found
    } else {
        None
    };
    proof {
        assert(visits_made(*ctx, model, src_wires@, dst_wire, opts.exhaustive, exit, visited@));
    }
    let limited: bool = match exit {
        AStarExit::VisitLimit => true,
        _ => false,
    };
    let shown_count: usize = if limited { visit_count.saturating_add(1) } else { visit_count };
    let ghost seen = visited@;
    let kept: IdMap<WireId, Visit> = if opts.retain_trace { visited } else { IdMap::new() };
    let res = AStarResult {
        path,
        trace: AStarTrace { visit_count: shown_count, max_visits, best_score, exit, visited: kept },
    };
    proof {
        if res.path is Some {
            assert(settles(*chipdb, whole.vis, dst_wire, way));
            assert(res.path->0@ == trace_back(*chipdb, whole.vis, dst_wire, way));
        }
        assert(tells_end(*chipdb, dst_wire, whole, res));
        assert(run_from(*ctx, model, src_wires@, dst_wire, *opts, res, seen, first_board));
        reveal(run_ok);
        assert(run_ok(*ctx, model, src_wires@, dst_wire, *opts, res, seen));
        assert(visits_made(*ctx, model, src_wires@, dst_wire, opts.exhaustive, exit, seen));
    }
    res
}

/// The result for a target that is a source.
fn found_at_once<M: PathCostModel>(
    ctx: &Context,
    model: &M,
    src_wires: &WireSet,
    dst_wire: WireId,
    opts: &AStarOptions,
) -> (res: AStarResult)
    requires
        search_ok(*ctx, model, src_wires@, dst_wire),
        !opts.exhaustive,
        src_wires@.contains_key(dst_wire),
    ensures
        result_ok(*ctx, model, src_wires@, dst_wire, *opts, res),
{
    let mut visited: IdMap<WireId, Visit> = IdMap::new();
    if opts.retain_trace {
        let _ = visited.insert(dst_wire, Visit { cost: 0, penalty: 0, pip: None, from: dst_wire });
    }
    proof {
        let empty = Seq::<PipId>::empty();
        assert(src_wires@.contains_key(dst_wire) && ctx.chipdb.joined(dst_wire, dst_wire));
        assert(path_ok(*ctx, model, src_wires@, empty, dst_wire));
        assert(path_cost(*ctx, model, empty) == 0);
        let visits = Map::<WireId, Visit>::empty().insert(
            dst_wire,
            Visit { cost: 0, penalty: 0, pip: None, from: dst_wire },
        );
        assert forall|w: WireId| #[trigger] visits.contains_key(w) implies ctx.chipdb.valid_wire(w)
            && exists|n: nat| #[trigger]
            settles(ctx.chipdb, visits, w, n) && path_ok(
                *ctx,
                model,
                src_wires@,
                trace_back(ctx.chipdb, visits, w, n),
                w,
            ) && sat_sum(path_cost(*ctx, model, trace_back(ctx.chipdb, visits, w, n)), 0)
                <= visits[w].score() by {
            assert(settles(ctx.chipdb, visits, w, 0));
            assert(trace_back(ctx.chipdb, visits, w, 0) == empty);
        }
        assert(visits_made(
            *ctx,
            model,
            src_wires@,
            dst_wire,
            opts.exhaustive,
            AStarExit::Reached,
            visits,
        ));
        assert(opts.retain_trace ==> visited@ =~= visits);
        assert(settles(ctx.chipdb, visits, dst_wire, 0));
        assert(trace_back(ctx.chipdb, visits, dst_wire, 0) =~= empty);
    }
    let pips: Vec<PipId> = Vec::new();
    assert(pips@ =~= Seq::<PipId>::empty());
    let res = AStarResult {
        path: Some(pips),
        trace: AStarTrace {
            visit_count: 0,
            max_visits: 0,
            best_score: 0,
            exit: AStarExit::Reached,
            visited,
        },
    };
    proof {
        reveal(run_ok);
        let end = ended_at_once(dst_wire);
        assert(settles(ctx.chipdb, end.vis, dst_wire, 0) && pips@ == trace_back(
            ctx.chipdb,
            end.vis,
            dst_wire,
            0,
        ));
        assert(tells_end(ctx.chipdb, dst_wire, end, res));
        assert(run_ok(*ctx, model, src_wires@, dst_wire, *opts, res, end.vis));
        assert(visits_made(
            *ctx,
            model,
            src_wires@,
            dst_wire,
            opts.exhaustive,
            AStarExit::Reached,
            end.vis,
        ));
    }
    res
}

/// No walk to the node of an entry that is about to be expanded is cheaper than the entry, if the estimates
/// are consistent.
proof fn lemma_end<M: PathCostModel>(
    ctx: Context,
    m: &M,
    srcs: Map<WireId, ()>,
    dst: WireId,
    exhaustive: bool,
    st: SearchState,
    e: QueueEntry,
)
    requires
        ctx.wf(),
        st.inv(ctx, m, srcs, dst, exhaustive, None),
        st.heap.contains(e),
        forall|x: QueueEntry| #[trigger] st.heap.contains(x) ==> ahead(e, x),
        entry_score(e) <= st.vis[e.wire].score(),
        (!exhaustive && e.wire == dst) || (ctx.chipdb.node(e.wire) is Some ==> !st.nodes.contains(
            ctx.chipdb.node(e.wire)->0,
        )),
    ensures
        is_entry(ctx, m, srcs, e.wire),
        m.heuristic_of(ctx, e.wire, dst) >= 0,
        consistent(ctx, m, srcs, dst) && entry_score(e) + m.heuristic_of(ctx, e.wire, dst) < i32::MAX
            ==> none_cheaper(ctx, m, srcs, e.wire, entry_score(e)),
{
    lemma_inv_sound(ctx, m, srcs, dst, exhaustive, None, st);
    lemma_sources_visited(ctx, m, srcs, st);
    lemma_waiting_entry(ctx, m, srcs, dst, exhaustive, st, e);
    if consistent(ctx, m, srcs, dst) && entry_score(e) + m.heuristic_of(ctx, e.wire, dst) < i32::MAX {
        assert forall|s: WireId, walk: Seq<Hop>|
            srcs.contains_key(s) && #[trigger] walk_ok(ctx, m, s, walk) && ctx.chipdb.joined(
                e.wire,
                walk_end(s, walk),
            ) implies entry_score(e) <= walk_cost(ctx, m, walk) by {
            lemma_cheapest(ctx, m, srcs, dst, exhaustive, st, e, s, walk, 0);
        }
    }
}

/// What a search that has reached its target knows of the path.
proof fn lemma_reached<M: PathCostModel>(
    ctx: Context,
    m: &M,
    srcs: Map<WireId, ()>,
    dst: WireId,
    st: SearchState,
    hub: WireId,
    hub_score: int,
    best: int,
    n: nat,
)
    requires
        ctx.wf(),
        st.sound(ctx, m, srcs),
        st.vis.contains_key(dst),
        settles(ctx.chipdb, st.vis, dst, n),
        path_ok(ctx, m, srcs, trace_back(ctx.chipdb, st.vis, dst, n), dst),
        sat_sum(path_cost(ctx, m, trace_back(ctx.chipdb, st.vis, dst, n)), 0) <= best,
        is_entry(ctx, m, srcs, hub),
        m.heuristic_of(ctx, hub, dst) >= 0,
        hub_score >= 0,
        (ctx.chipdb.joined(hub, dst) && best == hub_score) || (touched_from(
            ctx,
            m,
            st.vis,
            dst,
            hub,
            hub_score,
        ) && best == st.vis[dst].score()),
        consistent(ctx, m, srcs, dst),
        hub_score + m.heuristic_of(ctx, hub, dst) < i32::MAX ==> none_cheaper(ctx, m, srcs, hub, hub_score),
        best + node_estimate(ctx, m, srcs, dst, dst) < i32::MAX,
    ensures
        ({
            let path = trace_back(ctx.chipdb, st.vis, dst, n);
            &&& ctx.chipdb.joined(hub, dst) && best == hub_score ==> {
                &&& best == path_cost(ctx, m, path)
                &&& cheapest(ctx, m, srcs, path, dst)
            }
            &&& path.len() > 0 ==> cheapest(ctx, m, srcs, path.drop_last(), ctx.chipdb.src(path.last()))
        }),
{
    let path = trace_back(ctx.chipdb, st.vis, dst, n);
    if ctx.chipdb.joined(hub, dst) && best == hub_score {
        lemma_node_estimate(ctx, m, srcs, dst, hub, dst);
        let (s0, walk0) = lemma_path_is_walk(ctx, m, srcs, path, dst);
        assert(best <= walk_cost(ctx, m, walk0));
        if path.len() > 0 {
            let p = path.last();
            let u = ctx.chipdb.src(p);
            assert forall|s: WireId, walk: Seq<Hop>|
                srcs.contains_key(s) && #[trigger] walk_ok(ctx, m, s, walk) && walk_end(s, walk)
                    == u implies path_cost(ctx, m, path.drop_last()) <= walk_cost(ctx, m, walk) by {
                let h1 = Hop { pip: Some(p), to: ctx.chipdb.dst(p) };
                lemma_walk_push(ctx, m, s, walk, h1);
                assert(ctx.chipdb.joined(hub, ctx.chipdb.dst(p)));
                assert(hub_score <= walk_cost(ctx, m, walk.push(h1)));
            }
        }
    } else {
        let p = st.vis[dst].pip->0;
        let u = ctx.chipdb.src(p);
        assert(is_entry(ctx, m, srcs, dst) && ctx.chipdb.joined(dst, dst));
        lemma_node_estimate(ctx, m, srcs, dst, dst, dst);
        assert(m.heuristic_of(ctx, hub, dst) <= step_cost(ctx, m, p) + m.heuristic_of(ctx, dst, dst));
        assert(none_cheaper(ctx, m, srcs, hub, hub_score));
        assert(path == trace_back(ctx.chipdb, st.vis, u, (n - 1) as nat).push(p));
        assert(path.drop_last() =~= trace_back(ctx.chipdb, st.vis, u, (n - 1) as nat));
        let k = lemma_follow(ctx, m, srcs, st, u);
        if k <= n - 1 {
            lemma_settled(ctx.chipdb, st.vis, u, k, (n - 1) as nat);
        } else {
            lemma_settled(ctx.chipdb, st.vis, u, (n - 1) as nat, k);
        }
        assert(path_cost(ctx, m, path.drop_last()) <= hub_score);
    }
}

/// The number of a node as a key.
#[derive(Clone, Copy, PartialEq, Eq, Hash, Debug, Structural)]
pub struct NodeKey(pub u64);

impl crate::ids::MapKey for NodeKey {
    open spec fn key_of(self) -> u64 {
        self.0
    }

    proof fn key_injective(a: Self, b: Self) {
    }

    fn to_key(self) -> (k: u64) {
        self.0
    }
}

} // verus!
