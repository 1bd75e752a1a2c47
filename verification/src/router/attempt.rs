//! Routing a list of sinks from a tree that grows with each sink that is reached, keeping what was
//! reached when a sink is missed.

use crate::chipdb::{PipId, WireId};
use crate::context::Context;
use crate::router::astar::{astar_search, result_ok, sources_ok, AStarOptions};
use crate::router::common::SinkRoute;
use crate::router::graph::{lemma_path_pips, path_ok, PathCostModel, WireSet};
use crate::router::plan::{as_map, search_failed, search_found};
use crate::router::region::boxes_ok;
use vstd::prelude::*;

verus! {

/// The wires of the conductors that pips drive.
pub open spec fn conducted(ctx: Context, pips: Seq<PipId>) -> Set<WireId> {
    Set::new(
        |w: WireId|
            exists|i: int|
                0 <= i < pips.len() && ctx.conductor_of(ctx.chipdb.dst(#[trigger] pips[i])).contains(w),
    )
}

/// The tree after a sink was reached or missed.
pub open spec fn tree_with(
    ctx: Context,
    tree: Set<WireId>,
    with_sink: bool,
    outcome: Option<SinkRoute>,
) -> Set<WireId> {
    match outcome {
        Some(r) => {
            let more = tree.union(conducted(ctx, r.pips@));
            if with_sink {
                more.insert(r.sink_wire)
            } else {
                more
            }
        },
        None => tree,
    }
}

/// The tree after the first `k` sinks.
pub open spec fn tree_upto(
    ctx: Context,
    start: Set<WireId>,
    with_sink: bool,
    outcomes: Seq<Option<SinkRoute>>,
    k: int,
) -> Set<WireId>
    decreases k,
{
    if k <= 0 {
        start
    } else {
        tree_with(ctx, tree_upto(ctx, start, with_sink, outcomes, k - 1), with_sink, outcomes[k - 1])
    }
}

/// What trying to reach a sink gives: no pips if the tree has it, the path that the search from the tree
/// finds if it finds one, and nothing otherwise.
pub open spec fn attempt_ok<M: PathCostModel>(
    ctx: Context,
    m: &M,
    tree: Set<WireId>,
    sink: WireId,
    opts: AStarOptions,
    outcome: Option<SinkRoute>,
) -> bool {
    if tree.contains(sink) {
        outcome is Some && outcome->0.sink_wire == sink && outcome->0.pips@.len() == 0
    } else {
        match outcome {
            Some(r) => {
                &&& r.sink_wire == sink
                &&& path_ok(ctx, m, as_map(tree), r.pips@, sink)
                &&& search_found(ctx, m, tree, sink, opts, r.pips)
            },
            None => search_failed(ctx, m, tree, sink, opts),
        }
    }
}

/// The sinks are tried in order, each from the tree that those before it have grown.
pub open spec fn attempts_ok<M: PathCostModel>(
    ctx: Context,
    m: &M,
    start: Set<WireId>,
    with_sink: bool,
    sinks: Seq<WireId>,
    opts: AStarOptions,
    outcomes: Seq<Option<SinkRoute>>,
) -> bool {
    &&& outcomes.len() <= sinks.len()
    &&& forall|k: int|
        0 <= k < outcomes.len() ==> attempt_ok(
            ctx,
            m,
            tree_upto(ctx, start, with_sink, outcomes, k),
            sinks[k],
            opts,
            #[trigger] outcomes[k],
        )
}

/// Of each outcome, the pips are pips of the device.
pub open spec fn outcome_ok(ctx: Context, outcome: Option<SinkRoute>) -> bool {
    outcome is Some ==> forall|j: int|
        0 <= j < outcome->0.pips@.len() ==> ctx.chipdb.valid_pip(#[trigger] outcome->0.pips@[j])
}

/// The routes among the first `k` outcomes, in order.
pub open spec fn reached(outcomes: Seq<Option<SinkRoute>>, k: int) -> Seq<SinkRoute>
    decreases k,
{
    if k <= 0 {
        Seq::empty()
    } else {
        match outcomes[k - 1] {
            Some(r) => reached(outcomes, k - 1).push(r),
            None => reached(outcomes, k - 1),
        }
    }
}

/// The sinks that were missed among the first `k`, in order.
pub open spec fn missed(sinks: Seq<WireId>, outcomes: Seq<Option<SinkRoute>>, k: int) -> Seq<WireId>
    decreases k,
{
    if k <= 0 {
        Seq::empty()
    } else if outcomes[k - 1] is None {
        missed(sinks, outcomes, k - 1).push(sinks[k - 1])
    } else {
        missed(sinks, outcomes, k - 1)
    }
}

/// Adding an outcome keeps those before it.
pub proof fn lemma_attempts_push<M: PathCostModel>(
    ctx: Context,
    m: &M,
    start: Set<WireId>,
    with_sink: bool,
    sinks: Seq<WireId>,
    opts: AStarOptions,
    outcomes: Seq<Option<SinkRoute>>,
    outcome: Option<SinkRoute>,
)
    requires
        attempts_ok(ctx, m, start, with_sink, sinks, opts, outcomes),
        outcomes.len() < sinks.len(),
        attempt_ok(
            ctx,
            m,
            tree_upto(ctx, start, with_sink, outcomes, outcomes.len() as int),
            sinks[outcomes.len() as int],
            opts,
            outcome,
        ),
    ensures
        attempts_ok(ctx, m, start, with_sink, sinks, opts, outcomes.push(outcome)),
        tree_upto(ctx, start, with_sink, outcomes.push(outcome), outcomes.len() as int + 1) == tree_with(
            ctx,
            tree_upto(ctx, start, with_sink, outcomes, outcomes.len() as int),
            with_sink,
            outcome,
        ),
        reached(outcomes.push(outcome), outcomes.len() as int + 1) == (match outcome {
            Some(r) => reached(outcomes, outcomes.len() as int).push(r),
            None => reached(outcomes, outcomes.len() as int),
        }),
        missed(sinks, outcomes.push(outcome), outcomes.len() as int + 1) == (match outcome {
            Some(_) => missed(sinks, outcomes, outcomes.len() as int),
            None => missed(sinks, outcomes, outcomes.len() as int).push(sinks[outcomes.len() as int]),
        }),
{
    let more = outcomes.push(outcome);
    assert forall|k: int| 0 <= k <= outcomes.len() implies #[trigger] tree_upto(
        ctx,
        start,
        with_sink,
        more,
        k,
    ) == tree_upto(ctx, start, with_sink, outcomes, k) && reached(more, k) == reached(outcomes, k)
        && missed(sinks, more, k) == missed(sinks, outcomes, k) by {
        lemma_prefix(ctx, start, with_sink, sinks, outcomes, more, k);
    }
    let n = outcomes.len() as int;
    assert(tree_upto(ctx, start, with_sink, more, n) == tree_upto(ctx, start, with_sink, outcomes, n));
    assert forall|k: int| 0 <= k < more.len() implies attempt_ok(
        ctx,
        m,
        tree_upto(ctx, start, with_sink, more, k),
        sinks[k],
        opts,
        #[trigger] more[k],
    ) by {
        if k < outcomes.len() {
            assert(more[k] == outcomes[k]);
            assert(attempt_ok(
                ctx,
                m,
                tree_upto(ctx, start, with_sink, outcomes, k),
                sinks[k],
                opts,
                outcomes[k],
            ));
        }
    }
}

proof fn lemma_prefix(
    ctx: Context,
    start: Set<WireId>,
    with_sink: bool,
    sinks: Seq<WireId>,
    a: Seq<Option<SinkRoute>>,
    b: Seq<Option<SinkRoute>>,
    k: int,
)
    requires
        0 <= k <= a.len() <= b.len(),
        forall|i: int| 0 <= i < a.len() ==> #[trigger] b[i] == a[i],
    ensures
        tree_upto(ctx, start, with_sink, b, k) == tree_upto(ctx, start, with_sink, a, k),
        reached(b, k) == reached(a, k),
        missed(sinks, b, k) == missed(sinks, a, k),
    decreases k,
{
    if k > 0 {
        lemma_prefix(ctx, start, with_sink, sinks, a, b, k - 1);
        assert(b[k - 1] == a[k - 1]);
    }
}

/// Adds the wires of a conductor to a tree.
pub fn add_conductor(ctx: &Context, tree: &mut WireSet, w: WireId)
    requires
        ctx.wf(),
        ctx.chipdb.valid_wire(w),
        sources_ok(*ctx, old(tree)@),
    ensures
        final(tree)@.dom() == old(tree)@.dom().union(ctx.conductor_of(w).to_set()),
        sources_ok(*ctx, final(tree)@),
{
    let wires = ctx.conductor(w);
    proof {
        ctx.chipdb.lemma_peers(w);
        assert forall|j: int| 0 <= j < wires@.len() implies ctx.chipdb.valid_wire(#[trigger] wires@[j]) by {
            if j > 0 {
                assert(wires@[j] == ctx.chipdb.peers(w)[j - 1]);
            }
        }
    }
    for i in 0..wires.len()
        invariant
            forall|j: int| 0 <= j < wires@.len() ==> ctx.chipdb.valid_wire(#[trigger] wires@[j]),
            sources_ok(*ctx, tree@),
            tree@.dom() == old(tree)@.dom().union(wires@.take(i as int).to_set()),
    {
        let x: WireId = wires[i];
        assert(ctx.chipdb.valid_wire(wires@[i as int]));
        let _ = tree.insert(x, ());
        proof {
            assert(wires@.take(i + 1) =~= wires@.take(i as int).push(x));
            vstd::seq_lib::seq_to_set_distributes_over_add(wires@.take(i as int), seq![x]);
            assert(wires@.take(i as int) + seq![x] =~= wires@.take(i + 1));
            assert forall|y: WireId| #[trigger] seq![x].to_set().contains(y) <==> y == x by {
                if y == x {
                    assert(seq![x][0] == y);
                    assert(seq![x].contains(y));
                }
            }
            assert(tree@.dom() =~= old(tree)@.dom().union(wires@.take(i + 1).to_set()));
        }
    }
    proof {
        assert(wires@.take(wires@.len() as int) =~= wires@);
    }
}

/// Adds the conductors that pips drive to a tree.
pub fn add_conducted(ctx: &Context, tree: &mut WireSet, pips: &Vec<PipId>)
    requires
        ctx.wf(),
        sources_ok(*ctx, old(tree)@),
        forall|i: int| 0 <= i < pips@.len() ==> ctx.chipdb.valid_pip(#[trigger] pips@[i]),
    ensures
        final(tree)@.dom() == old(tree)@.dom().union(conducted(*ctx, pips@)),
        sources_ok(*ctx, final(tree)@),
{
    proof {
        assert(pips@.take(0) =~= Seq::<PipId>::empty());
        assert(tree@.dom() =~= old(tree)@.dom().union(conducted(*ctx, pips@.take(0))));
    }
    for i in 0..pips.len()
        invariant
            ctx.wf(),
            forall|i: int| 0 <= i < pips@.len() ==> ctx.chipdb.valid_pip(#[trigger] pips@[i]),
            sources_ok(*ctx, tree@),
            tree@.dom() == old(tree)@.dom().union(conducted(*ctx, pips@.take(i as int))),
    {
        let ghost before = tree@.dom();
        assert(ctx.chipdb.valid_pip(pips@[i as int]));
        let w: WireId = ctx.chipdb.pip_dst_wire(pips[i]);
        add_conductor(ctx, tree, w);
        proof {
            let part = pips@.take(i as int);
            let whole = pips@.take(i + 1);
            assert forall|x: WireId| #[trigger] conducted(*ctx, whole).contains(x) <==> conducted(
                *ctx,
                part,
            ).contains(x) || ctx.conductor_of(w).contains(x) by {
                if conducted(*ctx, part).contains(x) {
                    let j = choose|j: int|
                        0 <= j < part.len() && ctx.conductor_of(ctx.chipdb.dst(#[trigger] part[j])).contains(x);
                    assert(whole[j] == part[j]);
                }
                if ctx.conductor_of(w).contains(x) {
                    assert(whole[i as int] == pips@[i as int]);
                }
                if conducted(*ctx, whole).contains(x) {
                    let j = choose|j: int|
                        0 <= j < whole.len() && ctx.conductor_of(ctx.chipdb.dst(#[trigger] whole[j])).contains(
                            x,
                        );
                    if j < i {
                        assert(part[j] == whole[j]);
                    }
                }
            }
            assert(tree@.dom() =~= old(tree)@.dom().union(conducted(*ctx, whole)));
        }
    }
    proof {
        assert(pips@.take(pips@.len() as int) =~= pips@);
    }
}

/// Tries to reach a sink from a tree; the tree grows if that succeeds.
pub fn attempt_sink<M: PathCostModel>(
    ctx: &Context,
    model: &M,
    tree: &mut WireSet,
    sink: WireId,
    with_sink: bool,
    opts: &AStarOptions,
) -> (r: Option<SinkRoute>)
    requires
        ctx.wf(),
        model.ready(*ctx),
        boxes_ok(ctx.chipdb, model.boxes()),
        ctx.chipdb.valid_wire(sink),
        sources_ok(*ctx, old(tree)@),
    ensures
        attempt_ok(*ctx, model, old(tree)@.dom(), sink, *opts, r),
        final(tree)@.dom() == tree_with(*ctx, old(tree)@.dom(), with_sink, r),
        sources_ok(*ctx, final(tree)@),
        outcome_ok(*ctx, r),
{
    if tree.contains_key(sink) {
        let route = SinkRoute { sink_wire: sink, pips: Vec::new() };
        proof {
            assert(conducted(*ctx, route.pips@) =~= Set::<WireId>::empty());
            assert(tree@.dom() =~= tree_with(*ctx, tree@.dom(), with_sink, Some(route)));
        }
        return Some(route);
    }
    assert(tree@ =~= as_map(tree@.dom()));
    let result = astar_search(ctx, model, tree, sink, opts);
    let ghost found = result;
    match result.path {
        Some(pips) => {
            proof {
                lemma_path_pips(*ctx, model, tree@, pips@, sink);
            }
            add_conducted(ctx, tree, &pips);
            if with_sink {
                let _ = tree.insert(sink, ());
            }
            let route = SinkRoute { sink_wire: sink, pips };
            assert(result_ok(*ctx, model, as_map(old(tree)@.dom()), sink, *opts, found));
            assert(search_found(*ctx, model, old(tree)@.dom(), sink, *opts, route.pips));
            assert(tree@.dom() =~= tree_with(*ctx, old(tree)@.dom(), with_sink, Some(route)));
            Some(route)
        },
        None => {
            assert(search_failed(*ctx, model, old(tree)@.dom(), sink, *opts));
            None
        },
    }
}

} // verus!
