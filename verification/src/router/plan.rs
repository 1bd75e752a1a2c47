//! Planning the route of a net: one search for each sink, over a tree that grows.

use crate::chipdb::{PipId, WireId};
use crate::context::Context;
use crate::ids::IdMap;
use crate::netlist::NetId;
use crate::order::{orders, stable_order};
use crate::router::astar::{astar_search, result_ok, sources_ok, AStarOptions, AStarResult};
use crate::router::common::{
    carries, collect_constant_source_wires, missing_driver_wire_text, source_wire_const_value,
    unplaced_driver_text, RoutePlan, SinkRoute,
};
use crate::router::error::RouterError;
use crate::router::graph::{lemma_path_pips, path_ok, PathCostModel, WireSet};
use crate::router::region::boxes_ok;
use vstd::prelude::*;

verus! {

/// The wires that a net starts from: its source, the wires it is routed over already, and all wires
/// with the constant that the source carries, if it carries one.
pub open spec fn start_tree(ctx: Context, net: NetId, source: WireId) -> Set<WireId> {
    Set::new(
        |w: WireId|
            w == source || ctx.design.net_of(net).wires@.contains_key(w) || (ctx.chipdb.wire(
                source,
            ).const_value != 0 && ctx.chipdb.valid_wire(w) && ctx.chipdb.wire(w).const_value
                == ctx.chipdb.wire(source).const_value),
    )
}

/// The wires that pips drive.
pub open spec fn driven(ctx: Context, pips: Seq<PipId>) -> Set<WireId> {
    Set::new(|w: WireId| exists|i: int| 0 <= i < pips.len() && ctx.chipdb.dst(#[trigger] pips[i]) == w)
}

/// The tree after the first `k` sink routes.
pub open spec fn tree_at(ctx: Context, start: Set<WireId>, routes: Seq<SinkRoute>, k: int) -> Set<WireId>
    decreases k,
{
    if k <= 0 {
        start
    } else {
        tree_at(ctx, start, routes, k - 1).union(driven(ctx, routes[k - 1].pips@))
    }
}

/// A search for the sink from the tree found the path.
pub open spec fn search_found<M: PathCostModel>(
    ctx: Context,
    m: &M,
    tree: Set<WireId>,
    sink: WireId,
    opts: AStarOptions,
    pips: Vec<PipId>,
) -> bool {
    exists|res: AStarResult| #[trigger]
        result_ok(ctx, m, as_map(tree), sink, opts, res) && res.path == Some(pips)
}

/// The route to a sink: no pips if the tree has it, else a path that a search from the tree found.
pub open spec fn route_ok<M: PathCostModel>(
    ctx: Context,
    m: &M,
    tree: Set<WireId>,
    opts: AStarOptions,
    route: SinkRoute,
) -> bool {
    if tree.contains(route.sink_wire) {
        route.pips@.len() == 0
    } else {
        &&& path_ok(ctx, m, as_map(tree), route.pips@, route.sink_wire)
        &&& search_found(ctx, m, tree, route.sink_wire, opts, route.pips)
    }
}

/// A set as the map that a wire set is.
pub open spec fn as_map(s: Set<WireId>) -> Map<WireId, ()> {
    Map::new(|w: WireId| s.contains(w), |w: WireId| ())
}

/// The routes lead to the sinks, each from the tree that those before it have grown.
pub open spec fn routes_ok<M: PathCostModel>(
    ctx: Context,
    m: &M,
    start: Set<WireId>,
    sinks: Seq<WireId>,
    opts: AStarOptions,
    routes: Seq<SinkRoute>,
) -> bool {
    &&& routes.len() <= sinks.len()
    &&& forall|k: int|
        0 <= k < routes.len() ==> (#[trigger] routes[k]).sink_wire == sinks[k] && route_ok(
            ctx,
            m,
            tree_at(ctx, start, routes, k),
            opts,
            routes[k],
        )
}

/// A search for the sink from the tree found nothing.
pub open spec fn search_failed<M: PathCostModel>(
    ctx: Context,
    m: &M,
    tree: Set<WireId>,
    sink: WireId,
    opts: AStarOptions,
) -> bool {
    exists|res: AStarResult| #[trigger] result_ok(ctx, m, as_map(tree), sink, opts, res) && res.path is None
}

/// The routes lead to the first sinks, and the search for the next one found nothing.
pub open spec fn stuck_after<M: PathCostModel>(
    ctx: Context,
    m: &M,
    start: Set<WireId>,
    sinks: Seq<WireId>,
    opts: AStarOptions,
    routes: Seq<SinkRoute>,
) -> bool {
    &&& routes_ok(ctx, m, start, sinks, opts, routes)
    &&& routes.len() < sinks.len()
    &&& search_failed(
        ctx,
        m,
        tree_at(ctx, start, routes, routes.len() as int),
        sinks[routes.len() as int],
        opts,
    )
}

/// What planning a net gives: an empty plan for a net without a driver, an error for a driver
/// without a place or a wire, and otherwise the routes to all sinks, or an error that names the net
/// if some search found nothing.
pub open spec fn plan_made<M: PathCostModel>(
    ctx: Context,
    m: &M,
    net: NetId,
    sinks: Seq<WireId>,
    opts: AStarOptions,
    r: Result<RoutePlan, RouterError>,
) -> bool {
    let n = ctx.design.net_of(net);
    let source = ctx.wire_of_pin(n.driver);
    if !n.driver.connected() {
        &&& r is Ok
        &&& r->Ok_0.net == net
        &&& r->Ok_0.source_wire == WireId::nowhere()
        &&& r->Ok_0.sink_routes@.len() == 0
    } else if ctx.design.cell_of(n.driver.cell).bel is None {
        r is Err && r->Err_0 is Generic && r->Err_0->Generic_0@ == unplaced_driver_text(
            ctx.name_text(n.name),
        )
    } else if source is None {
        r is Err && r->Err_0 is Generic && r->Err_0->Generic_0@ == missing_driver_wire_text(
            ctx.name_text(n.name),
        )
    } else {
        match r {
            Ok(plan) => {
                &&& plan.net == net
                &&& plan.source_wire == source->0
                &&& plan.pips_ok(ctx.chipdb)
                &&& plan.sink_routes@.len() == sinks.len()
                &&& routes_ok(ctx, m, start_tree(ctx, net, source->0), sinks, opts, plan.sink_routes@)
            },
            Err(e) => {
                &&& e is NoPath
                &&& e->NoPath_0@ == ctx.name_text(n.name)
                &&& exists|routes: Seq<SinkRoute>| #[trigger]
                    stuck_after(ctx, m, start_tree(ctx, net, source->0), sinks, opts, routes)
            },
        }
    }
}

/// Builds the tree that a net starts from.
fn build_start_tree(ctx: &Context, net: NetId, source: WireId) -> (tree: WireSet)
    requires
        ctx.wf(),
        ctx.design.valid_net(net),
        ctx.chipdb.valid_wire(source),
    ensures
        tree@.dom() == start_tree(*ctx, net, source),
        sources_ok(*ctx, tree@),
{
    let mut tree: WireSet = IdMap::new();
    let _ = tree.insert(source, ());
    let n = ctx.net(net);
    let keys = n.wires.keys();
    assert(ctx.routing_ok(ctx.design.nets@[net.0 as int].wires@));
    for i in 0..keys.len()
        invariant
            ctx.wf(),
            ctx.chipdb.valid_wire(source),
            *n == ctx.design.net_of(net),
            ctx.routing_ok(n.wires@),
            forall|w: WireId| #[trigger] keys@.contains(w) <==> n.wires@.contains_key(w),
            sources_ok(*ctx, tree@),
            forall|w: WireId| #[trigger] tree@.contains_key(w) <==> w == source || keys@.take(
                i as int,
            ).contains(w),
    {
        let w: WireId = keys[i];
        assert(keys@.contains(w));
        let _ = tree.insert(w, ());
        proof {
            lemma_take_more(keys@, i as int);
        }
    }
    proof {
        assert(keys@.take(keys@.len() as int) =~= keys@);
    }
    let ghost base = tree@;
    let value: i32 = source_wire_const_value(ctx, source);
    if value != 0 {
        let same = collect_constant_source_wires(ctx, value);
        for i in 0..same.len()
            invariant
                ctx.wf(),
                forall|i: int| 0 <= i < same@.len() ==> ctx.chipdb.valid_wire(#[trigger] same@[i]),
                sources_ok(*ctx, tree@),
                forall|w: WireId| #[trigger] tree@.contains_key(w) <==> base.contains_key(w) || same@.take(
                    i as int,
                ).contains(w),
        {
            let w: WireId = same[i];
            assert(ctx.chipdb.valid_wire(same@[i as int]));
            let _ = tree.insert(w, ());
            proof {
                lemma_take_more(same@, i as int);
            }
        }
        proof {
            assert(same@.take(same@.len() as int) =~= same@);
            let pred = carries(ctx.chipdb, value);
            let all = ctx.chipdb.all_wires();
            assert forall|w: WireId| #[trigger] same@.contains(w) <==> ctx.chipdb.valid_wire(w)
                && ctx.chipdb.wire(w).const_value == value by {
                ctx.chipdb.lemma_wires_upto(ctx.chipdb.tiles@.len() as int, w);
                broadcast use vstd::seq_lib::group_filter_ensures;

                if same@.contains(w) {
                    all.lemma_filter_contains_rev(pred, w);
                    let i = choose|i: int| 0 <= i < same@.len() && same@[i] == w;
                    assert(pred(all.filter(pred)[i]));
                }
                if ctx.chipdb.valid_wire(w) && ctx.chipdb.wire(w).const_value == value {
                    assert(all.contains(w));
                    let i = choose|i: int| 0 <= i < all.len() && all[i] == w;
                    assert(pred(all[i]));
                    assert(all.filter(pred).contains(all[i]));
                }
            }
        }
    }
    assert(tree@.dom() =~= start_tree(*ctx, net, source));
    tree
}

/// What a longer part of a list holds.
pub proof fn lemma_take_more<T>(s: Seq<T>, i: int)
    requires
        0 <= i < s.len(),
    ensures
        forall|x: T| #[trigger] s.take(i + 1).contains(x) <==> s.take(i).contains(x) || x == s[i],
{
    let part = s.take(i);
    let whole = s.take(i + 1);
    assert(whole[i] == s[i]);
    assert forall|x: T| #[trigger] whole.contains(x) <==> part.contains(x) || x == s[i] by {
        if part.contains(x) {
            let j = choose|j: int| 0 <= j < part.len() && part[j] == x;
            assert(whole[j] == x);
        }
        if whole.contains(x) {
            let j = choose|j: int| 0 <= j < whole.len() && whole[j] == x;
            if j < i {
                assert(part[j] == x);
            }
        }
    }
}

/// Adds the wires that pips drive to a tree.
pub fn grow_tree(ctx: &Context, tree: &mut WireSet, pips: &Vec<PipId>)
    requires
        ctx.wf(),
        sources_ok(*ctx, old(tree)@),
        forall|i: int| 0 <= i < pips@.len() ==> ctx.chipdb.valid_pip(#[trigger] pips@[i]),
    ensures
        final(tree)@.dom() == old(tree)@.dom().union(driven(*ctx, pips@)),
        sources_ok(*ctx, final(tree)@),
{
    for i in 0..pips.len()
        invariant
            ctx.wf(),
            forall|i: int| 0 <= i < pips@.len() ==> ctx.chipdb.valid_pip(#[trigger] pips@[i]),
            sources_ok(*ctx, tree@),
            forall|w: WireId| #[trigger]
                tree@.contains_key(w) <==> old(tree)@.contains_key(w) || exists|j: int|
                    0 <= j < i && ctx.chipdb.dst(#[trigger] pips@[j]) == w,
    {
        let w: WireId = ctx.chipdb.pip_dst_wire(pips[i]);
        let ghost before = tree@;
        let _ = tree.insert(w, ());
        assert forall|x: WireId| #[trigger] tree@.contains_key(x) <==> old(tree)@.contains_key(x) || exists|
            j: int,
        |
            0 <= j < i + 1 && ctx.chipdb.dst(#[trigger] pips@[j]) == x by {
            if before.contains_key(x) && !old(tree)@.contains_key(x) {
                let j = choose|j: int| 0 <= j < i && ctx.chipdb.dst(#[trigger] pips@[j]) == x;
                assert(j < i + 1);
            }
            if x == w {
                assert(ctx.chipdb.dst(pips@[i as int]) == x);
            }
        }
    }
    assert(tree@.dom() =~= old(tree)@.dom().union(driven(*ctx, pips@)));
}

/// Adding a route keeps the routes before it.
proof fn lemma_routes_push<M: PathCostModel>(
    ctx: Context,
    m: &M,
    start: Set<WireId>,
    sinks: Seq<WireId>,
    opts: AStarOptions,
    routes: Seq<SinkRoute>,
    route: SinkRoute,
)
    requires
        routes_ok(ctx, m, start, sinks, opts, routes),
        routes.len() < sinks.len(),
        route.sink_wire == sinks[routes.len() as int],
        route_ok(ctx, m, tree_at(ctx, start, routes, routes.len() as int), opts, route),
    ensures
        routes_ok(ctx, m, start, sinks, opts, routes.push(route)),
        tree_at(ctx, start, routes.push(route), routes.len() as int) == tree_at(
            ctx,
            start,
            routes,
            routes.len() as int,
        ),
{
    let more = routes.push(route);
    assert forall|k: int| 0 <= k <= routes.len() implies #[trigger] tree_at(ctx, start, more, k) == tree_at(
        ctx,
        start,
        routes,
        k,
    ) by {
        lemma_tree_prefix(ctx, start, routes, more, k);
    }
    assert forall|k: int| 0 <= k < more.len() implies (#[trigger] more[k]).sink_wire == sinks[k]
        && route_ok(ctx, m, tree_at(ctx, start, more, k), opts, more[k]) by {
        if k < routes.len() {
            assert(more[k] == routes[k]);
            assert(route_ok(ctx, m, tree_at(ctx, start, routes, k), opts, routes[k]));
        }
    }
}

proof fn lemma_tree_prefix(
    ctx: Context,
    start: Set<WireId>,
    a: Seq<SinkRoute>,
    b: Seq<SinkRoute>,
    k: int,
)
    requires
        0 <= k <= a.len() <= b.len(),
        forall|i: int| 0 <= i < a.len() ==> #[trigger] b[i] == a[i],
    ensures
        tree_at(ctx, start, b, k) == tree_at(ctx, start, a, k),
    decreases k,
{
    if k > 0 {
        lemma_tree_prefix(ctx, start, a, b, k - 1);
        assert(b[k - 1] == a[k - 1]);
    }
}

/// Plans routes to the sinks, one after the other.
#[verifier::rlimit(40)]
#[verifier::spinoff_prover]
pub fn plan_routes<M: PathCostModel>(
    ctx: &Context,
    model: &M,
    net: NetId,
    source: WireId,
    sinks: &Vec<WireId>,
    opts: &AStarOptions,
) -> (r: Result<RoutePlan, RouterError>)
    requires
        ctx.wf(),
        ctx.design.valid_net(net),
        ctx.design.net_of(net).driver.connected(),
        ctx.design.cell_of(ctx.design.net_of(net).driver.cell).bel is Some,
        ctx.wire_of_pin(ctx.design.net_of(net).driver) == Some(source),
        ctx.chipdb.valid_wire(source),
        model.ready(*ctx),
        boxes_ok(ctx.chipdb, model.boxes()),
        forall|i: int| 0 <= i < sinks@.len() ==> ctx.chipdb.valid_wire(#[trigger] sinks@[i]),
    ensures
        plan_made(*ctx, model, net, sinks@, *opts, r),
{
    let ghost start = start_tree(*ctx, net, source);
    let mut tree = build_start_tree(ctx, net, source);
    let mut routes: Vec<SinkRoute> = Vec::new();
    for k in 0..sinks.len()
        invariant
            ctx.wf(),
            ctx.design.valid_net(net),
            ctx.design.net_of(net).driver.connected(),
            ctx.design.cell_of(ctx.design.net_of(net).driver.cell).bel is Some,
            ctx.wire_of_pin(ctx.design.net_of(net).driver) == Some(source),
            model.ready(*ctx),
            boxes_ok(ctx.chipdb, model.boxes()),
            forall|i: int| 0 <= i < sinks@.len() ==> ctx.chipdb.valid_wire(#[trigger] sinks@[i]),
            start == start_tree(*ctx, net, source),
            routes@.len() == k,
            routes_ok(*ctx, model, start, sinks@, *opts, routes@),
            tree@.dom() == tree_at(*ctx, start, routes@, k as int),
            sources_ok(*ctx, tree@),
            forall|i: int, j: int|
                0 <= i < routes@.len() && 0 <= j < routes@[i].pips@.len() ==> ctx.chipdb.valid_pip(
                    #[trigger] routes@[i].pips@[j],
                ),
    {
        let sink: WireId = sinks[k];
        assert(ctx.chipdb.valid_wire(sinks@[k as int]));
        let ghost before = routes@;
        if tree.contains_key(sink) {
            let route = SinkRoute { sink_wire: sink, pips: Vec::new() };
            proof {
                lemma_routes_push(*ctx, model, start, sinks@, *opts, routes@, route);
            }
            routes.push(route);
            proof {
                assert(driven(*ctx, route.pips@) =~= Set::empty());
                assert(routes@[k as int] == route);
                assert(tree@.dom() =~= tree_at(*ctx, start, routes@, k + 1));
            }
        } else {
            assert(tree@ =~= as_map(tree_at(*ctx, start, routes@, k as int)));
            let result = astar_search(ctx, model, &tree, sink, opts);
            let ghost found = result;
            match result.path {
                Some(pips) => {
                    proof {
                        lemma_path_pips(*ctx, model, tree@, pips@, sink);
                    }
                    grow_tree(ctx, &mut tree, &pips);
                    let route = SinkRoute { sink_wire: sink, pips };
                    proof {
                        let here = tree_at(*ctx, start, routes@, k as int);
                        assert(result_ok(*ctx, model, as_map(here), sink, *opts, found));
                        assert(search_found(*ctx, model, here, sink, *opts, route.pips));
                        lemma_routes_push(*ctx, model, start, sinks@, *opts, routes@, route);
                    }
                    routes.push(route);
                    proof {
                        assert(routes@[k as int] == route);
                        assert forall|i: int, j: int|
                            0 <= i < routes@.len() && 0 <= j < routes@[i].pips@.len() implies ctx.chipdb.valid_pip(
                            #[trigger] routes@[i].pips@[j],
                        ) by {
                            if i < k {
                                assert(routes@[i] == before[i]);
                            }
                        }
                    }
                },
                None => {
                    proof {
                        assert(search_failed(
                            *ctx,
                            model,
                            tree_at(*ctx, start, routes@, k as int),
                            sink,
                            *opts,
                        ));
                    }
                    let name = ctx.name_of(ctx.net(net).name);
                    let e = RouterError::NoPath(String::from_str(name));
                    proof {
                        assert(e->NoPath_0@ == ctx.name_text(ctx.design.net_of(net).name));
                        let source_wire = ctx.wire_of_pin(ctx.design.net_of(net).driver)->0;
                        assert(stuck_after(
                            *ctx,
                            model,
                            start_tree(*ctx, net, source_wire),
                            sinks@,
                            *opts,
                            routes@,
                        ));
                    }
                    return Err(e);
                },
            }
        }
    }
    Ok(RoutePlan { net, source_wire: source, sink_routes: routes })
}

/// The sinks of a net, nearest to the source first.
pub open spec fn nearest_first(ctx: Context, source: WireId, sinks: Seq<WireId>, sorted: Seq<WireId>) -> bool {
    exists|keys: Seq<i64>, order: Seq<usize>|
        {
            &&& keys.len() == sinks.len()
            &&& sorted.len() == sinks.len()
            &&& forall|i: int|
                0 <= i < sinks.len() ==> #[trigger] keys[i] == ctx.chipdb.distance(
                    sinks[i].tile as int,
                    source.tile as int,
                )
            &&& #[trigger] orders(keys, 0, sinks.len() as int, order)
            &&& forall|i: int| 0 <= i < sorted.len() ==> #[trigger] sorted[i] == sinks[order[i] as int]
        }
}

/// Puts sinks in order, nearest to the source first; sinks at the same distance keep their order.
pub fn sort_nearest_first(ctx: &Context, source: WireId, sinks: &Vec<WireId>) -> (r: Vec<WireId>)
    requires
        ctx.wf(),
        ctx.chipdb.valid_wire(source),
        forall|i: int| 0 <= i < sinks@.len() ==> ctx.chipdb.valid_wire(#[trigger] sinks@[i]),
    ensures
        nearest_first(*ctx, source, sinks@, r@),
        forall|i: int| 0 <= i < r@.len() ==> ctx.chipdb.valid_wire(#[trigger] r@[i]),
        r@.len() == sinks@.len(),
{
    let mut keys: Vec<i64> = Vec::new();
    for i in 0..sinks.len()
        invariant
            ctx.wf(),
            ctx.chipdb.valid_wire(source),
            forall|i: int| 0 <= i < sinks@.len() ==> ctx.chipdb.valid_wire(#[trigger] sinks@[i]),
            keys@.len() == i,
            forall|j: int|
                0 <= j < i ==> #[trigger] keys@[j] == ctx.chipdb.distance(
                    sinks@[j].tile as int,
                    source.tile as int,
                ),
    {
        assert(ctx.chipdb.valid_wire(sinks@[i as int]));
        keys.push(ctx.chipdb.manhattan(sinks[i].tile, source.tile) as i64);
    }
    let order = stable_order(&keys);
    let mut out: Vec<WireId> = Vec::new();
    for i in 0..order.len()
        invariant
            forall|i: int| 0 <= i < sinks@.len() ==> ctx.chipdb.valid_wire(#[trigger] sinks@[i]),
            orders(keys@, 0, sinks@.len() as int, order@),
            out@.len() == i,
            forall|j: int| 0 <= j < i ==> #[trigger] out@[j] == sinks@[order@[j] as int],
            forall|j: int| 0 <= j < i ==> ctx.chipdb.valid_wire(#[trigger] out@[j]),
    {
        assert(0 <= order@[i as int] < sinks@.len());
        assert(ctx.chipdb.valid_wire(sinks@[order@[i as int] as int]));
        out.push(sinks[order[i]]);
    }
    out
}

} // verus!
