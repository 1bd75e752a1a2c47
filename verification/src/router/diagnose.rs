//! Why a net cannot be routed: what a search finds for each of its sinks on a device where nothing is
//! taken.

use crate::chipdb::WireId;
use crate::context::Context;
use crate::ids::IdMap;
use crate::metrics::BoundingBox;
use crate::netlist::{CellPin, NetId};
use crate::router::astar::{AStarExit, AStarResult};
use crate::router::graph::{Visit, WireSet};
use crate::router::maze::{astar_found, astar_route_with_trace, route_options};
use crate::timing::delay::DelayT;
use vstd::prelude::*;

verus! {

/// What a search that missed its target has seen: the rectangle around it, and the wire that came
/// closest to the target.
#[derive(Clone, Copy, PartialEq, Eq, Debug, Structural)]
pub struct Explored {
    pub bbox: BoundingBox,
    pub closest: WireId,
    pub distance: i32,
}

/// What was found about a sink.
pub enum SinkFinding {
    /// The user's cell has no place.
    Unplaced,
    /// The user's pin has no wire.
    NoPinWire,
    /// The search came to the sink, over so many pips, at this cost, after so many visits of so many.
    Reached(usize, DelayT, usize, usize),
    /// The search missed the sink.
    Missed(SearchEnd),
}

/// How a search that missed its target ended.
pub struct SearchEnd {
    pub exit: AStarExit,
    pub visits: usize,
    pub max_visits: usize,
    pub seen: usize,
    pub explored: Option<Explored>,
}

/// What was found about a user of a net.
pub struct SinkDiagnosis {
    /// The position of the user.
    pub user: usize,
    /// The wire of the user's pin, its distance from the source, and how many pips lead into it.
    pub wire: Option<WireId>,
    pub distance: i32,
    pub ways_in: usize,
    pub finding: SinkFinding,
}

/// What was found about a net.
pub enum Diagnosis {
    NoDriver,
    UnplacedDriver,
    NoDriverWire,
    Sinks(SourceDiagnosis),
}

/// What was found about a net whose driver has a wire.
pub struct SourceDiagnosis {
    pub source: WireId,
    /// How many pips lead away from the source.
    pub ways_out: usize,
    pub sinks: Vec<SinkDiagnosis>,
    /// How many sinks were not reached.
    pub failed: usize,
}

/// The sink was not reached.
pub open spec fn is_failure(d: SinkDiagnosis) -> bool {
    !(d.finding is Reached)
}

/// How many of the first `n` sinks were not reached.
pub open spec fn failures(sinks: Seq<SinkDiagnosis>, n: int) -> nat
    decreases n,
{
    if n <= 0 {
        0
    } else {
        failures(sinks, n - 1) + (if is_failure(sinks[n - 1]) {
            1nat
        } else {
            0nat
        })
    }
}

/// The rectangle is the smallest around the visited wires, and the closest wire is one of those that
/// are nearest to the target, by distance and by estimate.
pub open spec fn shows_visits(ctx: Context, vis: Map<WireId, Visit>, dst: WireId, e: Explored) -> bool {
    let chip = ctx.chipdb;
    &&& vis.contains_key(e.closest)
    &&& e.distance == chip.distance(e.closest.tile as int, dst.tile as int)
    &&& forall|w: WireId| #[trigger]
        vis.contains_key(w) ==> {
            &&& e.bbox.x0 <= chip.x_of(w.tile as int) <= e.bbox.x1
            &&& e.bbox.y0 <= chip.y_of(w.tile as int) <= e.bbox.y1
            &&& e.distance <= chip.distance(w.tile as int, dst.tile as int)
            &&& ctx.estimate(e.closest, dst) <= ctx.estimate(w, dst)
        }
    &&& exists|w: WireId| #[trigger] vis.contains_key(w) && chip.x_of(w.tile as int) == e.bbox.x0
    &&& exists|w: WireId| #[trigger] vis.contains_key(w) && chip.x_of(w.tile as int) == e.bbox.x1
    &&& exists|w: WireId| #[trigger] vis.contains_key(w) && chip.y_of(w.tile as int) == e.bbox.y0
    &&& exists|w: WireId| #[trigger] vis.contains_key(w) && chip.y_of(w.tile as int) == e.bbox.y1
}

/// What a search shows.
pub open spec fn shows_search(ctx: Context, dst: WireId, res: AStarResult, f: SinkFinding) -> bool {
    match res.path {
        Some(pips) => f == SinkFinding::Reached(
            pips@.len() as usize,
            res.trace.best_score,
            res.trace.visit_count,
            res.trace.max_visits,
        ),
        None => {
            &&& f is Missed
            &&& f->Missed_0.exit == res.trace.exit
            &&& f->Missed_0.visits == res.trace.visit_count
            &&& f->Missed_0.max_visits == res.trace.max_visits
            &&& f->Missed_0.seen == res.trace.visited@.dom().len()
            &&& match f->Missed_0.explored {
                Some(e) => shows_visits(ctx, res.trace.visited@, dst, e),
                None => res.trace.visited@.dom() == Set::<WireId>::empty(),
            }
        },
    }
}

/// What is found about a user: a search from the source alone, with no penalties, anywhere on the
/// device.
pub open spec fn user_diagnosed(
    ctx: Context,
    source: WireId,
    p: CellPin,
    budget: Option<usize>,
    d: SinkDiagnosis,
) -> bool {
    if ctx.design.cell_of(p.cell).bel is None {
        d.wire is None && d.finding is Unplaced
    } else if ctx.wire_of_pin(p) is None {
        d.wire is None && d.finding is NoPinWire
    } else {
        let dst = ctx.wire_of_pin(p)->0;
        &&& d.wire == Some(dst)
        &&& d.distance == ctx.chipdb.distance(dst.tile as int, source.tile as int)
        &&& d.ways_in == ctx.chipdb.wire(dst).pips_uphill@.len()
        &&& exists|res: AStarResult|
            {
                &&& #[trigger] astar_found(
                    ctx,
                    Map::<WireId, ()>::empty().insert(source, ()),
                    dst,
                    Map::<WireId, DelayT>::empty(),
                    None,
                    None,
                    route_options(budget, true),
                    res,
                )
                &&& shows_search(ctx, dst, res, d.finding)
            }
    }
}

/// The users of a net that name a cell, among the first `n`, by position.
pub open spec fn named_users(users: Seq<CellPin>, n: int) -> Seq<int>
    decreases n,
{
    if n <= 0 {
        Seq::empty()
    } else if users[n - 1].connected() {
        named_users(users, n - 1).push(n - 1)
    } else {
        named_users(users, n - 1)
    }
}

/// What is found about a net.
pub open spec fn diagnosed(ctx: Context, net: NetId, budget: Option<usize>, d: Diagnosis) -> bool {
    let n = ctx.design.net_of(net);
    if !n.driver.connected() {
        d is NoDriver
    } else if ctx.design.cell_of(n.driver.cell).bel is None {
        d is UnplacedDriver
    } else if ctx.wire_of_pin(n.driver) is None {
        d is NoDriverWire
    } else {
        let source = ctx.wire_of_pin(n.driver)->0;
        let named = named_users(n.users@, n.users@.len() as int);
        &&& d is Sinks
        &&& d->Sinks_0.source == source
        &&& d->Sinks_0.ways_out == ctx.chipdb.wire(source).pips_downhill@.len()
        &&& d->Sinks_0.sinks@.len() == named.len()
        &&& forall|i: int|
            0 <= i < named.len() ==> (#[trigger] d->Sinks_0.sinks@[i]).user == named[i] && user_diagnosed(
                ctx,
                source,
                n.users@[named[i]],
                budget,
                d->Sinks_0.sinks@[i],
            )
        &&& d->Sinks_0.failed == failures(d->Sinks_0.sinks@, named.len() as int)
    }
}

/// A shorter distance has no larger estimate.
proof fn lemma_estimate_grows(ctx: Context, a: WireId, b: WireId, dst: WireId)
    requires
        ctx.chipdb.distance(a.tile as int, dst.tile as int) <= ctx.chipdb.distance(
            b.tile as int,
            dst.tile as int,
        ),
    ensures
        ctx.estimate(a, dst) <= ctx.estimate(b, dst),
{
    let da = ctx.chipdb.distance(a.tile as int, dst.tile as int);
    let db = ctx.chipdb.distance(b.tile as int, dst.tile as int);
    let per = if ctx.delay_per_tile < 0 {
        0
    } else {
        ctx.delay_per_tile as int
    };
    assert(da * per <= db * per) by (nonlinear_arith)
        requires
            da <= db,
            per >= 0,
    ;
}

/// What the visits of a search show.
fn explore_visits(ctx: &Context, visited: &IdMap<WireId, Visit>, dst: WireId) -> (r: Option<Explored>)
    requires
        ctx.wf(),
        ctx.chipdb.valid_wire(dst),
        forall|w: WireId| #[trigger] visited@.contains_key(w) ==> ctx.chipdb.valid_wire(w),
    ensures
        match r {
            Some(e) => shows_visits(*ctx, visited@, dst, e),
            None => visited@.dom() == Set::<WireId>::empty(),
        },
{
    let keys = visited.keys();
    if keys.len() == 0 {
        assert(visited@.dom() =~= keys@.to_set());
        assert(visited@.dom() =~= Set::<WireId>::empty());
        return None;
    }
    let first: WireId = keys[0];
    assert(keys@.contains(first));
    let (x, y) = ctx.chipdb.tile_xy(first.tile);
    let mut e = Explored {
        bbox: BoundingBox { x0: x, y0: y, x1: x, y1: y },
        closest: first,
        distance: ctx.chipdb.manhattan(first.tile, dst.tile),
    };
    let ghost chip = ctx.chipdb;
    let ghost mut wx0 = first;
    let ghost mut wx1 = first;
    let ghost mut wy0 = first;
    let ghost mut wy1 = first;
    for i in 1..keys.len()
        invariant
            ctx.wf(),
            chip == ctx.chipdb,
            ctx.chipdb.valid_wire(dst),
            i >= 1,
            keys@.len() >= 1,
            forall|w: WireId| #[trigger] visited@.contains_key(w) ==> ctx.chipdb.valid_wire(w),
            forall|w: WireId| #[trigger] keys@.contains(w) <==> visited@.contains_key(w),
            visited@.contains_key(e.closest),
            e.distance == chip.distance(e.closest.tile as int, dst.tile as int),
            visited@.contains_key(wx0) && chip.x_of(wx0.tile as int) == e.bbox.x0,
            visited@.contains_key(wx1) && chip.x_of(wx1.tile as int) == e.bbox.x1,
            visited@.contains_key(wy0) && chip.y_of(wy0.tile as int) == e.bbox.y0,
            visited@.contains_key(wy1) && chip.y_of(wy1.tile as int) == e.bbox.y1,
            forall|j: int|
                #![trigger keys@[j]]
                0 <= j < i ==> {
                    &&& e.bbox.x0 <= chip.x_of(keys@[j].tile as int) <= e.bbox.x1
                    &&& e.bbox.y0 <= chip.y_of(keys@[j].tile as int) <= e.bbox.y1
                    &&& e.distance <= chip.distance(keys@[j].tile as int, dst.tile as int)
                },
    {
        let w: WireId = keys[i];
        assert(keys@.contains(w));
        let (x, y) = ctx.chipdb.tile_xy(w.tile);
        let d: i32 = ctx.chipdb.manhattan(w.tile, dst.tile);
        if x < e.bbox.x0 {
            e.bbox.x0 = x;
            proof {
                wx0 = w;
            }
        }
        if x > e.bbox.x1 {
            e.bbox.x1 = x;
            proof {
                wx1 = w;
            }
        }
        if y < e.bbox.y0 {
            e.bbox.y0 = y;
            proof {
                wy0 = w;
            }
        }
        if y > e.bbox.y1 {
            e.bbox.y1 = y;
            proof {
                wy1 = w;
            }
        }
        if d < e.distance {
            e.distance = d;
            e.closest = w;
        }
    }
    proof {
        assert forall|w: WireId| #[trigger] visited@.contains_key(w) implies {
            &&& e.bbox.x0 <= chip.x_of(w.tile as int) <= e.bbox.x1
            &&& e.bbox.y0 <= chip.y_of(w.tile as int) <= e.bbox.y1
            &&& e.distance <= chip.distance(w.tile as int, dst.tile as int)
            &&& ctx.estimate(e.closest, dst) <= ctx.estimate(w, dst)
        } by {
            assert(keys@.contains(w));
            let j = choose|j: int| 0 <= j < keys@.len() && keys@[j] == w;
            assert(e.distance <= chip.distance(keys@[j].tile as int, dst.tile as int));
            lemma_estimate_grows(*ctx, e.closest, w, dst);
        }
    }
    Some(e)
}

/// Finds out about a user.
fn diagnose_user(ctx: &Context, source: WireId, user: usize, p: CellPin, budget: Option<usize>) -> (d:
    SinkDiagnosis)
    requires
        ctx.wf(),
        ctx.chipdb.valid_wire(source),
        ctx.design.valid_cell(p.cell),
    ensures
        d.user == user,
        user_diagnosed(*ctx, source, p, budget, d),
{
    if ctx.cell(p.cell).bel.is_none() {
        return SinkDiagnosis { user, wire: None, distance: 0, ways_in: 0, finding: SinkFinding::Unplaced };
    }
    let dst: WireId = match ctx.pin_wire(p) {
        Some(w) => w,
        None => {
            return SinkDiagnosis {
                user,
                wire: None,
                distance: 0,
                ways_in: 0,
                finding: SinkFinding::NoPinWire,
            };
        },
    };
    let mut src: WireSet = IdMap::new();
    let _ = src.insert(source, ());
    let none: IdMap<WireId, DelayT> = IdMap::new();
    let (path, trace) = astar_route_with_trace(ctx, &src, dst, &none, None, None, budget);
    let ghost res = AStarResult { path, trace };
    let finding: SinkFinding = match path {
        Some(pips) => SinkFinding::Reached(
            pips.len(),
            trace.best_score,
            trace.visit_count,
            trace.max_visits,
        ),
        None => {
            let seen: usize = trace.visited.len();
            let explored = explore_visits(ctx, &trace.visited, dst);
            SinkFinding::Missed(
                SearchEnd {
                    exit: trace.exit,
                    visits: trace.visit_count,
                    max_visits: trace.max_visits,
                    seen,
                    explored,
                },
            )
        },
    };
    proof {
        assert(src@ =~= Map::<WireId, ()>::empty().insert(source, ()));
        assert(none@ =~= Map::<WireId, DelayT>::empty());
        assert(shows_search(*ctx, dst, res, finding));
    }
    SinkDiagnosis {
        user,
        wire: Some(dst),
        distance: ctx.chipdb.manhattan(dst.tile, source.tile),
        ways_in: ctx.chipdb.wire_info(dst).pips_uphill.len(),
        finding,
    }
}

/// Finds out why a net cannot be routed: each sink is searched for from the source alone.
pub fn diagnose_unroutable_net(ctx: &Context, net: NetId, visit_budget: Option<usize>) -> (d: Diagnosis)
    requires
        ctx.wf(),
        ctx.design.valid_net(net),
    ensures
        diagnosed(*ctx, net, visit_budget, d),
{
    let n = ctx.net(net);
    assert(ctx.design.net_ok(ctx.design.nets@[net.0 as int]));
    if !n.driver.is_valid() {
        return Diagnosis::NoDriver;
    }
    if ctx.cell(n.driver.cell).bel.is_none() {
        return Diagnosis::UnplacedDriver;
    }
    let source: WireId = match ctx.pin_wire(n.driver) {
        Some(w) => w,
        None => {
            return Diagnosis::NoDriverWire;
        },
    };
    let mut sinks: Vec<SinkDiagnosis> = Vec::new();
    let mut failed: usize = 0;
    for i in 0..n.users.len()
        invariant
            ctx.wf(),
            ctx.design.valid_net(net),
            *n == ctx.design.net_of(net),
            ctx.chipdb.valid_wire(source),
            sinks@.len() == named_users(n.users@, i as int).len(),
            sinks@.len() <= i,
            forall|j: int|
                0 <= j < sinks@.len() ==> (#[trigger] sinks@[j]).user == named_users(n.users@, i as int)[j]
                    && user_diagnosed(
                    *ctx,
                    source,
                    n.users@[named_users(n.users@, i as int)[j]],
                    visit_budget,
                    sinks@[j],
                ),
            failed == failures(sinks@, sinks@.len() as int),
            failed <= i,
    {
        let p: CellPin = n.users[i];
        assert(ctx.design.net_ok(ctx.design.nets@[net.0 as int]));
        assert(ctx.design.pin_ok(n.users@[i as int]));
        if p.is_valid() {
            let d = diagnose_user(ctx, source, i, p, visit_budget);
            let reached: bool = match &d.finding {
                SinkFinding::Reached(_, _, _, _) => true,
                _ => false,
            };
            let ghost before = sinks@;
            sinks.push(d);
            proof {
                lemma_failures_prefix(before, sinks@, before.len() as int);
                assert forall|j: int| 0 <= j < before.len() implies sinks@[j] == before[j] by {
                }
            }
            if !reached {
                failed = failed + 1;
            }
        }
    }
    Diagnosis::Sinks(
        SourceDiagnosis {
            source,
            ways_out: ctx.chipdb.wire_info(source).pips_downhill.len(),
            sinks,
            failed,
        },
    )
}

proof fn lemma_failures_prefix(a: Seq<SinkDiagnosis>, b: Seq<SinkDiagnosis>, k: int)
    requires
        0 <= k <= a.len() <= b.len(),
        forall|i: int| 0 <= i < a.len() ==> #[trigger] b[i] == a[i],
    ensures
        failures(b, k) == failures(a, k),
    decreases k,
{
    if k > 0 {
        lemma_failures_prefix(a, b, k - 1);
        assert(b[k - 1] == a[k - 1]);
    }
}

} // verus!
