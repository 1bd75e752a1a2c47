//! Routing along a line of tiles, run by run: each run in one direction is searched in rectangles
//! around its tiles.

use crate::chipdb::{ChipDb, PipId, WireId};
use crate::context::Context;
use crate::ids::IdMap;
use crate::metrics::BoundingBox;
use crate::router::astar::{
    astar_search, default_pip_cost, reconstruct_path_to, result_ok, sources_ok, AStarOptions, AStarResult,
};
use crate::router::attempt::{add_conducted, add_conductor, conducted};
use crate::router::corridor::{on_grid, TileXy};
use crate::router::graph::{
    lemma_path_pips, path_ok, settles, trace_back, PathCostModel, Visit, WireSet,
};
use crate::router::maze::route_options;
use crate::router::plan::as_map;
use crate::router::region::{boxes_ok, in_grid, measurable};
use crate::timing::delay::DelayT;
use vstd::prelude::*;

verus! {

/// The direction of a difference.
pub open spec fn sign(a: int) -> int {
    if a > 0 {
        1
    } else if a < 0 {
        -1
    } else {
        0
    }
}

/// The direction of the step to a tile of a path.
pub open spec fn heading(path: Seq<TileXy>, i: int) -> (int, int) {
    (sign(path[i].x - path[i - 1].x), sign(path[i].y - path[i - 1].y))
}

/// A run of a path, by its first and last tile.
#[derive(Clone, Copy, PartialEq, Eq, Debug, Structural)]
pub struct Run {
    pub start: usize,
    pub end: usize,
}

/// All steps of the run have one direction.
pub open spec fn straight(path: Seq<TileXy>, run: Run) -> bool {
    forall|i: int| run.start < i <= run.end ==> #[trigger] heading(path, i) == heading(path, run.start + 1)
}

/// The runs make up the path: each starts where the one before ends, goes in one direction, and turns
/// there.
pub open spec fn runs_of(path: Seq<TileXy>, runs: Seq<Run>, upto: int) -> bool {
    &&& forall|k: int|
        0 <= k < runs.len() ==> (#[trigger] runs[k]).start < runs[k].end <= upto && straight(path, runs[k])
    &&& runs.len() > 0 ==> runs[0].start == 0
    &&& forall|k: int|
        1 <= k < runs.len() ==> (#[trigger] runs[k]).start == runs[k - 1].end && heading(
            path,
            runs[k].start + 1,
        ) != heading(path, runs[k - 1].start + 1)
}

fn sign_of(a: i32, b: i32) -> (r: i8)
    ensures
        r == sign(a - b),
{
    if a > b {
        1
    } else if a < b {
        -1
    } else {
        0
    }
}

/// Parts a path where it turns. A path of fewer than two tiles has one run of no steps.
pub fn decompose_segments(path: &Vec<TileXy>) -> (r: Vec<Run>)
    ensures
        path@.len() < 2 ==> r@ == seq![Run { start: 0, end: 0 }],
        path@.len() >= 2 ==> {
            &&& r@.len() > 0
            &&& runs_of(path@, r@, path@.len() - 1)
            &&& r@.last().end == path@.len() - 1
        },
{
    let mut runs: Vec<Run> = Vec::new();
    if path.len() < 2 {
        runs.push(Run { start: 0, end: 0 });
        assert(runs@ =~= seq![Run { start: 0, end: 0 }]);
        return runs;
    }
    let mut start: usize = 0;
    let mut hx: i8 = sign_of(path[1].x, path[0].x);
    let mut hy: i8 = sign_of(path[1].y, path[0].y);
    for i in 2..path.len()
        invariant
            path@.len() >= 2,
            i >= 2,
            start < i - 1 || (start == 0 && i == 2),
            start < i,
            (hx as int, hy as int) == heading(path@, start + 1),
            forall|j: int| start < j < i ==> #[trigger] heading(path@, j) == heading(path@, start + 1),
            runs_of(path@, runs@, start as int),
            runs@.len() == 0 ==> start == 0,
            runs@.len() > 0 ==> runs@.last().end == start && heading(path@, start + 1) != heading(
                path@,
                runs@.last().start + 1,
            ),
    {
        let dx: i8 = sign_of(path[i].x, path[i - 1].x);
        let dy: i8 = sign_of(path[i].y, path[i - 1].y);
        assert((dx as int, dy as int) == heading(path@, i as int));
        if dx != hx || dy != hy {
            let ghost before = runs@;
            runs.push(Run { start, end: i - 1 });
            proof {
                let run = runs@.last();
                assert(heading(path@, i as int) != heading(path@, start + 1));
                assert(straight(path@, run));
                assert forall|k: int| 0 <= k < runs@.len() implies (#[trigger] runs@[k]).start < runs@[k].end
                    <= i - 1 && straight(path@, runs@[k]) by {
                    if k < before.len() {
                        assert(runs@[k] == before[k]);
                    }
                }
                assert forall|k: int| 1 <= k < runs@.len() implies (#[trigger] runs@[k]).start == runs@[k
                    - 1].end && heading(path@, runs@[k].start + 1) != heading(
                    path@,
                    runs@[k - 1].start + 1,
                ) by {
                    assert(runs@[k - 1] == before[k - 1]);
                    if k < before.len() {
                        assert(runs@[k] == before[k]);
                    }
                }
            }
            start = i - 1;
            hx = dx;
            hy = dy;
        }
    }
    let ghost before = runs@;
    let end: usize = path.len() - 1;
    runs.push(Run { start, end });
    proof {
        assert(straight(path@, runs@.last()));
        assert forall|k: int| 0 <= k < runs@.len() implies (#[trigger] runs@[k]).start < runs@[k].end <= end
            && straight(path@, runs@[k]) by {
            if k < before.len() {
                assert(runs@[k] == before[k]);
            }
        }
        assert forall|k: int| 1 <= k < runs@.len() implies (#[trigger] runs@[k]).start == runs@[k - 1].end
            && heading(path@, runs@[k].start + 1) != heading(path@, runs@[k - 1].start + 1) by {
            assert(runs@[k - 1] == before[k - 1]);
            if k < before.len() {
                assert(runs@[k] == before[k]);
            }
        }
    }
    runs
}

/// The rectangle around a tile, cut at the edges of the grid.
pub open spec fn around(chip: ChipDb, t: TileXy, margin: i32) -> BoundingBox {
    BoundingBox {
        x0: if t.x - margin < 0 { 0 } else { (t.x - margin) as i32 },
        y0: if t.y - margin < 0 { 0 } else { (t.y - margin) as i32 },
        x1: if t.x + margin > chip.width - 1 { (chip.width - 1) as i32 } else { (t.x + margin) as i32 },
        y1: if t.y + margin > chip.height - 1 { (chip.height - 1) as i32 } else { (t.y + margin) as i32 },
    }
}

/// A rectangle around each tile of a run.
pub fn corridor_bboxes(chipdb: &ChipDb, path: &Vec<TileXy>, run: Run, margin: i32) -> (r: Vec<BoundingBox>)
    requires
        chipdb.wf(),
        margin >= 0,
        run.start <= run.end < path@.len(),
        forall|i: int| 0 <= i < path@.len() ==> on_grid(chipdb.width, chipdb.height, #[trigger] path@[i]),
    ensures
        r@.len() == run.end - run.start + 1,
        forall|i: int| 0 <= i < r@.len() ==> #[trigger] r@[i] == around(*chipdb, path@[run.start + i], margin),
        boxes_ok(*chipdb, r@),
{
    let mut out: Vec<BoundingBox> = Vec::new();
    assert(run.end < path.len());
    let stop: usize = run.end + 1;
    for i in run.start..stop
        invariant
            stop == run.end + 1,
            chipdb.wf(),
            margin >= 0,
            run.start <= run.end < path@.len(),
            forall|i: int| 0 <= i < path@.len() ==> on_grid(chipdb.width, chipdb.height, #[trigger] path@[i]),
            out@.len() == i - run.start,
            forall|j: int|
                0 <= j < out@.len() ==> #[trigger] out@[j] == around(*chipdb, path@[run.start + j], margin),
            forall|j: int|
                0 <= j < out@.len() ==> in_grid(*chipdb, #[trigger] out@[j]) && measurable(out@[j]),
    {
        let t: TileXy = path[i];
        assert(on_grid(chipdb.width, chipdb.height, path@[i as int]));
        let x0: i64 = t.x as i64 - margin as i64;
        let y0: i64 = t.y as i64 - margin as i64;
        let x1: i64 = t.x as i64 + margin as i64;
        let y1: i64 = t.y as i64 + margin as i64;
        let w1: i32 = chipdb.width - 1;
        let h1: i32 = chipdb.height - 1;
        out.push(
            BoundingBox {
                x0: if x0 < 0 { 0 } else { x0 as i32 },
                y0: if y0 < 0 { 0 } else { y0 as i32 },
                x1: if x1 > w1 as i64 { w1 } else { x1 as i32 },
                y1: if y1 > h1 as i64 { h1 } else { y1 as i32 },
            },
        );
    }
    out
}

/// How many pips lead into a wire of a tile.
pub open spec fn ways_in(chip: ChipDb, tile: i32, i: int) -> nat {
    chip.type_of(tile as int).wires@[i].pips_uphill@.len()
}

/// The wire of a tile that most pips lead into, the first of them; none for a tile without wires.
pub fn representative_wire_in_tile(chipdb: &ChipDb, tile: i32) -> (r: Option<WireId>)
    requires
        chipdb.wf(),
        chipdb.valid_tile(tile as int),
    ensures
        r is None <==> chipdb.type_of(tile as int).wires@.len() == 0,
        r is Some ==> {
            let w = r->0;
            &&& w.tile == tile
            &&& chipdb.valid_wire(w)
            &&& forall|i: int|
                0 <= i < chipdb.type_of(tile as int).wires@.len() ==> #[trigger] ways_in(*chipdb, tile, i)
                    <= ways_in(*chipdb, tile, w.index as int)
            &&& forall|i: int|
                0 <= i < w.index ==> #[trigger] ways_in(*chipdb, tile, i) < ways_in(
                    *chipdb,
                    tile,
                    w.index as int,
                )
        },
{
    let tt = chipdb.tile_type(tile);
    let n: usize = tt.wires.len();
    let mut best: Option<i32> = None;
    let mut most: usize = 0;
    proof {
        assert(chipdb.tile_types@[chipdb.tiles@[tile as int] as int].wf());
    }
    for i in 0..n
        invariant
            *tt == chipdb.type_of(tile as int),
            tt.wf(),
            n == tt.wires@.len(),
            best is None <==> i == 0,
            best is Some ==> {
                let b = best->0;
                &&& 0 <= b < i
                &&& most == ways_in(*chipdb, tile, b as int)
                &&& forall|j: int| 0 <= j < i ==> #[trigger] ways_in(*chipdb, tile, j) <= most
                &&& forall|j: int| 0 <= j < b ==> #[trigger] ways_in(*chipdb, tile, j) < most
            },
    {
        let up: usize = tt.wires[i].pips_uphill.len();
        assert(up == ways_in(*chipdb, tile, i as int));
        let better: bool = match best {
            Some(_) => up > most,
            None => true,
        };
        if better {
            best = Some(i as i32);
            most = up;
        }
    }
    match best {
        Some(b) => Some(WireId { tile, index: b }),
        None => None,
    }
}

/// What wires cost for the tile that they are in, tile by tile.
pub struct TileCosts {
    pub penalty: Vec<DelayT>,
}

impl TileCosts {
    /// Every tile has a cost, and none is negative.
    pub open spec fn wf(self, chip: ChipDb) -> bool {
        &&& self.penalty@.len() == chip.tiles@.len()
        &&& forall|t: int| 0 <= t < self.penalty@.len() ==> #[trigger] self.penalty@[t] >= 0
    }

    /// The cost of a tile.
    pub fn at(&self, chipdb: &ChipDb, tile: i32) -> (r: DelayT)
        requires
            self.wf(*chipdb),
            chipdb.valid_tile(tile as int),
        ensures
            r == self.penalty@[tile as int],
            r >= 0,
    {
        self.penalty[tile as usize]
    }
}

/// The costs of a search along a run: the delay of pips, the cost of tiles, and the distance to the
/// target tile as the estimate.
pub struct SegmentCostModel<'a> {
    pub boxes: Vec<BoundingBox>,
    pub costs: &'a TileCosts,
    pub target: i32,
}

impl<'a> PathCostModel for SegmentCostModel<'a> {
    open spec fn ready(&self, ctx: Context) -> bool {
        self.costs.wf(ctx.chipdb) && ctx.chipdb.valid_tile(self.target as int)
    }

    open spec fn pip_cost_of(&self, ctx: Context, pip: PipId) -> int {
        ctx.chipdb.pip(pip).delay.greatest() + 1
    }

    open spec fn penalty_of(&self, ctx: Context, wire: WireId) -> int {
        self.costs.penalty@[wire.tile as int] as int
    }

    open spec fn heuristic_of(&self, ctx: Context, wire: WireId, dst: WireId) -> int {
        ctx.chipdb.distance(wire.tile as int, self.target as int)
    }

    open spec fn blocks(&self, ctx: Context, wire: WireId) -> bool {
        false
    }

    open spec fn boxes(&self) -> Seq<BoundingBox> {
        self.boxes@
    }

    fn pip_cost(&self, ctx: &Context, pip: PipId) -> (r: DelayT) {
        default_pip_cost(ctx, pip)
    }

    fn wire_penalty(&self, ctx: &Context, wire: WireId) -> (r: DelayT) {
        self.costs.at(&ctx.chipdb, wire.tile)
    }

    fn heuristic(&self, ctx: &Context, wire: WireId, dst: WireId) -> (r: DelayT) {
        ctx.chipdb.manhattan(wire.tile, self.target)
    }

    fn is_blocked(&self, ctx: &Context, wire: WireId) -> (r: bool) {
        false
    }

    fn bboxes(&self) -> (r: &Vec<BoundingBox>) {
        &self.boxes
    }
}

/// The costs of a search close by: the delay of pips, and the distance as the estimate.
pub struct LocalModel {
    pub boxes: Vec<BoundingBox>,
}

impl PathCostModel for LocalModel {
    open spec fn ready(&self, ctx: Context) -> bool {
        true
    }

    open spec fn pip_cost_of(&self, ctx: Context, pip: PipId) -> int {
        ctx.chipdb.pip(pip).delay.greatest() + 1
    }

    open spec fn penalty_of(&self, ctx: Context, wire: WireId) -> int {
        0
    }

    open spec fn heuristic_of(&self, ctx: Context, wire: WireId, dst: WireId) -> int {
        ctx.chipdb.distance(wire.tile as int, dst.tile as int)
    }

    open spec fn blocks(&self, ctx: Context, wire: WireId) -> bool {
        false
    }

    open spec fn boxes(&self) -> Seq<BoundingBox> {
        self.boxes@
    }

    fn pip_cost(&self, ctx: &Context, pip: PipId) -> (r: DelayT) {
        default_pip_cost(ctx, pip)
    }

    fn wire_penalty(&self, ctx: &Context, wire: WireId) -> (r: DelayT) {
        0
    }

    fn heuristic(&self, ctx: &Context, wire: WireId, dst: WireId) -> (r: DelayT) {
        ctx.chipdb.manhattan(wire.tile, dst.tile)
    }

    fn is_blocked(&self, ctx: &Context, wire: WireId) -> (r: bool) {
        false
    }

    fn bboxes(&self) -> (r: &Vec<BoundingBox>) {
        &self.boxes
    }
}

/// The visits of a search close by.
pub const LOCAL_VISIT_LIMIT: usize = 20_000;

/// What a search close by gives.
pub open spec fn local_found(
    ctx: Context,
    src_wires: Set<WireId>,
    dst: WireId,
    path: Option<Vec<PipId>>,
) -> bool {
    exists|m: LocalModel, res: AStarResult|
        m.boxes@.len() == 0 && res.path == path && #[trigger] result_ok(
            ctx,
            &m,
            as_map(src_wires),
            dst,
            route_options(Some(LOCAL_VISIT_LIMIT), false),
            res,
        )
}

/// Searches a route close by, anywhere on the grid but with few visits.
pub fn local_route(ctx: &Context, src_wires: &WireSet, dst: WireId) -> (r: Option<Vec<PipId>>)
    requires
        ctx.wf(),
        sources_ok(*ctx, src_wires@),
        ctx.chipdb.valid_wire(dst),
    ensures
        local_found(*ctx, src_wires@.dom(), dst, r),
        r is Some ==> forall|i: int| 0 <= i < r->0@.len() ==> ctx.chipdb.valid_pip(#[trigger] r->0@[i]),
{
    let model = LocalModel { boxes: Vec::new() };
    let opts = AStarOptions {
        visit_limit: Some(LOCAL_VISIT_LIMIT),
        exhaustive: false,
        retain_trace: false,
        stop_on_first_touch: false,
    };
    assert(src_wires@ =~= as_map(src_wires@.dom()));
    let result = astar_search(ctx, &model, src_wires, dst, &opts);
    let ghost res = result;
    proof {
        assert(result_ok(*ctx, &model, as_map(src_wires@.dom()), dst, opts, res));
        if res.path is Some {
            lemma_path_pips(*ctx, &model, src_wires@, res.path->0@, dst);
        }
    }
    result.path
}

/// The pips along a run, and the wire that they lead to.
pub struct SegmentRoute {
    pub pips: Vec<PipId>,
    pub end: WireId,
}

/// A visited wire of a tile with the smallest score of that tile.
pub open spec fn best_in_tile(vis: Map<WireId, Visit>, tile: i32, w: WireId) -> bool {
    &&& vis.contains_key(w)
    &&& w.tile == tile
    &&& forall|x: WireId| #[trigger] vis.contains_key(x) && x.tile == tile ==> vis[w].score() <= vis[x].score()
}

/// The search for a run that has the sink at its end: a path to the sink.
pub open spec fn last_run_found<'a>(
    ctx: Context,
    src_wires: Set<WireId>,
    target: i32,
    dst: WireId,
    boxes: Seq<BoundingBox>,
    costs: TileCosts,
    limit: usize,
    r: Option<SegmentRoute>,
) -> bool {
    if src_wires.contains(dst) {
        r is Some && r->0.pips@.len() == 0 && r->0.end == dst
    } else {
        exists|m: SegmentCostModel<'a>, res: AStarResult|
            {
                &&& m.boxes@ == boxes && *m.costs == costs && m.target == target
                &&& #[trigger] result_ok(
                    ctx,
                    &m,
                    as_map(src_wires),
                    dst,
                    route_options(Some(limit), false),
                    res,
                )
                &&& match r {
                    Some(route) => res.path == Some(route.pips) && route.end == dst,
                    None => res.path is None,
                }
            }
    }
}

/// The options of a search that is to come to any wire of a tile.
pub open spec fn sweep_options(limit: usize) -> AStarOptions {
    AStarOptions {
        visit_limit: Some(limit),
        exhaustive: true,
        retain_trace: true,
        stop_on_first_touch: false,
    }
}

/// The wire of a tile that a search for the tile aims at: the first of those with the most ways in.
pub open spec fn anchor_of(chip: ChipDb, tile: i32, w: WireId) -> bool {
    &&& w.tile == tile
    &&& chip.valid_wire(w)
    &&& forall|i: int|
        0 <= i < chip.type_of(tile as int).wires@.len() ==> #[trigger] ways_in(chip, tile, i) <= ways_in(
            chip,
            tile,
            w.index as int,
        )
    &&& forall|i: int|
        0 <= i < w.index ==> #[trigger] ways_in(chip, tile, i) < ways_in(chip, tile, w.index as int)
}

/// The search for a run on the way: a path to a wire of the target tile.
pub open spec fn run_found<'a>(
    ctx: Context,
    src_wires: Set<WireId>,
    target: i32,
    anchor: WireId,
    boxes: Seq<BoundingBox>,
    costs: TileCosts,
    limit: usize,
    r: Option<SegmentRoute>,
) -> bool {
    if src_wires.contains(anchor) {
        r is Some && r->0.pips@.len() == 0 && r->0.end == anchor
    } else {
        exists|m: SegmentCostModel<'a>, res: AStarResult|
            {
                let vis = res.trace.visited@;
                &&& m.boxes@ == boxes && *m.costs == costs && m.target == target
                &&& #[trigger] result_ok(
                    ctx,
                    &m,
                    as_map(src_wires),
                    anchor,
                    sweep_options(limit),
                    res,
                )
                &&& match r {
                    Some(route) => {
                        &&& best_in_tile(vis, target, route.end)
                        &&& forall|n: nat| #[trigger]
                            settles(ctx.chipdb, vis, route.end, n) ==> route.pips@ == trace_back(
                                ctx.chipdb,
                                vis,
                                route.end,
                                n,
                            )
                    },
                    None => forall|x: WireId| #[trigger] vis.contains_key(x) ==> x.tile != target,
                }
            }
    }
}

/// What the search for a run gives.
pub open spec fn segment_found(
    ctx: Context,
    src_wires: Set<WireId>,
    target: i32,
    final_dst: Option<WireId>,
    boxes: Seq<BoundingBox>,
    costs: TileCosts,
    limit: usize,
    r: Option<SegmentRoute>,
) -> bool {
    match final_dst {
        Some(dst) => last_run_found(ctx, src_wires, target, dst, boxes, costs, limit, r),
        None => if ctx.chipdb.type_of(target as int).wires@.len() == 0 {
            r is None
        } else {
            exists|anchor: WireId| #[trigger]
                anchor_of(ctx.chipdb, target, anchor) && run_found(
                    ctx,
                    src_wires,
                    target,
                    anchor,
                    boxes,
                    costs,
                    limit,
                    r,
                )
        },
    }
}

/// The visited wire of a tile with the smallest score.
fn cheapest_in_tile(visited: &IdMap<WireId, Visit>, tile: i32) -> (r: Option<WireId>)
    ensures
        match r {
            Some(w) => best_in_tile(visited@, tile, w),
            None => forall|x: WireId| #[trigger] visited@.contains_key(x) ==> x.tile != tile,
        },
{
    let keys = visited.keys();
    let mut best: Option<WireId> = None;
    let mut least: i64 = 0;
    for i in 0..keys.len()
        invariant
            forall|w: WireId| #[trigger] keys@.contains(w) <==> visited@.contains_key(w),
            match best {
                Some(b) => {
                    &&& visited@.contains_key(b)
                    &&& b.tile == tile
                    &&& least == visited@[b].score()
                    &&& forall|j: int|
                        0 <= j < i && (#[trigger] keys@[j]).tile == tile ==> least <= visited@[keys@[j]].score()
                },
                None => forall|j: int| 0 <= j < i ==> (#[trigger] keys@[j]).tile != tile,
            },
    {
        let w: WireId = keys[i];
        assert(keys@.contains(w));
        if w.tile == tile {
            if let Some(v) = visited.get(w) {
                let sum: i64 = v.cost as i64 + v.penalty as i64;
                let score: i64 = if sum <= i32::MAX as i64 {
                    sum
                } else {
                    i32::MAX as i64
                };
                let better: bool = match best {
                    Some(_) => score < least,
                    None => true,
                };
                if better {
                    best = Some(w);
                    least = score;
                }
            }
        }
    }
    proof {
        assert forall|x: WireId| #[trigger] visited@.contains_key(x) && x.tile == tile implies best is Some
            && least <= visited@[x].score() by {
            assert(keys@.contains(x));
            let j = choose|j: int| 0 <= j < keys@.len() && keys@[j] == x;
            assert(keys@[j].tile == tile);
        }
    }
    best
}

/// Searches a route along a run: to the sink if the run is the last one, else to any wire of the
/// target tile.
#[verifier::rlimit(40)]
pub fn segment_astar(
    ctx: &Context,
    src_wires: &WireSet,
    target: i32,
    final_dst: Option<WireId>,
    boxes: Vec<BoundingBox>,
    costs: &TileCosts,
    max_expansions: usize,
) -> (r: Option<SegmentRoute>)
    requires
        ctx.wf(),
        sources_ok(*ctx, src_wires@),
        ctx.chipdb.valid_tile(target as int),
        final_dst is Some ==> ctx.chipdb.valid_wire(final_dst->0),
        boxes_ok(ctx.chipdb, boxes@),
        costs.wf(ctx.chipdb),
    ensures
        segment_found(
            *ctx,
            src_wires@.dom(),
            target,
            final_dst,
            boxes@,
            *costs,
            max_expansions,
            r,
        ),
        r is Some ==> ctx.chipdb.valid_wire(r->0.end),
        r is Some ==> forall|i: int|
            0 <= i < r->0.pips@.len() ==> ctx.chipdb.valid_pip(#[trigger] r->0.pips@[i]),
{
    let ghost shown = boxes@;
    let anchor: WireId = match final_dst {
        Some(w) => w,
        None => match representative_wire_in_tile(&ctx.chipdb, target) {
            Some(w) => w,
            None => {
                return None;
            },
        },
    };
    if src_wires.contains_key(anchor) {
        let route = SegmentRoute { pips: Vec::new(), end: anchor };
        proof {
            if final_dst is None {
                assert(anchor_of(ctx.chipdb, target, anchor));
            }
        }
        return Some(route);
    }
    let model = SegmentCostModel { boxes, costs, target };
    let sweep: bool = final_dst.is_none();
    let opts = AStarOptions {
        visit_limit: Some(max_expansions),
        exhaustive: sweep,
        retain_trace: sweep,
        stop_on_first_touch: false,
    };
    assert(src_wires@ =~= as_map(src_wires@.dom()));
    let result = astar_search(ctx, &model, src_wires, anchor, &opts);
    let ghost res = result;
    assert(result_ok(*ctx, &model, as_map(src_wires@.dom()), anchor, opts, res));
    if !sweep {
        return match result.path {
            Some(pips) => {
                proof {
                    lemma_path_pips(*ctx, &model, src_wires@, pips@, anchor);
                }
                Some(SegmentRoute { pips, end: anchor })
            },
            None => None,
        };
    }
    let visited = &result.trace.visited;
    let end: WireId = match cheapest_in_tile(visited, target) {
        Some(w) => w,
        None => {
            proof {
                assert(anchor_of(ctx.chipdb, target, anchor));
                assert(run_found(
                    *ctx,
                    src_wires@.dom(),
                    target,
                    anchor,
                    shown,
                    *costs,
                    max_expansions,
                    None,
                ));
            }
            return None;
        },
    };
    let ghost n = choose|n: nat| #[trigger]
        settles(ctx.chipdb, visited@, end, n) && path_ok(
            *ctx,
            &model,
            src_wires@,
            trace_back(ctx.chipdb, visited@, end, n),
            end,
        );
    proof {
        assert(visited@.contains_key(end));
        assert(settles(ctx.chipdb, visited@, end, n));
    }
    match reconstruct_path_to(&ctx.chipdb, visited, end) {
        Some(pips) => {
            proof {
                lemma_path_pips(*ctx, &model, src_wires@, pips@, end);
                assert(anchor_of(ctx.chipdb, target, anchor));
                assert(run_found(
                    *ctx,
                    src_wires@.dom(),
                    target,
                    anchor,
                    shown,
                    *costs,
                    max_expansions,
                    Some(SegmentRoute { pips, end }),
                ));
            }
            Some(SegmentRoute { pips, end })
        },
        None => None,
    }
}

/// The wires that the leg after the first `k` starts from.
pub open spec fn leg_wires(
    ctx: Context,
    start: Set<WireId>,
    legs: Seq<SegmentRoute>,
    k: int,
) -> Set<WireId> {
    if k <= 0 {
        start
    } else {
        ctx.conductor_of(legs[k - 1].end).to_set().union(conducted(ctx, legs[k - 1].pips@))
    }
}

/// The visits for a run of so many tiles.
pub open spec fn visits_for(run: Run) -> int {
    let n = (run.end - run.start + 1) * 3000;
    if n < 5000 {
        5000
    } else if n > usize::MAX {
        usize::MAX as int
    } else {
        n
    }
}

/// The rectangles of a run.
pub open spec fn boxes_for(chip: ChipDb, path: Seq<TileXy>, run: Run) -> Seq<BoundingBox> {
    Seq::new(
        (run.end - run.start + 1) as nat,
        |i: int| around(chip, path[run.start + i], 1),
    )
}

/// What the search for the run at a position gives.
pub open spec fn leg_found(
    ctx: Context,
    start: Set<WireId>,
    dst: WireId,
    path: Seq<TileXy>,
    runs: Seq<Run>,
    costs: TileCosts,
    legs: Seq<SegmentRoute>,
    k: int,
    r: Option<SegmentRoute>,
) -> bool {
    let run = runs[k];
    let t = path[run.end as int];
    segment_found(
        ctx,
        leg_wires(ctx, start, legs, k),
        (t.y * ctx.chipdb.width + t.x) as i32,
        if k == runs.len() - 1 {
            Some(dst)
        } else {
            None
        },
        boxes_for(ctx.chipdb, path, run),
        costs,
        visits_for(run) as usize,
        r,
    )
}

/// The legs were found one after the other.
pub open spec fn legs_found(
    ctx: Context,
    start: Set<WireId>,
    dst: WireId,
    path: Seq<TileXy>,
    runs: Seq<Run>,
    costs: TileCosts,
    legs: Seq<SegmentRoute>,
) -> bool {
    &&& legs.len() <= runs.len()
    &&& forall|k: int|
        0 <= k < legs.len() ==> leg_found(
            ctx,
            start,
            dst,
            path,
            runs,
            costs,
            legs,
            k,
            Some(#[trigger] legs[k]),
        )
}

/// The pips of the first `k` legs.
pub open spec fn leg_pips(legs: Seq<SegmentRoute>, k: int) -> Seq<PipId>
    decreases k,
{
    if k <= 0 {
        Seq::empty()
    } else {
        leg_pips(legs, k - 1) + legs[k - 1].pips@
    }
}

/// What routing along the runs of a path gives: the pips of all legs, or nothing if one was not found.
pub open spec fn along_runs(
    ctx: Context,
    start: Set<WireId>,
    dst: WireId,
    path: Seq<TileXy>,
    runs: Seq<Run>,
    costs: TileCosts,
    legs: Seq<SegmentRoute>,
    r: Option<Vec<PipId>>,
) -> bool {
    &&& runs.len() > 0
    &&& runs_of(path, runs, path.len() - 1)
    &&& runs.last().end == path.len() - 1
    &&& legs_found(ctx, start, dst, path, runs, costs, legs)
    &&& match r {
        Some(pips) => legs.len() == runs.len() && pips@ == leg_pips(legs, legs.len() as int),
        None => legs.len() < runs.len() && leg_found(
            ctx,
            start,
            dst,
            path,
            runs,
            costs,
            legs,
            legs.len() as int,
            None,
        ),
    }
}

/// What routing along a path gives.
pub open spec fn segments_routed(
    ctx: Context,
    start: Set<WireId>,
    dst: WireId,
    path: Seq<TileXy>,
    costs: TileCosts,
    r: Option<Vec<PipId>>,
) -> bool {
    if !start.disjoint(ctx.conductor_of(dst).to_set()) {
        r is Some && r->0@.len() == 0
    } else if path.len() < 2 {
        local_found(ctx, start, dst, r)
    } else {
        exists|runs: Seq<Run>, legs: Seq<SegmentRoute>| #[trigger]
            along_runs(ctx, start, dst, path, runs, costs, legs, r)
    }
}

proof fn lemma_legs_push(
    ctx: Context,
    start: Set<WireId>,
    dst: WireId,
    path: Seq<TileXy>,
    runs: Seq<Run>,
    costs: TileCosts,
    legs: Seq<SegmentRoute>,
    leg: SegmentRoute,
)
    requires
        legs_found(ctx, start, dst, path, runs, costs, legs),
        legs.len() < runs.len(),
        leg_found(ctx, start, dst, path, runs, costs, legs, legs.len() as int, Some(leg)),
    ensures
        legs_found(ctx, start, dst, path, runs, costs, legs.push(leg)),
        leg_pips(legs.push(leg), legs.len() as int + 1) == leg_pips(legs, legs.len() as int) + leg.pips@,
{
    let more = legs.push(leg);
    assert forall|k: int| 0 <= k < more.len() implies leg_found(
        ctx,
        start,
        dst,
        path,
        runs,
        costs,
        more,
        k,
        Some(#[trigger] more[k]),
    ) by {
        assert(leg_wires(ctx, start, more, k) == leg_wires(ctx, start, legs, k));
        if k < legs.len() {
            assert(more[k] == legs[k]);
            assert(leg_found(ctx, start, dst, path, runs, costs, legs, k, Some(legs[k])));
        }
    }
    lemma_leg_pips_prefix(legs, more, legs.len() as int);
}

proof fn lemma_leg_pips_prefix(a: Seq<SegmentRoute>, b: Seq<SegmentRoute>, k: int)
    requires
        0 <= k <= a.len() <= b.len(),
        forall|i: int| 0 <= i < a.len() ==> #[trigger] b[i] == a[i],
    ensures
        leg_pips(b, k) == leg_pips(a, k),
    decreases k,
{
    if k > 0 {
        lemma_leg_pips_prefix(a, b, k - 1);
        assert(b[k - 1] == a[k - 1]);
    }
}

/// Routes along a path of tiles, run by run.
#[verifier::rlimit(60)]
#[verifier::spinoff_prover]
pub fn segment_route(
    ctx: &Context,
    src_wires: &WireSet,
    dst: WireId,
    path: &Vec<TileXy>,
    costs: &TileCosts,
) -> (r: Option<Vec<PipId>>)
    requires
        ctx.wf(),
        sources_ok(*ctx, src_wires@),
        ctx.chipdb.valid_wire(dst),
        costs.wf(ctx.chipdb),
        forall|i: int|
            0 <= i < path@.len() ==> on_grid(ctx.chipdb.width, ctx.chipdb.height, #[trigger] path@[i]),
    ensures
        segments_routed(*ctx, src_wires@.dom(), dst, path@, *costs, r),
        r is Some ==> forall|i: int| 0 <= i < r->0@.len() ==> ctx.chipdb.valid_pip(#[trigger] r->0@[i]),
{
    let ghost start = src_wires@.dom();
    let ends = ctx.conductor(dst);
    for i in 0..ends.len()
        invariant
            ends@ == ctx.conductor_of(dst),
            start == src_wires@.dom(),
            forall|j: int| 0 <= j < i ==> !start.contains(#[trigger] ends@[j]),
    {
        if src_wires.contains_key(ends[i]) {
            proof {
                assert(ends@.to_set().contains(ends@[i as int]));
                assert(start.contains(ends@[i as int]));
            }
            return Some(Vec::new());
        }
    }
    proof {
        assert(start.disjoint(ends@.to_set())) by {
            assert forall|x: WireId| start.contains(x) implies !ends@.to_set().contains(x) by {
                if ends@.contains(x) {
                    let j = choose|j: int| 0 <= j < ends@.len() && ends@[j] == x;
                    assert(!start.contains(ends@[j]));
                }
            }
        }
    }
    if path.len() < 2 {
        return local_route(ctx, src_wires, dst);
    }
    let runs = decompose_segments(path);
    let mut all: Vec<PipId> = Vec::new();
    let mut wires: WireSet = src_wires.duplicate();
    let ghost mut legs: Seq<SegmentRoute> = Seq::empty();
    let count: usize = runs.len();
    for k in 0..count
        invariant
            ctx.wf(),
            ctx.chipdb.valid_wire(dst),
            costs.wf(ctx.chipdb),
            forall|i: int|
                0 <= i < path@.len() ==> on_grid(ctx.chipdb.width, ctx.chipdb.height, #[trigger] path@[i]),
            path@.len() >= 2,
            count == runs@.len(),
            runs@.len() > 0,
            runs_of(path@, runs@, path@.len() - 1),
            runs@.last().end == path@.len() - 1,
            start == src_wires@.dom(),
            start.disjoint(ctx.conductor_of(dst).to_set()),
            legs.len() == k,
            legs_found(*ctx, start, dst, path@, runs@, *costs, legs),
            sources_ok(*ctx, wires@),
            wires@.dom() == leg_wires(*ctx, start, legs, k as int),
            all@ == leg_pips(legs, k as int),
            forall|i: int| 0 <= i < all@.len() ==> ctx.chipdb.valid_pip(#[trigger] all@[i]),
    {
        let run: Run = runs[k];
        assert(runs@[k as int].start < runs@[k as int].end <= path@.len() - 1);
        let last: bool = k == count - 1;
        let boxes = corridor_bboxes(&ctx.chipdb, path, run, 1);
        assert(boxes@ =~= boxes_for(ctx.chipdb, path@, run));
        let t: TileXy = path[run.end];
        assert(on_grid(ctx.chipdb.width, ctx.chipdb.height, path@[run.end as int]));
        let target: i32 = ctx.chipdb.tile_by_xy(t.x, t.y);
        let final_dst: Option<WireId> = if last {
            Some(dst)
        } else {
            None
        };
        let tiles: usize = run.end - run.start;
        let budget: usize = visits_for_tiles(tiles);
        let ghost before = all@;
        match segment_astar(ctx, &wires, target, final_dst, boxes, costs, budget) {
            Some(leg) => {
                proof {
                    assert(leg_found(
                        *ctx,
                        start,
                        dst,
                        path@,
                        runs@,
                        *costs,
                        legs,
                        k as int,
                        Some(leg),
                    ));
                    lemma_legs_push(*ctx, start, dst, path@, runs@, *costs, legs, leg);
                    legs = legs.push(leg);
                }
                let mut next: WireSet = IdMap::new();
                add_conductor(ctx, &mut next, leg.end);
                add_conducted(ctx, &mut next, &leg.pips);
                wires = next;
                assert(wires@.dom() =~= leg_wires(*ctx, start, legs, k + 1));
                let SegmentRoute { pips, end } = leg;
                let mut pips = pips;
                all.append(&mut pips);
                assert forall|i: int| 0 <= i < all@.len() implies ctx.chipdb.valid_pip(#[trigger] all@[i]) by {
                    if i < before.len() {
                        assert(all@[i] == before[i]);
                    } else {
                        assert(all@[i] == leg.pips@[i - before.len()]);
                    }
                }
            },
            None => {
                proof {
                    assert(leg_found(*ctx, start, dst, path@, runs@, *costs, legs, k as int, None));
                    assert(along_runs(*ctx, start, dst, path@, runs@, *costs, legs, None));
                }
                return None;
            },
        }
    }
    assert(along_runs(*ctx, start, dst, path@, runs@, *costs, legs, Some(all)));
    Some(all)
}

/// The visits for a run with so many steps.
fn visits_for_tiles(steps: usize) -> (r: usize)
    ensures
        r == visits_for(Run { start: 0, end: steps }),
{
    if steps < 2 {
        if steps == 0 {
            5000
        } else {
            6000
        }
    } else if steps > (usize::MAX - 3000) / 3000 {
        usize::MAX
    } else {
        (steps + 1) * 3000
    }
}

} // verus!
