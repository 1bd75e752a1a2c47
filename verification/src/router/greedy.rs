//! Routing a net sink by sink, the sink nearest to the tree first, along a line of tiles to it.
//!
//! The line is drawn by the caller, who weighs its tiles; everything else is done here, one sink at a
//! time.

use crate::chipdb::{ChipDb, PipId, WireId};
use crate::context::Context;
use crate::ids::IdMap;
use crate::netlist::NetId;
use crate::router::astar::sources_ok;
use crate::router::attempt::{add_conducted, add_conductor, conducted};
use crate::router::common::{
    collect_sink_wires, missing_driver_wire_text, resolve_source_wire, sinks_upto,
    source_wire_const_value, unplaced_driver_text, RoutePlan, SinkRoute,
};
use crate::router::corridor::{on_grid, TileXy};
use crate::router::error::RouterError;
use crate::router::graph::WireSet;
use crate::router::segments::{local_found, local_route, segment_route, segments_routed, TileCosts};
use vstd::prelude::*;

verus! {

/// The tile of a wire.
pub open spec fn tile_of(chip: ChipDb, w: WireId) -> TileXy {
    TileXy { x: chip.x_of(w.tile as int) as i32, y: chip.y_of(w.tile as int) as i32 }
}

/// How far a tile is from another.
pub open spec fn steps_between(a: TileXy, b: TileXy) -> int {
    let dx = if a.x > b.x {
        a.x - b.x
    } else {
        b.x - a.x
    };
    let dy = if a.y > b.y {
        a.y - b.y
    } else {
        b.y - a.y
    };
    dx + dy
}

/// The sink at `i` is nearest to the tree, at its tile `j`; of several pairs the first is meant.
pub open spec fn nearest_pair(chip: ChipDb, sinks: Seq<WireId>, tiles: Seq<TileXy>, i: int, j: int) -> bool {
    let d = steps_between(tile_of(chip, sinks[i]), tiles[j]);
    &&& 0 <= i < sinks.len()
    &&& 0 <= j < tiles.len()
    &&& forall|a: int, b: int|
        0 <= a < sinks.len() && 0 <= b < tiles.len() ==> d <= #[trigger] steps_between(
            tile_of(chip, sinks[a]),
            tiles[b],
        )
    &&& forall|a: int, b: int|
        0 <= a < sinks.len() && 0 <= b < tiles.len() && (a < i || (a == i && b < j)) ==> d
            < #[trigger] steps_between(tile_of(chip, sinks[a]), tiles[b])
}

/// The tiles that pips drive wires of.
pub open spec fn driven_tiles(chip: ChipDb, pips: Seq<PipId>) -> Seq<TileXy> {
    Seq::new(pips.len(), |i: int| tile_of(chip, chip.dst(pips[i])))
}

/// What the next step of a greedy run is.
#[derive(Clone, Copy, PartialEq, Eq, Debug, Structural)]
pub enum GreedyStep {
    /// All sinks are routed.
    Done,
    /// A sink was routed.
    Routed,
    /// A line of tiles is wanted, to the sink that is next.
    Corridor(TileXy, TileXy),
    /// A sink cannot be routed.
    Failed,
}

/// A net that is being routed: its tree, the sinks that remain, and the routes so far.
pub struct GreedyRun {
    pub net: NetId,
    pub source: WireId,
    pub tiles: Vec<TileXy>,
    pub tree: WireSet,
    pub remaining: Vec<WireId>,
    pub routes: Vec<SinkRoute>,
    /// The sink that a line of tiles is wanted for.
    pub target: Option<WireId>,
}

/// How a greedy run begins.
pub enum GreedyStart {
    /// Nothing is to be routed.
    Finished(RoutePlan),
    Run(GreedyRun),
}

/// The pips of a list of routes are pips of the device.
pub open spec fn routes_valid(chip: ChipDb, routes: Seq<SinkRoute>) -> bool {
    forall|i: int, j: int|
        0 <= i < routes.len() && 0 <= j < routes[i].pips@.len() ==> chip.valid_pip(
            #[trigger] routes[i].pips@[j],
        )
}

impl GreedyRun {
    pub open spec fn wf(self, ctx: Context) -> bool {
        &&& ctx.chipdb.valid_wire(self.source)
        &&& self.tiles@.len() > 0
        &&& forall|i: int|
            0 <= i < self.tiles@.len() ==> on_grid(ctx.chipdb.width, ctx.chipdb.height, #[trigger] self.tiles@[i])
        &&& sources_ok(ctx, self.tree@)
        &&& forall|i: int| 0 <= i < self.remaining@.len() ==> ctx.chipdb.valid_wire(#[trigger] self.remaining@[i])
        &&& routes_valid(ctx.chipdb, self.routes@)
        &&& self.target is Some ==> ctx.chipdb.valid_wire(self.target->0)
    }

    /// Only the net and its source are as in `other`.
    pub open spec fn same_net(self, other: GreedyRun) -> bool {
        self.net == other.net && self.source == other.source
    }

    /// `new` has a sink that the tree had already.
    pub open spec fn took_sink(self, sink: WireId, new: GreedyRun) -> bool {
        &&& new.tiles@ == self.tiles@
        &&& new.tree@.dom() == self.tree@.dom()
        &&& new.routes@.len() == self.routes@.len() + 1
        &&& new.routes@.take(self.routes@.len() as int) == self.routes@
        &&& new.routes@.last().sink_wire == sink
        &&& new.routes@.last().pips@.len() == 0
    }

    /// `new` has a sink with a route of these pips.
    pub open spec fn reached_sink(self, ctx: Context, sink: WireId, pips: Seq<PipId>, new: GreedyRun) -> bool {
        &&& new.tiles@ == self.tiles@ + driven_tiles(ctx.chipdb, pips)
        &&& new.tree@.dom() == self.tree@.dom().union(conducted(ctx, pips)).insert(sink)
        &&& new.routes@.len() == self.routes@.len() + 1
        &&& new.routes@.take(self.routes@.len() as int) == self.routes@
        &&& new.routes@.last().sink_wire == sink
        &&& new.routes@.last().pips@ == pips
    }

    /// Nothing is routed beyond what was.
    pub open spec fn unmoved(self, new: GreedyRun) -> bool {
        new.tiles@ == self.tiles@ && new.tree@ == self.tree@ && new.routes@ == self.routes@
    }

    /// What a step does with the sink at `i`, which is nearest to tile `j` of the tree.
    pub open spec fn stepped(self, ctx: Context, i: int, j: int, r: GreedyStep, new: GreedyRun) -> bool {
        let sink = self.remaining@[i];
        let from = self.tiles@[j];
        let to = tile_of(ctx.chipdb, sink);
        &&& nearest_pair(ctx.chipdb, self.remaining@, self.tiles@, i, j)
        &&& new.remaining@ == self.remaining@.remove(i)
        &&& if self.tree@.contains_key(sink) {
            r == GreedyStep::Routed && new.target is None && self.took_sink(sink, new)
        } else if steps_between(to, from) == 0 {
            &&& new.target is None
            &&& exists|path: Option<Vec<PipId>>|
                {
                    &&& #[trigger] local_found(ctx, self.tree@.dom(), sink, path)
                    &&& match path {
                        Some(pips) => r == GreedyStep::Routed && self.reached_sink(ctx, sink, pips@, new),
                        None => r == GreedyStep::Failed && self.unmoved(new),
                    }
                }
        } else {
            r == GreedyStep::Corridor(from, to) && new.target == Some(sink) && self.unmoved(new)
        }
    }

    /// Begins with a net: a net without a driver, with a constant driver or without sinks needs no
    /// routes.
    pub fn start(ctx: &Context, net: NetId) -> (r: Result<GreedyStart, RouterError>)
        requires
            ctx.wf(),
            ctx.design.valid_net(net),
        ensures
            ({
                let n = ctx.design.net_of(net);
                let source = ctx.wire_of_pin(n.driver);
                let sinks = sinks_upto(*ctx, n.users@, n.users@.len() as int);
                if !n.driver.connected() {
                    &&& r is Ok
                    &&& r->Ok_0 is Finished
                    &&& r->Ok_0->Finished_0.net == net
                    &&& r->Ok_0->Finished_0.source_wire == WireId::nowhere()
                    &&& r->Ok_0->Finished_0.sink_routes@.len() == 0
                } else if ctx.design.cell_of(n.driver.cell).bel is None {
                    r is Err && r->Err_0 is Generic && r->Err_0->Generic_0@ == unplaced_driver_text(
                        ctx.name_text(n.name),
                    )
                } else if source is None {
                    r is Err && r->Err_0 is Generic && r->Err_0->Generic_0@ == missing_driver_wire_text(
                        ctx.name_text(n.name),
                    )
                } else if ctx.chipdb.wire(source->0).const_value != 0 || sinks.len() == 0 {
                    &&& r is Ok
                    &&& r->Ok_0 is Finished
                    &&& r->Ok_0->Finished_0.net == net
                    &&& r->Ok_0->Finished_0.source_wire == source->0
                    &&& r->Ok_0->Finished_0.sink_routes@.len() == 0
                } else {
                    &&& r is Ok
                    &&& r->Ok_0 is Run
                    &&& r->Ok_0->Run_0.wf(*ctx)
                    &&& r->Ok_0->Run_0.net == net
                    &&& r->Ok_0->Run_0.source == source->0
                    &&& r->Ok_0->Run_0.tiles@ == seq![tile_of(ctx.chipdb, source->0)]
                    &&& r->Ok_0->Run_0.tree@.dom() == ctx.conductor_of(source->0).to_set()
                    &&& r->Ok_0->Run_0.remaining@ == sinks
                    &&& r->Ok_0->Run_0.routes@.len() == 0
                    &&& r->Ok_0->Run_0.target is None
                }
            }),
    {
        let source: WireId = match resolve_source_wire(ctx, net) {
            Err(e) => {
                return Err(e);
            },
            Ok(None) => {
                return Ok(
                    GreedyStart::Finished(
                        RoutePlan { net, source_wire: WireId::invalid(), sink_routes: Vec::new() },
                    ),
                );
            },
            Ok(Some(w)) => w,
        };
        let sinks = collect_sink_wires(ctx, net);
        if source_wire_const_value(ctx, source) != 0 || sinks.len() == 0 {
            return Ok(
                GreedyStart::Finished(
                    RoutePlan { net, source_wire: source, sink_routes: Vec::new() },
                ),
            );
        }
        let (x, y) = ctx.chipdb.tile_xy(source.tile);
        let mut tiles: Vec<TileXy> = Vec::new();
        tiles.push(TileXy { x, y });
        assert(tiles@ =~= seq![tile_of(ctx.chipdb, source)]);
        let mut tree: WireSet = IdMap::new();
        add_conductor(ctx, &mut tree, source);
        assert(tree@.dom() =~= ctx.conductor_of(source).to_set());
        Ok(
            GreedyStart::Run(
                GreedyRun {
                    net,
                    source,
                    tiles,
                    tree,
                    remaining: sinks,
                    routes: Vec::new(),
                    target: None,
                },
            ),
        )
    }

    /// The sink that is nearest to the tree, and the tile of the tree that it is nearest to.
    fn nearest(&self, ctx: &Context) -> (r: (usize, usize, i64))
        requires
            ctx.wf(),
            self.wf(*ctx),
            self.remaining@.len() > 0,
        ensures
            nearest_pair(ctx.chipdb, self.remaining@, self.tiles@, r.0 as int, r.1 as int),
            r.2 == steps_between(
                tile_of(ctx.chipdb, self.remaining@[r.0 as int]),
                self.tiles@[r.1 as int],
            ),
    {
        let mut bi: usize = 0;
        let mut bj: usize = 0;
        let mut best: i64 = i64::MAX;
        let n: usize = self.remaining.len();
        let m: usize = self.tiles.len();
        let ghost sinks = self.remaining@;
        let ghost tiles = self.tiles@;
        let ghost chip = ctx.chipdb;
        for i in 0..n
            invariant
                ctx.wf(),
                self.wf(*ctx),
                n == sinks.len(),
                m == tiles.len(),
                m > 0,
                sinks == self.remaining@,
                tiles == self.tiles@,
                chip == ctx.chipdb,
                i == 0 ==> best == i64::MAX,
                i > 0 ==> bi < i && bj < m && best == steps_between(
                    tile_of(chip, sinks[bi as int]),
                    tiles[bj as int],
                ),
                forall|a: int, b: int|
                    0 <= a < i && 0 <= b < m ==> best <= #[trigger] steps_between(
                        tile_of(chip, sinks[a]),
                        tiles[b],
                    ),
                forall|a: int, b: int|
                    0 <= a < i && 0 <= b < m && (a < bi || (a == bi && b < bj)) ==> best
                        < #[trigger] steps_between(tile_of(chip, sinks[a]), tiles[b]),
        {
            let w: WireId = self.remaining[i];
            assert(ctx.chipdb.valid_wire(self.remaining@[i as int]));
            let (x, y) = ctx.chipdb.tile_xy(w.tile);
            assert(tile_of(chip, sinks[i as int]) == TileXy { x, y });
            for j in 0..m
                invariant
                    ctx.wf(),
                    self.wf(*ctx),
                    i < n,
                    n == sinks.len(),
                    m == tiles.len(),
                    sinks == self.remaining@,
                    tiles == self.tiles@,
                    chip == ctx.chipdb,
                    on_grid(chip.width, chip.height, TileXy { x, y }),
                    tile_of(chip, sinks[i as int]) == (TileXy { x, y }),
                    i == 0 && j == 0 ==> best == i64::MAX,
                    i > 0 || j > 0 ==> bi <= i && bj < m && (bi == i ==> bj < j) && best == steps_between(
                        tile_of(chip, sinks[bi as int]),
                        tiles[bj as int],
                    ),
                    forall|a: int, b: int|
                        0 <= a < n && 0 <= b < m && (a < i || (a == i && b < j)) ==> best
                            <= #[trigger] steps_between(tile_of(chip, sinks[a]), tiles[b]),
                    forall|a: int, b: int|
                        0 <= a < n && 0 <= b < m && (a < i || (a == i && b < j)) && (a < bi || (a == bi && b
                            < bj)) ==> best < #[trigger] steps_between(tile_of(chip, sinks[a]), tiles[b]),
            {
                let t: TileXy = self.tiles[j];
                assert(on_grid(chip.width, chip.height, self.tiles@[j as int]));
                let dx: i64 = if x > t.x {
                    x as i64 - t.x as i64
                } else {
                    t.x as i64 - x as i64
                };
                let dy: i64 = if y > t.y {
                    y as i64 - t.y as i64
                } else {
                    t.y as i64 - y as i64
                };
                let d: i64 = dx + dy;
                assert(d == steps_between(tile_of(chip, sinks[i as int]), tiles[j as int]));
                if d < best {
                    best = d;
                    bi = i;
                    bj = j;
                }
            }
        }
        (bi, bj, best)
    }

    /// Notes the route to a sink.
    fn reach(&mut self, ctx: &Context, sink: WireId, pips: Vec<PipId>)
        requires
            ctx.wf(),
            old(self).wf(*ctx),
            ctx.chipdb.valid_wire(sink),
            forall|i: int| 0 <= i < pips@.len() ==> ctx.chipdb.valid_pip(#[trigger] pips@[i]),
        ensures
            final(self).wf(*ctx),
            final(self).same_net(*old(self)),
            final(self).remaining == old(self).remaining,
            final(self).target == old(self).target,
            old(self).reached_sink(*ctx, sink, pips@, *final(self)),
    {
        add_conducted(ctx, &mut self.tree, &pips);
        let _ = self.tree.insert(sink, ());
        assert(self.tree@.dom() =~= old(self).tree@.dom().union(conducted(*ctx, pips@)).insert(sink));
        let ghost all = driven_tiles(ctx.chipdb, pips@);
        assert(old(self).tiles@ + all.take(0) =~= old(self).tiles@);
        for i in 0..pips.len()
            invariant
                ctx.wf(),
                forall|i: int| 0 <= i < pips@.len() ==> ctx.chipdb.valid_pip(#[trigger] pips@[i]),
                all == driven_tiles(ctx.chipdb, pips@),
                self.tiles@ == old(self).tiles@ + all.take(i as int),
                self.tiles@.len() > 0,
                forall|j: int|
                    0 <= j < self.tiles@.len() ==> on_grid(
                        ctx.chipdb.width,
                        ctx.chipdb.height,
                        #[trigger] self.tiles@[j],
                    ),
                self.same_net(*old(self)),
                self.remaining == old(self).remaining,
                self.target == old(self).target,
                self.routes == old(self).routes,
                sources_ok(*ctx, self.tree@),
                self.tree@.dom() == old(self).tree@.dom().union(conducted(*ctx, pips@)).insert(sink),
        {
            assert(ctx.chipdb.valid_pip(pips@[i as int]));
            let w: WireId = ctx.chipdb.pip_dst_wire(pips[i]);
            let (x, y) = ctx.chipdb.tile_xy(w.tile);
            self.tiles.push(TileXy { x, y });
            assert(all.take(i + 1) =~= all.take(i as int).push(all[i as int]));
            assert(self.tiles@ =~= old(self).tiles@ + all.take(i + 1));
        }
        assert(all.take(pips@.len() as int) =~= all);
        self.routes.push(SinkRoute { sink_wire: sink, pips });
        proof {
            assert(self.routes@.take(old(self).routes@.len() as int) =~= old(self).routes@);
            assert forall|i: int, j: int|
                0 <= i < self.routes@.len() && 0 <= j < self.routes@[i].pips@.len() implies ctx.chipdb.valid_pip(
                #[trigger] self.routes@[i].pips@[j],
            ) by {
                if i < old(self).routes@.len() {
                    assert(self.routes@[i] == old(self).routes@[i]);
                }
            }
        }
    }

    /// Takes the next sink: the one nearest to the tree.
    #[verifier::rlimit(30)]
    pub fn step(&mut self, ctx: &Context) -> (r: GreedyStep)
        requires
            ctx.wf(),
            old(self).wf(*ctx),
            old(self).target is None,
        ensures
            final(self).wf(*ctx),
            final(self).same_net(*old(self)),
            if old(self).remaining@.len() == 0 {
                r == GreedyStep::Done && *final(self) == *old(self)
            } else {
                exists|i: int, j: int| #[trigger] old(self).stepped(*ctx, i, j, r, *final(self))
            },
    {
        if self.remaining.len() == 0 {
            return GreedyStep::Done;
        }
        let ghost start = *self;
        let (i, j, dist) = self.nearest(ctx);
        let from: TileXy = self.tiles[j];
        let sink: WireId = self.remaining.remove(i);
        proof {
            assert(sink == start.remaining@[i as int]);
            assert(ctx.chipdb.valid_wire(start.remaining@[i as int]));
            assert forall|k: int| 0 <= k < self.remaining@.len() implies ctx.chipdb.valid_wire(
                #[trigger] self.remaining@[k],
            ) by {
                if k < i {
                    assert(self.remaining@[k] == start.remaining@[k]);
                } else {
                    assert(self.remaining@[k] == start.remaining@[k + 1]);
                }
            }
        }
        if self.tree.contains_key(sink) {
            self.routes.push(SinkRoute { sink_wire: sink, pips: Vec::new() });
            proof {
                assert(self.routes@.take(start.routes@.len() as int) =~= start.routes@);
                assert forall|a: int, b: int|
                    0 <= a < self.routes@.len() && 0 <= b < self.routes@[a].pips@.len() implies ctx.chipdb.valid_pip(
                    #[trigger] self.routes@[a].pips@[b],
                ) by {
                    if a < start.routes@.len() {
                        assert(self.routes@[a] == start.routes@[a]);
                    }
                }
                assert(start.stepped(*ctx, i as int, j as int, GreedyStep::Routed, *self));
            }
            return GreedyStep::Routed;
        }
        if dist == 0 {
            let found = local_route(ctx, &self.tree, sink);
            let ghost path = found;
            match found {
                Some(pips) => {
                    self.reach(ctx, sink, pips);
                    assert(start.stepped(*ctx, i as int, j as int, GreedyStep::Routed, *self));
                    return GreedyStep::Routed;
                },
                None => {
                    assert(start.stepped(*ctx, i as int, j as int, GreedyStep::Failed, *self));
                    return GreedyStep::Failed;
                },
            }
        }
        let (x, y) = ctx.chipdb.tile_xy(sink.tile);
        let to: TileXy = TileXy { x, y };
        self.target = Some(sink);
        let r: GreedyStep = GreedyStep::Corridor(from, to);
        assert(start.stepped(*ctx, i as int, j as int, r, *self));
        r
    }

    /// Routes the sink that a line of tiles was wanted for, along the line; whether that succeeded.
    pub fn follow(&mut self, ctx: &Context, path: &Vec<TileXy>, costs: &TileCosts) -> (r: bool)
        requires
            ctx.wf(),
            old(self).wf(*ctx),
            old(self).target is Some,
            costs.wf(ctx.chipdb),
            forall|i: int|
                0 <= i < path@.len() ==> on_grid(ctx.chipdb.width, ctx.chipdb.height, #[trigger] path@[i]),
        ensures
            final(self).wf(*ctx),
            final(self).same_net(*old(self)),
            final(self).remaining == old(self).remaining,
            final(self).target is None,
            exists|found: Option<Vec<PipId>>|
                {
                    &&& #[trigger] segments_routed(
                        *ctx,
                        old(self).tree@.dom(),
                        old(self).target->0,
                        path@,
                        *costs,
                        found,
                    )
                    &&& r == (found is Some)
                    &&& match found {
                        Some(pips) => old(self).reached_sink(
                            *ctx,
                            old(self).target->0,
                            pips@,
                            *final(self),
                        ),
                        None => old(self).unmoved(*final(self)),
                    }
                },
    {
        let ghost start = *self;
        let sink: WireId = match self.target {
            Some(w) => w,
            None => WireId::invalid(),
        };
        let found = segment_route(ctx, &self.tree, sink, path, costs);
        let ghost shown = found;
        self.target = None;
        match found {
            Some(pips) => {
                let ghost list = pips@;
                self.reach(ctx, sink, pips);
                proof {
                    assert(start.reached_sink(*ctx, sink, list, *self));
                    assert(segments_routed(*ctx, start.tree@.dom(), sink, path@, *costs, shown));
                }
                true
            },
            None => {
                assert(segments_routed(*ctx, start.tree@.dom(), sink, path@, *costs, shown));
                false
            },
        }
    }

    /// The plan of all routes.
    pub fn finish(self) -> (r: RoutePlan)
        ensures
            r.net == self.net,
            r.source_wire == self.source,
            r.sink_routes == self.routes,
    {
        RoutePlan { net: self.net, source_wire: self.source, sink_routes: self.routes }
    }

    /// The error for a net with a sink that cannot be routed.
    pub fn no_path(ctx: &Context, net: NetId) -> (r: RouterError)
        requires
            ctx.design.valid_net(net),
        ensures
            r is NoPath,
            r->NoPath_0@ == ctx.name_text(ctx.design.net_of(net).name),
    {
        RouterError::NoPath(String::from_str(ctx.name_of(ctx.net(net).name)))
    }
}

} // verus!
