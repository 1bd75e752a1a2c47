//! Estimates of how much routing to a target costs at least, learnt from the device once.

use crate::chipdb::{ChipDb, PipId, WireId};
use crate::context::Context;
use crate::ids::IdMap;
use crate::router::astar::default_pip_cost;
use crate::router::reach::{
    adjacency, adjacency_ok, blank, drives, marked, reach_of, reached, reps_ok, seeds, shaped, valid_tw,
    TypeWire,
};
use crate::text::{decimal, decimal_text};
use crate::timing::delay::DelayT;
use crate::types::id_string::IdString;
use vstd::prelude::*;

verus! {

/// How far from the edge of the grid a representative tile should lie.
pub const REP_MARGIN: i32 = 13;

/// The number of a class of drivers.
pub type LookaheadClass = u32;

/// The class that no driver has.
pub const UNKNOWN_CLASS: LookaheadClass = 0xffff_ffff;

/// The tile lies well inside the grid.
pub open spec fn interior(chip: ChipDb, tile: int) -> bool {
    &&& REP_MARGIN <= chip.x_of(tile) < chip.width - REP_MARGIN
    &&& REP_MARGIN <= chip.y_of(tile) < chip.height - REP_MARGIN
}

/// The tile has the type.
pub open spec fn of_type(chip: ChipDb, tile: int, tt: int) -> bool {
    0 <= tile < chip.tiles@.len() && chip.tiles@[tile] == tt
}

/// Among the first `n` tiles, `rep` stands for the type: the first tile of the type that lies well
/// inside the grid, or the first of the type if none does.
pub open spec fn is_rep(chip: ChipDb, tt: int, n: int, rep: Option<i32>) -> bool {
    match rep {
        None => forall|t: int| 0 <= t < n ==> !(#[trigger] of_type(chip, t, tt)),
        Some(r) => {
            &&& 0 <= r < n
            &&& of_type(chip, r as int, tt)
            &&& interior(chip, r as int) ==> forall|t: int|
                0 <= t < r && #[trigger] of_type(chip, t, tt) ==> !interior(chip, t)
            &&& !interior(chip, r as int) ==> forall|t: int|
                0 <= t < n && #[trigger] of_type(chip, t, tt) ==> t >= r && !interior(chip, t)
        },
    }
}

fn is_interior(chip: &ChipDb, tile: i32) -> (r: bool)
    requires
        chip.wf(),
        chip.valid_tile(tile as int),
    ensures
        r == interior(*chip, tile as int),
{
    let (x, y) = chip.tile_xy(tile);
    x >= REP_MARGIN && x < chip.width - REP_MARGIN && y >= REP_MARGIN && y < chip.height - REP_MARGIN
}

/// A tile for each type that stands for it.
pub fn representatives(chip: &ChipDb) -> (reps: Vec<Option<i32>>)
    requires
        chip.wf(),
    ensures
        reps@.len() == chip.tile_types@.len(),
        forall|tt: int|
            0 <= tt < reps@.len() ==> is_rep(
                *chip,
                tt,
                chip.tiles@.len() as int,
                #[trigger] reps@[tt],
            ),
{
    let num: usize = chip.tile_types.len();
    let mut reps: Vec<Option<i32>> = Vec::new();
    for tt in 0..num
        invariant
            reps@.len() == tt,
            forall|k: int| 0 <= k < tt ==> #[trigger] reps@[k] is None,
    {
        reps.push(None);
    }
    for tile in 0..chip.tiles.len()
        invariant
            chip.wf(),
            reps@.len() == chip.tile_types@.len(),
            forall|tt: int|
                0 <= tt < reps@.len() ==> is_rep(*chip, tt, tile as int, #[trigger] reps@[tt]),
    {
        let tt: usize = chip.tiles[tile];
        let ghost before = reps@;
        let replace: bool = match reps[tt] {
            None => true,
            Some(cur) => !is_interior(chip, cur) && is_interior(chip, tile as i32),
        };
        proof {
            assert(is_rep(*chip, tt as int, tile as int, before[tt as int]));
            assert forall|k: int| of_type(*chip, tile as int, k) <==> k == tt by {
            }
        }
        if replace {
            reps.set(tt, Some(tile as i32));
        }
        assert forall|k: int| 0 <= k < reps@.len() implies is_rep(*chip, k, tile + 1, #[trigger] reps@[k]) by {
            assert(is_rep(*chip, k, tile as int, before[k]));
        }
    }
    reps
}

/// The largest distance from a tile to the first `n` wires of a list.
pub open spec fn farthest(chip: ChipDb, tile: int, wires: Seq<WireId>, n: int) -> int
    decreases n,
{
    if n <= 0 {
        0
    } else {
        let before = farthest(chip, tile, wires, n - 1);
        let here = chip.distance(wires[n - 1].tile as int, tile);
        if here > before {
            here
        } else {
            before
        }
    }
}

/// How many tiles a conductor spans, seen from a tile; at least one.
pub open spec fn span_of(chip: ChipDb, w: WireId) -> int {
    let far = farthest(chip, w.tile as int, chip.peers(w), chip.peers(w).len() as int);
    if far < 1 {
        1
    } else {
        far
    }
}

fn span(chip: &ChipDb, w: WireId) -> (r: i64)
    requires
        chip.wf(),
        chip.valid_wire(w),
    ensures
        r == span_of(*chip, w),
        1 <= r <= i32::MAX,
{
    let peers = chip.node_wires(w);
    let mut far: i32 = 0;
    proof {
        chip.lemma_peers(w);
    }
    for i in 0..peers.len()
        invariant
            chip.wf(),
            chip.valid_wire(w),
            peers@ == chip.peers(w),
            forall|j: int| 0 <= j < peers@.len() ==> chip.valid_wire(#[trigger] peers@[j]),
            far >= 0,
            far == farthest(*chip, w.tile as int, peers@, i as int),
    {
        assert(chip.valid_wire(peers@[i as int]));
        let d: i32 = chip.manhattan(peers[i].tile, w.tile);
        if d > far {
            far = d;
        }
    }
    if far < 1 {
        1
    } else {
        far as i64
    }
}

/// What is known of a pip of a tile type.
#[derive(Clone, Copy, PartialEq, Eq, Hash, Debug, Structural)]
pub struct PipRate {
    pub cost: i64,
    pub span: i64,
    pub src: i32,
}

/// What the representative tile shows of pip `p` of its type.
pub open spec fn rate_seen(ctx: Context, rep: i32, p: int, rate: PipRate) -> bool {
    let pip = PipId { tile: rep, index: p as i32 };
    &&& rate.cost == ctx.chipdb.pip(pip).delay.greatest() + 1
    &&& rate.span == span_of(ctx.chipdb, ctx.chipdb.dst(pip))
    &&& rate.src == ctx.chipdb.pip(pip).src_wire
    &&& 1 <= rate.cost <= i32::MAX
    &&& 1 <= rate.span <= i32::MAX
}

/// What the tiles of the device show of their pips.
pub struct LookaheadSurvey {
    pub reps: Vec<Option<i32>>,
    pub pips: Vec<Vec<PipRate>>,
    /// The cheapest pip onto a conductor that spans one tile; one if there is none.
    pub base_cost: i64,
    /// The largest span.
    pub max_span: i64,
}

/// Some pip of the first `n` types onto a conductor of span one has the cost.
pub open spec fn has_base(pips: Seq<Vec<PipRate>>, n: int, cost: i64) -> bool {
    exists|tt: int, p: int|
        0 <= tt < n && 0 <= p < pips[tt]@.len() && (#[trigger] pips[tt]@[p]).span == 1
            && pips[tt]@[p].cost == cost
}

impl LookaheadSurvey {
    /// The survey is that of the device.
    pub open spec fn surveys(self, ctx: Context) -> bool {
        &&& self.reps@.len() == ctx.chipdb.tile_types@.len()
        &&& self.pips@.len() == self.reps@.len()
        &&& forall|tt: int|
            0 <= tt < self.reps@.len() ==> is_rep(
                ctx.chipdb,
                tt,
                ctx.chipdb.tiles@.len() as int,
                #[trigger] self.reps@[tt],
            )
        &&& forall|tt: int|
            0 <= tt < self.pips@.len() ==> (#[trigger] self.pips@[tt])@.len() == (if self.reps@[tt] is Some {
                ctx.chipdb.tile_types@[tt].pips@.len()
            } else {
                0
            })
        &&& forall|tt: int, p: int|
            0 <= tt < self.pips@.len() && 0 <= p < self.pips@[tt]@.len() ==> rate_seen(
                ctx,
                self.reps@[tt]->0,
                p,
                #[trigger] self.pips@[tt]@[p],
            ) && self.pips@[tt]@[p].span <= self.max_span
        &&& 1 <= self.max_span <= i32::MAX
        &&& 1 <= self.base_cost <= i32::MAX
        &&& forall|tt: int, p: int|
            0 <= tt < self.pips@.len() && 0 <= p < self.pips@[tt]@.len() && (
            #[trigger] self.pips@[tt]@[p]).span == 1 ==> self.base_cost <= self.pips@[tt]@[p].cost
        &&& has_base(self.pips@, self.pips@.len() as int, self.base_cost) || (self.base_cost == 1
            && forall|tt: int, p: int|
            0 <= tt < self.pips@.len() && 0 <= p < self.pips@[tt]@.len() ==> (
            #[trigger] self.pips@[tt]@[p]).span != 1)
    }

    /// Looks at the pips of one representative tile for each type.
    #[verifier::rlimit(40)]
    pub fn new(ctx: &Context) -> (s: Self)
        requires
            ctx.wf(),
        ensures
            s.surveys(*ctx),
    {
        let chip = &ctx.chipdb;
        let reps = representatives(chip);
        let mut pips: Vec<Vec<PipRate>> = Vec::new();
        let mut base: i64 = i64::MAX;
        let mut max_span: i64 = 1;
        for tt in 0..reps.len()
            invariant
                ctx.wf(),
                chip == ctx.chipdb,
                reps@.len() == chip.tile_types@.len(),
                forall|k: int|
                    0 <= k < reps@.len() ==> is_rep(
                        *chip,
                        k,
                        chip.tiles@.len() as int,
                        #[trigger] reps@[k],
                    ),
                pips@.len() == tt,
                1 <= max_span <= i32::MAX,
                forall|k: int|
                    0 <= k < tt ==> (#[trigger] pips@[k])@.len() == (if reps@[k] is Some {
                        chip.tile_types@[k].pips@.len()
                    } else {
                        0
                    }),
                forall|k: int, p: int|
                    0 <= k < tt && 0 <= p < pips@[k]@.len() ==> rate_seen(
                        *ctx,
                        reps@[k]->0,
                        p,
                        #[trigger] pips@[k]@[p],
                    ) && pips@[k]@[p].span <= max_span && (pips@[k]@[p].span == 1 ==> base
                        <= pips@[k]@[p].cost),
                base == i64::MAX || (1 <= base <= i32::MAX && has_base(pips@, tt as int, base)),
        {
            let mut data: Vec<PipRate> = Vec::new();
            let ghost base0 = base;
            let ghost span0 = max_span;
            if let Some(rep) = reps[tt] {
                assert(is_rep(*chip, tt as int, chip.tiles@.len() as int, reps@[tt as int]));
                let count: usize = chip.tile_types[tt].pips.len();
                assert(chip.tile_types@[tt as int].wf());
                for p in 0..count
                    invariant
                        ctx.wf(),
                        chip == ctx.chipdb,
                        tt < chip.tile_types@.len(),
                        count == chip.tile_types@[tt as int].pips@.len(),
                        count <= i32::MAX,
                        chip.valid_tile(rep as int),
                        chip.tiles@[rep as int] == tt,
                        data@.len() == p,
                        span0 <= max_span <= i32::MAX,
                        1 <= max_span,
                        base <= base0,
                        forall|q: int|
                            0 <= q < p ==> rate_seen(*ctx, rep, q, #[trigger] data@[q]) && data@[q].span
                                <= max_span && (data@[q].span == 1 ==> base <= data@[q].cost),
                        base == base0 || (1 <= base <= i32::MAX && exists|q: int|
                            0 <= q < p && (#[trigger] data@[q]).span == 1 && data@[q].cost == base),
                {
                    let pip: PipId = PipId { tile: rep, index: p as i32 };
                    assert(chip.valid_pip(pip));
                    let cost: i64 = default_pip_cost(ctx, pip) as i64;
                    let dst: WireId = chip.pip_dst_wire(pip);
                    let sp: i64 = span(chip, dst);
                    let src: i32 = chip.pip_src_wire(pip).index;
                    let ghost before = data@;
                    data.push(PipRate { cost, span: sp, src });
                    assert(data@[p as int] == PipRate { cost, span: sp, src });
                    assert forall|q: int| 0 <= q < p implies data@[q] == before[q] by {
                    }
                    if sp > max_span {
                        max_span = sp;
                    }
                    if sp == 1 && cost < base {
                        base = cost;
                    }
                }
            }
            let ghost before = pips@;
            pips.push(data);
            proof {
                assert forall|k: int| 0 <= k < tt implies pips@[k] == before[k] by {
                }
                assert(pips@[tt as int] == data);
                if base0 != i64::MAX && base == base0 {
                    let (k, q) = choose|k: int, q: int|
                        0 <= k < tt && 0 <= q < before[k]@.len() && (#[trigger] before[k]@[q]).span == 1
                            && before[k]@[q].cost == base;
                    assert(pips@[k]@[q].span == 1);
                }
                if base != base0 {
                    let q = choose|q: int|
                        0 <= q < data@.len() && (#[trigger] data@[q]).span == 1 && data@[q].cost == base;
                    assert(pips@[tt as int]@[q].span == 1);
                }
            }
        }
        let base_cost: i64 = if base == i64::MAX { 1 } else { base };
        proof {
            if base == i64::MAX {
                assert forall|k: int, p: int| 0 <= k < pips@.len() && 0 <= p < pips@[k]@.len() implies (
                #[trigger] pips@[k]@[p]).span != 1 by {
                    assert(rate_seen(*ctx, reps@[k]->0, p, pips@[k]@[p]));
                }
            }
        }
        LookaheadSurvey { reps, pips, base_cost, max_span }
    }
}

/// A rate: a cost for a number of tiles.
#[derive(Clone, Copy, PartialEq, Eq, Hash, Debug, Structural)]
pub struct Rate {
    pub num: i64,
    pub den: i64,
}

/// `a` costs no more per tile than `b`.
pub open spec fn rate_le(a: Rate, b: Rate) -> bool {
    a.num * b.den <= b.num * a.den
}

fn is_less(a: Rate, b: Rate) -> (r: bool)
    requires
        a.num >= 0,
        b.num >= 0,
        a.den >= 1,
        b.den >= 1,
    ensures
        r == !rate_le(b, a),
{
    proof {
        assert(0 <= a.num * b.den <= 0x7fff_ffff_ffff_ffff * 0x7fff_ffff_ffff_ffff) by (nonlinear_arith)
            requires
                0 <= a.num <= 0x7fff_ffff_ffff_ffff,
                1 <= b.den <= 0x7fff_ffff_ffff_ffff,
        ;
        assert(0 <= b.num * a.den <= 0x7fff_ffff_ffff_ffff * 0x7fff_ffff_ffff_ffff) by (nonlinear_arith)
            requires
                0 <= b.num <= 0x7fff_ffff_ffff_ffff,
                1 <= a.den <= 0x7fff_ffff_ffff_ffff,
        ;
    }
    (a.num as i128) * (b.den as i128) < (b.num as i128) * (a.den as i128)
}

/// Rates with denominators of at least one are ordered by cost per tile.
proof fn lemma_rate_trans(a: Rate, b: Rate, c: Rate)
    requires
        rate_le(a, b),
        rate_le(b, c),
        a.den >= 1,
        b.den >= 1,
        c.den >= 1,
    ensures
        rate_le(a, c),
{
    let (x, y, z) = (a.num as int, b.num as int, c.num as int);
    let (p, q, r) = (a.den as int, b.den as int, c.den as int);
    assert(x * r <= z * p) by (nonlinear_arith)
        requires
            x * q <= y * p,
            y * r <= z * q,
            p >= 1,
            q >= 1,
            r >= 1,
    {
        assert((x * r) * q <= (z * p) * q) by (nonlinear_arith)
            requires
                x * q <= y * p,
                y * r <= z * q,
                p >= 1,
                q >= 1,
                r >= 1,
        {
            assert((x * q) * r <= (y * p) * r) by (nonlinear_arith)
                requires
                    x * q <= y * p,
                    r >= 1,
            ;
            assert((y * r) * p <= (z * q) * p) by (nonlinear_arith)
                requires
                    y * r <= z * q,
                    p >= 1,
            ;
            assert((x * r) * q == (x * q) * r) by (nonlinear_arith);
            assert((y * p) * r == (y * r) * p) by (nonlinear_arith);
            assert((z * q) * p == (z * p) * q) by (nonlinear_arith);
        }
    }
}

/// The modelled cost of a pip: the cost of driving a conductor of its span, and the delay of the
/// pip shared out over the span; at least one.
pub open spec fn modelled_cost(rc: Seq<i64>, rate: PipRate) -> int {
    let c = rc[rate.span as int] + rate.cost as int / rate.span as int;
    if c < 1 {
        1
    } else {
        c
    }
}

/// The modelled rate of a pip.
pub open spec fn modelled_rate(costs: Seq<Vec<i64>>, survey: LookaheadSurvey, tt: int, p: int) -> Rate {
    Rate { num: costs[tt]@[p], den: survey.pips@[tt]@[p].span }
}

/// The pip starts from a marked wire.
pub open spec fn pip_in_reach(survey: LookaheadSurvey, bits: Seq<Vec<bool>>, tt: int, p: int) -> bool {
    &&& 0 <= tt < survey.pips@.len()
    &&& 0 <= p < survey.pips@[tt]@.len()
    &&& marked(bits, TypeWire { tt: tt as usize, wire: survey.pips@[tt]@[p].src })
}

/// The rate is that of the pip in reach that is cheapest per tile; one per tile without such pips.
pub open spec fn best_rate(
    costs: Seq<Vec<i64>>,
    survey: LookaheadSurvey,
    bits: Seq<Vec<bool>>,
    rate: Rate,
) -> bool {
    &&& forall|tt: int, p: int| #[trigger]
        pip_in_reach(survey, bits, tt, p) ==> rate_le(rate, modelled_rate(costs, survey, tt, p))
    &&& (exists|tt: int, p: int| #[trigger]
        pip_in_reach(survey, bits, tt, p) && rate == modelled_rate(costs, survey, tt, p)) || (rate == (Rate {
        num: 1,
        den: 1,
    }) && forall|tt: int, p: int| !(#[trigger] pip_in_reach(survey, bits, tt, p)))
}

/// The modelled costs are those of the survey.
pub open spec fn costs_ok(rc: Seq<i64>, survey: LookaheadSurvey, costs: Seq<Vec<i64>>) -> bool {
    &&& costs.len() == survey.pips@.len()
    &&& forall|tt: int| 0 <= tt < costs.len() ==> (#[trigger] costs[tt])@.len() == survey.pips@[tt]@.len()
    &&& forall|tt: int, p: int|
        0 <= tt < costs.len() && 0 <= p < costs[tt]@.len() ==> #[trigger] costs[tt]@[p] == modelled_cost(
            rc,
            survey.pips@[tt]@[p],
        ) && costs[tt]@[p] >= 1
}

/// The cost of driving a conductor is known for every span that occurs.
pub open spec fn rc_ok(rc: Seq<i64>, survey: LookaheadSurvey) -> bool {
    &&& rc.len() > survey.max_span
    &&& forall|s: int| 0 <= s < rc.len() ==> 0 <= #[trigger] rc[s] <= 0x7fff_ffff_0000_0000
}

fn model_costs(ctx: &Context, survey: &LookaheadSurvey, rc: &Vec<i64>) -> (costs: Vec<Vec<i64>>)
    requires
        survey.surveys(*ctx),
        rc_ok(rc@, *survey),
    ensures
        costs_ok(rc@, *survey, costs@),
{
    let mut costs: Vec<Vec<i64>> = Vec::new();
    for tt in 0..survey.pips.len()
        invariant
            survey.surveys(*ctx),
            rc_ok(rc@, *survey),
            costs@.len() == tt,
            forall|k: int| 0 <= k < tt ==> (#[trigger] costs@[k])@.len() == survey.pips@[k]@.len(),
            forall|k: int, p: int|
                0 <= k < tt && 0 <= p < costs@[k]@.len() ==> #[trigger] costs@[k]@[p] == modelled_cost(
                    rc@,
                    survey.pips@[k]@[p],
                ) && costs@[k]@[p] >= 1,
    {
        let raw = &survey.pips[tt];
        let mut row: Vec<i64> = Vec::new();
        for p in 0..raw.len()
            invariant
                survey.surveys(*ctx),
                rc_ok(rc@, *survey),
                tt < survey.pips@.len(),
                raw@ == survey.pips@[tt as int]@,
                row@.len() == p,
                forall|q: int|
                    0 <= q < p ==> #[trigger] row@[q] == modelled_cost(rc@, raw@[q]) && row@[q] >= 1,
        {
            let rate: PipRate = raw[p];
            assert(rate_seen(*ctx, survey.reps@[tt as int]->0, p as int, survey.pips@[tt as int]@[p as int]));
            let share: i64 = rate.cost / rate.span;
            proof {
                assert(0 <= share <= rate.cost) by (nonlinear_arith)
                    requires
                        share == rate.cost as int / rate.span as int,
                        rate.cost >= 0,
                        rate.span >= 1,
                ;
                assert(0 <= rc@[rate.span as int] <= 0x7fff_ffff_0000_0000);
            }
            let c: i64 = rc[rate.span as usize] + share;
            row.push(if c < 1 { 1 } else { c });
        }
        let ghost before = costs@;
        costs.push(row);
        assert forall|k: int, p: int| 0 <= k < tt + 1 && 0 <= p < costs@[k]@.len() implies #[trigger] costs@[k]@[p]
            == modelled_cost(rc@, survey.pips@[k]@[p]) && costs@[k]@[p] >= 1 by {
            if k < tt {
                assert(before[k]@[p] == costs@[k]@[p]);
            }
        }
    }
    costs
}

/// The cheapest rate among the pips in reach.
#[verifier::rlimit(40)]
fn find_rate(
    ctx: &Context,
    survey: &LookaheadSurvey,
    costs: &Vec<Vec<i64>>,
    bits: &Vec<Vec<bool>>,
    Ghost(rc): Ghost<Seq<i64>>,
) -> (rate: Rate)
    requires
        ctx.wf(),
        survey.surveys(*ctx),
        costs_ok(rc, *survey, costs@),
        shaped(ctx.chipdb, bits@),
    ensures
        best_rate(costs@, *survey, bits@, rate),
        rate.num >= 1,
        rate.den >= 1,
{
    let mut best: Rate = Rate { num: 1, den: 1 };
    let mut found: bool = false;
    for tt in 0..survey.pips.len()
        invariant
            ctx.wf(),
            survey.surveys(*ctx),
            costs_ok(rc, *survey, costs@),
            shaped(ctx.chipdb, bits@),
            best.num >= 1,
            best.den >= 1,
            !found ==> best == (Rate { num: 1, den: 1 }),
            !found ==> forall|k: int, p: int|
                k < tt ==> !(#[trigger] pip_in_reach(*survey, bits@, k, p)),
            found ==> exists|k: int, p: int| #[trigger]
                pip_in_reach(*survey, bits@, k, p) && best == modelled_rate(costs@, *survey, k, p),
            found ==> forall|k: int, p: int|
                k < tt && #[trigger] pip_in_reach(*survey, bits@, k, p) ==> rate_le(
                    best,
                    modelled_rate(costs@, *survey, k, p),
                ),
    {
        let raw = &survey.pips[tt];
        for p in 0..raw.len()
            invariant
                ctx.wf(),
                survey.surveys(*ctx),
                costs_ok(rc, *survey, costs@),
                shaped(ctx.chipdb, bits@),
                tt < survey.pips@.len(),
                raw@ == survey.pips@[tt as int]@,
                best.num >= 1,
                best.den >= 1,
                !found ==> best == (Rate { num: 1, den: 1 }),
                !found ==> forall|k: int, q: int|
                    (k < tt || (k == tt && q < p)) ==> !(#[trigger] pip_in_reach(*survey, bits@, k, q)),
                found ==> exists|k: int, q: int| #[trigger]
                    pip_in_reach(*survey, bits@, k, q) && best == modelled_rate(costs@, *survey, k, q),
                found ==> forall|k: int, q: int|
                    (k < tt || (k == tt && q < p)) && #[trigger] pip_in_reach(*survey, bits@, k, q)
                        ==> rate_le(best, modelled_rate(costs@, *survey, k, q)),
        {
            let src: i32 = raw[p].src;
            proof {
                assert(rate_seen(*ctx, survey.reps@[tt as int]->0, p as int, survey.pips@[tt as int]@[p as int]));
                assert(ctx.chipdb.tile_types@[tt as int].wf());
                assert(is_rep(
                    ctx.chipdb,
                    tt as int,
                    ctx.chipdb.tiles@.len() as int,
                    survey.reps@[tt as int],
                ));
                assert(bits@[tt as int]@.len() == ctx.chipdb.tile_types@[tt as int].wires@.len());
                assert(costs@[tt as int]@.len() == survey.pips@[tt as int]@.len());
                assert(costs@[tt as int]@[p as int] >= 1);
            }
            if bits[tt][src as usize] {
                let here = Rate { num: costs[tt][p], den: raw[p].span };
                let ghost old_best = best;
                proof {
                    assert(pip_in_reach(*survey, bits@, tt as int, p as int));
                    assert(here == modelled_rate(costs@, *survey, tt as int, p as int));
                }
                if !found || is_less(here, best) {
                    proof {
                        if found {
                            assert forall|k: int, q: int|
                                (k < tt || (k == tt && q < p)) && #[trigger] pip_in_reach(
                                    *survey,
                                    bits@,
                                    k,
                                    q,
                                ) implies rate_le(here, modelled_rate(costs@, *survey, k, q)) by {
                                assert(rate_seen(*ctx, survey.reps@[k]->0, q, survey.pips@[k]@[q]));
                                lemma_rate_trans(here, old_best, modelled_rate(costs@, *survey, k, q));
                            }
                        }
                    }
                    best = here;
                    found = true;
                }
            } else {
                assert(!pip_in_reach(*survey, bits@, tt as int, p as int));
            }
        }
    }
    best
}

/// Estimates learnt from a device.
pub struct Lookahead {
    pub rates: Vec<Rate>,
    pub class_of_bel_type: IdMap<IdString, LookaheadClass>,
    pub default_class: LookaheadClass,
    pub class_names: Vec<String>,
    pub reachable: Vec<Vec<Vec<bool>>>,
    pub pip_costs: Vec<Vec<i64>>,
}

/// The kind of site drives a wire of a tile that is represented.
pub open spec fn is_driver(chip: ChipDb, reps: Seq<Option<i32>>, bel_type: i32) -> bool {
    exists|x: TypeWire| #[trigger] seeds(chip, reps, bel_type, x)
}

/// The numbers rise from one to the next.
pub open spec fn rising(s: Seq<i32>) -> bool {
    forall|i: int, j: int| 0 <= i < j < s.len() ==> #[trigger] s[i] < #[trigger] s[j]
}

/// Puts a number into a rising list, unless it is there.
fn insert_rising(list: &mut Vec<i32>, x: i32)
    requires
        rising(old(list)@),
    ensures
        rising(final(list)@),
        forall|y: i32| #[trigger] final(list)@.contains(y) <==> old(list)@.contains(y) || y == x,
{
    let mut i: usize = 0;
    while i < list.len() && list[i] < x
        invariant
            i <= list@.len(),
            list@ == old(list)@,
            rising(list@),
            forall|k: int| 0 <= k < i ==> #[trigger] list@[k] < x,
        decreases list@.len() - i,
    {
        i = i + 1;
    }
    if i < list.len() && list[i] == x {
        assert(list@.contains(list@[i as int]));
        return ;
    }
    let ghost before = list@;
    list.insert(i, x);
    proof {
        assert(list@ =~= before.insert(i as int, x));
        assert(list@[i as int] == x);
        assert forall|y: i32| #[trigger] list@.contains(y) <==> before.contains(y) || y == x by {
            if before.contains(y) {
                let k = choose|k: int| 0 <= k < before.len() && before[k] == y;
                if k < i {
                    assert(list@[k] == y);
                } else {
                    assert(list@[k + 1] == y);
                }
            }
            if list@.contains(y) {
                let k = choose|k: int| 0 <= k < list@.len() && list@[k] == y;
                if k < i {
                    assert(before[k] == y);
                } else if k > i {
                    assert(before[k - 1] == y);
                }
            }
        }
    }
}

/// The kinds of site that drive a wire of a tile that is represented, in order.
#[verifier::rlimit(40)]
fn driver_types(chip: &ChipDb, reps: &Vec<Option<i32>>) -> (list: Vec<i32>)
    requires
        chip.wf(),
        reps_ok(*chip, reps@),
    ensures
        rising(list@),
        forall|b: i32| #[trigger] list@.contains(b) <==> is_driver(*chip, reps@, b),
{
    let mut list: Vec<i32> = Vec::new();
    for tt in 0..reps.len()
        invariant
            chip.wf(),
            reps_ok(*chip, reps@),
            rising(list@),
            forall|b: i32| #[trigger] list@.contains(b) ==> is_driver(*chip, reps@, b),
            forall|x: TypeWire, b: i32, s: int, k: int|
                x.tt < tt && valid_tw(*chip, x) && reps@[x.tt as int] is Some && #[trigger] drives(
                    *chip,
                    b,
                    x,
                    s,
                    k,
                ) ==> list@.contains(b),
    {
        if reps[tt].is_some() {
            let sites = &chip.tile_types[tt].sites;
            for s in 0..sites.len()
                invariant
                    chip.wf(),
                    reps_ok(*chip, reps@),
                    tt < reps@.len(),
                    reps@[tt as int] is Some,
                    sites@ == chip.tile_types@[tt as int].sites@,
                    rising(list@),
                    forall|b: i32| #[trigger] list@.contains(b) ==> is_driver(*chip, reps@, b),
                    forall|x: TypeWire, b: i32, a: int, k: int|
                        (x.tt < tt || (x.tt == tt && a < s)) && valid_tw(*chip, x) && reps@[x.tt as int] is Some
                            && #[trigger] drives(*chip, b, x, a, k) ==> list@.contains(b),
            {
                let pins = &sites[s].pins;
                let bel_type: i32 = sites[s].bel_type;
                for k in 0..pins.len()
                    invariant
                        chip.wf(),
                        reps_ok(*chip, reps@),
                        tt < reps@.len(),
                        reps@[tt as int] is Some,
                        sites@ == chip.tile_types@[tt as int].sites@,
                        s < sites@.len(),
                        bel_type == sites@[s as int].bel_type,
                        pins@ == sites@[s as int].pins@,
                        rising(list@),
                        forall|b: i32| #[trigger] list@.contains(b) ==> is_driver(*chip, reps@, b),
                        forall|x: TypeWire, b: i32, a: int, c: int|
                            (x.tt < tt || (x.tt == tt && (a < s || (a == s && c < k)))) && valid_tw(*chip, x)
                                && reps@[x.tt as int] is Some && #[trigger] drives(*chip, b, x, a, c)
                                ==> list@.contains(b),
                {
                    let wi: i32 = pins[k].wire;
                    if pins[k].is_output && wi >= 0 && (wi as usize) < chip.tile_types[tt].wires.len() {
                        let ghost x = TypeWire { tt, wire: wi };
                        proof {
                            assert(drives(*chip, bel_type, x, s as int, k as int));
                            assert(seeds(*chip, reps@, bel_type, x));
                        }
                        let ghost before = list@;
                        insert_rising(&mut list, bel_type);
                        assert forall|y: TypeWire, b: i32, a: int, c: int|
                            (y.tt < tt || (y.tt == tt && (a < s || (a == s && c < k + 1)))) && valid_tw(
                                *chip,
                                y,
                            ) && reps@[y.tt as int] is Some && #[trigger] drives(
                                *chip,
                                b,
                                y,
                                a,
                                c,
                            ) implies list@.contains(b) by {
                            if !(y.tt == tt && a == s && c == k) {
                                assert(before.contains(b));
                            }
                        }
                    }
                }
            }
        }
    }
    proof {
        assert forall|b: i32| #[trigger] list@.contains(b) <==> is_driver(*chip, reps@, b) by {
            if is_driver(*chip, reps@, b) {
                let x = choose|x: TypeWire| #[trigger] seeds(*chip, reps@, b, x);
                let (s, k) = choose|s: int, k: int| #[trigger] drives(*chip, b, x, s, k);
                assert(drives(*chip, b, x, s, k));
            }
        }
    }
    list
}

impl Lookahead {
    /// There is a class to fall back on, and rates are not negative.
    pub open spec fn wf(self) -> bool {
        &&& self.default_class < self.rates@.len()
        &&& forall|c: int|
            0 <= c < self.rates@.len() ==> (#[trigger] self.rates@[c]).num >= 0 && self.rates@[c].den >= 1
    }

    /// Class `c` stands for a kind of site.
    pub open spec fn class_ok(
        self,
        ctx: Context,
        survey: LookaheadSurvey,
        c: int,
        bel_type: i32,
    ) -> bool {
        &&& shaped(ctx.chipdb, self.reachable@[c]@)
        &&& forall|x: TypeWire|
            valid_tw(ctx.chipdb, x) ==> (#[trigger] marked(self.reachable@[c]@, x) <==> reached(
                ctx.chipdb,
                survey.reps@,
                bel_type,
                x,
            ))
        &&& best_rate(self.pip_costs@, survey, self.reachable@[c]@, self.rates@[c])
        &&& self.class_names@[c]@ == class_text(ctx, bel_type)
    }

    /// The first `n` classes stand for the kinds of site in the list.
    pub open spec fn classes_upto(
        self,
        ctx: Context,
        survey: LookaheadSurvey,
        types: Seq<i32>,
        n: int,
    ) -> bool {
        &&& self.rates@.len() == n
        &&& self.class_names@.len() == n
        &&& self.reachable@.len() == n
        &&& forall|c: int| 0 <= c < n ==> self.class_ok(ctx, survey, c, #[trigger] types[c])
        &&& forall|c: int|
            0 <= c < n ==> (#[trigger] self.rates@[c]).num >= 1 && self.rates@[c].den >= 1
        &&& forall|b: IdString| #[trigger]
            self.class_of_bel_type@.contains_key(b) ==> self.class_of_bel_type@[b] < n
                && types[self.class_of_bel_type@[b] as int] == b.0
        &&& forall|c: int|
            0 <= c < n ==> self.class_of_bel_type@.contains_key(IdString(#[trigger] types[c]))
    }

    /// What is learnt from a device: one class for each kind of site that drives wires, in rising
    /// order; the wires that each class reaches and the cheapest rate among the pips there; and the
    /// class with the cheapest rate to fall back on. Without such sites there is a single class that
    /// reaches everything at one per tile.
    pub open spec fn learnt(self, ctx: Context, survey: LookaheadSurvey, rc: Seq<i64>) -> bool {
        &&& self.wf()
        &&& costs_ok(rc, survey, self.pip_costs@)
        &&& (exists|types: Seq<i32>| #[trigger] self.learnt_for(ctx, survey, types))
    }

    pub open spec fn learnt_for(self, ctx: Context, survey: LookaheadSurvey, types: Seq<i32>) -> bool {
        &&& rising(types)
        &&& forall|b: i32| #[trigger] types.contains(b) <==> is_driver(ctx.chipdb, survey.reps@, b)
        &&& types.len() > 0 ==> {
            &&& self.classes_upto(ctx, survey, types, types.len() as int)
            &&& forall|c: int|
                0 <= c < types.len() ==> rate_le(
                    self.rates@[self.default_class as int],
                    #[trigger] self.rates@[c],
                )
        }
        &&& types.len() == 0 ==> {
            &&& self.class_of_bel_type@ == Map::<IdString, LookaheadClass>::empty()
            &&& self.default_class == 0
            &&& self.rates@ == seq![Rate { num: 1, den: 1 }]
            &&& self.reachable@.len() == 1
            &&& shaped(ctx.chipdb, self.reachable@[0]@)
            &&& forall|x: TypeWire| valid_tw(ctx.chipdb, x) ==> #[trigger] marked(self.reachable@[0]@, x)
            &&& self.class_names@.len() == 1
            &&& self.class_names@[0]@ == "DEFAULT"@
        }
    }

    /// Learns from a device. `rc` gives the cost of driving a conductor for each span.
    #[verifier::rlimit(60)]
    pub fn build(ctx: &Context, survey: &LookaheadSurvey, rc: &Vec<i64>) -> (la: Self)
        requires
            ctx.wf(),
            survey.surveys(*ctx),
            rc_ok(rc@, *survey),
        ensures
            la.learnt(*ctx, *survey, rc@),
    {
        let chip = &ctx.chipdb;
        proof {
            assert forall|tt: int| 0 <= tt < survey.reps@.len() && (
            #[trigger] survey.reps@[tt]) is Some implies chip.valid_tile(survey.reps@[tt]->0 as int)
                && chip.tiles@[survey.reps@[tt]->0 as int] == tt by {
                assert(is_rep(*chip, tt, chip.tiles@.len() as int, survey.reps@[tt]));
            }
        }
        let adj = adjacency(chip);
        let pip_costs = model_costs(ctx, survey, rc);
        let types = driver_types(chip, &survey.reps);
        let mut la = Lookahead {
            rates: Vec::new(),
            class_of_bel_type: IdMap::new(),
            default_class: 0,
            class_names: Vec::new(),
            reachable: Vec::new(),
            pip_costs,
        };
        for c in 0..types.len()
            invariant
                ctx.wf(),
                chip == ctx.chipdb,
                survey.surveys(*ctx),
                reps_ok(*chip, survey.reps@),
                adjacency_ok(*chip, adj@),
                costs_ok(rc@, *survey, la.pip_costs@),
                rising(types@),
                la.default_class == 0,
                la.classes_upto(*ctx, *survey, types@, c as int),
        {
            let bel_type: i32 = types[c];
            let bits = reach_of(chip, &survey.reps, &adj, bel_type);
            let rate = find_rate(ctx, survey, &la.pip_costs, &bits, Ghost(rc@));
            let name = class_label(ctx, bel_type);
            proof {
                lemma_rising_bound(types@);
            }
            let ghost before = la;
            let _ = la.class_of_bel_type.insert(IdString(bel_type), c as u32);
            la.rates.push(rate);
            la.class_names.push(name);
            la.reachable.push(bits);
            proof {
                assert forall|k: int| 0 <= k < c + 1 implies la.class_ok(
                    *ctx,
                    *survey,
                    k,
                    #[trigger] types@[k],
                ) by {
                    if k < c {
                        assert(before.class_ok(*ctx, *survey, k, types@[k]));
                        assert(la.reachable@[k] == before.reachable@[k]);
                        assert(la.rates@[k] == before.rates@[k]);
                        assert(la.class_names@[k] == before.class_names@[k]);
                    }
                }
                assert forall|k: int| 0 <= k < c + 1 implies la.class_of_bel_type@.contains_key(
                    IdString(#[trigger] types@[k]),
                ) by {
                    if k < c {
                        assert(before.class_of_bel_type@.contains_key(IdString(types@[k])));
                    }
                }
            }
        }
        if la.rates.len() == 0 {
            la.rates.push(Rate { num: 1, den: 1 });
            la.class_names.push(String::from_str("DEFAULT"));
            la.reachable.push(blank(chip, true));
            proof {
                assert(la.rates@ =~= seq![Rate { num: 1, den: 1 }]);
                assert(la.class_of_bel_type@ =~= Map::<IdString, LookaheadClass>::empty());
                assert(la.learnt_for(*ctx, *survey, types@));
            }
            return la;
        }
        let mut best: usize = 0;
        for i in 0..la.rates.len()
            invariant
                best < la.rates@.len(),
                forall|c: int|
                    0 <= c < la.rates@.len() ==> (#[trigger] la.rates@[c]).num >= 1 && la.rates@[c].den >= 1,
                i > 0 ==> forall|c: int| 0 <= c < i ==> rate_le(la.rates@[best as int], #[trigger] la.rates@[c]),
                i == 0 ==> best == 0,
        {
            if is_less(la.rates[i], la.rates[best]) {
                proof {
                    assert forall|c: int| 0 <= c < i implies rate_le(
                        la.rates@[i as int],
                        #[trigger] la.rates@[c],
                    ) by {
                        lemma_rate_trans(la.rates@[i as int], la.rates@[best as int], la.rates@[c]);
                    }
                }
                best = i;
            }
        }
        proof {
            lemma_rising_bound(types@);
        }
        la.default_class = best as u32;
        assert(la.learnt_for(*ctx, *survey, types@)) by {
            assert forall|c: int| 0 <= c < types@.len() implies la.class_ok(
                *ctx,
                *survey,
                c,
                #[trigger] types@[c],
            ) by {
            }
        }
        la
    }

    /// What a pip costs; its largest delay and one for the step if the tables do not know it.
    pub open spec fn pip_cost_spec(self, chip: ChipDb, pip: PipId) -> int {
        let tt = chip.tiles@[pip.tile as int] as int;
        if tt < self.pip_costs@.len() && pip.index < self.pip_costs@[tt]@.len() {
            let c = self.pip_costs@[tt]@[pip.index as int] as int;
            if c < 1 {
                1
            } else if c > i32::MAX {
                i32::MAX as int
            } else {
                c
            }
        } else {
            chip.pip(pip).delay.greatest() + 1
        }
    }

    /// What a pip costs.
    pub fn pip_cost(&self, chipdb: &ChipDb, pip: PipId) -> (r: DelayT)
        requires
            chipdb.wf(),
            chipdb.valid_pip(pip),
        ensures
            r == self.pip_cost_spec(*chipdb, pip),
            r >= 1,
    {
        let tt: usize = chipdb.tiles[pip.tile as usize];
        let pi: usize = pip.index as usize;
        if tt < self.pip_costs.len() && pi < self.pip_costs[tt].len() {
            let c: i64 = self.pip_costs[tt][pi];
            if c < 1 {
                1
            } else if c > i32::MAX as i64 {
                i32::MAX
            } else {
                c as i32
            }
        } else {
            chipdb.pip_delay(pip).max_delay() + 1
        }
    }

    /// The class of a kind of site.
    pub fn class_for_bel_type(&self, bel_type: i32) -> (r: Option<LookaheadClass>)
        ensures
            r == (if self.class_of_bel_type@.contains_key(IdString(bel_type)) {
                Some(self.class_of_bel_type@[IdString(bel_type)])
            } else {
                None
            }),
    {
        match self.class_of_bel_type.get(IdString(bel_type)) {
            Some(c) => Some(*c),
            None => None,
        }
    }

    /// The class to fall back on.
    pub fn default_class(&self) -> (r: LookaheadClass)
        ensures
            r == self.default_class,
    {
        self.default_class
    }

    /// The name of a class; a question mark for one that does not exist.
    pub fn class_name(&self, class: LookaheadClass) -> (r: &str)
        ensures
            r@ == (if class < self.class_names@.len() {
                self.class_names@[class as int]@
            } else {
                "?"@
            }),
    {
        if (class as usize) < self.class_names.len() {
            self.class_names[class as usize].as_str()
        } else {
            "?"
        }
    }

    /// Whether a class reaches a wire: yes for classes and tile types that the tables do not know, no
    /// for wires that they do not know.
    pub open spec fn is_reachable_spec(self, chip: ChipDb, wire: WireId, class: LookaheadClass) -> bool {
        let tt = chip.tiles@[wire.tile as int] as int;
        if class >= self.reachable@.len() {
            true
        } else if tt >= self.reachable@[class as int]@.len() {
            true
        } else {
            let bits = self.reachable@[class as int]@[tt]@;
            wire.index < bits.len() && bits[wire.index as int]
        }
    }

    /// Whether a class reaches a wire.
    pub fn is_reachable(&self, chipdb: &ChipDb, wire: WireId, class: LookaheadClass) -> (r: bool)
        requires
            chipdb.wf(),
            chipdb.valid_wire(wire),
        ensures
            r == self.is_reachable_spec(*chipdb, wire, class),
    {
        let cls: usize = class as usize;
        if cls >= self.reachable.len() {
            return true;
        }
        let tt: usize = chipdb.tiles[wire.tile as usize];
        if tt >= self.reachable[cls].len() {
            return true;
        }
        let wi: usize = wire.index as usize;
        wi < self.reachable[cls][tt].len() && self.reachable[cls][tt][wi]
    }

    /// The rate of a class, or that of the class to fall back on.
    pub open spec fn rate_of(self, class: LookaheadClass) -> Rate {
        if class < self.rates@.len() {
            self.rates@[class as int]
        } else {
            self.rates@[self.default_class as int]
        }
    }

    /// The estimate: distance times rate, rounded down, and held at the largest delay.
    pub open spec fn estimate_spec(self, chip: ChipDb, src: WireId, dst: WireId, class: LookaheadClass) -> int {
        let r = self.rate_of(class);
        let h = (chip.distance(src.tile as int, dst.tile as int) * r.num) / (r.den as int);
        if h > i32::MAX {
            i32::MAX as int
        } else {
            h
        }
    }

    /// The estimated cost between two wires for a class of drivers.
    pub fn estimate_delay(
        &self,
        chipdb: &ChipDb,
        src: WireId,
        dst: WireId,
        class: LookaheadClass,
    ) -> (r: DelayT)
        requires
            self.wf(),
            chipdb.wf(),
            chipdb.valid_wire(src),
            chipdb.valid_wire(dst),
        ensures
            r == self.estimate_spec(*chipdb, src, dst, class),
            r >= 0,
    {
        let d: i32 = chipdb.manhattan(src.tile, dst.tile);
        let rate: Rate = if (class as usize) < self.rates.len() {
            self.rates[class as usize]
        } else {
            self.rates[self.default_class as usize]
        };
        assert(rate == self.rate_of(class));
        proof {
            assert(0 <= d * rate.num <= 0x7fff_ffff * 0x7fff_ffff_ffff_ffff) by (nonlinear_arith)
                requires
                    0 <= d <= 0x7fff_ffff,
                    0 <= rate.num <= 0x7fff_ffff_ffff_ffff,
            ;
        }
        let product: i128 = (d as i128) * (rate.num as i128);
        let den: i128 = rate.den as i128;
        let h: i128 = product / den;
        proof {
            assert(0 <= h) by (nonlinear_arith)
                requires
                    h == product as int / den as int,
                    product >= 0,
                    den >= 1,
            ;
        }
        if h > i32::MAX as i128 {
            i32::MAX
        } else {
            h as i32
        }
    }
}

/// The name of a kind of site: the text of its name, or its number after a question mark.
pub open spec fn class_text(ctx: Context, bel_type: i32) -> Seq<char> {
    if 0 <= bel_type < ctx.pool@.len() {
        ctx.pool@[bel_type as int]
    } else {
        "?"@ + decimal_text(bel_type as int)
    }
}

fn class_label(ctx: &Context, bel_type: i32) -> (r: String)
    ensures
        r@ == class_text(*ctx, bel_type),
{
    match ctx.pool.lookup(IdString(bel_type)) {
        Some(s) => String::from_str(s),
        None => {
            let number = decimal(bel_type);
            let mut s = String::from_str("?");
            s.append(number.as_str());
            s
        },
    }
}

/// A rising list of `i32` is not longer than there are such numbers.
proof fn lemma_rising_bound(s: Seq<i32>)
    requires
        rising(s),
    ensures
        s.len() <= 0x1_0000_0000,
        forall|i: int| 0 <= i < s.len() ==> #[trigger] s[i] >= i32::MIN + i,
    decreases s.len(),
{
    if s.len() > 0 {
        let head = s.drop_last();
        lemma_rising_bound(head);
        assert forall|i: int| 0 <= i < s.len() implies #[trigger] s[i] >= i32::MIN + i by {
            if i < head.len() {
                assert(head[i] == s[i]);
            } else if i > 0 {
                assert(head[i - 1] == s[i - 1]);
                assert(s[i - 1] < s[i]);
            }
        }
        assert(s[s.len() - 1] >= i32::MIN + s.len() - 1);
    }
}

} // verus!
