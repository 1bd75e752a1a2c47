//! What holds of the estimates of a lookahead.

use crate::chipdb::{ChipDb, PipId, WireId};
use crate::context::Context;
use crate::router::lookahead::{
    farthest, pip_in_reach, rate_le, span_of, Lookahead, LookaheadClass, LookaheadSurvey, Rate, UNKNOWN_CLASS,
};
use vstd::prelude::*;

verus! {

/// An estimate is the same in both directions.
pub proof fn estimates_are_symmetric(la: Lookahead, chip: ChipDb, a: WireId, b: WireId, class: LookaheadClass)
    ensures
        la.estimate_spec(chip, a, b, class) == la.estimate_spec(chip, b, a, class),
{
    assert(chip.distance(a.tile as int, b.tile as int) == chip.distance(b.tile as int, a.tile as int));
}

/// Between wires of one tile the estimate is zero.
pub proof fn estimates_vanish_within_a_tile(
    la: Lookahead,
    chip: ChipDb,
    a: WireId,
    b: WireId,
    class: LookaheadClass,
)
    requires
        la.wf(),
        a.tile == b.tile,
    ensures
        la.estimate_spec(chip, a, b, class) == 0,
{
    let r = la.rate_of(class);
    assert(chip.distance(a.tile as int, b.tile as int) == 0);
    assert(0 * r.num == 0);
    assert(0int / (r.den as int) == 0) by (nonlinear_arith)
        requires
            r.den >= 1,
    ;
}

/// A class that no driver has is estimated like the class to fall back on.
pub proof fn unknown_drivers_fall_back(la: Lookahead, chip: ChipDb, a: WireId, b: WireId)
    requires
        la.wf(),
        la.rates@.len() <= UNKNOWN_CLASS,
    ensures
        la.estimate_spec(chip, a, b, UNKNOWN_CLASS) == la.estimate_spec(chip, a, b, la.default_class),
{
}

/// A smaller rate gives no larger share of a distance.
proof fn lemma_share(d: int, a: Rate, b: Rate)
    requires
        d >= 0,
        a.num >= 0,
        a.den >= 1,
        b.den >= 1,
        rate_le(a, b),
    ensures
        0 <= (d * a.num) / (a.den as int) <= (d * b.num) / (b.den as int),
{
    let (x, y) = (a.num as int, b.num as int);
    let (p, q) = (a.den as int, b.den as int);
    let h = (d * x) / p;
    assert(0 <= h && h * p <= d * x) by (nonlinear_arith)
        requires
            h == (d * x) / p,
            d >= 0,
            x >= 0,
            p >= 1,
    ;
    assert((h * q) * p <= (d * y) * p) by (nonlinear_arith)
        requires
            h * p <= d * x,
            x * q <= y * p,
            d >= 0,
            p >= 1,
            q >= 1,
    {
        assert((h * p) * q <= (d * x) * q) by (nonlinear_arith)
            requires
                h * p <= d * x,
                q >= 1,
        ;
        assert(d * (x * q) <= d * (y * p)) by (nonlinear_arith)
            requires
                x * q <= y * p,
                d >= 0,
        ;
        assert((h * p) * q == (h * q) * p) by (nonlinear_arith);
        assert((d * x) * q == d * (x * q)) by (nonlinear_arith);
        assert((d * y) * p == d * (y * p)) by (nonlinear_arith);
    }
    assert(h <= (d * y) / q) by (nonlinear_arith)
        requires
            (h * q) * p <= (d * y) * p,
            p >= 1,
            q >= 1,
    {
        assert(h * q <= d * y) by (nonlinear_arith)
            requires
                (h * q) * p <= (d * y) * p,
                p >= 1,
        ;
        assert(h <= (d * y) / q) by (nonlinear_arith)
            requires
                h * q <= d * y,
                q >= 1,
        ;
    }
}

/// Of what is learnt from a device, the estimate for an unknown driver is never negative and
/// never above that for a driver of any class.
pub proof fn unknown_drivers_are_estimated_least(
    la: Lookahead,
    ctx: Context,
    survey: LookaheadSurvey,
    rc: Seq<i64>,
    a: WireId,
    b: WireId,
    class: LookaheadClass,
)
    requires
        la.learnt(ctx, survey, rc),
        class < la.rates@.len() <= UNKNOWN_CLASS,
    ensures
        0 <= la.estimate_spec(ctx.chipdb, a, b, UNKNOWN_CLASS) <= la.estimate_spec(ctx.chipdb, a, b, class),
{
    let types = choose|types: Seq<i32>| #[trigger] la.learnt_for(ctx, survey, types);
    let least = la.rates@[la.default_class as int];
    let own = la.rates@[class as int];
    if types.len() > 0 {
        assert(la.classes_upto(ctx, survey, types, types.len() as int));
        assert(rate_le(least, own));
    } else {
        assert(least == own);
    }
    let d = ctx.chipdb.distance(a.tile as int, b.tile as int);
    lemma_share(d, least, own);
}

/// The pips lead from the wire `s` to the conductor of `w`: the first leaves `s`, and each of the
/// others starts at the conductor that the one before drives.
pub open spec fn chained(chip: ChipDb, s: WireId, path: Seq<PipId>, w: WireId) -> bool
    decreases path.len(),
{
    if path.len() == 0 {
        s == w
    } else {
        let p = path.last();
        chip.valid_pip(p) && chip.joined(chip.dst(p), w) && chained(chip, s, path.drop_last(), chip.src(p))
    }
}

/// The survey shows the pip as one that the class reaches, and with a span no smaller than that
/// of the conductor that it drives.
pub open spec fn shown_in_reach(la: Lookahead, chip: ChipDb, survey: LookaheadSurvey, class: int, p: PipId) -> bool {
    let tt = chip.tiles@[p.tile as int] as int;
    &&& pip_in_reach(survey, la.reachable@[class]@, tt, p.index as int)
    &&& span_of(chip, chip.dst(p)) <= survey.pips@[tt]@[p.index as int].span
}

/// What the lookahead says the pips of a path cost together.
pub open spec fn chain_cost(la: Lookahead, chip: ChipDb, path: Seq<PipId>) -> int
    decreases path.len(),
{
    if path.len() == 0 {
        0
    } else {
        chain_cost(la, chip, path.drop_last()) + la.pip_cost_spec(chip, path.last())
    }
}

proof fn lemma_farthest(chip: ChipDb, tile: int, wires: Seq<WireId>, n: int, i: int)
    requires
        0 <= i < n <= wires.len(),
    ensures
        chip.distance(wires[i].tile as int, tile) <= farthest(chip, tile, wires, n),
    decreases n,
{
    if i < n - 1 {
        lemma_farthest(chip, tile, wires, n - 1, i);
    }
}

/// A conductor goes no farther than its span.
proof fn lemma_within_span(chip: ChipDb, a: WireId, b: WireId)
    requires
        chip.wf(),
        chip.joined(a, b),
    ensures
        0 <= chip.distance(a.tile as int, b.tile as int) <= span_of(chip, a),
{
    if a != b {
        let peers = chip.peers(a);
        chip.lemma_peers(a);
        assert(peers.contains(b));
        let i = choose|i: int| 0 <= i < peers.len() && peers[i] == b;
        lemma_farthest(chip, a.tile as int, peers, peers.len() as int, i);
    }
}

/// The cheapest rate, over the distance that a path covers, costs no more than the path, or the
/// path costs as much as a delay can be.
proof fn lemma_chain(
    la: Lookahead,
    ctx: Context,
    survey: LookaheadSurvey,
    rc: Seq<i64>,
    types: Seq<i32>,
    class: int,
    s: WireId,
    path: Seq<PipId>,
    w: WireId,
)
    requires
        ctx.wf(),
        la.learnt(ctx, survey, rc),
        la.learnt_for(ctx, survey, types),
        types.len() > 0,
        0 <= class < la.rates@.len(),
        chained(ctx.chipdb, s, path, w),
        forall|i: int|
            0 <= i < path.len() ==> shown_in_reach(la, ctx.chipdb, survey, class, #[trigger] path[i]),
    ensures
        chain_cost(la, ctx.chipdb, path) >= 0,
        ctx.chipdb.distance(s.tile as int, w.tile as int) * la.rates@[class].num <= chain_cost(
            la,
            ctx.chipdb,
            path,
        ) * la.rates@[class].den || chain_cost(la, ctx.chipdb, path) >= i32::MAX,
    decreases path.len(),
{
    let chip = ctx.chipdb;
    let rate = la.rates@[class];
    let (x, y) = (rate.num as int, rate.den as int);
    if path.len() == 0 {
        assert(chip.distance(s.tile as int, w.tile as int) == 0);
        assert(0 * x == 0 && 0 * y == 0);
    } else {
        let p = path.last();
        let front = path.drop_last();
        assert forall|i: int| 0 <= i < front.len() implies shown_in_reach(
            la,
            chip,
            survey,
            class,
            #[trigger] front[i],
        ) by {
            assert(front[i] == path[i]);
        }
        lemma_chain(la, ctx, survey, rc, types, class, s, front, chip.src(p));
        lemma_within_span(chip, chip.dst(p), w);
        assert(shown_in_reach(la, chip, survey, class, path[path.len() - 1]));
        let tt = chip.tiles@[p.tile as int] as int;
        let k = p.index as int;
        let span = survey.pips@[tt]@[k].span as int;
        assert(la.classes_upto(ctx, survey, types, types.len() as int));
        assert(la.class_ok(ctx, survey, class, types[class]));
        assert(pip_in_reach(survey, la.reachable@[class]@, tt, k));
        assert(la.pip_costs@[tt]@.len() == survey.pips@[tt]@.len());
        let own = la.pip_costs@[tt]@[k] as int;
        assert(own >= 1);
        assert(x * span <= own * y);
        let before = chain_cost(la, chip, front);
        let here = la.pip_cost_spec(chip, p);
        let total = before + here;
        assert(here == own || here >= i32::MAX);
        if before < i32::MAX && here == own {
            let d = chip.distance(s.tile as int, w.tile as int);
            let d1 = chip.distance(s.tile as int, p.tile as int);
            let d2 = chip.distance(p.tile as int, w.tile as int);
            assert(d <= d1 + d2);
            assert(d * x <= total * y) by (nonlinear_arith)
                requires
                    d <= d1 + d2,
                    d2 <= span,
                    x >= 1,
                    d1 * x <= before * y,
                    x * span <= own * y,
                    total == before + own,
            {
                assert(d * x <= (d1 + span) * x) by (nonlinear_arith)
                    requires
                        d <= d1 + span,
                        x >= 1,
                ;
                assert((d1 + span) * x == d1 * x + x * span) by (nonlinear_arith);
                assert((before + own) * y == before * y + own * y) by (nonlinear_arith);
            }
        }
    }
}

/// Of what is learnt from a device with drivers, the estimate for a class is never above what a
/// path costs, if the survey shows each pip of the path as one that the class reaches and with a
/// span no smaller than that of the conductor that the pip drives.
pub proof fn estimates_are_lower_bounds(
    la: Lookahead,
    ctx: Context,
    survey: LookaheadSurvey,
    rc: Seq<i64>,
    class: LookaheadClass,
    s: WireId,
    path: Seq<PipId>,
    w: WireId,
)
    requires
        ctx.wf(),
        la.learnt(ctx, survey, rc),
        la.class_of_bel_type@.dom().len() > 0,
        class < la.rates@.len(),
        chained(ctx.chipdb, s, path, w),
        forall|i: int|
            0 <= i < path.len() ==> shown_in_reach(
                la,
                ctx.chipdb,
                survey,
                class as int,
                #[trigger] path[i],
            ),
    ensures
        la.estimate_spec(ctx.chipdb, s, w, class) <= chain_cost(la, ctx.chipdb, path),
{
    let chip = ctx.chipdb;
    let types = choose|types: Seq<i32>| #[trigger] la.learnt_for(ctx, survey, types);
    assert(types.len() > 0) by {
        if types.len() == 0 {
            assert(la.class_of_bel_type@.dom() =~= Set::empty());
        }
    }
    lemma_chain(la, ctx, survey, rc, types, class as int, s, path, w);
    let rate = la.rate_of(class);
    let (x, y) = (rate.num as int, rate.den as int);
    let d = chip.distance(s.tile as int, w.tile as int);
    let total = chain_cost(la, chip, path);
    if total < i32::MAX {
        assert((d * x) / y <= total) by (nonlinear_arith)
            requires
                d * x <= total * y,
                y >= 1,
        ;
    }
}

} // verus!
