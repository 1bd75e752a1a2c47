//! What routes, trees and counts along them hold.

use crate::chipdb::{ChipDb, PipId, WireId};
use crate::context::{Binding, Context};
use crate::metrics::BoundingBox;
use crate::netlist::NetId;
use crate::router::attempt::{missed, reached, tree_upto};
use crate::router::common::{first_const_pip, first_const_pip_of, path_wires_after, SinkRoute};
use crate::router::corridor::TileXy;
use crate::router::diagnose::{failures, named_users, SinkDiagnosis};
use crate::router::effort::{pips_in, wires_in};
use crate::router::gate::{count_granted, Reservation};
use crate::router::lookahead::{farthest, span_of};
use crate::router::net_laws::lemma_picked;
use crate::router::region::{area, default_visit_limit};
use crate::router::scoped::{margin_for, span_of as box_span};
use crate::router::segments::{around, leg_pips, visits_for, Run, SegmentRoute};
use crate::timing::domain_laws::places;
use vstd::prelude::*;

verus! {

/// Entry `k` of the pips into the wire leads from a wire with the constant.
pub open spec fn gives_constant(chip: ChipDb, w: WireId, k: int, value: i32) -> bool {
    &&& 0 <= k < chip.wire(w).pips_uphill@.len()
    &&& chip.wire(chip.src(PipId { tile: w.tile, index: chip.wire(w).pips_uphill@[k] })).const_value == value
}

proof fn lemma_const_pip(chip: ChipDb, tile: i32, list: Seq<i32>, value: i32)
    ensures
        ({
            let r = first_const_pip(chip, tile, list, value);
            &&& r is None <==> forall|k: int|
                0 <= k < list.len() ==> chip.wire(chip.src(PipId { tile, index: #[trigger] list[k] })).const_value
                    != value
            &&& r is Some ==> exists|k: int|
                {
                    &&& 0 <= k < list.len()
                    &&& r->0 == (PipId { tile, index: #[trigger] list[k] })
                    &&& chip.wire(chip.src(r->0)).const_value == value
                    &&& forall|i: int|
                        0 <= i < k ==> chip.wire(chip.src(PipId { tile, index: #[trigger] list[i] })).const_value
                            != value
                }
        }),
    decreases list.len(),
{
    if list.len() > 0 {
        let rest = list.skip(1);
        let p = PipId { tile, index: list[0] };
        lemma_const_pip(chip, tile, rest, value);
        if chip.wire(chip.src(p)).const_value != value {
            if first_const_pip(chip, tile, rest, value) is Some {
                let r = first_const_pip(chip, tile, rest, value);
                let k = choose|k: int|
                    {
                        &&& 0 <= k < rest.len()
                        &&& r->0 == (PipId { tile, index: #[trigger] rest[k] })
                        &&& chip.wire(chip.src(r->0)).const_value == value
                        &&& forall|i: int|
                            0 <= i < k ==> chip.wire(
                                chip.src(PipId { tile, index: #[trigger] rest[i] }),
                            ).const_value != value
                    };
                assert(list[k + 1] == rest[k]);
                assert forall|i: int| 0 <= i < k + 1 implies chip.wire(
                    chip.src(PipId { tile, index: #[trigger] list[i] }),
                ).const_value != value by {
                    if i > 0 {
                        assert(rest[i - 1] == list[i]);
                    }
                }
            } else {
                assert forall|k: int| 0 <= k < list.len() implies chip.wire(
                    chip.src(PipId { tile, index: #[trigger] list[k] }),
                ).const_value != value by {
                    if k > 0 {
                        assert(rest[k - 1] == list[k]);
                    }
                }
            }
        }
    }
}

/// A pip from a wire with the constant is found exactly if one leads into some wire of the list; it is
/// the first of the first such wire.
pub proof fn constants_are_found_wire_by_wire(chip: ChipDb, wires: Seq<WireId>, value: i32)
    ensures
        ({
            let r = first_const_pip_of(chip, wires, value);
            &&& r is None <==> forall|i: int, k: int|
                0 <= i < wires.len() ==> !(#[trigger] gives_constant(chip, wires[i], k, value))
            &&& r is Some ==> exists|i: int, k: int|
                {
                    &&& 0 <= i < wires.len()
                    &&& #[trigger] gives_constant(chip, wires[i], k, value)
                    &&& r->0 == (PipId { tile: wires[i].tile, index: chip.wire(wires[i]).pips_uphill@[k] })
                    &&& forall|j: int| 0 <= j < k ==> !(#[trigger] gives_constant(chip, wires[i], j, value))
                    &&& forall|h: int, j: int|
                        0 <= h < i ==> !(#[trigger] gives_constant(chip, wires[h], j, value))
                }
        }),
    decreases wires.len(),
{
    let r = first_const_pip_of(chip, wires, value);
    if wires.len() > 0 {
        let w = wires[0];
        let list = chip.wire(w).pips_uphill@;
        let rest = wires.skip(1);
        lemma_const_pip(chip, w.tile, list, value);
        constants_are_found_wire_by_wire(chip, rest, value);
        let here = first_const_pip(chip, w.tile, list, value);
        if here is Some {
            let k = choose|k: int|
                {
                    &&& 0 <= k < list.len()
                    &&& here->0 == (PipId { tile: w.tile, index: #[trigger] list[k] })
                    &&& chip.wire(chip.src(here->0)).const_value == value
                    &&& forall|i: int|
                        0 <= i < k ==> chip.wire(
                            chip.src(PipId { tile: w.tile, index: #[trigger] list[i] }),
                        ).const_value != value
                };
            assert(gives_constant(chip, wires[0], k, value));
            assert forall|j: int| 0 <= j < k implies !(#[trigger] gives_constant(chip, wires[0], j, value)) by {
                assert(chip.wire(chip.src(PipId { tile: w.tile, index: list[j] })).const_value != value);
            }
        } else {
            assert forall|k: int| !(#[trigger] gives_constant(chip, wires[0], k, value)) by {
                if 0 <= k < list.len() {
                    assert(chip.wire(chip.src(PipId { tile: w.tile, index: list[k] })).const_value != value);
                }
            }
            if r is Some {
                let (i, k) = choose|i: int, k: int|
                    {
                        &&& 0 <= i < rest.len()
                        &&& #[trigger] gives_constant(chip, rest[i], k, value)
                        &&& r->0 == (PipId { tile: rest[i].tile, index: chip.wire(rest[i]).pips_uphill@[k] })
                        &&& forall|j: int| 0 <= j < k ==> !(#[trigger] gives_constant(chip, rest[i], j, value))
                        &&& forall|h: int, j: int|
                            0 <= h < i ==> !(#[trigger] gives_constant(chip, rest[h], j, value))
                    };
                assert(wires[i + 1] == rest[i]);
                assert(gives_constant(chip, wires[i + 1], k, value));
                assert forall|h: int, j: int| 0 <= h < i + 1 implies !(#[trigger] gives_constant(
                    chip,
                    wires[h],
                    j,
                    value,
                )) by {
                    if h > 0 {
                        assert(rest[h - 1] == wires[h]);
                        assert(!gives_constant(chip, rest[h - 1], j, value));
                    }
                }
            } else {
                assert forall|i: int, k: int| 0 <= i < wires.len() implies !(#[trigger] gives_constant(
                    chip,
                    wires[i],
                    k,
                    value,
                )) by {
                    if i > 0 {
                        assert(rest[i - 1] == wires[i]);
                        assert(!gives_constant(chip, rest[i - 1], k, value));
                    }
                }
            }
        }
    }
}

/// Binding a path gives the net every wire that a pip of it drives, and changes no other binding.
pub proof fn every_wire_of_a_path_is_bound(
    chip: ChipDb,
    bindings: Map<WireId, Binding>,
    net: NetId,
    path: Seq<PipId>,
    n: int,
)
    requires
        0 <= n <= path.len(),
    ensures
        ({
            let new = path_wires_after(chip, bindings, net, path, n);
            &&& forall|i: int|
                0 <= i < n ==> new.contains_key(chip.dst(#[trigger] path[i])) && new[chip.dst(path[i])].net == net
            &&& forall|w: WireId|
                (forall|i: int| 0 <= i < n ==> chip.dst(#[trigger] path[i]) != w) ==> (#[trigger] new.contains_key(w)
                    <==> bindings.contains_key(w)) && (bindings.contains_key(w) ==> new[w] == bindings[w])
        }),
    decreases n,
{
    if n > 0 {
        every_wire_of_a_path_is_bound(chip, bindings, net, path, n - 1);
    }
}

/// The route has the wire: it is joined to one that a pip drives, or it is the sink where sinks count.
pub open spec fn route_has(ctx: Context, with_sink: bool, outcome: Option<SinkRoute>, w: WireId) -> bool {
    &&& outcome is Some
    &&& (with_sink && outcome->0.sink_wire == w) || exists|j: int|
        0 <= j < outcome->0.pips@.len() && ctx.conductor_of(ctx.chipdb.dst(#[trigger] outcome->0.pips@[j])).contains(w)
}

/// The tree has its wires from the start and those of every route, and no others.
pub proof fn trees_grow_by_every_route(
    ctx: Context,
    start: Set<WireId>,
    with_sink: bool,
    outcomes: Seq<Option<SinkRoute>>,
    k: int,
)
    requires
        0 <= k <= outcomes.len(),
    ensures
        forall|w: WireId| #[trigger]
            tree_upto(ctx, start, with_sink, outcomes, k).contains(w) <==> start.contains(w) || exists|i: int|
                0 <= i < k && route_has(ctx, with_sink, #[trigger] outcomes[i], w),
    decreases k,
{
    if k > 0 {
        trees_grow_by_every_route(ctx, start, with_sink, outcomes, k - 1);
        let part = tree_upto(ctx, start, with_sink, outcomes, k - 1);
        let all = tree_upto(ctx, start, with_sink, outcomes, k);
        let last = outcomes[k - 1];
        assert forall|w: WireId| #[trigger] all.contains(w) <==> start.contains(w) || exists|i: int|
            0 <= i < k && route_has(ctx, with_sink, #[trigger] outcomes[i], w) by {
            assert(part.contains(w) <==> start.contains(w) || exists|i: int|
                0 <= i < k - 1 && route_has(ctx, with_sink, #[trigger] outcomes[i], w));
            assert(all.contains(w) <==> part.contains(w) || route_has(ctx, with_sink, last, w));
        }
    }
}

/// Holds of what was reached.
pub open spec fn is_reached() -> spec_fn(Option<SinkRoute>) -> bool {
    |o: Option<SinkRoute>| o is Some
}

/// Holds of the positions that were missed.
pub open spec fn is_missed(outcomes: Seq<Option<SinkRoute>>) -> spec_fn(int) -> bool {
    |i: int| outcomes[i] is None
}

/// Every route that was found is kept, in order, and every sink that was not reached is missed.
pub proof fn every_sink_is_reached_or_missed(sinks: Seq<WireId>, outcomes: Seq<Option<SinkRoute>>, k: int)
    requires
        0 <= k <= outcomes.len() <= sinks.len(),
    ensures
        ({
            let found = outcomes.take(k).filter(is_reached());
            let lost = places(outcomes.len()).take(k).filter(is_missed(outcomes));
            &&& reached(outcomes, k).len() == found.len()
            &&& forall|i: int| 0 <= i < found.len() ==> Some(#[trigger] reached(outcomes, k)[i]) == found[i]
            &&& missed(sinks, outcomes, k).len() == lost.len()
            &&& forall|i: int| 0 <= i < lost.len() ==> #[trigger] missed(sinks, outcomes, k)[i] == sinks[lost[i]]
            &&& reached(outcomes, k).len() + missed(sinks, outcomes, k).len() == k
        }),
    decreases k,
{
    lemma_picked(outcomes, k, is_reached());
    lemma_picked(places(outcomes.len()), k, is_missed(outcomes));
    if k > 0 {
        every_sink_is_reached_or_missed(sinks, outcomes, k - 1);
    }
}

/// Holds of the sinks that were not reached.
pub open spec fn has_failed() -> spec_fn(SinkDiagnosis) -> bool {
    |d: SinkDiagnosis| !(d.finding is Reached)
}

/// All sinks that were not reached are counted.
pub proof fn every_failure_counts(sinks: Seq<SinkDiagnosis>, n: int)
    requires
        0 <= n <= sinks.len(),
    ensures
        failures(sinks, n) == sinks.take(n).filter(has_failed()).len(),
    decreases n,
{
    lemma_picked(sinks, n, has_failed());
    if n > 0 {
        every_failure_counts(sinks, n - 1);
    }
}

/// Holds of the positions of users that name a cell.
pub open spec fn names_cell(users: Seq<crate::netlist::CellPin>) -> spec_fn(int) -> bool {
    |i: int| users[i].cell.0 != u32::MAX
}

/// All users that name a cell are looked at, in order.
pub proof fn every_named_user_is_looked_at(users: Seq<crate::netlist::CellPin>, n: int)
    requires
        0 <= n <= users.len(),
    ensures
        named_users(users, n) == places(users.len()).take(n).filter(names_cell(users)),
    decreases n,
{
    lemma_picked(places(users.len()), n, names_cell(users));
    if n > 0 {
        every_named_user_is_looked_at(users, n - 1);
    }
}

/// Holds of the positions of reservations that were made.
pub open spec fn was_granted(trail: Seq<Context>, list: Seq<Reservation>) -> spec_fn(int) -> bool {
    |i: int|
        forall|j: int|
            0 <= j < trail[i].conductor_of(list[i].wire).len() ==> !(trail[i].wire_bindings@.contains_key(
                #[trigger] trail[i].conductor_of(list[i].wire)[j],
            ) && trail[i].wire_bindings@[trail[i].conductor_of(list[i].wire)[j]].net != list[i].net)
}

/// A reservation is made exactly if no wire of the conductor belongs to another net at that time, and
/// all that are made are counted.
pub proof fn every_reservation_made_counts(trail: Seq<Context>, list: Seq<Reservation>, n: int)
    requires
        0 <= n <= list.len(),
    ensures
        count_granted(trail, list, n) == places(list.len()).take(n).filter(was_granted(trail, list)).len(),
    decreases n,
{
    lemma_picked(places(list.len()), n, was_granted(trail, list));
    if n > 0 {
        every_reservation_made_counts(trail, list, n - 1);
        let i = n - 1;
        crate::router::plan_laws::lemma_first_taken(
            trail[i],
            list[i].net,
            trail[i].conductor_of(list[i].wire),
        );
    }
}

/// The distance to the farthest wire of a list is not below that to any of them, and is that to one, or
/// nothing for an empty list.
pub proof fn the_farthest_wire_counts(chip: ChipDb, tile: int, wires: Seq<WireId>, n: int)
    requires
        0 <= n <= wires.len(),
    ensures
        farthest(chip, tile, wires, n) >= 0,
        forall|i: int|
            0 <= i < n ==> farthest(chip, tile, wires, n) >= chip.distance((#[trigger] wires[i]).tile as int, tile),
        farthest(chip, tile, wires, n) > 0 ==> exists|i: int|
            0 <= i < n && farthest(chip, tile, wires, n) == chip.distance((#[trigger] wires[i]).tile as int, tile),
    decreases n,
{
    if n > 0 {
        the_farthest_wire_counts(chip, tile, wires, n - 1);
        let here = chip.distance(wires[n - 1].tile as int, tile);
        if farthest(chip, tile, wires, n) > 0 && farthest(chip, tile, wires, n) != here {
            let part = n - 1;
            let i = choose|i: int|
                0 <= i < part && farthest(chip, tile, wires, part) == chip.distance(
                    (#[trigger] wires[i]).tile as int,
                    tile,
                );
            assert(farthest(chip, tile, wires, n) == chip.distance(wires[i].tile as int, tile));
        }
    }
}

/// A conductor spans the distance from a wire to the farthest wire of it, and at least one tile.
pub proof fn conductors_span_to_their_farthest_wire(chip: ChipDb, w: WireId)
    ensures
        span_of(chip, w) >= 1,
        forall|i: int|
            0 <= i < chip.peers(w).len() ==> span_of(chip, w) >= chip.distance(
                (#[trigger] chip.peers(w)[i]).tile as int,
                w.tile as int,
            ),
        span_of(chip, w) > 1 ==> exists|i: int|
            0 <= i < chip.peers(w).len() && span_of(chip, w) == chip.distance(
                (#[trigger] chip.peers(w)[i]).tile as int,
                w.tile as int,
            ),
{
    the_farthest_wire_counts(chip, w.tile as int, chip.peers(w), chip.peers(w).len() as int);
}

/// The pips along runs are those of each leg, one after the other.
pub proof fn every_pip_of_every_leg_counts(legs: Seq<SegmentRoute>, k: int)
    requires
        0 <= k <= legs.len(),
    ensures
        leg_pips(legs, k) == legs.map_values(|l: SegmentRoute| l.pips@).take(k).flatten(),
    decreases k,
{
    let lists = legs.map_values(|l: SegmentRoute| l.pips@);
    if k > 0 {
        every_pip_of_every_leg_counts(legs, k - 1);
        assert(lists.take(k) =~= lists.take(k - 1).push(legs[k - 1].pips@));
        lists.take(k - 1).lemma_flatten_push(legs[k - 1].pips@);
    } else {
        assert(lists.take(0) =~= Seq::<Seq<PipId>>::empty());
    }
}

/// The wires of one tile more, added to a sum.
pub open spec fn plus_wires(chip: ChipDb) -> spec_fn(int, int) -> int {
    |sum: int, t: int| sum + chip.type_of(t).wires@.len()
}

/// The pips of one tile more, added to a sum.
pub open spec fn plus_pips(chip: ChipDb) -> spec_fn(int, int) -> int {
    |sum: int, t: int| sum + chip.type_of(t).pips@.len()
}

/// The wires and the pips of a device are those of all its tiles together.
pub proof fn tiles_add_up(chip: ChipDb, n: nat)
    ensures
        wires_in(chip, n as int) == places(n).fold_left(0, plus_wires(chip)),
        pips_in(chip, n as int) == places(n).fold_left(0, plus_pips(chip)),
    decreases n,
{
    if n > 0 {
        tiles_add_up(chip, (n - 1) as nat);
        assert(places(n).drop_last() =~= places((n - 1) as nat));
    }
}

/// Room is looked for at least sixty tiles around a net, and three times as far as the net spans in its
/// longer direction.
pub proof fn room_is_looked_for_in_proportion(b: BoundingBox)
    ensures
        box_span(b) >= b.x1 - b.x0,
        box_span(b) >= b.y1 - b.y0,
        box_span(b) >= 0,
        box_span(b) == b.x1 - b.x0 || box_span(b) == b.y1 - b.y0 || box_span(b) == 0,
        margin_for(box_span(b)) >= 60,
        margin_for(box_span(b)) >= 3 * box_span(b) || margin_for(box_span(b)) == i32::MAX,
        margin_for(box_span(b)) == 60 || margin_for(box_span(b)) == 3 * box_span(b) || margin_for(box_span(b))
            == i32::MAX,
        margin_for(box_span(b)) == i32::MAX ==> 3 * box_span(b) >= i32::MAX,
{
}

/// Without a limit of its own a search looks at no more wires than any of its three budgets allows, and
/// at as many as one of them: a hundred and twenty-eight for each of the square of the distance and eight
/// more, two hundred and fifty-six for each tile of the region, and ten for each tile of the grid, with
/// ten thousand, ten thousand and a hundred thousand at the least.
pub proof fn the_smallest_budget_counts(grid: int, distance: int, region: Option<int>)
    requires
        0 <= grid,
        0 <= distance,
        region is Some ==> 0 <= region->0,
        (distance + 8) * (distance + 8) * 128 <= usize::MAX,
        (distance + 8) * (distance + 8) <= usize::MAX,
        distance + 8 <= usize::MAX,
        grid * 256 <= usize::MAX,
        region is Some ==> region->0 * 256 <= usize::MAX,
    ensures
        ({
            let n = default_visit_limit(grid, distance, region);
            let square = (distance + 8) * (distance + 8) * 128;
            let tiles = if region is Some {
                region->0 * 256
            } else {
                grid * 256
            };
            &&& n <= square || n <= 10_000
            &&& n <= tiles || n <= 10_000
            &&& n <= grid * 10 || n <= 100_000
            &&& n >= 10_000
            &&& n == square || n == tiles || n == grid * 10 || n == 10_000 || n == 100_000
            &&& n == 100_000 ==> grid * 10 <= 100_000 || square == 100_000 || tiles == 100_000
            &&& n == 10_000 ==> square <= 10_000 || tiles <= 10_000
        }),
{
}

/// The rectangle around a tile holds the tiles of the grid that lie within the margin of it in both
/// directions, and no others.
pub proof fn rectangles_lie_around_their_tile(chip: ChipDb, t: TileXy, margin: i32, x: int, y: int)
    requires
        0 <= t.x < chip.width,
        0 <= t.y < chip.height,
        0 <= margin,
    ensures
        around(chip, t, margin).has(x, y) <==> 0 <= x < chip.width && 0 <= y < chip.height && t.x - margin <= x <= t.x
            + margin && t.y - margin <= y <= t.y + margin,
{
}

/// A run may look at three thousand wires for each of its tiles, and at five thousand at the least.
pub proof fn longer_runs_look_at_more_wires(run: Run)
    requires
        run.start <= run.end,
        (run.end - run.start + 1) * 3000 <= usize::MAX,
    ensures
        visits_for(run) >= 5000,
        visits_for(run) >= 3000 * (run.end - run.start + 1),
        visits_for(run) == 5000 || visits_for(run) == 3000 * (run.end - run.start + 1),
{
}

/// A rectangle has as many tiles as its columns times its rows, and none where its corners are in the
/// wrong order.
pub proof fn rectangles_have_columns_times_rows(b: BoundingBox)
    ensures
        b.x0 <= b.x1 && b.y0 <= b.y1 && (b.x1 - b.x0 + 1) * (b.y1 - b.y0 + 1) <= usize::MAX ==> area(b) == (b.x1 - b.x0
            + 1) * (b.y1 - b.y0 + 1),
        b.x1 < b.x0 ==> area(b) == 0,
        b.y1 < b.y0 ==> area(b) == 0,
{
    let h = if b.y1 - b.y0 + 1 >= 0 {
        b.y1 - b.y0 + 1
    } else {
        0
    };
    let w = if b.x1 - b.x0 + 1 >= 0 {
        b.x1 - b.x0 + 1
    } else {
        0
    };
    assert(0 * h == 0 && w * 0 == 0) by (nonlinear_arith);
}

} // verus!
