//! What the rectangles of nets hold.

use crate::chipdb::WireId;
use crate::context::Context;
use crate::metrics::{hull, net_box, pin_wires};
use crate::netlist::NetId;
use crate::router::common::sinks_upto;
use crate::router::gate::{reservations_upto, Reservation};
use crate::router::plan_laws::{
    every_wired_user_is_a_sink, pins_have_the_wires_of_their_sites, some_user_wired, user_wired, wired_to,
};
use vstd::prelude::*;

verus! {

/// The wire is that of the driver or of a user of the net.
pub open spec fn at_pin(ctx: Context, net: NetId, w: WireId) -> bool {
    wired_to(ctx, ctx.design.nets@[net.0 as int].driver, w) || some_user_wired(ctx, net, w)
}

/// The wires of the pins of a net are those of its driver and of all its users.
pub proof fn every_pin_has_its_wire(ctx: Context, net: NetId, w: WireId)
    requires
        ctx.wf(),
        ctx.design.valid_net(net),
    ensures
        pin_wires(ctx, net).contains(w) <==> at_pin(ctx, net, w),
{
    let n = ctx.design.nets@[net.0 as int];
    assert(ctx.design.net_ok(n));
    let sinks = sinks_upto(ctx, n.users@, n.users@.len() as int);
    let all = pin_wires(ctx, net);
    every_wired_user_is_a_sink(ctx, net);
    if n.driver.connected() {
        assert(ctx.design.pin_ok(n.driver));
        pins_have_the_wires_of_their_sites(ctx, n.driver, w);
        if ctx.wire_of_pin(n.driver) is Some {
            assert(all[0] == ctx.wire_of_pin(n.driver)->0);
        }
    }
    let shift = all.len() - sinks.len();
    if some_user_wired(ctx, net, w) {
        let j = choose|j: int| user_wired(ctx, net, j, w);
        assert(sinks.contains(w));
        let i = choose|i: int| 0 <= i < sinks.len() && sinks[i] == w;
        assert(all[i + shift] == w);
    }
    if all.contains(w) {
        let i = choose|i: int| 0 <= i < all.len() && all[i] == w;
        if i >= shift {
            assert(sinks[i - shift] == w);
        }
    }
}

proof fn lemma_hull(ctx: Context, wires: Seq<WireId>, n: int)
    requires
        ctx.chipdb.wf(),
        0 < n <= wires.len(),
        forall|i: int| 0 <= i < wires.len() ==> ctx.chipdb.valid_wire(#[trigger] wires[i]),
    ensures
        ({
            let b = hull(ctx, wires, n);
            &&& forall|i: int|
                0 <= i < n ==> b.x0 <= ctx.chipdb.x_of((#[trigger] wires[i]).tile as int) <= b.x1 && b.y0
                    <= ctx.chipdb.y_of(wires[i].tile as int) <= b.y1
            &&& exists|i: int| 0 <= i < n && ctx.chipdb.x_of((#[trigger] wires[i]).tile as int) == b.x0
            &&& exists|i: int| 0 <= i < n && ctx.chipdb.x_of((#[trigger] wires[i]).tile as int) == b.x1
            &&& exists|i: int| 0 <= i < n && ctx.chipdb.y_of((#[trigger] wires[i]).tile as int) == b.y0
            &&& exists|i: int| 0 <= i < n && ctx.chipdb.y_of((#[trigger] wires[i]).tile as int) == b.y1
        }),
    decreases n,
{
    let k = n - 1;
    let w = wires[k];
    assert(ctx.chipdb.valid_wire(w));
    ctx.chipdb.lemma_tile_in_grid(w.tile as int);
    if n > 1 {
        lemma_hull(ctx, wires, n - 1);
        let o = hull(ctx, wires, k);
        let b = hull(ctx, wires, n);
        let a0 = choose|i: int| 0 <= i < k && ctx.chipdb.x_of((#[trigger] wires[i]).tile as int) == o.x0;
        let a1 = choose|i: int| 0 <= i < k && ctx.chipdb.x_of((#[trigger] wires[i]).tile as int) == o.x1;
        let c0 = choose|i: int| 0 <= i < k && ctx.chipdb.y_of((#[trigger] wires[i]).tile as int) == o.y0;
        let c1 = choose|i: int| 0 <= i < k && ctx.chipdb.y_of((#[trigger] wires[i]).tile as int) == o.y1;
        assert(ctx.chipdb.x_of(wires[if b.x0 == o.x0 { a0 } else { k }].tile as int) == b.x0);
        assert(ctx.chipdb.x_of(wires[if b.x1 == o.x1 { a1 } else { k }].tile as int) == b.x1);
        assert(ctx.chipdb.y_of(wires[if b.y0 == o.y0 { c0 } else { k }].tile as int) == b.y0);
        assert(ctx.chipdb.y_of(wires[if b.y1 == o.y1 { c1 } else { k }].tile as int) == b.y1);
    }
}

/// Some pin of the net lies in the column.
pub open spec fn pin_in_column(ctx: Context, net: NetId, x: int) -> bool {
    exists|w: WireId| #[trigger] at_pin(ctx, net, w) && w.tile as int % (ctx.chipdb.width as int) == x
}

/// Some pin of the net lies in the row.
pub open spec fn pin_in_row(ctx: Context, net: NetId, y: int) -> bool {
    exists|w: WireId| #[trigger] at_pin(ctx, net, w) && w.tile as int / (ctx.chipdb.width as int) == y
}

/// The rectangle of a net reaches the margin beyond every one of its pins, or to the edge of the grid,
/// and on each side no farther than the margin beyond some pin; it is the whole grid where the net has
/// no pin with a wire.
pub proof fn rectangles_hold_every_pin(ctx: Context, net: NetId, margin: int)
    requires
        ctx.wf(),
        ctx.design.valid_net(net),
        0 <= margin <= i32::MAX,
    ensures
        ({
            let b = net_box(ctx, net, margin);
            let wide = ctx.chipdb.width as int;
            let high = ctx.chipdb.height as int;
            &&& forall|w: WireId, x: int, y: int|
                #![trigger at_pin(ctx, net, w), b.has(x, y)]
                at_pin(ctx, net, w) && 0 <= x < wide && 0 <= y < high && w.tile as int % wide - margin <= x
                    <= w.tile as int % wide + margin && w.tile as int / wide - margin <= y <= w.tile as int / wide
                    + margin ==> b.has(x, y)
            &&& (exists|w: WireId| at_pin(ctx, net, w)) ==> {
                &&& b.x0 == 0 || pin_in_column(ctx, net, b.x0 + margin)
                &&& b.x1 == wide - 1 || pin_in_column(ctx, net, b.x1 - margin)
                &&& b.y0 == 0 || pin_in_row(ctx, net, b.y0 + margin)
                &&& b.y1 == high - 1 || pin_in_row(ctx, net, b.y1 - margin)
            }
            &&& (forall|w: WireId| !at_pin(ctx, net, w)) ==> b.x0 == 0 && b.y0 == 0 && b.x1 == wide - 1 && b.y1
                == high - 1
        }),
{
    let b = net_box(ctx, net, margin);
    let wires = pin_wires(ctx, net);
    let wide = ctx.chipdb.width as int;
    let n = ctx.design.nets@[net.0 as int];
    assert(ctx.design.net_ok(n));
    assert forall|w: WireId| #[trigger] at_pin(ctx, net, w) <==> wires.contains(w) by {
        every_pin_has_its_wire(ctx, net, w);
    }
    if wires.len() == 0 {
        assert forall|w: WireId| !at_pin(ctx, net, w) by {
            assert(!wires.contains(w));
        }
    } else {
        assert forall|i: int| 0 <= i < wires.len() implies ctx.chipdb.valid_wire(#[trigger] wires[i]) by {
            let w = wires[i];
            assert(wires.contains(w));
            assert(at_pin(ctx, net, w));
            if wired_to(ctx, n.driver, w) {
                pins_have_the_wires_of_their_sites(ctx, n.driver, w);
                ctx.lemma_wire_of_pin(n.driver);
            } else {
                let j = choose|j: int| user_wired(ctx, net, j, w);
                assert(ctx.design.pin_ok(n.users@[j]));
                pins_have_the_wires_of_their_sites(ctx, n.users@[j], w);
                ctx.lemma_wire_of_pin(n.users@[j]);
            }
        }
        let len = wires.len() as int;
        lemma_hull(ctx, wires, len);
        let h = hull(ctx, wires, len);
        let a0 = choose|i: int| 0 <= i < len && ctx.chipdb.x_of((#[trigger] wires[i]).tile as int) == h.x0;
        let a1 = choose|i: int| 0 <= i < len && ctx.chipdb.x_of((#[trigger] wires[i]).tile as int) == h.x1;
        let c0 = choose|i: int| 0 <= i < len && ctx.chipdb.y_of((#[trigger] wires[i]).tile as int) == h.y0;
        let c1 = choose|i: int| 0 <= i < len && ctx.chipdb.y_of((#[trigger] wires[i]).tile as int) == h.y1;
        ctx.chipdb.lemma_tile_in_grid(wires[a0].tile as int);
        ctx.chipdb.lemma_tile_in_grid(wires[a1].tile as int);
        ctx.chipdb.lemma_tile_in_grid(wires[c0].tile as int);
        ctx.chipdb.lemma_tile_in_grid(wires[c1].tile as int);
        assert(wires.contains(wires[a0]) && at_pin(ctx, net, wires[a0]));
        assert(wires.contains(wires[a1]) && at_pin(ctx, net, wires[a1]));
        assert(wires.contains(wires[c0]) && at_pin(ctx, net, wires[c0]));
        assert(wires.contains(wires[c1]) && at_pin(ctx, net, wires[c1]));
        assert forall|w: WireId, x: int, y: int|
            #![trigger at_pin(ctx, net, w), b.has(x, y)]
            at_pin(ctx, net, w) && 0 <= x < wide && 0 <= y < ctx.chipdb.height && w.tile as int % wide - margin <= x
                <= w.tile as int % wide + margin && w.tile as int / wide - margin <= y <= w.tile as int / wide
                + margin implies b.has(x, y) by {
            assert(wires.contains(w));
            let i = choose|i: int| 0 <= i < wires.len() && wires[i] == w;
            assert(h.x0 <= ctx.chipdb.x_of(wires[i].tile as int) <= h.x1);
        }
    }
}

/// The pins of a net are reserved: there is a reservation of a wire for a net of a list exactly if the
/// net is alive and has a driver, and the wire is that of one of its pins.
pub proof fn every_pin_is_reserved(ctx: Context, nets: Seq<NetId>, k: int)
    requires
        ctx.wf(),
        0 <= k <= nets.len(),
        forall|i: int| 0 <= i < nets.len() ==> ctx.design.valid_net(#[trigger] nets[i]),
    ensures
        forall|w: WireId, net: NetId| #[trigger]
            reservations_upto(ctx, nets, k).contains(Reservation { wire: w, net }) <==> nets.take(k).contains(net)
                && ctx.design.nets@[net.0 as int].alive && ctx.design.nets@[net.0 as int].driver.cell.0 != u32::MAX
                && at_pin(ctx, net, w),
    decreases k,
{
    let all = reservations_upto(ctx, nets, k);
    if k > 0 {
        every_pin_is_reserved(ctx, nets, k - 1);
        let part = reservations_upto(ctx, nets, k - 1);
        let id = nets[k - 1];
        let wires = pin_wires(ctx, id);
        let own = crate::router::gate::reservations_of(ctx, id);
        assert(all == part + own);
        let few = nets.take(k - 1);
        let more = nets.take(k);
        assert(more =~= few.push(id));
        assert forall|w: WireId, net: NetId| #[trigger]
            all.contains(Reservation { wire: w, net }) <==> more.contains(net) && ctx.design.nets@[net.0 as int].alive
                && ctx.design.nets@[net.0 as int].driver.cell.0 != u32::MAX && at_pin(ctx, net, w) by {
            let r = Reservation { wire: w, net };
            assert(part.contains(r) <==> few.contains(net) && ctx.design.nets@[net.0 as int].alive
                && ctx.design.nets@[net.0 as int].driver.cell.0 != u32::MAX && at_pin(ctx, net, w));
            every_pin_has_its_wire(ctx, id, w);
            if all.contains(r) {
                let i = choose|i: int| 0 <= i < all.len() && all[i] == r;
                if i < part.len() {
                    assert(part[i] == r);
                    let j = choose|j: int| 0 <= j < few.len() && few[j] == net;
                    assert(more[j] == net);
                } else {
                    assert(own[i - part.len()] == r);
                    assert(wires[i - part.len()] == w);
                    assert(more[k - 1] == net);
                }
            }
            if more.contains(net) && ctx.design.nets@[net.0 as int].alive && ctx.design.nets@[net.0 as int].driver.cell.0
                != u32::MAX && at_pin(ctx, net, w) {
                let j = choose|j: int| 0 <= j < more.len() && more[j] == net;
                if j < k - 1 {
                    assert(few[j] == net);
                    let i = choose|i: int| 0 <= i < part.len() && part[i] == r;
                    assert(all[i] == r);
                } else {
                    let i = choose|i: int| 0 <= i < wires.len() && wires[i] == w;
                    assert(own[i] == r);
                    assert(all[part.len() + i] == r);
                }
            }
        }
    } else {
        assert(nets.take(0) =~= Seq::<NetId>::empty());
    }
}

} // verus!
