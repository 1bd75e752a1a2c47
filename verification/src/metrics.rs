//! Rectangles of the tile grid.

use crate::chipdb::WireId;
use crate::context::Context;
use crate::netlist::NetId;
use crate::router::common::{collect_sink_wires, sinks_upto};
use vstd::prelude::*;

verus! {

/// A rectangle of tiles, both corners included.
#[derive(Clone, Copy, PartialEq, Eq, Hash, Debug, Structural)]
pub struct BoundingBox {
    pub x0: i32,
    pub y0: i32,
    pub x1: i32,
    pub y1: i32,
}

impl BoundingBox {
    /// Whether the point lies in the rectangle.
    pub open spec fn has(self, x: int, y: int) -> bool {
        self.x0 <= x <= self.x1 && self.y0 <= y <= self.y1
    }

    pub fn new(x0: i32, y0: i32, x1: i32, y1: i32) -> (r: Self)
        ensures
            r == (BoundingBox { x0, y0, x1, y1 }),
    {
        BoundingBox { x0, y0, x1, y1 }
    }

    /// Whether the point lies in the rectangle.
    pub fn contains(&self, x: i32, y: i32) -> (r: bool)
        ensures
            r == self.has(x as int, y as int),
    {
        self.x0 <= x && x <= self.x1 && self.y0 <= y && y <= self.y1
    }
}

/// The number held between two others.
pub open spec fn clamped(v: int, lo: int, hi: int) -> int {
    if v < lo {
        lo
    } else if v > hi {
        hi
    } else {
        v
    }
}

/// The number held between two others.
pub fn clamp_i64(v: i64, lo: i32, hi: i32) -> (r: i32)
    requires
        lo <= hi,
    ensures
        r == clamped(v as int, lo as int, hi as int),
{
    if v < lo as i64 {
        lo
    } else if v > hi as i64 {
        hi
    } else {
        v as i32
    }
}

/// The wires of the pins of a net that have one: the driver's first, then those of the users.
pub open spec fn pin_wires(ctx: Context, net: NetId) -> Seq<WireId> {
    let n = ctx.design.net_of(net);
    let sinks = sinks_upto(ctx, n.users@, n.users@.len() as int);
    if n.driver.connected() && ctx.wire_of_pin(n.driver) is Some {
        seq![ctx.wire_of_pin(n.driver)->0] + sinks
    } else {
        sinks
    }
}

/// The smallest rectangle around the tiles of the wires, seen from the first `n` of them.
pub open spec fn hull(ctx: Context, wires: Seq<WireId>, n: int) -> BoundingBox
    decreases n,
{
    let t = wires[n - 1].tile as int;
    let x = ctx.chipdb.x_of(t) as i32;
    let y = ctx.chipdb.y_of(t) as i32;
    if n <= 1 {
        BoundingBox { x0: x, y0: y, x1: x, y1: y }
    } else {
        let b = hull(ctx, wires, n - 1);
        BoundingBox {
            x0: if x < b.x0 { x } else { b.x0 },
            y0: if y < b.y0 { y } else { b.y0 },
            x1: if x > b.x1 { x } else { b.x1 },
            y1: if y > b.y1 { y } else { b.y1 },
        }
    }
}

/// A rectangle grown by a margin on each side and cut at the edges of the grid.
pub open spec fn grown(ctx: Context, b: BoundingBox, margin: int) -> BoundingBox {
    BoundingBox {
        x0: clamped(b.x0 - margin, 0, ctx.chipdb.width - 1) as i32,
        y0: clamped(b.y0 - margin, 0, ctx.chipdb.height - 1) as i32,
        x1: clamped(b.x1 + margin, 0, ctx.chipdb.width - 1) as i32,
        y1: clamped(b.y1 + margin, 0, ctx.chipdb.height - 1) as i32,
    }
}

/// The rectangle of a net: around its pins, grown by a margin; the whole grid without pins.
pub open spec fn net_box(ctx: Context, net: NetId, margin: int) -> BoundingBox {
    let wires = pin_wires(ctx, net);
    if wires.len() == 0 {
        BoundingBox {
            x0: 0,
            y0: 0,
            x1: (ctx.chipdb.width - 1) as i32,
            y1: (ctx.chipdb.height - 1) as i32,
        }
    } else {
        grown(ctx, hull(ctx, wires, wires.len() as int), margin)
    }
}

/// The rectangle of a net: around its pins, grown by a margin; the whole grid without pins.
pub fn compute_bbox(ctx: &Context, net: NetId, margin: i32) -> (r: BoundingBox)
    requires
        ctx.wf(),
        ctx.design.valid_net(net),
    ensures
        r == net_box(*ctx, net, margin as int),
        0 <= r.x0 < ctx.chipdb.width,
        0 <= r.y0 < ctx.chipdb.height,
        0 <= r.x1 < ctx.chipdb.width,
        0 <= r.y1 < ctx.chipdb.height,
{
    let n = ctx.net(net);
    let mut wires: Vec<WireId> = Vec::new();
    assert(ctx.design.net_ok(ctx.design.nets@[net.0 as int]));
    if n.driver.is_valid() {
        if let Some(w) = ctx.pin_wire(n.driver) {
            wires.push(w);
        }
    }
    let mut sinks = collect_sink_wires(ctx, net);
    let ghost head = wires@;
    let ghost tail = sinks@;
    wires.append(&mut sinks);
    proof {
        assert(wires@ =~= pin_wires(*ctx, net));
        assert forall|i: int| 0 <= i < wires@.len() implies ctx.chipdb.valid_wire(#[trigger] wires@[i]) by {
            if i >= head.len() {
                assert(wires@[i] == tail[i - head.len()]);
            }
        }
    }
    let w1: i32 = ctx.chipdb.width - 1;
    let h1: i32 = ctx.chipdb.height - 1;
    if wires.len() == 0 {
        return BoundingBox { x0: 0, y0: 0, x1: w1, y1: h1 };
    }
    let (fx, fy) = ctx.chipdb.tile_xy(wires[0].tile);
    let mut b = BoundingBox { x0: fx, y0: fy, x1: fx, y1: fy };
    for i in 1..wires.len()
        invariant
            ctx.wf(),
            wires@.len() > 0,
            forall|i: int| 0 <= i < wires@.len() ==> ctx.chipdb.valid_wire(#[trigger] wires@[i]),
            b == hull(*ctx, wires@, i as int),
            i >= 1,
    {
        assert(ctx.chipdb.valid_wire(wires@[i as int]));
        let (x, y) = ctx.chipdb.tile_xy(wires[i].tile);
        b = BoundingBox {
            x0: if x < b.x0 { x } else { b.x0 },
            y0: if y < b.y0 { y } else { b.y0 },
            x1: if x > b.x1 { x } else { b.x1 },
            y1: if y > b.y1 { y } else { b.y1 },
        };
    }
    let m: i64 = margin as i64;
    BoundingBox {
        x0: clamp_i64(b.x0 as i64 - m, 0, w1),
        y0: clamp_i64(b.y0 as i64 - m, 0, h1),
        x1: clamp_i64(b.x1 as i64 + m, 0, w1),
        y1: clamp_i64(b.y1 as i64 + m, 0, h1),
    }
}

} // verus!
