//! What was found about a net that cannot be routed, as text.

use crate::chipdb::WireId;
use crate::context::Context;
use crate::netlist::{CellPin, NetId};
use crate::router::astar::{result_ok, AStarExit, AStarResult};
use crate::router::diagnose::{
    diagnosed, named_users, shows_search, user_diagnosed, Diagnosis, Explored, SearchEnd, SinkDiagnosis,
    SinkFinding, SourceDiagnosis,
};
use crate::router::maze::{astar_found, route_options, MazeCostModel};
use crate::router::wording::{
    add_bare_pin, add_net, add_pin, add_wire, bare_pin_text, net_text, pin_text, wire_text,
};
use crate::text::{decimal, decimal_text, digits, push_digits};
use crate::timing::delay::DelayT;
use vstd::prelude::*;

verus! {

/// A wire and the column and row of its tile.
pub open spec fn spot_text(ctx: Context, w: WireId) -> Seq<char> {
    wire_text(ctx, w) + "' at ("@ + decimal_text(ctx.chipdb.x_of(w.tile as int)) + ","@ + decimal_text(
        ctx.chipdb.y_of(w.tile as int),
    ) + ")"@
}

/// The wire of a user, how far it is from the source, and how many pips lead into it.
pub open spec fn sink_wire_text(ctx: Context, sink: SinkDiagnosis) -> Seq<char> {
    match sink.wire {
        Some(w) => " wire='"@ + spot_text(ctx, w) + "; manhattan="@ + decimal_text(sink.distance as int)
            + "; pips_uphill="@ + digits(sink.ways_in as nat),
        None => Seq::empty(),
    }
}

/// How a search that missed its target ended.
pub open spec fn exit_text(end: SearchEnd) -> Seq<char> {
    match end.exit {
        AStarExit::HeapDrained => "\n    A*: UNREACHABLE (heap drained, visited "@ + digits(end.seen as nat)
            + " wires after "@ + digits(end.visits as nat) + " visits)\n"@,
        AStarExit::VisitLimit => "\n    A*: VISIT_LIMIT (budget "@ + digits(end.max_visits as nat)
            + " hit, visited "@ + digits(end.seen as nat) + " wires)\n"@,
        AStarExit::Reached => "\n    A*: UNEXPECTED exit=Reached\n"@,
    }
}

/// A range of columns or rows.
pub open spec fn range_text(from: i32, to: i32) -> Seq<char> {
    "["@ + decimal_text(from as int) + ".."@ + decimal_text(to as int) + "]"@
}

/// The rectangle around what a search has seen.
pub open spec fn bounds_text(e: Explored, seen: nat) -> Seq<char> {
    "    explored bbox: x="@ + range_text(e.bbox.x0, e.bbox.x1) + " y="@ + range_text(e.bbox.y0, e.bbox.y1)
        + " ("@ + digits(seen) + " wires)\n"@
}

/// The wire that came closest to the target.
pub open spec fn closest_text(ctx: Context, e: Explored) -> Seq<char> {
    "    closest reached: '"@ + spot_text(ctx, e.closest) + ", manhattan="@ + decimal_text(e.distance as int)
        + " from dst\n"@
}

/// What was found about a sink.
pub open spec fn finding_text(ctx: Context, finding: SinkFinding) -> Seq<char> {
    match finding {
        SinkFinding::Unplaced => ": unplaced; skipping\n"@,
        SinkFinding::NoPinWire => ": no wire; skipping\n"@,
        SinkFinding::Reached(pips, cost, visits, max_visits) => "\n    A*: REACHED ("@ + digits(pips as nat)
            + " pips, cost="@ + decimal_text(cost as int) + ", visits="@ + digits(visits as nat) + "/"@ + digits(
            max_visits as nat,
        ) + ")\n"@,
        SinkFinding::Missed(end) => exit_text(end) + match end.explored {
            Some(e) => bounds_text(e, end.seen as nat) + closest_text(ctx, e),
            None => Seq::empty(),
        },
    }
}

/// One user of a net and what was found about it.
pub open spec fn sink_text(ctx: Context, users: Seq<CellPin>, sink: SinkDiagnosis) -> Seq<char> {
    "  user["@ + digits(sink.user as nat) + "]: "@ + pin_text(ctx, users[sink.user as int]) + sink_wire_text(
        ctx,
        sink,
    ) + finding_text(ctx, sink.finding)
}

/// The first `n` users of a net.
pub open spec fn sinks_text(ctx: Context, users: Seq<CellPin>, sinks: Seq<SinkDiagnosis>, n: int) -> Seq<char>
    decreases n,
{
    if n <= 0 {
        Seq::empty()
    } else {
        sinks_text(ctx, users, sinks, n - 1) + sink_text(ctx, users, sinks[n - 1])
    }
}

/// What was found about a net.
pub open spec fn found_text(ctx: Context, net: NetId, d: Diagnosis) -> Seq<char> {
    let n = ctx.design.net_of(net);
    match d {
        Diagnosis::NoDriver => "  no driver; aborting\n"@,
        Diagnosis::UnplacedDriver => "  driver "@ + pin_text(ctx, n.driver) + " unplaced; aborting\n"@,
        Diagnosis::NoDriverWire => "  driver "@ + bare_pin_text(ctx, n.driver) + "; aborting\n"@,
        Diagnosis::Sinks(found) => "  driver: "@ + pin_text(ctx, n.driver) + " wire='"@ + spot_text(
            ctx,
            found.source,
        ) + "; pips_downhill="@ + digits(found.ways_out as nat) + "\n"@ + sinks_text(
            ctx,
            n.users@,
            found.sinks@,
            found.sinks@.len() as int,
        ),
    }
}

/// The sink speaks of a user and of wires that exist.
pub open spec fn sink_fits(ctx: Context, net: NetId, sink: SinkDiagnosis) -> bool {
    let users = ctx.design.net_of(net).users@;
    &&& sink.user < users.len()
    &&& ctx.design.valid_cell(users[sink.user as int].cell)
    &&& sink.wire is Some ==> ctx.chipdb.valid_wire(sink.wire->0)
    &&& sink.finding is Missed && sink.finding->Missed_0.explored is Some ==> ctx.chipdb.valid_wire(
        sink.finding->Missed_0.explored->0.closest,
    )
}

/// What was found speaks of pins and wires that exist.
pub open spec fn diagnosis_fits(ctx: Context, net: NetId, d: Diagnosis) -> bool {
    &&& ctx.design.valid_net(net)
    &&& !(d is NoDriver) ==> ctx.design.valid_cell(ctx.design.net_of(net).driver.cell)
    &&& d is Sinks ==> {
        &&& ctx.chipdb.valid_wire(d->Sinks_0.source)
        &&& forall|i: int|
            0 <= i < d->Sinks_0.sinks@.len() ==> sink_fits(ctx, net, #[trigger] d->Sinks_0.sinks@[i])
    }
}

proof fn lemma_named_users(users: Seq<CellPin>, n: int, k: int)
    requires
        0 <= k < named_users(users, n).len(),
        n <= users.len(),
    ensures
        0 <= named_users(users, n)[k] < n,
        users[named_users(users, n)[k]].connected(),
    decreases n,
{
    if n > 0 && k < named_users(users, n - 1).len() {
        lemma_named_users(users, n - 1, k);
    }
}

/// The wire that a search for a user came closest with is a wire of the device.
proof fn lemma_closest_exists(ctx: Context, source: WireId, p: CellPin, budget: Option<usize>, d: SinkDiagnosis)
    requires
        user_diagnosed(ctx, source, p, budget, d),
        d.finding is Missed,
        d.finding->Missed_0.explored is Some,
    ensures
        ctx.chipdb.valid_wire(d.finding->Missed_0.explored->0.closest),
{
    let dst = ctx.wire_of_pin(p)->0;
    let srcs = Map::<WireId, ()>::empty().insert(source, ());
    let pen = Map::<WireId, DelayT>::empty();
    let opts = route_options(budget, true);
    let res = choose|res: AStarResult|
        {
            &&& #[trigger] astar_found(ctx, srcs, dst, pen, None, None, opts, res)
            &&& shows_search(ctx, dst, res, d.finding)
        };
    let m = choose|m: MazeCostModel| #[trigger] result_ok(ctx, &m, srcs, dst, opts, res);
    assert(res.trace.visited@.contains_key(d.finding->Missed_0.explored->0.closest));
}

/// What a diagnosis says speaks of pins and wires that exist, so that it can be put in words.
pub proof fn diagnoses_fit(ctx: Context, net: NetId, budget: Option<usize>, d: Diagnosis)
    requires
        ctx.wf(),
        ctx.design.valid_net(net),
        diagnosed(ctx, net, budget, d),
    ensures
        diagnosis_fits(ctx, net, d),
{
    let n = ctx.design.net_of(net);
    assert(ctx.design.net_ok(ctx.design.nets@[net.0 as int]));
    if d is Sinks {
        ctx.lemma_wire_of_pin(n.driver);
        let named = named_users(n.users@, n.users@.len() as int);
        assert forall|i: int| 0 <= i < d->Sinks_0.sinks@.len() implies sink_fits(
            ctx,
            net,
            #[trigger] d->Sinks_0.sinks@[i],
        ) by {
            let sink = d->Sinks_0.sinks@[i];
            lemma_named_users(n.users@, n.users@.len() as int, i);
            let p = n.users@[named[i]];
            assert(ctx.design.pin_ok(p));
            ctx.lemma_wire_of_pin(p);
            if sink.finding is Missed && sink.finding->Missed_0.explored is Some {
                lemma_closest_exists(ctx, d->Sinks_0.source, p, budget, sink);
            }
        }
    }
}

fn add_spot(out: &mut String, ctx: &Context, w: WireId)
    requires
        ctx.chipdb.wf(),
        ctx.chipdb.valid_wire(w),
    ensures
        final(out)@ == old(out)@ + spot_text(*ctx, w),
{
    let (x, y) = ctx.chipdb.tile_xy(w.tile);
    add_wire(out, ctx, w);
    out.append("' at (");
    out.append(decimal(x).as_str());
    out.append(",");
    out.append(decimal(y).as_str());
    out.append(")");
    assert(out@ =~= old(out)@ + spot_text(*ctx, w));
}

fn add_sink_wire(out: &mut String, ctx: &Context, sink: &SinkDiagnosis)
    requires
        ctx.chipdb.wf(),
        sink.wire is Some ==> ctx.chipdb.valid_wire(sink.wire->0),
    ensures
        final(out)@ == old(out)@ + sink_wire_text(*ctx, *sink),
{
    if let Some(w) = sink.wire {
        out.append(" wire='");
        add_spot(out, ctx, w);
        out.append("; manhattan=");
        out.append(decimal(sink.distance).as_str());
        out.append("; pips_uphill=");
        push_digits(out, sink.ways_in as u64);
    }
    assert(out@ =~= old(out)@ + sink_wire_text(*ctx, *sink));
}

fn add_exit(out: &mut String, end: &SearchEnd)
    ensures
        final(out)@ == old(out)@ + exit_text(*end),
{
    match end.exit {
        AStarExit::HeapDrained => {
            out.append("\n    A*: UNREACHABLE (heap drained, visited ");
            push_digits(out, end.seen as u64);
            out.append(" wires after ");
            push_digits(out, end.visits as u64);
            out.append(" visits)\n");
        },
        AStarExit::VisitLimit => {
            out.append("\n    A*: VISIT_LIMIT (budget ");
            push_digits(out, end.max_visits as u64);
            out.append(" hit, visited ");
            push_digits(out, end.seen as u64);
            out.append(" wires)\n");
        },
        AStarExit::Reached => out.append("\n    A*: UNEXPECTED exit=Reached\n"),
    }
    assert(out@ =~= old(out)@ + exit_text(*end));
}

fn add_range(out: &mut String, from: i32, to: i32)
    ensures
        final(out)@ == old(out)@ + range_text(from, to),
{
    out.append("[");
    out.append(decimal(from).as_str());
    out.append("..");
    out.append(decimal(to).as_str());
    out.append("]");
    assert(out@ =~= old(out)@ + range_text(from, to));
}

fn add_bounds(out: &mut String, e: &Explored, seen: usize)
    ensures
        final(out)@ == old(out)@ + bounds_text(*e, seen as nat),
{
    out.append("    explored bbox: x=");
    add_range(out, e.bbox.x0, e.bbox.x1);
    out.append(" y=");
    add_range(out, e.bbox.y0, e.bbox.y1);
    out.append(" (");
    push_digits(out, seen as u64);
    out.append(" wires)\n");
    assert(out@ =~= old(out)@ + bounds_text(*e, seen as nat));
}

fn add_closest(out: &mut String, ctx: &Context, e: &Explored)
    requires
        ctx.chipdb.wf(),
        ctx.chipdb.valid_wire(e.closest),
    ensures
        final(out)@ == old(out)@ + closest_text(*ctx, *e),
{
    out.append("    closest reached: '");
    add_spot(out, ctx, e.closest);
    out.append(", manhattan=");
    out.append(decimal(e.distance).as_str());
    out.append(" from dst\n");
    assert(out@ =~= old(out)@ + closest_text(*ctx, *e));
}

fn add_finding(out: &mut String, ctx: &Context, finding: &SinkFinding)
    requires
        ctx.chipdb.wf(),
        finding is Missed && finding->Missed_0.explored is Some ==> ctx.chipdb.valid_wire(
            finding->Missed_0.explored->0.closest,
        ),
    ensures
        final(out)@ == old(out)@ + finding_text(*ctx, *finding),
{
    match finding {
        SinkFinding::Unplaced => out.append(": unplaced; skipping\n"),
        SinkFinding::NoPinWire => out.append(": no wire; skipping\n"),
        SinkFinding::Reached(pips, cost, visits, max_visits) => {
            out.append("\n    A*: REACHED (");
            push_digits(out, *pips as u64);
            out.append(" pips, cost=");
            out.append(decimal(*cost).as_str());
            out.append(", visits=");
            push_digits(out, *visits as u64);
            out.append("/");
            push_digits(out, *max_visits as u64);
            out.append(")\n");
        },
        SinkFinding::Missed(end) => {
            add_exit(out, end);
            if let Some(e) = &end.explored {
                add_bounds(out, e, end.seen);
                add_closest(out, ctx, e);
            }
        },
    }
    assert(out@ =~= old(out)@ + finding_text(*ctx, *finding));
}

fn add_sink(out: &mut String, ctx: &Context, net: NetId, sink: &SinkDiagnosis)
    requires
        ctx.wf(),
        ctx.design.valid_net(net),
        sink_fits(*ctx, net, *sink),
    ensures
        final(out)@ == old(out)@ + sink_text(*ctx, ctx.design.net_of(net).users@, *sink),
{
    let pin: CellPin = ctx.net(net).users[sink.user];
    out.append("  user[");
    push_digits(out, sink.user as u64);
    out.append("]: ");
    add_pin(out, ctx, pin);
    add_sink_wire(out, ctx, sink);
    add_finding(out, ctx, &sink.finding);
    assert(out@ =~= old(out)@ + sink_text(*ctx, ctx.design.net_of(net).users@, *sink));
}

fn add_sinks(out: &mut String, ctx: &Context, net: NetId, found: &SourceDiagnosis)
    requires
        ctx.wf(),
        ctx.design.valid_net(net),
        forall|i: int| 0 <= i < found.sinks@.len() ==> sink_fits(*ctx, net, #[trigger] found.sinks@[i]),
    ensures
        final(out)@ == old(out)@ + sinks_text(
            *ctx,
            ctx.design.net_of(net).users@,
            found.sinks@,
            found.sinks@.len() as int,
        ),
{
    let ghost users = ctx.design.net_of(net).users@;
    let ghost start = out@;
    assert(out@ =~= start + sinks_text(*ctx, users, found.sinks@, 0));
    for i in 0..found.sinks.len()
        invariant
            ctx.wf(),
            ctx.design.valid_net(net),
            users == ctx.design.net_of(net).users@,
            forall|k: int| 0 <= k < found.sinks@.len() ==> sink_fits(*ctx, net, #[trigger] found.sinks@[k]),
            out@ == start + sinks_text(*ctx, users, found.sinks@, i as int),
    {
        assert(sink_fits(*ctx, net, found.sinks@[i as int]));
        add_sink(out, ctx, net, &found.sinks[i]);
        assert(out@ =~= start + sinks_text(*ctx, users, found.sinks@, i + 1));
    }
}

/// What was found about a net, as text.
pub fn diagnosis_text(ctx: &Context, net: NetId, d: &Diagnosis) -> (r: String)
    requires
        ctx.wf(),
        diagnosis_fits(*ctx, net, *d),
    ensures
        r@ == "=== diagnose_unroutable_net('"@ + net_text(*ctx, net) + "') ===\n"@ + found_text(*ctx, net, *d),
{
    let mut s = String::new();
    s.append("=== diagnose_unroutable_net('");
    add_net(&mut s, ctx, net);
    s.append("') ===\n");
    let ghost head = s@;
    assert(head =~= "=== diagnose_unroutable_net('"@ + net_text(*ctx, net) + "') ===\n"@);
    let driver: CellPin = ctx.net(net).driver;
    match d {
        Diagnosis::NoDriver => s.append("  no driver; aborting\n"),
        Diagnosis::UnplacedDriver => {
            s.append("  driver ");
            add_pin(&mut s, ctx, driver);
            s.append(" unplaced; aborting\n");
        },
        Diagnosis::NoDriverWire => {
            s.append("  driver ");
            add_bare_pin(&mut s, ctx, driver);
            s.append("; aborting\n");
        },
        Diagnosis::Sinks(found) => {
            s.append("  driver: ");
            add_pin(&mut s, ctx, driver);
            s.append(" wire='");
            add_spot(&mut s, ctx, found.source);
            s.append("; pips_downhill=");
            push_digits(&mut s, found.ways_out as u64);
            s.append("\n");
            add_sinks(&mut s, ctx, net, found);
        },
    }
    assert(s@ =~= head + found_text(*ctx, net, *d));
    s
}

} // verus!
