//! How signals go through a design: every way onward from a pin is taken, at its full delay.

use crate::netlist::{CellPin, Design, NetId};
use crate::timing::analyser::{ClockedPin, Hop, PerDomain, PortFacts};
use crate::timing::delay::DelayT;
use crate::timing::domain::{CellArc, CellArcType, ClockDomain};
use crate::timing::ports::{net_of_pin, orders_ports};
use crate::timing::propagation::{
    all_ended, all_started, arc_steps, arc_to, arrivals, end_time, ended, net_steps, period_of,
    requireds, start_time, started, steps_back, steps_from, Reached, Step,
};
use crate::timing::propagation_laws::{
    arrivals_are_latest, back_step_explains, backward, explained, is_backward, is_onward, leads_backward, onward,
    requireds_are_earliest, sorted_ports_lead_forward, step_explains,
};
use crate::types::id_string::IdString;
use vstd::prelude::*;

verus! {

/// The delay is the sum, or the end of the range of delays that is nearest to it.
pub open spec fn is_sum(d: DelayT, sum: int) -> bool {
    &&& i32::MIN <= sum <= i32::MAX ==> d == sum
    &&& sum > i32::MAX ==> d == i32::MAX
    &&& sum < i32::MIN ==> d == i32::MIN
}

/// The largest of the four values of an arc.
pub open spec fn is_largest(arc: CellArc, d: DelayT) -> bool {
    let v = arc.value;
    &&& v.rise.min_delay <= d && v.rise.max_delay <= d && v.fall.min_delay <= d && v.fall.max_delay <= d
    &&& d == v.rise.min_delay || d == v.rise.max_delay || d == v.fall.min_delay || d == v.fall.max_delay
}

/// User `j` of the net at the output `a` is the pin `b`, which the routing takes the delay to.
pub open spec fn drives_user(
    design: Design,
    ports: Map<CellPin, PortFacts>,
    a: CellPin,
    n: NetId,
    j: int,
    b: CellPin,
    d: DelayT,
) -> bool {
    let users = design.nets@[n.0 as int].users@;
    &&& ports.contains_key(a)
    &&& !(ports[a].port_type is In)
    &&& net_of_pin(design, a) == Some(n)
    &&& 0 <= j < users.len()
    &&& users[j] == b
    &&& b.cell.0 != u32::MAX
    &&& d == if ports.contains_key(b) {
        ports[b].route.max_delay
    } else {
        0
    }
}

/// Arc `k` at the pin `a` is combinational, leads to the pin `b` of the same cell and has the delay.
pub open spec fn arc_leads(ports: Map<CellPin, PortFacts>, a: CellPin, k: int, b: CellPin, d: DelayT) -> bool {
    &&& ports.contains_key(a)
    &&& 0 <= k < ports[a].arcs.len()
    &&& ports[a].arcs[k].arc_type is Combinational
    &&& b == (CellPin { cell: a.cell, port: ports[a].arcs[k].other_port })
    &&& is_largest(ports[a].arcs[k], d)
}

/// A signal at the pin `a` goes on to the pin `b` with the delay: along the net from an output, or
/// through the cell from an input.
pub open spec fn goes_on(
    design: Design,
    ports: Map<CellPin, PortFacts>,
    a: CellPin,
    b: CellPin,
    net: Option<NetId>,
    d: DelayT,
) -> bool {
    match net {
        Some(n) => exists|j: int| #[trigger] drives_user(design, ports, a, n, j, b, d),
        None => ports.contains_key(a) && ports[a].port_type is In && exists|k: int| #[trigger]
            arc_leads(ports, a, k, b, d),
    }
}

/// A signal at the pin `b` comes from the pin `a` with the delay: from the driver of the net of an
/// input, or through the cell at an output.
pub open spec fn comes_from(
    design: Design,
    ports: Map<CellPin, PortFacts>,
    b: CellPin,
    a: CellPin,
    net: Option<NetId>,
    d: DelayT,
) -> bool {
    &&& ports.contains_key(b)
    &&& match net {
        Some(n) => {
            &&& ports[b].port_type is In
            &&& net_of_pin(design, b) == Some(n)
            &&& design.nets@[n.0 as int].driver == a
            &&& a.cell.0 != u32::MAX
            &&& d == ports[b].route.max_delay
        },
        None => !(ports[b].port_type is In) && exists|k: int| #[trigger] arc_leads(ports, b, k, a, d),
    }
}

proof fn lemma_net_steps(
    ports: Map<CellPin, PortFacts>,
    pin: CellPin,
    n: NetId,
    users: Seq<CellPin>,
    k: int,
    s: Step,
)
    requires
        0 <= k <= users.len(),
    ensures
        net_steps(ports, pin, n, users, k).contains(s) <==> s.hop.from == pin && s.hop.net == Some(n)
            && s.to.cell.0 != u32::MAX && s.hop.delay == (if ports.contains_key(s.to) {
            ports[s.to].route.max_delay
        } else {
            0
        }) && users.take(k).contains(s.to),
    decreases k,
{
    let all = net_steps(ports, pin, n, users, k);
    if k > 0 {
        lemma_net_steps(ports, pin, n, users, k - 1, s);
        let before = net_steps(ports, pin, n, users, k - 1);
        let part = users.take(k - 1);
        let more = users.take(k);
        let u = users[k - 1];
        assert(more =~= part.push(u));
        if part.contains(s.to) {
            let i = choose|i: int| 0 <= i < part.len() && part[i] == s.to;
            assert(more[i] == s.to);
        }
        if s.to == u {
            assert(more[k - 1] == s.to);
        }
        if more.contains(s.to) && s.to != u {
            let i = choose|i: int| 0 <= i < more.len() && more[i] == s.to;
            assert(part[i] == s.to);
        }
        if before.contains(s) {
            let i = choose|i: int| 0 <= i < before.len() && before[i] == s;
            assert(all[i] == s);
        }
        if u.connected() {
            let last = all.last();
            if s == last {
                assert(all[all.len() - 1] == s);
            }
        }
        if all.contains(s) && !before.contains(s) {
            let i = choose|i: int| 0 <= i < all.len() && all[i] == s;
            if i < before.len() {
                assert(before[i] == s);
            }
        }
    }
}

proof fn lemma_arc_steps(pin: CellPin, arcs: Seq<CellArc>, k: int, s: Step)
    requires
        0 <= k <= arcs.len(),
    ensures
        arc_steps(pin, arcs, k).contains(s) <==> s.hop.from == pin && s.hop.net is None && exists|i: int|
            0 <= i < k && (#[trigger] arcs[i]).arc_type is Combinational && s.to == (CellPin {
                cell: pin.cell,
                port: arcs[i].other_port,
            }) && is_largest(arcs[i], s.hop.delay),
    decreases k,
{
    let all = arc_steps(pin, arcs, k);
    if k > 0 {
        lemma_arc_steps(pin, arcs, k - 1, s);
        let before = arc_steps(pin, arcs, k - 1);
        let arc = arcs[k - 1];
        assert(is_largest(arc, arc.value.greatest()));
        if before.contains(s) {
            let i = choose|i: int| 0 <= i < before.len() && before[i] == s;
            assert(all[i] == s);
            let j = choose|i: int|
                0 <= i < k - 1 && (#[trigger] arcs[i]).arc_type is Combinational && s.to == (CellPin {
                    cell: pin.cell,
                    port: arcs[i].other_port,
                }) && is_largest(arcs[i], s.hop.delay);
            assert(arcs[j].arc_type is Combinational);
        }
        if all.contains(s) && !before.contains(s) {
            let i = choose|i: int| 0 <= i < all.len() && all[i] == s;
            if i < before.len() {
                assert(before[i] == s);
            }
            assert(arcs[k - 1].arc_type is Combinational);
        }
        if s.hop.from == pin && s.hop.net is None && (exists|i: int|
            0 <= i < k && (#[trigger] arcs[i]).arc_type is Combinational && s.to == (CellPin {
                cell: pin.cell,
                port: arcs[i].other_port,
            }) && is_largest(arcs[i], s.hop.delay)) && !before.contains(s) {
            let i = choose|i: int|
                0 <= i < k && (#[trigger] arcs[i]).arc_type is Combinational && s.to == (CellPin {
                    cell: pin.cell,
                    port: arcs[i].other_port,
                }) && is_largest(arcs[i], s.hop.delay);
            assert(i == k - 1);
            assert(s.hop.delay == arc.value.greatest());
            assert(all[all.len() - 1] == s);
        }
    }
}

/// The steps onward from a pin are all ways that a signal goes on from it, and no other: to every
/// user of the net of an output, and along every combinational arc of an input.
pub proof fn steps_are_all_ways_on(design: Design, ports: Map<CellPin, PortFacts>, pin: CellPin, s: Step)
    ensures
        steps_from(design, ports, pin).contains(s) <==> s.hop.from == pin && goes_on(
            design,
            ports,
            pin,
            s.to,
            s.hop.net,
            s.hop.delay,
        ),
{
    if ports.contains_key(pin) {
        if ports[pin].port_type is In {
            let arcs = ports[pin].arcs;
            lemma_arc_steps(pin, arcs, arcs.len() as int, s);
            if steps_from(design, ports, pin).contains(s) {
                let k = choose|i: int|
                    0 <= i < arcs.len() && (#[trigger] arcs[i]).arc_type is Combinational && s.to == (CellPin {
                        cell: pin.cell,
                        port: arcs[i].other_port,
                    }) && is_largest(arcs[i], s.hop.delay);
                assert(arc_leads(ports, pin, k, s.to, s.hop.delay));
            }
            if s.hop.net is None && goes_on(design, ports, pin, s.to, s.hop.net, s.hop.delay) {
                let k = choose|k: int| #[trigger] arc_leads(ports, pin, k, s.to, s.hop.delay);
                assert(arcs[k].arc_type is Combinational);
            }
        } else if let Some(n) = net_of_pin(design, pin) {
            let users = design.net_of(n).users@;
            lemma_net_steps(ports, pin, n, users, users.len() as int, s);
            assert(users.take(users.len() as int) =~= users);
            if users.contains(s.to) {
                let j = choose|j: int| 0 <= j < users.len() && users[j] == s.to;
                if steps_from(design, ports, pin).contains(s) {
                    assert(drives_user(design, ports, pin, n, j, s.to, s.hop.delay));
                }
            }
            if s.hop.net is Some && goes_on(design, ports, pin, s.to, s.hop.net, s.hop.delay) {
                let j = choose|j: int| #[trigger] drives_user(design, ports, pin, s.hop.net->0, j, s.to, s.hop.delay);
                assert(users[j] == s.to);
            }
        }
    }
}

/// The steps back from a pin are all ways that a signal comes to it, and no other: from the driver
/// of the net of an input, and along every combinational arc of an output.
pub proof fn steps_back_are_all_ways_back(design: Design, ports: Map<CellPin, PortFacts>, pin: CellPin, s: Step)
    ensures
        steps_back(design, ports, pin).contains(s) <==> s.hop.from == pin && comes_from(
            design,
            ports,
            pin,
            s.to,
            s.hop.net,
            s.hop.delay,
        ),
{
    if ports.contains_key(pin) {
        let all = steps_back(design, ports, pin);
        if ports[pin].port_type is In {
            if let Some(n) = net_of_pin(design, pin) {
                if design.net_of(n).driver.connected() {
                    assert(all.len() == 1);
                    if comes_from(design, ports, pin, s.to, s.hop.net, s.hop.delay) && s.hop.from == pin {
                        assert(all[0] == s);
                    }
                }
            }
        } else {
            let arcs = ports[pin].arcs;
            lemma_arc_steps(pin, arcs, arcs.len() as int, s);
            if all.contains(s) {
                let k = choose|i: int|
                    0 <= i < arcs.len() && (#[trigger] arcs[i]).arc_type is Combinational && s.to == (CellPin {
                        cell: pin.cell,
                        port: arcs[i].other_port,
                    }) && is_largest(arcs[i], s.hop.delay);
                assert(arc_leads(ports, pin, k, s.to, s.hop.delay));
            }
            if s.hop.net is None && comes_from(design, ports, pin, s.to, s.hop.net, s.hop.delay) {
                let k = choose|k: int| #[trigger] arc_leads(ports, pin, k, s.to, s.hop.delay);
                assert(arcs[k].arc_type is Combinational);
            }
        }
    }
}

/// Arc `k` at the pin is the first of the kind that the clock port times.
pub open spec fn clock_arc(ports: Map<CellPin, PortFacts>, kind: CellArcType, at: ClockedPin, k: int) -> bool {
    &&& ports.contains_key(at.pin)
    &&& 0 <= k < ports[at.pin].arcs.len()
    &&& ports[at.pin].arcs[k].arc_type == kind
    &&& ports[at.pin].arcs[k].other_port == at.clock_port
    &&& forall|i: int|
        0 <= i < k ==> (#[trigger] ports[at.pin].arcs[i]).arc_type != kind || ports[at.pin].arcs[i].other_port
            != at.clock_port
}

/// The routing delay of the clock of a pin, which counts with clock skew only.
pub open spec fn clock_lag(ports: Map<CellPin, PortFacts>, skew: bool, at: ClockedPin) -> int {
    let pin = CellPin { cell: at.pin.cell, port: at.clock_port };
    if skew && ports.contains_key(pin) {
        ports[pin].route.max_delay as int
    } else {
        0
    }
}

/// The time at which a startpoint changes: the delay of the arc from the clock, and with skew the
/// delay of the clock; zero without such an arc.
pub open spec fn starts_at(ports: Map<CellPin, PortFacts>, skew: bool, at: ClockedPin, t: DelayT) -> bool {
    ||| t == 0 && forall|k: int| !(#[trigger] clock_arc(ports, CellArcType::ClockToQ, at, k))
    ||| exists|k: int, d: DelayT| #[trigger]
        clock_arc(ports, CellArcType::ClockToQ, at, k) && #[trigger] is_largest(ports[at.pin].arcs[k], d) && is_sum(
            t,
            d + clock_lag(ports, skew, at),
        )
}

/// The time by which an endpoint must be stable: the period less the setup time, and with skew more
/// by the delay of the clock; the period without a setup time.
pub open spec fn due_at(
    ports: Map<CellPin, PortFacts>,
    skew: bool,
    period: DelayT,
    at: ClockedPin,
    t: DelayT,
) -> bool {
    ||| t == period && forall|k: int| !(#[trigger] clock_arc(ports, CellArcType::Setup, at, k))
    ||| exists|k: int, d: DelayT, left: DelayT| #[trigger]
        clock_arc(ports, CellArcType::Setup, at, k) && #[trigger] is_largest(ports[at.pin].arcs[k], d)
            && #[trigger] is_sum(left, period - d) && is_sum(t, left + clock_lag(ports, skew, at))
}

proof fn lemma_arc_to(arcs: Seq<CellArc>, kind: CellArcType, port: IdString) -> (k: int)
    ensures
        arc_to(arcs, kind, port) is None ==> forall|i: int|
            0 <= i < arcs.len() ==> (#[trigger] arcs[i]).arc_type != kind || arcs[i].other_port != port,
        arc_to(arcs, kind, port) is Some ==> {
            &&& 0 <= k < arcs.len()
            &&& arcs[k] == arc_to(arcs, kind, port)->0
            &&& arcs[k].arc_type == kind
            &&& arcs[k].other_port == port
            &&& forall|i: int| 0 <= i < k ==> (#[trigger] arcs[i]).arc_type != kind || arcs[i].other_port != port
        },
    decreases arcs.len(),
{
    if arcs.len() == 0 {
        0
    } else if arcs[0].arc_type == kind && arcs[0].other_port == port {
        0
    } else {
        let rest = arcs.skip(1);
        let j = lemma_arc_to(rest, kind, port);
        assert forall|i: int| 0 < i < arcs.len() implies (#[trigger] arcs[i]) == rest[i - 1] by {
        }
        j + 1
    }
}

/// The time at which a startpoint changes is the delay of the first arc from its clock.
pub proof fn startpoints_start_at_their_clock_arcs(ports: Map<CellPin, PortFacts>, skew: bool, at: ClockedPin)
    ensures
        starts_at(ports, skew, at, start_time(ports, skew, at)),
{
    let t = start_time(ports, skew, at);
    if ports.contains_key(at.pin) {
        let arcs = ports[at.pin].arcs;
        let k = lemma_arc_to(arcs, CellArcType::ClockToQ, at.clock_port);
        if let Some(arc) = arc_to(arcs, CellArcType::ClockToQ, at.clock_port) {
            assert(clock_arc(ports, CellArcType::ClockToQ, at, k));
            assert(is_largest(ports[at.pin].arcs[k], arc.value.greatest()));
        } else {
            assert forall|k: int| !(#[trigger] clock_arc(ports, CellArcType::ClockToQ, at, k)) by {
                if 0 <= k < arcs.len() {
                    assert(arcs[k].arc_type != CellArcType::ClockToQ || arcs[k].other_port != at.clock_port);
                }
            }
        }
    }
}

/// The time by which an endpoint must be stable is the period less the first setup time.
pub proof fn endpoints_are_due_by_their_setup_arcs(
    ports: Map<CellPin, PortFacts>,
    skew: bool,
    period: DelayT,
    at: ClockedPin,
)
    ensures
        due_at(ports, skew, period, at, end_time(ports, skew, period, at)),
{
    let t = end_time(ports, skew, period, at);
    if ports.contains_key(at.pin) {
        let arcs = ports[at.pin].arcs;
        let k = lemma_arc_to(arcs, CellArcType::Setup, at.clock_port);
        if let Some(arc) = arc_to(arcs, CellArcType::Setup, at.clock_port) {
            let d = arc.value.greatest();
            let left = crate::timing::delay::held(period - d);
            assert(clock_arc(ports, CellArcType::Setup, at, k));
            assert(is_largest(ports[at.pin].arcs[k], d));
            assert(is_sum(left, period - d));
        } else {
            assert forall|k: int| !(#[trigger] clock_arc(ports, CellArcType::Setup, at, k)) by {
                if 0 <= k < arcs.len() {
                    assert(arcs[k].arc_type != CellArcType::Setup || arcs[k].other_port != at.clock_port);
                }
            }
        }
    }
}

/// Startpoint `k` of domain `d`.
pub open spec fn is_startpoint(domains: Seq<PerDomain>, d: int, k: int, at: ClockedPin) -> bool {
    0 <= d < domains.len() && 0 <= k < domains[d].startpoints@.len() && domains[d].startpoints@[k] == at
}

/// Endpoint `k` of domain `d`.
pub open spec fn is_endpoint_of(domains: Seq<PerDomain>, d: int, k: int, at: ClockedPin) -> bool {
    0 <= d < domains.len() && 0 <= k < domains[d].endpoints@.len() && domains[d].endpoints@[k] == at
}

/// Some startpoint among the first is the pin and has the time.
spec fn start_explains(
    ports: Map<CellPin, PortFacts>,
    skew: bool,
    starts: Seq<ClockedPin>,
    n: int,
    p: CellPin,
    t: DelayT,
) -> bool {
    exists|k: int| 0 <= k < n && (#[trigger] starts[k]).pin == p && start_time(ports, skew, starts[k]) == t
}

proof fn lemma_started(
    ports: Map<CellPin, PortFacts>,
    skew: bool,
    times: Map<CellPin, DelayT>,
    starts: Seq<ClockedPin>,
    n: int,
)
    requires
        0 <= n <= starts.len(),
    ensures
        ({
            let new = started(ports, skew, times, starts, n);
            &&& forall|p: CellPin| #[trigger] times.contains_key(p) ==> new.contains_key(p) && new[p] >= times[p]
            &&& forall|k: int|
                0 <= k < n ==> new.contains_key((#[trigger] starts[k]).pin) && new[starts[k].pin] >= start_time(
                    ports,
                    skew,
                    starts[k],
                )
            &&& forall|p: CellPin| #[trigger]
                new.contains_key(p) ==> (times.contains_key(p) && new[p] == times[p]) || start_explains(
                    ports,
                    skew,
                    starts,
                    n,
                    p,
                    new[p],
                )
        }),
    decreases n,
{
    if n > 0 {
        lemma_started(ports, skew, times, starts, n - 1);
        let mid = started(ports, skew, times, starts, n - 1);
        let new = started(ports, skew, times, starts, n);
        let at = starts[n - 1];
        assert forall|p: CellPin| #[trigger] new.contains_key(p) implies (times.contains_key(p) && new[p]
            == times[p]) || start_explains(ports, skew, starts, n, p, new[p]) by {
            if p == at.pin && new[p] == start_time(ports, skew, at) {
                assert(starts[n - 1].pin == p);
            } else {
                assert(mid.contains_key(p) && mid[p] == new[p]);
                if !(times.contains_key(p) && new[p] == times[p]) {
                    let k = choose|k: int|
                        0 <= k < n - 1 && (#[trigger] starts[k]).pin == p && start_time(ports, skew, starts[k])
                            == new[p];
                    assert(starts[k].pin == p);
                }
            }
        }
    }
}

/// The time is that of a startpoint at the pin, in one of the first `n` domains.
spec fn started_by(
    ports: Map<CellPin, PortFacts>,
    skew: bool,
    domains: Seq<PerDomain>,
    n: int,
    p: CellPin,
    t: DelayT,
) -> bool {
    exists|d: int, k: int, at: ClockedPin|
        d < n && #[trigger] is_startpoint(domains, d, k, at) && at.pin == p && start_time(ports, skew, at) == t
}

proof fn lemma_all_started(ports: Map<CellPin, PortFacts>, skew: bool, domains: Seq<PerDomain>, n: int)
    requires
        0 <= n <= domains.len(),
    ensures
        ({
            let new = all_started(ports, skew, domains, n);
            &&& forall|d: int, k: int, at: ClockedPin|
                d < n && #[trigger] is_startpoint(domains, d, k, at) ==> new.contains_key(at.pin) && new[at.pin]
                    >= start_time(ports, skew, at)
            &&& forall|p: CellPin| #[trigger]
                new.contains_key(p) ==> started_by(ports, skew, domains, n, p, new[p])
        }),
    decreases n,
{
    if n > 0 {
        lemma_all_started(ports, skew, domains, n - 1);
        let mid = all_started(ports, skew, domains, n - 1);
        let new = all_started(ports, skew, domains, n);
        let starts = domains[n - 1].startpoints@;
        lemma_started(ports, skew, mid, starts, starts.len() as int);
        assert forall|d: int, k: int, at: ClockedPin|
            d < n && #[trigger] is_startpoint(domains, d, k, at) implies new.contains_key(at.pin) && new[at.pin]
            >= start_time(ports, skew, at) by {
            if d == n - 1 {
                assert(starts[k] == at);
            } else {
                assert(mid.contains_key(at.pin));
            }
        }
        assert forall|p: CellPin| #[trigger] new.contains_key(p) implies started_by(
            ports,
            skew,
            domains,
            n,
            p,
            new[p],
        ) by {
            if mid.contains_key(p) && new[p] == mid[p] {
                assert(started_by(ports, skew, domains, n - 1, p, mid[p]));
                let (d, k, at) = choose|d: int, k: int, at: ClockedPin|
                    d < n - 1 && #[trigger] is_startpoint(domains, d, k, at) && at.pin == p && start_time(
                        ports,
                        skew,
                        at,
                    ) == mid[p];
                assert(is_startpoint(domains, d, k, at));
            } else {
                let k = choose|k: int|
                    0 <= k < starts.len() && (#[trigger] starts[k]).pin == p && start_time(ports, skew, starts[k])
                        == new[p];
                assert(is_startpoint(domains, n - 1, k, starts[k]));
            }
        }
    }
}

/// The pin has the arrival time from a startpoint.
pub open spec fn arrives_by_start(
    ports: Map<CellPin, PortFacts>,
    skew: bool,
    domains: Seq<PerDomain>,
    p: CellPin,
    t: DelayT,
) -> bool {
    exists|d: int, k: int, at: ClockedPin| #[trigger]
        is_startpoint(domains, d, k, at) && at.pin == p && starts_at(ports, skew, at, t)
}

/// The pin has the arrival time from another, which goes on to it.
pub open spec fn arrives_by_step(
    design: Design,
    ports: Map<CellPin, PortFacts>,
    order: Seq<CellPin>,
    st: Reached,
    p: CellPin,
) -> bool {
    exists|i: int, net: Option<NetId>, d: DelayT|
        0 <= i < order.len() && st.times.contains_key(order[i]) && #[trigger] goes_on(
            design,
            ports,
            order[i],
            p,
            net,
            d,
        ) && is_sum(st.times[p], st.times[order[i]] + d) && st.hops.contains_key(p) && st.hops[p] == (Hop {
            from: order[i],
            net,
            delay: d,
        })
}

/// Along an order of the ports, every startpoint has an arrival time, no earlier than it starts; and
/// every pin that a pin of the order with an arrival time goes on to, each user of its net and the end
/// of each combinational arc, has one, no earlier than that time and the delay together. Each
/// arrival time is that of a startpoint or of such a step, and the step is noted.
pub proof fn signals_reach_every_user(
    design: Design,
    ports: Map<CellPin, PortFacts>,
    domains: Seq<PerDomain>,
    skew: bool,
    order: Seq<CellPin>,
)
    requires
        orders_ports(design, ports, order),
        forall|p: CellPin| #[trigger] ports.contains_key(p) ==> !(ports[p].port_type is InOut),
    ensures
        ({
            let st = arrivals(design, ports, domains, skew, order);
            &&& forall|d: int, k: int, at: ClockedPin, t: DelayT|
                #![trigger is_startpoint(domains, d, k, at), starts_at(ports, skew, at, t)]
                is_startpoint(domains, d, k, at) && starts_at(ports, skew, at, t) ==> st.times.contains_key(at.pin)
                    && st.times[at.pin] >= t
            &&& forall|i: int, b: CellPin, net: Option<NetId>, d: DelayT|
                0 <= i < order.len() && st.times.contains_key(order[i]) && #[trigger] goes_on(
                    design,
                    ports,
                    order[i],
                    b,
                    net,
                    d,
                ) ==> st.times.contains_key(b) && (st.times[b] >= st.times[order[i]] + d || st.times[b] == i32::MAX)
            &&& forall|p: CellPin| #[trigger]
                st.times.contains_key(p) ==> (arrives_by_start(ports, skew, domains, p, st.times[p])
                    && !st.hops.contains_key(p)) || arrives_by_step(design, ports, order, st, p)
        }),
{
    let n = order.len() as int;
    let start = all_started(ports, skew, domains, domains.len() as int);
    let st = arrivals(design, ports, domains, skew, order);
    sorted_ports_lead_forward(design, ports, order);
    arrivals_are_latest(design, ports, order, start);
    lemma_all_started(ports, skew, domains, domains.len() as int);
    assert forall|d: int, k: int, at: ClockedPin, t: DelayT|
        #![trigger is_startpoint(domains, d, k, at), starts_at(ports, skew, at, t)]
        is_startpoint(domains, d, k, at) && starts_at(ports, skew, at, t) implies st.times.contains_key(at.pin)
        && st.times[at.pin] >= t by {
        startpoints_start_at_their_clock_arcs(ports, skew, at);
        lemma_one_start(ports, skew, at, t, start_time(ports, skew, at));
        assert(start.contains_key(at.pin));
    }
    assert forall|i: int, b: CellPin, net: Option<NetId>, d: DelayT|
        0 <= i < n && st.times.contains_key(order[i]) && #[trigger] goes_on(
            design,
            ports,
            order[i],
            b,
            net,
            d,
        ) implies st.times.contains_key(b) && (st.times[b] >= st.times[order[i]] + d || st.times[b] == i32::MAX) by {
        let s = Step { to: b, hop: Hop { from: order[i], net, delay: d } };
        steps_are_all_ways_on(design, ports, order[i], s);
        let steps = steps_from(design, ports, order[i]);
        let k = choose|k: int| 0 <= k < steps.len() && steps[k] == s;
        assert(is_onward(design, ports, order, n, i, k));
        assert(onward(design, ports, order, i, k) == s);
    }
    assert forall|p: CellPin| #[trigger] st.times.contains_key(p) implies (arrives_by_start(
        ports,
        skew,
        domains,
        p,
        st.times[p],
    ) && !st.hops.contains_key(p)) || arrives_by_step(design, ports, order, st, p) by {
        assert(explained(design, ports, order, n, start, st, p));
        if start.contains_key(p) && st.times[p] == start[p] && !st.hops.contains_key(p) {
            assert(started_by(ports, skew, domains, domains.len() as int, p, start[p]));
            let (d, k, at) = choose|d: int, k: int, at: ClockedPin|
                d < domains.len() && #[trigger] is_startpoint(domains, d, k, at) && at.pin == p && start_time(
                    ports,
                    skew,
                    at,
                ) == start[p];
            startpoints_start_at_their_clock_arcs(ports, skew, at);
            assert(is_startpoint(domains, d, k, at));
        } else {
            let (i, k) = choose|i: int, k: int| #[trigger]
                step_explains(design, ports, order, n, st, p, i, k);
            let s = onward(design, ports, order, i, k);
            assert(steps_from(design, ports, order[i]).contains(s));
            steps_are_all_ways_on(design, ports, order[i], s);
            assert(goes_on(design, ports, order[i], p, s.hop.net, s.hop.delay));
        }
    }
}

proof fn lemma_one_start(ports: Map<CellPin, PortFacts>, skew: bool, at: ClockedPin, a: DelayT, b: DelayT)
    requires
        starts_at(ports, skew, at, a),
        starts_at(ports, skew, at, b),
    ensures
        a == b,
{
    if exists|k: int| #[trigger] clock_arc(ports, CellArcType::ClockToQ, at, k) {
        let k = choose|k: int| #[trigger] clock_arc(ports, CellArcType::ClockToQ, at, k);
        let (i, d) = choose|i: int, d: DelayT| #[trigger]
            clock_arc(ports, CellArcType::ClockToQ, at, i) && #[trigger] is_largest(ports[at.pin].arcs[i], d)
                && is_sum(a, d + clock_lag(ports, skew, at));
        let (j, e) = choose|j: int, e: DelayT| #[trigger]
            clock_arc(ports, CellArcType::ClockToQ, at, j) && #[trigger] is_largest(ports[at.pin].arcs[j], e)
                && is_sum(b, e + clock_lag(ports, skew, at));
        if i < j {
            assert(ports[at.pin].arcs[i].arc_type != CellArcType::ClockToQ || ports[at.pin].arcs[i].other_port
                != at.clock_port);
        }
        if j < i {
            assert(ports[at.pin].arcs[j].arc_type != CellArcType::ClockToQ || ports[at.pin].arcs[j].other_port
                != at.clock_port);
        }
    }
}

spec fn end_explains(
    ports: Map<CellPin, PortFacts>,
    skew: bool,
    period: DelayT,
    ends: Seq<ClockedPin>,
    n: int,
    p: CellPin,
    t: DelayT,
) -> bool {
    exists|k: int| 0 <= k < n && (#[trigger] ends[k]).pin == p && end_time(ports, skew, period, ends[k]) == t
}

proof fn lemma_ended(
    ports: Map<CellPin, PortFacts>,
    skew: bool,
    period: DelayT,
    times: Map<CellPin, DelayT>,
    ends: Seq<ClockedPin>,
    n: int,
)
    requires
        0 <= n <= ends.len(),
    ensures
        ({
            let new = ended(ports, skew, period, times, ends, n);
            &&& forall|p: CellPin| #[trigger] times.contains_key(p) ==> new.contains_key(p) && new[p] <= times[p]
            &&& forall|k: int|
                0 <= k < n ==> new.contains_key((#[trigger] ends[k]).pin) && new[ends[k].pin] <= end_time(
                    ports,
                    skew,
                    period,
                    ends[k],
                )
            &&& forall|p: CellPin| #[trigger]
                new.contains_key(p) ==> (times.contains_key(p) && new[p] == times[p]) || end_explains(
                    ports,
                    skew,
                    period,
                    ends,
                    n,
                    p,
                    new[p],
                )
        }),
    decreases n,
{
    if n > 0 {
        lemma_ended(ports, skew, period, times, ends, n - 1);
        let mid = ended(ports, skew, period, times, ends, n - 1);
        let new = ended(ports, skew, period, times, ends, n);
        let at = ends[n - 1];
        assert forall|p: CellPin| #[trigger] new.contains_key(p) implies (times.contains_key(p) && new[p]
            == times[p]) || end_explains(ports, skew, period, ends, n, p, new[p]) by {
            if p == at.pin && new[p] == end_time(ports, skew, period, at) {
                assert(ends[n - 1].pin == p);
            } else {
                assert(mid.contains_key(p) && mid[p] == new[p]);
                if !(times.contains_key(p) && new[p] == times[p]) {
                    let k = choose|k: int|
                        0 <= k < n - 1 && (#[trigger] ends[k]).pin == p && end_time(ports, skew, period, ends[k])
                            == new[p];
                    assert(ends[k].pin == p);
                }
            }
        }
    }
}

/// The period of a domain: its own where it has one, else the default one.
pub open spec fn has_period(clocks: Seq<ClockDomain>, default_period: DelayT, d: int, period: DelayT) -> bool {
    if clocks[d].period > 0 {
        period == clocks[d].period
    } else {
        period == default_period
    }
}

spec fn ended_by(
    ports: Map<CellPin, PortFacts>,
    skew: bool,
    clocks: Seq<ClockDomain>,
    default_period: DelayT,
    domains: Seq<PerDomain>,
    n: int,
    p: CellPin,
    t: DelayT,
) -> bool {
    exists|d: int, k: int, at: ClockedPin|
        d < n && #[trigger] is_endpoint_of(domains, d, k, at) && at.pin == p && end_time(
            ports,
            skew,
            period_of(clocks[d], default_period),
            at,
        ) == t
}

proof fn lemma_all_ended(
    ports: Map<CellPin, PortFacts>,
    skew: bool,
    clocks: Seq<ClockDomain>,
    default_period: DelayT,
    domains: Seq<PerDomain>,
    n: int,
)
    requires
        0 <= n <= domains.len(),
    ensures
        ({
            let new = all_ended(ports, skew, clocks, default_period, domains, n);
            &&& forall|d: int, k: int, at: ClockedPin|
                d < n && #[trigger] is_endpoint_of(domains, d, k, at) ==> new.contains_key(at.pin) && new[at.pin]
                    <= end_time(ports, skew, period_of(clocks[d], default_period), at)
            &&& forall|p: CellPin| #[trigger]
                new.contains_key(p) ==> ended_by(ports, skew, clocks, default_period, domains, n, p, new[p])
        }),
    decreases n,
{
    if n > 0 {
        lemma_all_ended(ports, skew, clocks, default_period, domains, n - 1);
        let mid = all_ended(ports, skew, clocks, default_period, domains, n - 1);
        let new = all_ended(ports, skew, clocks, default_period, domains, n);
        let ends = domains[n - 1].endpoints@;
        let period = period_of(clocks[n - 1], default_period);
        lemma_ended(ports, skew, period, mid, ends, ends.len() as int);
        assert forall|d: int, k: int, at: ClockedPin|
            d < n && #[trigger] is_endpoint_of(domains, d, k, at) implies new.contains_key(at.pin) && new[at.pin]
            <= end_time(ports, skew, period_of(clocks[d], default_period), at) by {
            if d == n - 1 {
                assert(ends[k] == at);
            } else {
                assert(mid.contains_key(at.pin));
            }
        }
        assert forall|p: CellPin| #[trigger] new.contains_key(p) implies ended_by(
            ports,
            skew,
            clocks,
            default_period,
            domains,
            n,
            p,
            new[p],
        ) by {
            if mid.contains_key(p) && new[p] == mid[p] {
                assert(ended_by(ports, skew, clocks, default_period, domains, n - 1, p, mid[p]));
                let (d, k, at) = choose|d: int, k: int, at: ClockedPin|
                    d < n - 1 && #[trigger] is_endpoint_of(domains, d, k, at) && at.pin == p && end_time(
                        ports,
                        skew,
                        period_of(clocks[d], default_period),
                        at,
                    ) == mid[p];
                assert(is_endpoint_of(domains, d, k, at));
            } else {
                let k = choose|k: int|
                    0 <= k < ends.len() && (#[trigger] ends[k]).pin == p && end_time(ports, skew, period, ends[k])
                        == new[p];
                assert(is_endpoint_of(domains, n - 1, k, ends[k]));
            }
        }
    }
}

proof fn lemma_one_end(
    ports: Map<CellPin, PortFacts>,
    skew: bool,
    period: DelayT,
    at: ClockedPin,
    a: DelayT,
    b: DelayT,
)
    requires
        due_at(ports, skew, period, at, a),
        due_at(ports, skew, period, at, b),
    ensures
        a == b,
{
    if exists|k: int| #[trigger] clock_arc(ports, CellArcType::Setup, at, k) {
        let k = choose|k: int| #[trigger] clock_arc(ports, CellArcType::Setup, at, k);
        let (i, d, x) = choose|i: int, d: DelayT, x: DelayT| #[trigger]
            clock_arc(ports, CellArcType::Setup, at, i) && #[trigger] is_largest(ports[at.pin].arcs[i], d)
                && #[trigger] is_sum(x, period - d) && is_sum(a, x + clock_lag(ports, skew, at));
        let (j, e, y) = choose|j: int, e: DelayT, y: DelayT| #[trigger]
            clock_arc(ports, CellArcType::Setup, at, j) && #[trigger] is_largest(ports[at.pin].arcs[j], e)
                && #[trigger] is_sum(y, period - e) && is_sum(b, y + clock_lag(ports, skew, at));
        if i < j {
            assert(ports[at.pin].arcs[i].arc_type != CellArcType::Setup || ports[at.pin].arcs[i].other_port
                != at.clock_port);
        }
        if j < i {
            assert(ports[at.pin].arcs[j].arc_type != CellArcType::Setup || ports[at.pin].arcs[j].other_port
                != at.clock_port);
        }
    }
}

/// The pin is due by an endpoint there.
pub open spec fn due_by_end(
    ports: Map<CellPin, PortFacts>,
    skew: bool,
    clocks: Seq<ClockDomain>,
    default_period: DelayT,
    domains: Seq<PerDomain>,
    p: CellPin,
    t: DelayT,
) -> bool {
    exists|d: int, k: int, at: ClockedPin, period: DelayT| #[trigger]
        is_endpoint_of(domains, d, k, at) && #[trigger] has_period(clocks, default_period, d, period) && at.pin == p
            && due_at(ports, skew, period, at, t)
}

/// The pin is due by another, which it goes on to.
pub open spec fn due_by_step(
    design: Design,
    ports: Map<CellPin, PortFacts>,
    order: Seq<CellPin>,
    times: Map<CellPin, DelayT>,
    p: CellPin,
) -> bool {
    exists|i: int, net: Option<NetId>, d: DelayT|
        0 <= i < order.len() && times.contains_key(order[i]) && #[trigger] comes_from(
            design,
            ports,
            order[i],
            p,
            net,
            d,
        ) && is_sum(times[p], times[order[i]] - d)
}

/// Where every way back from a pin of the order leads to an earlier pin: every endpoint has a
/// required time, no later than its setup time asks for; and every pin that a pin of the order with a
/// required time comes from, the driver of its net and the start of each combinational arc, has one,
/// no later than that time less the delay. Each required time is that of an endpoint or of such a step.
pub proof fn requirements_reach_every_driver(
    design: Design,
    ports: Map<CellPin, PortFacts>,
    domains: Seq<PerDomain>,
    clocks: Seq<ClockDomain>,
    default_period: DelayT,
    skew: bool,
    order: Seq<CellPin>,
)
    requires
        order.no_duplicates(),
        forall|i: int, a: CellPin, net: Option<NetId>, d: DelayT|
            0 <= i < order.len() && #[trigger] comes_from(design, ports, order[i], a, net, d) ==> !order.skip(
                i,
            ).contains(a),
    ensures
        ({
            let times = requireds(design, ports, domains, clocks, default_period, skew, order);
            &&& forall|d: int, k: int, at: ClockedPin, period: DelayT, t: DelayT|
                #![trigger is_endpoint_of(domains, d, k, at), has_period(clocks, default_period, d, period), due_at(ports, skew, period, at, t)]
                is_endpoint_of(domains, d, k, at) && has_period(clocks, default_period, d, period) && due_at(
                    ports,
                    skew,
                    period,
                    at,
                    t,
                ) ==> times.contains_key(at.pin) && times[at.pin] <= t
            &&& forall|i: int, a: CellPin, net: Option<NetId>, d: DelayT|
                0 <= i < order.len() && times.contains_key(order[i]) && #[trigger] comes_from(
                    design,
                    ports,
                    order[i],
                    a,
                    net,
                    d,
                ) ==> times.contains_key(a) && (times[a] <= times[order[i]] - d || times[a] == i32::MIN)
            &&& forall|p: CellPin| #[trigger]
                times.contains_key(p) ==> due_by_end(
                    ports,
                    skew,
                    clocks,
                    default_period,
                    domains,
                    p,
                    times[p],
                ) || due_by_step(design, ports, order, times, p)
        }),
{
    let ends = all_ended(ports, skew, clocks, default_period, domains, domains.len() as int);
    let times = requireds(design, ports, domains, clocks, default_period, skew, order);
    assert(leads_backward(design, ports, order)) by {
        assert forall|i: int, k: int| is_backward(design, ports, order, 0, i, k) implies !order.skip(i).contains(
            (#[trigger] backward(design, ports, order, i, k)).to,
        ) by {
            let s = backward(design, ports, order, i, k);
            assert(steps_back(design, ports, order[i]).contains(s));
            steps_back_are_all_ways_back(design, ports, order[i], s);
            assert(comes_from(design, ports, order[i], s.to, s.hop.net, s.hop.delay));
        }
    }
    requireds_are_earliest(design, ports, order, ends);
    lemma_all_ended(ports, skew, clocks, default_period, domains, domains.len() as int);
    assert forall|d: int, k: int, at: ClockedPin, period: DelayT, t: DelayT|
        #![trigger is_endpoint_of(domains, d, k, at), has_period(clocks, default_period, d, period), due_at(ports, skew, period, at, t)]
        is_endpoint_of(domains, d, k, at) && has_period(clocks, default_period, d, period) && due_at(
            ports,
            skew,
            period,
            at,
            t,
        ) implies times.contains_key(at.pin) && times[at.pin] <= t by {
        assert(period == period_of(clocks[d], default_period));
        endpoints_are_due_by_their_setup_arcs(ports, skew, period, at);
        lemma_one_end(ports, skew, period, at, t, end_time(ports, skew, period, at));
        assert(ends.contains_key(at.pin));
    }
    assert forall|i: int, a: CellPin, net: Option<NetId>, d: DelayT|
        0 <= i < order.len() && times.contains_key(order[i]) && #[trigger] comes_from(
            design,
            ports,
            order[i],
            a,
            net,
            d,
        ) implies times.contains_key(a) && (times[a] <= times[order[i]] - d || times[a] == i32::MIN) by {
        let s = Step { to: a, hop: Hop { from: order[i], net, delay: d } };
        steps_back_are_all_ways_back(design, ports, order[i], s);
        let steps = steps_back(design, ports, order[i]);
        let k = choose|k: int| 0 <= k < steps.len() && steps[k] == s;
        assert(is_backward(design, ports, order, 0, i, k));
        assert(backward(design, ports, order, i, k) == s);
    }
    assert forall|p: CellPin| #[trigger] times.contains_key(p) implies due_by_end(
        ports,
        skew,
        clocks,
        default_period,
        domains,
        p,
        times[p],
    ) || due_by_step(design, ports, order, times, p) by {
        if ends.contains_key(p) && times[p] == ends[p] {
            assert(ended_by(ports, skew, clocks, default_period, domains, domains.len() as int, p, ends[p]));
            let (d, k, at) = choose|d: int, k: int, at: ClockedPin|
                d < domains.len() && #[trigger] is_endpoint_of(domains, d, k, at) && at.pin == p && end_time(
                    ports,
                    skew,
                    period_of(clocks[d], default_period),
                    at,
                ) == ends[p];
            let period = period_of(clocks[d], default_period);
            endpoints_are_due_by_their_setup_arcs(ports, skew, period, at);
            assert(is_endpoint_of(domains, d, k, at) && has_period(clocks, default_period, d, period));
        } else {
            let (i, k) = choose|i: int, k: int| #[trigger]
                back_step_explains(design, ports, order, 0, times, p, i, k);
            let s = backward(design, ports, order, i, k);
            assert(steps_back(design, ports, order[i]).contains(s));
            steps_back_are_all_ways_back(design, ports, order[i], s);
            assert(comes_from(design, ports, order[i], p, s.hop.net, s.hop.delay));
        }
    }
}

} // verus!
