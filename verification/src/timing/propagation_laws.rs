//! What arrival and required times mean: along an order that leads forward, a pin arrives when
//! the latest of its sources has got there, and is due when the earliest of its targets is.

use crate::netlist::{CellPin, Design};
use crate::timing::analyser::PortFacts;
use crate::timing::delay::{held, DelayT};
use crate::timing::ports::{after_sources_of, comb_arc_to, net_of_pin, orders_ports, port_edge};
use crate::timing::propagation::{
    arc_steps, backed_along, lowered_along, net_steps, passed_along, passed_back, passed_on, steps_back,
    steps_from, stepped, stepped_along, Reached, Step,
};
use vstd::prelude::*;

verus! {

/// Step `k` onward from the pin at position `i` of the order.
pub open spec fn onward(
    design: Design,
    ports: Map<CellPin, PortFacts>,
    order: Seq<CellPin>,
    i: int,
    k: int,
) -> Step {
    steps_from(design, ports, order[i])[k]
}

/// There is such a step, among the first `n` pins of the order.
pub open spec fn is_onward(
    design: Design,
    ports: Map<CellPin, PortFacts>,
    order: Seq<CellPin>,
    n: int,
    i: int,
    k: int,
) -> bool {
    0 <= i < n && i < order.len() && 0 <= k < steps_from(design, ports, order[i]).len()
}

/// Every step from a pin of the order leads to a later pin, or to one outside the order.
pub open spec fn leads_forward(design: Design, ports: Map<CellPin, PortFacts>, order: Seq<CellPin>) -> bool {
    forall|i: int, k: int|
        is_onward(design, ports, order, order.len() as int, i, k) ==> !order.take(i + 1).contains(
            (#[trigger] onward(design, ports, order, i, k)).to,
        )
}

/// No start is later than what is found.
pub open spec fn starts_kept(start: Map<CellPin, DelayT>, times: Map<CellPin, DelayT>) -> bool {
    forall|p: CellPin| #[trigger] start.contains_key(p) ==> times.contains_key(p) && times[p] >= start[p]
}

/// No step from one of the first `n` pins arrives later than what is found.
pub open spec fn steps_kept(
    design: Design,
    ports: Map<CellPin, PortFacts>,
    order: Seq<CellPin>,
    n: int,
    times: Map<CellPin, DelayT>,
) -> bool {
    forall|i: int, k: int|
        is_onward(design, ports, order, n, i, k) && times.contains_key(order[i]) ==> {
            let step = #[trigger] onward(design, ports, order, i, k);
            &&& times.contains_key(step.to)
            &&& times[step.to] >= held(times[order[i]] + step.hop.delay)
        }
}

/// The step arrives at the pin at the time that is found for it.
pub open spec fn step_explains(
    design: Design,
    ports: Map<CellPin, PortFacts>,
    order: Seq<CellPin>,
    n: int,
    st: Reached,
    p: CellPin,
    i: int,
    k: int,
) -> bool {
    let step = onward(design, ports, order, i, k);
    &&& is_onward(design, ports, order, n, i, k)
    &&& st.times.contains_key(order[i])
    &&& step.to == p
    &&& st.times[p] == held(st.times[order[i]] + step.hop.delay)
    &&& st.hops.contains_key(p)
    &&& st.hops[p] == step.hop
}

/// The time of the pin is that of a start, or that of a step from one of the first `n` pins.
pub open spec fn explained(
    design: Design,
    ports: Map<CellPin, PortFacts>,
    order: Seq<CellPin>,
    n: int,
    start: Map<CellPin, DelayT>,
    st: Reached,
    p: CellPin,
) -> bool {
    ||| (start.contains_key(p) && st.times[p] == start[p] && !st.hops.contains_key(p))
    ||| exists|i: int, k: int| #[trigger] step_explains(design, ports, order, n, st, p, i, k)
}

/// The times are the latest: no start and no step from one of the first `n` pins is later, and
/// each time is that of a start or of such a step.
pub open spec fn latest(
    design: Design,
    ports: Map<CellPin, PortFacts>,
    order: Seq<CellPin>,
    n: int,
    start: Map<CellPin, DelayT>,
    st: Reached,
) -> bool {
    &&& starts_kept(start, st.times)
    &&& steps_kept(design, ports, order, n, st.times)
    &&& forall|p: CellPin| #[trigger]
        st.times.contains_key(p) ==> explained(design, ports, order, n, start, st, p)
    &&& forall|p: CellPin| #[trigger] st.hops.contains_key(p) ==> st.times.contains_key(p)
}

/// What taking steps from one time does.
spec fn steps_taken(st: Reached, t: DelayT, steps: Seq<Step>, k: int, new: Reached) -> bool {
    &&& forall|p: CellPin| #[trigger]
        st.times.contains_key(p) ==> new.times.contains_key(p) && new.times[p] >= st.times[p]
    &&& forall|j: int|
        0 <= j < k ==> new.times.contains_key((#[trigger] steps[j]).to) && new.times[steps[j].to] >= held(
            t + steps[j].hop.delay,
        )
    &&& forall|p: CellPin| #[trigger]
        new.times.contains_key(p) ==> untouched(st, new, p) || exists|j: int| #[trigger]
            reached_by(new, t, steps, k, p, j)
    &&& forall|p: CellPin| #[trigger] st.hops.contains_key(p) ==> new.hops.contains_key(p)
    &&& forall|p: CellPin| #[trigger]
        new.hops.contains_key(p) ==> st.hops.contains_key(p) || new.times.contains_key(p)
}

spec fn untouched(st: Reached, new: Reached, p: CellPin) -> bool {
    &&& st.times.contains_key(p)
    &&& new.times[p] == st.times[p]
    &&& st.hops.contains_key(p) == new.hops.contains_key(p)
    &&& st.hops.contains_key(p) ==> new.hops[p] == st.hops[p]
}

spec fn reached_by(new: Reached, t: DelayT, steps: Seq<Step>, k: int, p: CellPin, j: int) -> bool {
    &&& 0 <= j < k
    &&& steps[j].to == p
    &&& new.times[p] == held(t + steps[j].hop.delay)
    &&& new.hops.contains_key(p)
    &&& new.hops[p] == steps[j].hop
}

proof fn lemma_steps_taken(st: Reached, t: DelayT, steps: Seq<Step>, k: int)
    requires
        0 <= k <= steps.len(),
    ensures
        steps_taken(st, t, steps, k, stepped_along(st, t, steps, k)),
    decreases k,
{
    let new = stepped_along(st, t, steps, k);
    if k > 0 {
        lemma_steps_taken(st, t, steps, k - 1);
        let mid = stepped_along(st, t, steps, k - 1);
        let s = steps[k - 1];
        assert(new == stepped(mid, t, s));
        assert forall|p: CellPin| #[trigger] new.times.contains_key(p) implies untouched(st, new, p) || exists|
            j: int,
        | #[trigger] reached_by(new, t, steps, k, p, j) by {
            if p == s.to && new != mid {
                assert(reached_by(new, t, steps, k, p, k - 1));
            } else {
                assert(mid.times.contains_key(p));
                if !untouched(st, mid, p) {
                    let j = choose|j: int| #[trigger] reached_by(mid, t, steps, k - 1, p, j);
                    assert(reached_by(new, t, steps, k, p, j));
                }
            }
        }
    } else {
        assert forall|p: CellPin| #[trigger] new.times.contains_key(p) implies untouched(st, new, p) by {
        }
    }
}

/// A pin that passes its time on keeps the times the latest, where its steps lead to later pins.
proof fn lemma_passed_on(
    design: Design,
    ports: Map<CellPin, PortFacts>,
    order: Seq<CellPin>,
    n: int,
    start: Map<CellPin, DelayT>,
    st: Reached,
)
    requires
        0 <= n < order.len(),
        order.no_duplicates(),
        leads_forward(design, ports, order),
        latest(design, ports, order, n, start, st),
    ensures
        latest(design, ports, order, n + 1, start, passed_on(design, ports, st, order[n])),
{
    let pin = order[n];
    let steps = steps_from(design, ports, pin);
    let new = passed_on(design, ports, st, pin);
    if st.times.contains_key(pin) {
        let t = st.times[pin];
        lemma_steps_taken(st, t, steps, steps.len() as int);
        assert forall|i: int| 0 <= i <= n implies untouched(st, new, #[trigger] order[i]) || !new.times.contains_key(
            order[i],
        ) by {
            let p = order[i];
            if new.times.contains_key(p) && !untouched(st, new, p) {
                let j = choose|j: int| #[trigger] reached_by(new, t, steps, steps.len() as int, p, j);
                assert(is_onward(design, ports, order, order.len() as int, n, j));
                assert(onward(design, ports, order, n, j).to == p);
                assert(order.take(n + 1)[i] == p);
            }
        }
        assert(untouched(st, new, order[n]));
        assert(steps_kept(design, ports, order, n + 1, new.times)) by {
            assert forall|i: int, k: int|
                is_onward(design, ports, order, n + 1, i, k) && new.times.contains_key(order[i]) implies ({
                let step = #[trigger] onward(design, ports, order, i, k);
                &&& new.times.contains_key(step.to)
                &&& new.times[step.to] >= held(new.times[order[i]] + step.hop.delay)
            }) by {
                assert(untouched(st, new, order[i]));
                let step = onward(design, ports, order, i, k);
                if i < n {
                    assert(is_onward(design, ports, order, n, i, k));
                    assert(st.times.contains_key(step.to));
                } else {
                    assert(steps[k] == step);
                }
            }
        }
        assert forall|p: CellPin| #[trigger] new.times.contains_key(p) implies explained(
            design,
            ports,
            order,
            n + 1,
            start,
            new,
            p,
        ) by {
            if untouched(st, new, p) {
                assert(explained(design, ports, order, n, start, st, p));
                if exists|i: int, k: int| #[trigger] step_explains(design, ports, order, n, st, p, i, k) {
                    let (i, k) = choose|i: int, k: int| #[trigger]
                        step_explains(design, ports, order, n, st, p, i, k);
                    assert(untouched(st, new, order[i]));
                    assert(step_explains(design, ports, order, n + 1, new, p, i, k));
                }
            } else {
                let j = choose|j: int| #[trigger] reached_by(new, t, steps, steps.len() as int, p, j);
                assert(onward(design, ports, order, n, j) == steps[j]);
                assert(step_explains(design, ports, order, n + 1, new, p, n, j));
            }
        }
        assert(starts_kept(start, new.times));
    } else {
        assert(steps_kept(design, ports, order, n + 1, new.times)) by {
            assert forall|i: int, k: int|
                is_onward(design, ports, order, n + 1, i, k) && new.times.contains_key(order[i]) implies ({
                let step = #[trigger] onward(design, ports, order, i, k);
                &&& new.times.contains_key(step.to)
                &&& new.times[step.to] >= held(new.times[order[i]] + step.hop.delay)
            }) by {
                assert(is_onward(design, ports, order, n, i, k));
            }
        }
        assert forall|p: CellPin| #[trigger] new.times.contains_key(p) implies explained(
            design,
            ports,
            order,
            n + 1,
            start,
            new,
            p,
        ) by {
            assert(explained(design, ports, order, n, start, st, p));
            if exists|i: int, k: int| #[trigger] step_explains(design, ports, order, n, st, p, i, k) {
                let (i, k) = choose|i: int, k: int| #[trigger]
                    step_explains(design, ports, order, n, st, p, i, k);
                assert(step_explains(design, ports, order, n + 1, new, p, i, k));
            }
        }
    }
}

/// Along an order that leads forward, the arrival time of a pin is the latest of its start and of
/// the arrival times of its sources, each with the delay of the step; the step that was noted for
/// the pin is one that gives this time.
pub proof fn arrivals_are_latest(
    design: Design,
    ports: Map<CellPin, PortFacts>,
    order: Seq<CellPin>,
    start: Map<CellPin, DelayT>,
)
    requires
        order.no_duplicates(),
        leads_forward(design, ports, order),
    ensures
        latest(
            design,
            ports,
            order,
            order.len() as int,
            start,
            passed_along(
                design,
                ports,
                Reached { times: start, hops: Map::empty() },
                order,
                order.len() as int,
            ),
        ),
{
    lemma_latest_upto(design, ports, order, start, order.len() as int);
}

proof fn lemma_latest_upto(
    design: Design,
    ports: Map<CellPin, PortFacts>,
    order: Seq<CellPin>,
    start: Map<CellPin, DelayT>,
    n: int,
)
    requires
        0 <= n <= order.len(),
        order.no_duplicates(),
        leads_forward(design, ports, order),
    ensures
        latest(
            design,
            ports,
            order,
            n,
            start,
            passed_along(design, ports, Reached { times: start, hops: Map::empty() }, order, n),
        ),
    decreases n,
{
    let st0 = Reached { times: start, hops: Map::empty() };
    if n > 0 {
        lemma_latest_upto(design, ports, order, start, n - 1);
        lemma_passed_on(design, ports, order, n - 1, start, passed_along(design, ports, st0, order, n - 1));
    }
}

proof fn lemma_arc_step(pin: CellPin, facts: PortFacts, k: int, j: int)
    requires
        0 <= k <= facts.arcs.len(),
        0 <= j < arc_steps(pin, facts.arcs, k).len(),
    ensures
        ({
            let to = arc_steps(pin, facts.arcs, k)[j].to;
            to.cell == pin.cell && exists|i: int| #[trigger] comb_arc_to(facts, to.port, i)
        }),
    decreases k,
{
    if k <= 0 {
        assert(arc_steps(pin, facts.arcs, k).len() == 0);
    } else {
        let rest = arc_steps(pin, facts.arcs, k - 1);
        if j < rest.len() {
            lemma_arc_step(pin, facts, k - 1, j);
            assert(arc_steps(pin, facts.arcs, k)[j] == rest[j]);
        } else {
            assert(facts.arcs[k - 1].arc_type is Combinational);
            let to = arc_steps(pin, facts.arcs, k)[j].to;
            assert(to == CellPin { cell: pin.cell, port: facts.arcs[k - 1].other_port });
            assert(comb_arc_to(facts, to.port, k - 1));
        }
    }
}

proof fn lemma_net_step(
    ports: Map<CellPin, PortFacts>,
    pin: CellPin,
    net: crate::netlist::NetId,
    users: Seq<CellPin>,
    k: int,
    j: int,
)
    requires
        0 <= k <= users.len(),
        0 <= j < net_steps(ports, pin, net, users, k).len(),
    ensures
        users.contains(net_steps(ports, pin, net, users, k)[j].to),
        net_steps(ports, pin, net, users, k)[j].to.connected(),
    decreases k,
{
    if k > 0 {
        let rest = net_steps(ports, pin, net, users, k - 1);
        if j < rest.len() {
            lemma_net_step(ports, pin, net, users, k - 1, j);
        } else {
            assert(users[k - 1] == net_steps(ports, pin, net, users, k)[j].to);
        }
    }
}

/// An order of the ports leads forward, where no port is of both directions.
pub proof fn sorted_ports_lead_forward(design: Design, ports: Map<CellPin, PortFacts>, order: Seq<CellPin>)
    requires
        orders_ports(design, ports, order),
        forall|p: CellPin| #[trigger] ports.contains_key(p) ==> !(ports[p].port_type is InOut),
    ensures
        leads_forward(design, ports, order),
{
    assert forall|i: int, k: int| is_onward(design, ports, order, order.len() as int, i, k) implies !order.take(
        i + 1,
    ).contains((#[trigger] onward(design, ports, order, i, k)).to) by {
        let pin = order[i];
        let to = onward(design, ports, order, i, k).to;
        assert(ports.contains_key(pin));
        if ports[pin].port_type is In {
            lemma_arc_step(pin, ports[pin], ports[pin].arcs.len() as int, k);
        } else {
            let n = net_of_pin(design, pin)->0;
            let users = design.net_of(n).users@;
            lemma_net_step(ports, pin, n, users, users.len() as int, k);
        }
        let head = order.take(i + 1);
        if head.contains(to) {
            let j = choose|j: int| 0 <= j < head.len() && head[j] == to;
            assert(order[j] == to);
            assert(ports.contains_key(order[j]));
            assert(port_edge(design, ports, pin, to));
            assert(after_sources_of(design, ports, order, j));
            let before = order.take(j);
            assert(before.contains(pin));
            let m = choose|m: int| 0 <= m < before.len() && before[m] == pin;
            assert(order[m] == order[i]);
        }
    }
}

/// Step `k` back from the pin at position `i` of the order.
pub open spec fn backward(
    design: Design,
    ports: Map<CellPin, PortFacts>,
    order: Seq<CellPin>,
    i: int,
    k: int,
) -> Step {
    steps_back(design, ports, order[i])[k]
}

/// There is such a step, among the pins of the order from position `n` on.
pub open spec fn is_backward(
    design: Design,
    ports: Map<CellPin, PortFacts>,
    order: Seq<CellPin>,
    n: int,
    i: int,
    k: int,
) -> bool {
    0 <= n <= i < order.len() && 0 <= k < steps_back(design, ports, order[i]).len()
}

/// Every step back from a pin of the order leads to an earlier pin, or to one outside the order.
pub open spec fn leads_backward(design: Design, ports: Map<CellPin, PortFacts>, order: Seq<CellPin>) -> bool {
    forall|i: int, k: int|
        is_backward(design, ports, order, 0, i, k) ==> !order.skip(i).contains(
            (#[trigger] backward(design, ports, order, i, k)).to,
        )
}

/// The step gives the pin the time that is found for it.
pub open spec fn back_step_explains(
    design: Design,
    ports: Map<CellPin, PortFacts>,
    order: Seq<CellPin>,
    n: int,
    times: Map<CellPin, DelayT>,
    p: CellPin,
    i: int,
    k: int,
) -> bool {
    let step = backward(design, ports, order, i, k);
    &&& is_backward(design, ports, order, n, i, k)
    &&& times.contains_key(order[i])
    &&& step.to == p
    &&& times[p] == held(times[order[i]] - step.hop.delay)
}

/// The times are the earliest: no end and no step back from one of the pins from position `n` on
/// is earlier, and each time is that of an end or of such a step.
pub open spec fn earliest(
    design: Design,
    ports: Map<CellPin, PortFacts>,
    order: Seq<CellPin>,
    n: int,
    ends: Map<CellPin, DelayT>,
    times: Map<CellPin, DelayT>,
) -> bool {
    &&& forall|p: CellPin| #[trigger] ends.contains_key(p) ==> times.contains_key(p) && times[p] <= ends[p]
    &&& forall|i: int, k: int|
        is_backward(design, ports, order, n, i, k) && times.contains_key(order[i]) ==> {
            let step = #[trigger] backward(design, ports, order, i, k);
            &&& times.contains_key(step.to)
            &&& times[step.to] <= held(times[order[i]] - step.hop.delay)
        }
    &&& forall|p: CellPin| #[trigger]
        times.contains_key(p) ==> (ends.contains_key(p) && times[p] == ends[p]) || exists|i: int, k: int|
            #[trigger] back_step_explains(design, ports, order, n, times, p, i, k)
}

/// What passing one time back along steps does.
spec fn lowers(times: Map<CellPin, DelayT>, t: DelayT, steps: Seq<Step>, k: int, new: Map<CellPin, DelayT>) -> bool {
    &&& forall|p: CellPin| #[trigger]
        times.contains_key(p) ==> new.contains_key(p) && new[p] <= times[p]
    &&& forall|j: int|
        0 <= j < k ==> new.contains_key((#[trigger] steps[j]).to) && new[steps[j].to] <= held(
            t - steps[j].hop.delay,
        )
    &&& forall|p: CellPin| #[trigger]
        new.contains_key(p) ==> (times.contains_key(p) && new[p] == times[p]) || exists|j: int| #[trigger]
            lowered_by(new, t, steps, k, p, j)
}

spec fn lowered_by(new: Map<CellPin, DelayT>, t: DelayT, steps: Seq<Step>, k: int, p: CellPin, j: int) -> bool {
    0 <= j < k && steps[j].to == p && new[p] == held(t - steps[j].hop.delay)
}

proof fn lemma_lowers(times: Map<CellPin, DelayT>, t: DelayT, steps: Seq<Step>, k: int)
    requires
        0 <= k <= steps.len(),
    ensures
        lowers(times, t, steps, k, lowered_along(times, t, steps, k)),
    decreases k,
{
    let new = lowered_along(times, t, steps, k);
    if k > 0 {
        lemma_lowers(times, t, steps, k - 1);
        let mid = lowered_along(times, t, steps, k - 1);
        let s = steps[k - 1];
        assert forall|p: CellPin| #[trigger] new.contains_key(p) implies (times.contains_key(p) && new[p]
            == times[p]) || exists|j: int| #[trigger] lowered_by(new, t, steps, k, p, j) by {
            if p == s.to && (!mid.contains_key(p) || new[p] != mid[p]) {
                assert(lowered_by(new, t, steps, k, p, k - 1));
            } else {
                assert(mid.contains_key(p) && new[p] == mid[p]);
                if !(times.contains_key(p) && mid[p] == times[p]) {
                    let j = choose|j: int| #[trigger] lowered_by(mid, t, steps, k - 1, p, j);
                    assert(lowered_by(new, t, steps, k, p, j));
                }
            }
        }
    }
}

proof fn lemma_passed_back(
    design: Design,
    ports: Map<CellPin, PortFacts>,
    order: Seq<CellPin>,
    n: int,
    ends: Map<CellPin, DelayT>,
    times: Map<CellPin, DelayT>,
)
    requires
        0 <= n < order.len(),
        order.no_duplicates(),
        leads_backward(design, ports, order),
        earliest(design, ports, order, n + 1, ends, times),
    ensures
        earliest(design, ports, order, n, ends, passed_back(design, ports, times, order[n])),
{
    let pin = order[n];
    let steps = steps_back(design, ports, pin);
    let new = passed_back(design, ports, times, pin);
    let t = times[pin];
    if times.contains_key(pin) {
        lemma_lowers(times, t, steps, steps.len() as int);
    }
    assert forall|i: int| n <= i < order.len() && new.contains_key(#[trigger] order[i]) implies times.contains_key(
        order[i],
    ) && new[order[i]] == times[order[i]] by {
        let p = order[i];
        if times.contains_key(pin) && !(times.contains_key(p) && new[p] == times[p]) {
            let j = choose|j: int| #[trigger] lowered_by(new, t, steps, steps.len() as int, p, j);
            assert(is_backward(design, ports, order, 0, n, j));
            assert(backward(design, ports, order, n, j).to == p);
            assert(order.skip(n)[i - n] == p);
        }
    }
    assert forall|i: int, k: int|
        is_backward(design, ports, order, n, i, k) && new.contains_key(order[i]) implies ({
        let step = #[trigger] backward(design, ports, order, i, k);
        &&& new.contains_key(step.to)
        &&& new[step.to] <= held(new[order[i]] - step.hop.delay)
    }) by {
        assert(times.contains_key(order[i]) && new[order[i]] == times[order[i]]);
        let step = backward(design, ports, order, i, k);
        if i > n {
            assert(is_backward(design, ports, order, n + 1, i, k));
            assert(times.contains_key(step.to));
        } else {
            assert(steps[k] == step);
        }
    }
    assert forall|p: CellPin| #[trigger] new.contains_key(p) implies (ends.contains_key(p) && new[p] == ends[p])
        || exists|i: int, k: int| #[trigger] back_step_explains(design, ports, order, n, new, p, i, k) by {
        if times.contains_key(p) && new[p] == times[p] {
            if !(ends.contains_key(p) && times[p] == ends[p]) {
                let (i, k) = choose|i: int, k: int| #[trigger]
                    back_step_explains(design, ports, order, n + 1, times, p, i, k);
                assert(new.contains_key(order[i]));
                assert(back_step_explains(design, ports, order, n, new, p, i, k));
            }
        } else {
            let j = choose|j: int| #[trigger] lowered_by(new, t, steps, steps.len() as int, p, j);
            assert(backward(design, ports, order, n, j) == steps[j]);
            assert(new.contains_key(order[n]));
            assert(back_step_explains(design, ports, order, n, new, p, n, j));
        }
    }
}

/// Along an order whose steps back lead to earlier pins, the required time of a pin is the
/// earliest of its end and of the required times of its targets, each less the delay of the step.
pub proof fn requireds_are_earliest(
    design: Design,
    ports: Map<CellPin, PortFacts>,
    order: Seq<CellPin>,
    ends: Map<CellPin, DelayT>,
)
    requires
        order.no_duplicates(),
        leads_backward(design, ports, order),
    ensures
        earliest(design, ports, order, 0, ends, backed_along(design, ports, ends, order, 0)),
{
    lemma_earliest_from(design, ports, order, ends, 0);
}

proof fn lemma_earliest_from(
    design: Design,
    ports: Map<CellPin, PortFacts>,
    order: Seq<CellPin>,
    ends: Map<CellPin, DelayT>,
    n: int,
)
    requires
        0 <= n <= order.len(),
        order.no_duplicates(),
        leads_backward(design, ports, order),
    ensures
        earliest(design, ports, order, n, ends, backed_along(design, ports, ends, order, n)),
    decreases order.len() - n,
{
    if n < order.len() {
        lemma_earliest_from(design, ports, order, ends, n + 1);
        lemma_passed_back(design, ports, order, n, ends, backed_along(design, ports, ends, order, n + 1));
    }
}

} // verus!
