//! Arrival times from the start of the paths, and required times from their ends.

use crate::ids::IdMap;
use crate::netlist::{lemma_first_port, CellPin, Design, NetId};
use crate::timing::analyser::{
    facts_of, lower, lowered, pins_in_design, raise, raised, ClockedPin, Hop, PerDomain, PerPort, PortFacts,
};
use crate::timing::delay::{held, held_add, held_sub, DelayT};
use crate::timing::domain::{CellArc, CellArcType, ClockDomain, DomainRegistry};
use crate::timing::ports::net_of_pin;
use crate::types::enums::PortType;
use crate::types::id_string::IdString;
use vstd::prelude::*;

verus! {

/// The first arc of a kind that leads to a port.
pub open spec fn arc_to(arcs: Seq<CellArc>, arc_type: CellArcType, port: IdString) -> Option<CellArc>
    decreases arcs.len(),
{
    if arcs.len() == 0 {
        None
    } else if arcs[0].arc_type == arc_type && arcs[0].other_port == port {
        Some(arcs[0])
    } else {
        arc_to(arcs.skip(1), arc_type, port)
    }
}

/// The first arc of a kind that leads to a port.
pub fn find_arc(arcs: &Vec<CellArc>, arc_type: CellArcType, port: IdString) -> (r: Option<CellArc>)
    ensures
        r == arc_to(arcs@, arc_type, port),
{
    assert(arcs@.skip(0) =~= arcs@);
    for i in 0..arcs.len()
        invariant
            arc_to(arcs@, arc_type, port) == arc_to(arcs@.skip(i as int), arc_type, port),
    {
        let arc = arcs[i];
        if arc.arc_type == arc_type && arc.other_port == port {
            return Some(arc);
        }
        assert(arcs@.skip(i as int).skip(1) =~= arcs@.skip(i + 1));
    }
    None
}

/// The routing delay into a pin; none where the table does not list it.
pub open spec fn route_into(ports: Map<CellPin, PortFacts>, pin: CellPin) -> DelayT {
    if ports.contains_key(pin) {
        ports[pin].route.max_delay
    } else {
        0
    }
}

fn route_delay(ports: &IdMap<CellPin, PerPort>, pin: CellPin) -> (r: DelayT)
    ensures
        r == route_into(facts_of(ports@), pin),
{
    match ports.get(pin) {
        Some(pd) => pd.route_delay.max_delay,
        None => 0,
    }
}

/// The arc at a pin that a clock port times.
pub open spec fn timing_arc(ports: Map<CellPin, PortFacts>, arc_type: CellArcType, at: ClockedPin) -> Option<CellArc> {
    if ports.contains_key(at.pin) {
        arc_to(ports[at.pin].arcs, arc_type, at.clock_port)
    } else {
        None
    }
}

fn find_timing_arc(ports: &IdMap<CellPin, PerPort>, arc_type: CellArcType, at: ClockedPin) -> (r: Option<CellArc>)
    ensures
        r == timing_arc(facts_of(ports@), arc_type, at),
{
    match ports.get(at.pin) {
        Some(pd) => find_arc(&pd.cell_arcs, arc_type, at.clock_port),
        None => None,
    }
}

/// The time after the clock edge at which a startpoint changes: the delay from the clock to the
/// output, and with clock skew the routing delay of the clock as well.
pub open spec fn start_time(ports: Map<CellPin, PortFacts>, skew: bool, at: ClockedPin) -> DelayT {
    match timing_arc(ports, CellArcType::ClockToQ, at) {
        Some(arc) => if skew {
            held(
                arc.value.greatest() + route_into(
                    ports,
                    CellPin { cell: at.pin.cell, port: at.clock_port },
                ),
            )
        } else {
            arc.value.greatest()
        },
        None => 0,
    }
}

/// The time by which an endpoint must be stable: the period less the setup time, and with clock
/// skew more by the routing delay of the clock.
pub open spec fn end_time(ports: Map<CellPin, PortFacts>, skew: bool, period: DelayT, at: ClockedPin) -> DelayT {
    match timing_arc(ports, CellArcType::Setup, at) {
        Some(arc) => if skew {
            held(
                held(period - arc.value.greatest()) + route_into(
                    ports,
                    CellPin { cell: at.pin.cell, port: at.clock_port },
                ),
            )
        } else {
            held(period - arc.value.greatest())
        },
        None => period,
    }
}

/// The arrival times with those of the first `k` startpoints.
pub open spec fn started(
    ports: Map<CellPin, PortFacts>,
    skew: bool,
    times: Map<CellPin, DelayT>,
    starts: Seq<ClockedPin>,
    k: int,
) -> Map<CellPin, DelayT>
    decreases k,
{
    if k <= 0 {
        times
    } else {
        raised(
            started(ports, skew, times, starts, k - 1),
            starts[k - 1].pin,
            start_time(ports, skew, starts[k - 1]),
        )
    }
}

/// The arrival times with those of the startpoints of the first `d` domains.
pub open spec fn all_started(
    ports: Map<CellPin, PortFacts>,
    skew: bool,
    domains: Seq<PerDomain>,
    d: int,
) -> Map<CellPin, DelayT>
    decreases d,
{
    if d <= 0 {
        Map::empty()
    } else {
        let starts = domains[d - 1].startpoints@;
        started(ports, skew, all_started(ports, skew, domains, d - 1), starts, starts.len() as int)
    }
}

/// The required times with those of the first `k` endpoints.
pub open spec fn ended(
    ports: Map<CellPin, PortFacts>,
    skew: bool,
    period: DelayT,
    times: Map<CellPin, DelayT>,
    ends: Seq<ClockedPin>,
    k: int,
) -> Map<CellPin, DelayT>
    decreases k,
{
    if k <= 0 {
        times
    } else {
        lowered(
            ended(ports, skew, period, times, ends, k - 1),
            ends[k - 1].pin,
            end_time(ports, skew, period, ends[k - 1]),
        )
    }
}

/// The period of a domain, or the default one where it has none.
pub open spec fn period_of(domain: ClockDomain, default_period: DelayT) -> DelayT {
    if domain.period > 0 {
        domain.period
    } else {
        default_period
    }
}

/// The required times with those of the endpoints of the first `d` domains.
pub open spec fn all_ended(
    ports: Map<CellPin, PortFacts>,
    skew: bool,
    clocks: Seq<ClockDomain>,
    default_period: DelayT,
    domains: Seq<PerDomain>,
    d: int,
) -> Map<CellPin, DelayT>
    decreases d,
{
    if d <= 0 {
        Map::empty()
    } else {
        let ends = domains[d - 1].endpoints@;
        ended(
            ports,
            skew,
            period_of(clocks[d - 1], default_period),
            all_ended(ports, skew, clocks, default_period, domains, d - 1),
            ends,
            ends.len() as int,
        )
    }
}

/// A step of a signal to a pin.
#[derive(Clone, Copy, PartialEq, Eq, Hash, Debug, Structural)]
pub struct Step {
    pub to: CellPin,
    pub hop: Hop,
}

/// The steps along the net from an output, to the first `k` users.
pub open spec fn net_steps(
    ports: Map<CellPin, PortFacts>,
    pin: CellPin,
    net: NetId,
    users: Seq<CellPin>,
    k: int,
) -> Seq<Step>
    decreases k,
{
    if k <= 0 {
        Seq::empty()
    } else {
        let rest = net_steps(ports, pin, net, users, k - 1);
        let user = users[k - 1];
        if user.connected() {
            rest.push(Step { to: user, hop: Hop { from: pin, net: Some(net), delay: route_into(ports, user) } })
        } else {
            rest
        }
    }
}

/// The steps through the cell along the first `k` arcs at a pin.
pub open spec fn arc_steps(pin: CellPin, arcs: Seq<CellArc>, k: int) -> Seq<Step>
    decreases k,
{
    if k <= 0 {
        Seq::empty()
    } else {
        let rest = arc_steps(pin, arcs, k - 1);
        let arc = arcs[k - 1];
        if arc.arc_type is Combinational {
            rest.push(
                Step {
                    to: CellPin { cell: pin.cell, port: arc.other_port },
                    hop: Hop { from: pin, net: None, delay: arc.value.greatest() },
                },
            )
        } else {
            rest
        }
    }
}

/// The steps of a signal onward from a pin of the table: along the net from an output, through
/// the cell from an input.
pub open spec fn steps_from(design: Design, ports: Map<CellPin, PortFacts>, pin: CellPin) -> Seq<Step> {
    if !ports.contains_key(pin) {
        Seq::empty()
    } else if ports[pin].port_type is In {
        arc_steps(pin, ports[pin].arcs, ports[pin].arcs.len() as int)
    } else {
        match net_of_pin(design, pin) {
            Some(n) => net_steps(
                ports,
                pin,
                n,
                design.net_of(n).users@,
                design.net_of(n).users@.len() as int,
            ),
            None => Seq::empty(),
        }
    }
}

/// The steps back from a pin of the table: to the driver of the net from an input, through the
/// cell from an output.
pub open spec fn steps_back(design: Design, ports: Map<CellPin, PortFacts>, pin: CellPin) -> Seq<Step> {
    if !ports.contains_key(pin) {
        Seq::empty()
    } else if ports[pin].port_type is In {
        match net_of_pin(design, pin) {
            Some(n) => if design.net_of(n).driver.connected() {
                seq![
                    Step {
                        to: design.net_of(n).driver,
                        hop: Hop { from: pin, net: Some(n), delay: ports[pin].route.max_delay },
                    },
                ]
            } else {
                Seq::empty()
            },
            None => Seq::empty(),
        }
    } else {
        arc_steps(pin, ports[pin].arcs, ports[pin].arcs.len() as int)
    }
}

fn collect_arc_steps(pin: CellPin, arcs: &Vec<CellArc>) -> (r: Vec<Step>)
    ensures
        r@ == arc_steps(pin, arcs@, arcs@.len() as int),
{
    let mut r: Vec<Step> = Vec::new();
    for k in 0..arcs.len()
        invariant
            r@ == arc_steps(pin, arcs@, k as int),
    {
        let arc = arcs[k];
        if let CellArcType::Combinational = arc.arc_type {
            r.push(
                Step {
                    to: CellPin { cell: pin.cell, port: arc.other_port },
                    hop: Hop { from: pin, net: None, delay: arc.value.as_delay_pair().max_delay },
                },
            );
        }
    }
    r
}

/// The net at a pin of a cell of the design.
fn pin_net(design: &Design, pin: CellPin) -> (r: Option<NetId>)
    requires
        design.wf(),
        design.valid_cell(pin.cell),
    ensures
        r == net_of_pin(*design, pin),
        r is Some ==> design.valid_net(r->0),
{
    let cell = design.cell(pin.cell);
    let r = cell.port_net(pin.port);
    proof {
        lemma_first_port(cell.ports@, pin.port);
        assert(design.cell_ok(*cell));
        if r is Some {
            assert(cell.ports@[cell.port_index(pin.port)].net == r);
        }
    }
    r
}

/// The steps of a signal onward from a pin.
pub fn collect_steps(design: &Design, ports: &IdMap<CellPin, PerPort>, pin: CellPin) -> (r: Vec<Step>)
    requires
        design.wf(),
        pins_in_design(*design, facts_of(ports@)),
    ensures
        r@ == steps_from(*design, facts_of(ports@), pin),
{
    let ghost facts = facts_of(ports@);
    let pd = match ports.get(pin) {
        Some(pd) => pd,
        None => {
            return Vec::new();
        },
    };
    assert(facts.contains_key(pin));
    if let PortType::In = pd.port_type {
        return collect_arc_steps(pin, &pd.cell_arcs);
    }
    let mut r: Vec<Step> = Vec::new();
    if let Some(n) = pin_net(design, pin) {
        let net = design.net(n);
        for k in 0..net.users.len()
            invariant
                facts == facts_of(ports@),
                r@ == net_steps(facts, pin, n, net.users@, k as int),
        {
            let user: CellPin = net.users[k];
            if user.is_valid() {
                r.push(Step { to: user, hop: Hop { from: pin, net: Some(n), delay: route_delay(ports, user) } });
            }
        }
    }
    r
}

/// The steps back from a pin.
pub fn collect_steps_back(design: &Design, ports: &IdMap<CellPin, PerPort>, pin: CellPin) -> (r: Vec<Step>)
    requires
        design.wf(),
        pins_in_design(*design, facts_of(ports@)),
    ensures
        r@ == steps_back(*design, facts_of(ports@), pin),
{
    let ghost facts = facts_of(ports@);
    let pd = match ports.get(pin) {
        Some(pd) => pd,
        None => {
            return Vec::new();
        },
    };
    assert(facts.contains_key(pin));
    if let PortType::In = pd.port_type {
        let mut r: Vec<Step> = Vec::new();
        if let Some(n) = pin_net(design, pin) {
            let driver = design.net(n).driver;
            if driver.is_valid() {
                r.push(Step { to: driver, hop: Hop { from: pin, net: Some(n), delay: pd.route_delay.max_delay } });
            }
        }
        assert(r@ =~= steps_back(*design, facts, pin));
        r
    } else {
        collect_arc_steps(pin, &pd.cell_arcs)
    }
}

/// The arrival times, and how each was reached.
pub struct Reached {
    pub times: Map<CellPin, DelayT>,
    pub hops: Map<CellPin, Hop>,
}

/// A step that starts at time `t` is taken where it arrives later than what is known.
pub open spec fn stepped(st: Reached, t: DelayT, step: Step) -> Reached {
    let next = held(t + step.hop.delay);
    if !st.times.contains_key(step.to) || next > st.times[step.to] {
        Reached { times: st.times.insert(step.to, next), hops: st.hops.insert(step.to, step.hop) }
    } else {
        st
    }
}

/// The first `k` steps of a list are taken from time `t`.
pub open spec fn stepped_along(st: Reached, t: DelayT, steps: Seq<Step>, k: int) -> Reached
    decreases k,
{
    if k <= 0 {
        st
    } else {
        stepped(stepped_along(st, t, steps, k - 1), t, steps[k - 1])
    }
}

/// A pin that has an arrival time passes it on.
pub open spec fn passed_on(design: Design, ports: Map<CellPin, PortFacts>, st: Reached, pin: CellPin) -> Reached {
    let steps = steps_from(design, ports, pin);
    if st.times.contains_key(pin) {
        stepped_along(st, st.times[pin], steps, steps.len() as int)
    } else {
        st
    }
}

/// The first `i` pins of the order have passed their arrival times on.
pub open spec fn passed_along(
    design: Design,
    ports: Map<CellPin, PortFacts>,
    st: Reached,
    order: Seq<CellPin>,
    i: int,
) -> Reached
    decreases i,
{
    if i <= 0 {
        st
    } else {
        passed_on(design, ports, passed_along(design, ports, st, order, i - 1), order[i - 1])
    }
}

/// The arrival times of a design: the startpoints start, and each pin of the order passes its
/// time on.
pub open spec fn arrivals(
    design: Design,
    ports: Map<CellPin, PortFacts>,
    domains: Seq<PerDomain>,
    skew: bool,
    order: Seq<CellPin>,
) -> Reached {
    passed_along(
        design,
        ports,
        Reached { times: all_started(ports, skew, domains, domains.len() as int), hops: Map::empty() },
        order,
        order.len() as int,
    )
}

/// Arrival times, and for each pin that was reached the step that reached it.
pub struct Arrivals {
    pub arrival_times: IdMap<CellPin, DelayT>,
    pub predecessors: IdMap<CellPin, Hop>,
}

impl Arrivals {
    pub open spec fn reached(self) -> Reached {
        Reached { times: self.arrival_times@, hops: self.predecessors@ }
    }
}

fn start_all(ports: &IdMap<CellPin, PerPort>, domains: &Vec<PerDomain>, skew: bool) -> (times: IdMap<
    CellPin,
    DelayT,
>)
    ensures
        times@ == all_started(facts_of(ports@), skew, domains@, domains@.len() as int),
{
    let ghost facts = facts_of(ports@);
    let mut times: IdMap<CellPin, DelayT> = IdMap::new();
    for d in 0..domains.len()
        invariant
            facts == facts_of(ports@),
            times@ == all_started(facts, skew, domains@, d as int),
    {
        let starts = &domains[d].startpoints;
        let ghost base = times@;
        for k in 0..starts.len()
            invariant
                facts == facts_of(ports@),
                times@ == started(facts, skew, base, starts@, k as int),
        {
            let at = starts[k];
            let t: DelayT = match find_timing_arc(ports, CellArcType::ClockToQ, at) {
                Some(arc) => {
                    let out: DelayT = arc.value.as_delay_pair().max_delay;
                    if skew {
                        held_add(out, route_delay(ports, CellPin { cell: at.pin.cell, port: at.clock_port }))
                    } else {
                        out
                    }
                },
                None => 0,
            };
            raise(&mut times, at.pin, t);
        }
    }
    times
}

/// Computes the arrival times of a design along an order of its pins.
pub fn forward_propagation(
    design: &Design,
    ports: &IdMap<CellPin, PerPort>,
    domains: &Vec<PerDomain>,
    skew: bool,
    order: &Vec<CellPin>,
) -> (r: Arrivals)
    requires
        design.wf(),
        pins_in_design(*design, facts_of(ports@)),
    ensures
        r.reached() == arrivals(*design, facts_of(ports@), domains@, skew, order@),
{
    let ghost facts = facts_of(ports@);
    let arrival_times = start_all(ports, domains, skew);
    let mut r = Arrivals { arrival_times, predecessors: IdMap::new() };
    let ghost st0 = r.reached();
    for i in 0..order.len()
        invariant
            design.wf(),
            facts == facts_of(ports@),
            pins_in_design(*design, facts),
            r.reached() == passed_along(*design, facts, st0, order@, i as int),
    {
        let pin: CellPin = order[i];
        let ghost st = r.reached();
        let known: Option<DelayT> = match r.arrival_times.get(pin) {
            Some(t) => Some(*t),
            None => None,
        };
        if let Some(t) = known {
            let steps = collect_steps(design, ports, pin);
            for k in 0..steps.len()
                invariant
                    r.reached() == stepped_along(st, t, steps@, k as int),
            {
                let step: Step = steps[k];
                let next: DelayT = held_add(t, step.hop.delay);
                let later: bool = match r.arrival_times.get(step.to) {
                    Some(was) => next > *was,
                    None => true,
                };
                if later {
                    let _ = r.arrival_times.insert(step.to, next);
                    let _ = r.predecessors.insert(step.to, step.hop);
                }
            }
        }
    }
    r
}

/// The first `k` steps back of a list are taken from time `t`: each pin is due earlier by the
/// delay of the step.
pub open spec fn lowered_along(
    times: Map<CellPin, DelayT>,
    t: DelayT,
    steps: Seq<Step>,
    k: int,
) -> Map<CellPin, DelayT>
    decreases k,
{
    if k <= 0 {
        times
    } else {
        lowered(lowered_along(times, t, steps, k - 1), steps[k - 1].to, held(t - steps[k - 1].hop.delay))
    }
}

/// A pin that has a required time passes it back.
pub open spec fn passed_back(
    design: Design,
    ports: Map<CellPin, PortFacts>,
    times: Map<CellPin, DelayT>,
    pin: CellPin,
) -> Map<CellPin, DelayT> {
    let steps = steps_back(design, ports, pin);
    if times.contains_key(pin) {
        lowered_along(times, times[pin], steps, steps.len() as int)
    } else {
        times
    }
}

/// The pins of the order from position `i` on have passed their required times back, the last
/// one first.
pub open spec fn backed_along(
    design: Design,
    ports: Map<CellPin, PortFacts>,
    times: Map<CellPin, DelayT>,
    order: Seq<CellPin>,
    i: int,
) -> Map<CellPin, DelayT>
    decreases order.len() - i,
{
    if i >= order.len() || i < 0 {
        times
    } else {
        passed_back(design, ports, backed_along(design, ports, times, order, i + 1), order[i])
    }
}

/// The required times of a design: the endpoints are due, and each pin of the order passes its
/// time back.
pub open spec fn requireds(
    design: Design,
    ports: Map<CellPin, PortFacts>,
    domains: Seq<PerDomain>,
    clocks: Seq<ClockDomain>,
    default_period: DelayT,
    skew: bool,
    order: Seq<CellPin>,
) -> Map<CellPin, DelayT> {
    backed_along(
        design,
        ports,
        all_ended(ports, skew, clocks, default_period, domains, domains.len() as int),
        order,
        0,
    )
}

fn end_all(
    ports: &IdMap<CellPin, PerPort>,
    domains: &Vec<PerDomain>,
    registry: &DomainRegistry,
    default_period: DelayT,
    skew: bool,
) -> (times: IdMap<CellPin, DelayT>)
    requires
        domains@.len() <= registry.domains@.len(),
    ensures
        times@ == all_ended(
            facts_of(ports@),
            skew,
            registry.domains@,
            default_period,
            domains@,
            domains@.len() as int,
        ),
{
    let ghost facts = facts_of(ports@);
    let mut times: IdMap<CellPin, DelayT> = IdMap::new();
    for d in 0..domains.len()
        invariant
            domains@.len() <= registry.domains@.len(),
            facts == facts_of(ports@),
            times@ == all_ended(facts, skew, registry.domains@, default_period, domains@, d as int),
    {
        let domain: ClockDomain = registry.domains[d];
        let period: DelayT = if domain.period > 0 {
            domain.period
        } else {
            default_period
        };
        let ends = &domains[d].endpoints;
        let ghost base = times@;
        for k in 0..ends.len()
            invariant
                facts == facts_of(ports@),
                times@ == ended(facts, skew, period, base, ends@, k as int),
        {
            let at = ends[k];
            let t: DelayT = match find_timing_arc(ports, CellArcType::Setup, at) {
                Some(arc) => {
                    let due: DelayT = held_sub(period, arc.value.max_delay());
                    if skew {
                        held_add(due, route_delay(ports, CellPin { cell: at.pin.cell, port: at.clock_port }))
                    } else {
                        due
                    }
                },
                None => period,
            };
            lower(&mut times, at.pin, t);
        }
    }
    times
}

/// Computes the required times of a design along an order of its pins.
pub fn backward_propagation(
    design: &Design,
    ports: &IdMap<CellPin, PerPort>,
    domains: &Vec<PerDomain>,
    registry: &DomainRegistry,
    default_period: DelayT,
    skew: bool,
    order: &Vec<CellPin>,
) -> (times: IdMap<CellPin, DelayT>)
    requires
        design.wf(),
        pins_in_design(*design, facts_of(ports@)),
        domains@.len() <= registry.domains@.len(),
    ensures
        times@ == requireds(
            *design,
            facts_of(ports@),
            domains@,
            registry.domains@,
            default_period,
            skew,
            order@,
        ),
{
    let ghost facts = facts_of(ports@);
    let mut times = end_all(ports, domains, registry, default_period, skew);
    let ghost st0 = times@;
    let mut i: usize = order.len();
    while i > 0
        invariant
            i <= order@.len(),
            design.wf(),
            facts == facts_of(ports@),
            pins_in_design(*design, facts),
            times@ == backed_along(*design, facts, st0, order@, i as int),
        decreases i,
    {
        i = i - 1;
        let pin: CellPin = order[i];
        let ghost st = times@;
        let known: Option<DelayT> = match times.get(pin) {
            Some(t) => Some(*t),
            None => None,
        };
        if let Some(t) = known {
            let steps = collect_steps_back(design, ports, pin);
            for k in 0..steps.len()
                invariant
                    times@ == lowered_along(st, t, steps@, k as int),
            {
                let step: Step = steps[k];
                lower(&mut times, step.to, held_sub(t, step.hop.delay));
            }
        }
    }
    times
}

} // verus!
