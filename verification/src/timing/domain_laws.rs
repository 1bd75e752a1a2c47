//! Which pins begin and end the paths of which clock domains.

use crate::netlist::{Cell, CellPin, Design};
use crate::router::net_laws::lemma_picked;
use crate::timing::analyser::{ClockedPin, PerDomain, PortFacts};
use crate::timing::arc_laws::takes_clock;
use crate::timing::cell_delays::clock_port;
use crate::timing::delay::DelayT;
use crate::timing::domain::{CellArc, CellArcType, ClockDomain, ClockDomainId};
use crate::timing::domain_setup::{
    captures, enrolled, launches, pair_period, pins_at, pins_of, register_pins, wanted_domain, RegisterPin,
};
use crate::timing::kinds::ClockEdge;
use crate::timing::legacy::{domain_from, period_in};
use crate::timing::ports::cell_domain;
use crate::types::id_string::IdString;
use vstd::prelude::*;

verus! {

/// The register pin that an arc makes at a pin.
pub open spec fn register_pin(pin: CellPin, arc: CellArc) -> RegisterPin {
    RegisterPin { at: ClockedPin { pin, clock_port: arc.other_port }, edge: arc.edge }
}

/// Arc `j` of the port is of the kind and makes the register pin.
pub open spec fn makes(ports: Map<CellPin, PortFacts>, pin: CellPin, kind: CellArcType, j: int, p: RegisterPin) -> bool {
    &&& ports.contains_key(pin)
    &&& (ports[pin].port_type is In) == (kind is Setup)
    &&& 0 <= j < ports[pin].arcs.len()
    &&& ports[pin].arcs[j].arc_type == kind
    &&& p == register_pin(pin, ports[pin].arcs[j])
}

/// Some arc of the pin makes the register pin.
pub open spec fn some_makes(ports: Map<CellPin, PortFacts>, pin: CellPin, kind: CellArcType, p: RegisterPin) -> bool {
    exists|j: int| makes(ports, pin, kind, j, p)
}

proof fn lemma_register_pins(pin: CellPin, arcs: Seq<CellArc>, kind: CellArcType, k: int)
    requires
        0 <= k <= arcs.len(),
    ensures
        forall|j: int|
            0 <= j < k && (#[trigger] arcs[j]).arc_type == kind ==> register_pins(pin, arcs, kind, k).contains(
                register_pin(pin, arcs[j]),
            ),
        forall|p: RegisterPin| #[trigger]
            register_pins(pin, arcs, kind, k).contains(p) ==> exists|j: int|
                0 <= j < k && (#[trigger] arcs[j]).arc_type == kind && p == register_pin(pin, arcs[j]),
    decreases k,
{
    if k > 0 {
        lemma_register_pins(pin, arcs, kind, k - 1);
        let part = register_pins(pin, arcs, kind, k - 1);
        let list = register_pins(pin, arcs, kind, k);
        assert forall|j: int| 0 <= j < k && (#[trigger] arcs[j]).arc_type == kind implies list.contains(
            register_pin(pin, arcs[j]),
        ) by {
            let p = register_pin(pin, arcs[j]);
            if j < k - 1 {
                assert(part.contains(p));
                let i = choose|i: int| 0 <= i < part.len() && part[i] == p;
                assert(list[i] == p);
            } else {
                assert(list[part.len() as int] == p);
            }
        }
        assert forall|p: RegisterPin| #[trigger] list.contains(p) implies exists|j: int|
            0 <= j < k && (#[trigger] arcs[j]).arc_type == kind && p == register_pin(pin, arcs[j]) by {
            let i = choose|i: int| 0 <= i < list.len() && list[i] == p;
            if i < part.len() {
                assert(part[i] == p);
                assert(part.contains(p));
            } else {
                assert(arcs[k - 1].arc_type == kind);
            }
        }
    }
}

proof fn lemma_pins_at(ports: Map<CellPin, PortFacts>, pin: CellPin, outputs: bool, p: RegisterPin)
    ensures
        pins_at(ports, pin, outputs).contains(p) <==> some_makes(
            ports,
            pin,
            if outputs {
                CellArcType::ClockToQ
            } else {
                CellArcType::Setup
            },
            p,
        ),
{
    let kind = if outputs {
        CellArcType::ClockToQ
    } else {
        CellArcType::Setup
    };
    if ports.contains_key(pin) {
        let arcs = ports[pin].arcs;
        lemma_register_pins(pin, arcs, kind, arcs.len() as int);
        if some_makes(ports, pin, kind, p) {
            let j = choose|j: int| makes(ports, pin, kind, j, p);
            assert(arcs[j].arc_type == kind);
        }
        if pins_at(ports, pin, outputs).contains(p) {
            let j = choose|j: int|
                0 <= j < arcs.len() && (#[trigger] arcs[j]).arc_type == kind && p == register_pin(pin, arcs[j]);
            assert(makes(ports, pin, kind, j, p));
        }
    }
}

/// Paths begin at every clock-to-output arc of every output of the order, and nowhere else.
pub proof fn every_clock_arc_begins_paths(ports: Map<CellPin, PortFacts>, order: Seq<CellPin>, n: int, p: RegisterPin)
    requires
        0 <= n <= order.len(),
    ensures
        launches(ports, order, n).contains(p) <==> exists|i: int|
            0 <= i < n && some_makes(ports, #[trigger] order[i], CellArcType::ClockToQ, p),
    decreases n,
{
    if n > 0 {
        every_clock_arc_begins_paths(ports, order, n - 1, p);
        let part = launches(ports, order, n - 1);
        let own = pins_at(ports, order[n - 1], true);
        let all = launches(ports, order, n);
        lemma_pins_at(ports, order[n - 1], true, p);
        if all.contains(p) {
            let i = choose|i: int| 0 <= i < all.len() && all[i] == p;
            if i < part.len() {
                assert(part[i] == p);
            } else {
                assert(own[i - part.len()] == p);
            }
        }
        if part.contains(p) {
            let i = choose|i: int| 0 <= i < part.len() && part[i] == p;
            assert(all[i] == p);
        }
        if own.contains(p) {
            let i = choose|i: int| 0 <= i < own.len() && own[i] == p;
            assert(all[part.len() + i] == p);
        }
    }
}

/// Paths end at every setup arc of every input of the order, and nowhere else.
pub proof fn every_setup_arc_ends_paths(ports: Map<CellPin, PortFacts>, order: Seq<CellPin>, n: int, p: RegisterPin)
    requires
        0 <= n <= order.len(),
    ensures
        captures(ports, order, n).contains(p) <==> exists|i: int|
            n <= i < order.len() && some_makes(ports, #[trigger] order[i], CellArcType::Setup, p),
    decreases order.len() - n,
{
    if n < order.len() {
        every_setup_arc_ends_paths(ports, order, n + 1, p);
        let part = captures(ports, order, n + 1);
        let own = pins_at(ports, order[n], false);
        let all = captures(ports, order, n);
        lemma_pins_at(ports, order[n], false, p);
        if all.contains(p) {
            let i = choose|i: int| 0 <= i < all.len() && all[i] == p;
            if i < part.len() {
                assert(part[i] == p);
            } else {
                assert(own[i - part.len()] == p);
            }
        }
        if part.contains(p) {
            let i = choose|i: int| 0 <= i < part.len() && part[i] == p;
            assert(all[i] == p);
        }
        if own.contains(p) {
            let i = choose|i: int| 0 <= i < own.len() && own[i] == p;
            assert(all[part.len() + i] == p);
        }
    }
}

/// A register pin asks for the domain of the net at its clock port, with its edge, and with the period
/// of the net, or where this has none that of the constraint on its name, or zero; a pin whose clock
/// port has no net asks for none.
pub proof fn pins_ask_for_their_clock(design: Design, clocks: Map<IdString, DelayT>, p: RegisterPin)
    ensures
        ({
            let n = design.cells@[p.at.pin.cell.0 as int].net_at(p.at.clock_port);
            let d = wanted_domain(design, clocks, p);
            &&& n is None <==> d is None
            &&& n is Some ==> {
                let net = design.nets@[(n->0).0 as int];
                &&& d->0.clock_net == net.name
                &&& d->0.edge == p.edge
                &&& net.clock_constraint > 0 ==> d->0.period == net.clock_constraint
                &&& net.clock_constraint <= 0 && clocks.contains_key(net.name) ==> d->0.period == clocks[net.name]
                &&& net.clock_constraint <= 0 && !clocks.contains_key(net.name) ==> d->0.period == 0
            }
        }),
{
}

/// Two domains are of one clock and edge.
pub open spec fn alike(a: ClockDomain, b: ClockDomain) -> bool {
    a.clock_net == b.clock_net && a.edge == b.edge
}

/// Some domain is of the clock and edge.
pub open spec fn some_alike(domains: Seq<ClockDomain>, d: ClockDomain) -> bool {
    exists|i: int| 0 <= i < domains.len() && alike(#[trigger] domains[i], d)
}

/// Some pin of the list asks for the domain.
pub open spec fn some_asks(
    design: Design,
    clocks: Map<IdString, DelayT>,
    list: Seq<RegisterPin>,
    k: int,
    d: ClockDomain,
) -> bool {
    exists|j: int| 0 <= j < k && wanted_domain(design, clocks, #[trigger] list[j]) == Some(d)
}

/// Every domain that a register pin of a list asks for is enrolled while there are numbers left; none is
/// enrolled that nobody asks for, none of a clock and edge that has one already, and the domains before
/// keep their numbers.
pub proof fn every_domain_asked_for_is_enrolled(
    design: Design,
    clocks: Map<IdString, DelayT>,
    domains: Seq<ClockDomain>,
    list: Seq<RegisterPin>,
    k: int,
)
    requires
        0 <= k <= list.len(),
    ensures
        ({
            let new = enrolled(design, clocks, domains, list, k);
            &&& domains.len() <= new.len()
            &&& forall|i: int| 0 <= i < domains.len() ==> #[trigger] new[i] == domains[i]
            &&& new.len() < u32::MAX ==> forall|j: int|
                0 <= j < k && wanted_domain(design, clocks, #[trigger] list[j]) is Some ==> some_alike(
                    new,
                    wanted_domain(design, clocks, list[j])->0,
                )
            &&& forall|i: int|
                domains.len() <= i < new.len() ==> some_asks(design, clocks, list, k, #[trigger] new[i])
            &&& forall|i: int, j: int|
                domains.len() <= j < new.len() && 0 <= i < j ==> !alike(#[trigger] new[i], #[trigger] new[j])
        }),
    decreases k,
{
    if k > 0 {
        every_domain_asked_for_is_enrolled(design, clocks, domains, list, k - 1);
        let old_list = enrolled(design, clocks, domains, list, k - 1);
        let new = enrolled(design, clocks, domains, list, k);
        let last = list[k - 1];
        if new.len() < u32::MAX {
            assert forall|j: int|
                0 <= j < k && wanted_domain(design, clocks, #[trigger] list[j]) is Some implies some_alike(
                new,
                wanted_domain(design, clocks, list[j])->0,
            ) by {
                let d = wanted_domain(design, clocks, list[j])->0;
                if j < k - 1 {
                    assert(some_alike(old_list, d));
                    let i = choose|i: int| 0 <= i < old_list.len() && alike(#[trigger] old_list[i], d);
                    assert(new[i] == old_list[i]);
                    assert(alike(new[i], d));
                } else if crate::timing::domain_setup::known_domain(old_list, d) {
                    let i = choose|i: int|
                        0 <= i < old_list.len() && (#[trigger] old_list[i]).clock_net == d.clock_net
                            && old_list[i].edge == d.edge;
                    assert(alike(new[i], d));
                } else {
                    assert(alike(new[old_list.len() as int], d));
                }
            }
        }
        assert forall|i: int| domains.len() <= i < new.len() implies some_asks(
            design,
            clocks,
            list,
            k,
            #[trigger] new[i],
        ) by {
            if i < old_list.len() {
                assert(new[i] == old_list[i]);
                assert(some_asks(design, clocks, list, k - 1, old_list[i]));
                let part = k - 1;
                let j = choose|j: int|
                    0 <= j < part && wanted_domain(design, clocks, #[trigger] list[j]) == Some(old_list[i]);
                assert(wanted_domain(design, clocks, list[j]) == Some(new[i]));
            } else {
                assert(wanted_domain(design, clocks, list[k - 1]) == Some(new[i]));
            }
        }
        assert forall|i: int, j: int|
            domains.len() <= j < new.len() && 0 <= i < j implies !alike(#[trigger] new[i], #[trigger] new[j]) by {
            assert(new[i] == old_list[i]);
            if j < old_list.len() {
                assert(new[j] == old_list[j]);
                assert(!alike(old_list[i], old_list[j]));
            }
        }
    }
}

/// The positions below a number.
pub open spec fn places(n: nat) -> Seq<int> {
    Seq::new(n, |i: int| i)
}

/// Holds of the positions with the number of the domain.
pub open spec fn of_domain(ids: Seq<ClockDomainId>, d: int) -> spec_fn(int) -> bool {
    |i: int| ids[i].0 == d
}

/// The pins of a domain are those of all entries with its number, in order.
pub proof fn domains_have_all_their_pins(list: Seq<RegisterPin>, ids: Seq<ClockDomainId>, d: int, k: int)
    requires
        0 <= k <= list.len(),
    ensures
        ({
            let own = places(list.len()).take(k).filter(of_domain(ids, d));
            let pins = pins_of(list, ids, d, k);
            &&& pins.len() == own.len()
            &&& forall|i: int| 0 <= i < own.len() ==> #[trigger] pins[i] == list[own[i]].at
        }),
    decreases k,
{
    lemma_picked(places(list.len()), k, of_domain(ids, d));
    if k > 0 {
        domains_have_all_their_pins(list, ids, d, k - 1);
    }
}

/// Between two domains of one clock lies its period, that of the constraint on it or else the default
/// one; between different edges half of it, rounded toward zero; between different clocks nothing.
pub proof fn edges_of_a_clock_are_half_a_period_apart(
    a: ClockDomain,
    b: ClockDomain,
    clocks: Map<IdString, DelayT>,
    default_period: DelayT,
)
    ensures
        ({
            let t = pair_period(a, b, clocks, default_period);
            let whole = if clocks.contains_key(a.clock_net) {
                clocks[a.clock_net]
            } else {
                default_period
            };
            &&& a.clock_net != b.clock_net ==> t == 0
            &&& alike(a, b) ==> t == whole
            &&& a.clock_net == b.clock_net && a.edge != b.edge && whole >= 0 ==> 2 * t <= whole <= 2 * t + 1
            &&& a.clock_net == b.clock_net && a.edge != b.edge && whole < 0 ==> 2 * t - 1 <= whole <= 2 * t
            &&& t == pair_period(b, a, clocks, default_period)
        }),
{
}

/// The clock of a cell is that of its last clock input: the name of the net there, the rising edge, and
/// the period of the net or else that of the constraint on its name. A cell without a clock input has
/// none.
pub proof fn cells_are_clocked_by_their_last_clock_input(
    design: Design,
    clocks: Map<IdString, DelayT>,
    cell: Cell,
    k: int,
)
    requires
        0 <= k <= cell.ports@.len(),
    ensures
        forall|i: int|
            i < k && #[trigger] takes_clock(design, clocks, cell, i) && (forall|j: int|
                i < j < k ==> !(#[trigger] takes_clock(design, clocks, cell, j))) ==> {
                let d = cell_domain(design, clocks, cell, k);
                let net = design.nets@[(cell.ports@[i].net->0).0 as int];
                &&& d is Some
                &&& d->0.clock_net == net.name
                &&& d->0.edge == ClockEdge::Rising
                &&& net.clock_constraint > 0 ==> d->0.period == net.clock_constraint
                &&& net.clock_constraint <= 0 ==> d->0.period == clocks[net.name]
            },
        (forall|i: int| i < k ==> !(#[trigger] takes_clock(design, clocks, cell, i))) ==> cell_domain(
            design,
            clocks,
            cell,
            k,
        ) is None,
    decreases k,
{
    if k > 0 {
        cells_are_clocked_by_their_last_clock_input(design, clocks, cell, k - 1);
        assert(takes_clock(design, clocks, cell, k - 1) <==> clock_port(design, clocks, cell.ports@[k - 1]));
    }
}

/// Some endpoint of the domain is at the pin.
pub open spec fn has_endpoint(per_domain: Seq<PerDomain>, d: int, pin: CellPin) -> bool {
    &&& d < per_domain.len()
    &&& exists|i: int| 0 <= i < per_domain[d].endpoints@.len() && (#[trigger] per_domain[d].endpoints@[i]).pin == pin
}

/// The domain of a pin is the first, from a number on, that has an endpoint there, and the one without a
/// clock where none has.
pub proof fn the_first_domain_that_ends_at_a_pin_counts(
    domains: Seq<ClockDomain>,
    per_domain: Seq<PerDomain>,
    pin: CellPin,
    d: int,
)
    requires
        0 <= d,
    ensures
        forall|i: int|
            d <= i < domains.len() && #[trigger] has_endpoint(per_domain, i, pin) && (forall|j: int|
                d <= j < i ==> !(#[trigger] has_endpoint(per_domain, j, pin))) ==> domain_from(
                domains,
                per_domain,
                pin,
                d,
            ) == domains[i],
        (forall|i: int| d <= i < domains.len() ==> !(#[trigger] has_endpoint(per_domain, i, pin))) ==> domain_from(
            domains,
            per_domain,
            pin,
            d,
        ).clock_net == IdString(0) && domain_from(domains, per_domain, pin, d).period == 0,
    decreases domains.len() - d,
{
    if d < domains.len() {
        the_first_domain_that_ends_at_a_pin_counts(domains, per_domain, pin, d + 1);
        assert(has_endpoint(per_domain, d, pin) <==> d < per_domain.len() && crate::timing::legacy::ends_at(
            per_domain[d],
            pin,
        ));
    }
}

/// The period of a domain is its own where it has one; else that of the constraint on its clock; else
/// the default one.
pub proof fn domains_have_their_period(d: ClockDomain, clocks: Map<IdString, DelayT>, default_period: DelayT)
    ensures
        d.period > 0 ==> period_in(d, clocks, default_period) == d.period,
        d.period <= 0 && d.clock_net != IdString(0) && clocks.contains_key(d.clock_net) ==> period_in(
            d,
            clocks,
            default_period,
        ) == clocks[d.clock_net],
        d.period <= 0 && (d.clock_net == IdString(0) || !clocks.contains_key(d.clock_net)) ==> period_in(
            d,
            clocks,
            default_period,
        ) == default_period,
{
}

} // verus!
