//! The order of the ports for propagation, and the domains that their nets suggest.

use crate::ids::IdMap;
use crate::netlist::{lemma_first_port, Cell, CellId, CellPin, Design, NetId};
use crate::timing::analyser::{
    class_in, facts_of, is_port, pins_in_design, port_class_or_comb, PerPort, PortFacts,
};
use crate::timing::cell_delays::{
    clock_port, get_cell_delays_heuristic, guessed_ports, init_ports, is_clock_port, lemma_pin_taken,
    lemma_port_at, untimed_ports,
};
use crate::timing::delay::DelayT;
use crate::timing::domain::{CellArcType, ClockDomain};
use crate::timing::kinds::{ClockEdge, TimingPortClass};
use crate::timing::levels::{after_sources, lemma_push, leads_to, order_graph, orders_graph, rows};
use crate::types::enums::PortType;
use crate::types::id_string::IdString;
use vstd::prelude::*;

verus! {

/// A combinational arc of the port leads to another port of the cell.
pub open spec fn comb_arc_to(facts: PortFacts, other: IdString, k: int) -> bool {
    &&& 0 <= k < facts.arcs.len()
    &&& facts.arcs[k].arc_type is Combinational
    &&& facts.arcs[k].other_port == other
}

/// The net at a pin.
pub open spec fn net_of_pin(design: Design, pin: CellPin) -> Option<NetId> {
    design.cell_of(pin.cell).net_at(pin.port)
}

/// The signal goes from one pin to another: through the cell from an input, or along the net from
/// an output.
pub open spec fn port_edge(design: Design, ports: Map<CellPin, PortFacts>, a: CellPin, b: CellPin) -> bool {
    &&& ports.contains_key(a)
    &&& ports.contains_key(b)
    &&& match ports[a].port_type {
        PortType::In => b.cell == a.cell && exists|k: int| #[trigger] comb_arc_to(ports[a], b.port, k),
        PortType::Out => {
            &&& net_of_pin(design, a) is Some
            &&& b.connected()
            &&& design.net_of(net_of_pin(design, a)->0).users@.contains(b)
        },
        PortType::InOut => false,
    }
}

/// The pin at a position of the list comes after all pins that lead to it.
pub open spec fn after_sources_of(
    design: Design,
    ports: Map<CellPin, PortFacts>,
    order: Seq<CellPin>,
    i: int,
) -> bool {
    forall|a: CellPin| #[trigger] port_edge(design, ports, a, order[i]) ==> order.take(i).contains(a)
}

/// Some pin that leads to the pin does not stand in the list.
pub open spec fn led_from_outside(
    design: Design,
    ports: Map<CellPin, PortFacts>,
    order: Seq<CellPin>,
    b: CellPin,
) -> bool {
    exists|a: CellPin| #[trigger] port_edge(design, ports, a, b) && !order.contains(a)
}

/// The list orders the pins: it names pins of the table, none twice, each after all pins that
/// lead to it, and every pin that it leaves out is led to by another that it leaves out.
pub open spec fn orders_ports(design: Design, ports: Map<CellPin, PortFacts>, order: Seq<CellPin>) -> bool {
    &&& order.no_duplicates()
    &&& forall|i: int| 0 <= i < order.len() ==> ports.contains_key(#[trigger] order[i])
    &&& forall|i: int| 0 <= i < order.len() ==> #[trigger] after_sources_of(design, ports, order, i)
    &&& forall|b: CellPin| #[trigger]
        ports.contains_key(b) && !order.contains(b) ==> led_from_outside(design, ports, order, b)
}

/// The map gives each pin of the list its position.
spec fn positions(index: Map<CellPin, usize>, pins: Seq<CellPin>) -> bool {
    &&& forall|i: int|
        0 <= i < pins.len() ==> index.contains_key(#[trigger] pins[i]) && index[pins[i]] == i
    &&& forall|p: CellPin| #[trigger] index.contains_key(p) ==> index[p] < pins.len() && pins[index[p] as int] == p
}

fn position_map(pins: &Vec<CellPin>) -> (index: IdMap<CellPin, usize>)
    requires
        pins@.no_duplicates(),
    ensures
        positions(index@, pins@),
{
    let mut index: IdMap<CellPin, usize> = IdMap::new();
    for i in 0..pins.len()
        invariant
            pins@.no_duplicates(),
            forall|k: int| 0 <= k < i ==> index@.contains_key(#[trigger] pins@[k]) && index@[pins@[k]] == k,
            forall|p: CellPin| #[trigger]
                index@.contains_key(p) ==> index@[p] < i && pins@[index@[p] as int] == p,
    {
        let _ = index.insert(pins[i], i);
    }
    index
}

/// The positions of the pins that a pin leads to.
fn targets_of(
    design: &Design,
    ports: &IdMap<CellPin, PerPort>,
    index: &IdMap<CellPin, usize>,
    pin: CellPin,
    Ghost(pins): Ghost<Seq<CellPin>>,
) -> (r: Vec<usize>)
    requires
        design.wf(),
        pins_in_design(*design, facts_of(ports@)),
        ports@.contains_key(pin),
        positions(index@, pins),
        forall|p: CellPin| #[trigger] pins.contains(p) <==> ports@.contains_key(p),
        pins.len() <= usize::MAX,
    ensures
        forall|v: usize| #[trigger]
            r@.contains(v) <==> v < pins.len() && port_edge(*design, facts_of(ports@), pin, pins[v as int]),
{
    let ghost facts = facts_of(ports@);
    let mut r: Vec<usize> = Vec::new();
    proof {
        assert(facts.contains_key(pin));
        assert forall|p: CellPin| #[trigger] index@.contains_key(p) <==> ports@.contains_key(p) by {
            if ports@.contains_key(p) {
                assert(pins.contains(p));
                let i = choose|i: int| 0 <= i < pins.len() && pins[i] == p;
                assert(index@.contains_key(pins[i]));
            }
            if index@.contains_key(p) {
                assert(pins[index@[p] as int] == p);
                assert(pins.contains(p));
            }
        }
        assert forall|v: usize| v < pins.len() implies #[trigger] ports@.contains_key(pins[v as int]) by {
            assert(pins.contains(pins[v as int]));
        }
    }
    let pd = match ports.get(pin) {
        Some(pd) => pd,
        None => {
            return r;
        },
    };
    match pd.port_type {
        PortType::In => {
            for k in 0..pd.cell_arcs.len()
                invariant
                    facts == facts_of(ports@),
                    ports@.contains_key(pin),
                    *pd == ports@[pin],
                    pd.port_type is In,
                    positions(index@, pins),
                    pins.len() <= usize::MAX,
                    forall|p: CellPin| #[trigger] index@.contains_key(p) <==> ports@.contains_key(p),
                    forall|v: usize| v < pins.len() ==> #[trigger] ports@.contains_key(pins[v as int]),
                    forall|v: usize| #[trigger]
                        r@.contains(v) <==> v < pins.len() && pins[v as int].cell == pin.cell && exists|i: int|
                            i < k && #[trigger] comb_arc_to(facts[pin], pins[v as int].port, i),
            {
                let arc = pd.cell_arcs[k];
                let ghost before = r@;
                let target = CellPin { cell: pin.cell, port: arc.other_port };
                let comb: bool = match arc.arc_type {
                    CellArcType::Combinational => true,
                    _ => false,
                };
                let mut found: Option<usize> = None;
                if comb {
                    if let Some(v) = index.get(target) {
                        found = Some(*v);
                        r.push(*v);
                        proof {
                            lemma_push(before, *v);
                        }
                    }
                }
                proof {
                    assert forall|v: usize| #[trigger]
                        r@.contains(v) <==> v < pins.len() && pins[v as int].cell == pin.cell && exists|i: int|
                            i < k + 1 && #[trigger] comb_arc_to(facts[pin], pins[v as int].port, i) by {
                        assert(r@.contains(v) <==> before.contains(v) || found == Some(v));
                        if v < pins.len() {
                            let t = pins[v as int];
                            assert(index@[pins[v as int]] == v);
                            if found == Some(v) {
                                assert(comb_arc_to(facts[pin], t.port, k as int));
                            }
                            if before.contains(v) {
                                let i = choose|i: int| i < k && #[trigger] comb_arc_to(facts[pin], t.port, i);
                                assert(comb_arc_to(facts[pin], t.port, i) && i < k + 1);
                            }
                            if t.cell == pin.cell && (exists|i: int|
                                i < k + 1 && #[trigger] comb_arc_to(facts[pin], t.port, i)) {
                                let i = choose|i: int| i < k + 1 && #[trigger] comb_arc_to(facts[pin], t.port, i);
                                if i == k {
                                    assert(t == target);
                                    assert(ports@.contains_key(t));
                                } else {
                                    assert(comb_arc_to(facts[pin], t.port, i) && i < k);
                                }
                            }
                        }
                    }
                }
            }
            proof {
                assert forall|v: usize| #[trigger]
                    r@.contains(v) <==> v < pins.len() && port_edge(*design, facts, pin, pins[v as int]) by {
                    if v < pins.len() {
                        assert(ports@.contains_key(pins[v as int]));
                        if port_edge(*design, facts, pin, pins[v as int]) {
                            let i = choose|i: int| #[trigger] comb_arc_to(facts[pin], pins[v as int].port, i);
                            assert(comb_arc_to(facts[pin], pins[v as int].port, i) && i < pd.cell_arcs@.len());
                        }
                    }
                }
            }
        },
        PortType::Out => {
            assert(design.valid_cell(pin.cell));
            let cell = design.cell(pin.cell);
            if let Some(n) = cell.port_net(pin.port) {
                proof {
                    lemma_first_port(cell.ports@, pin.port);
                    assert(design.cell_ok(*cell));
                    assert(cell.ports@[cell.port_index(pin.port)].net == Some(n));
                }
                let net = design.net(n);
                for k in 0..net.users.len()
                    invariant
                        facts == facts_of(ports@),
                        positions(index@, pins),
                        pins.len() <= usize::MAX,
                        forall|p: CellPin| #[trigger] index@.contains_key(p) <==> ports@.contains_key(p),
                        forall|v: usize| v < pins.len() ==> #[trigger] ports@.contains_key(pins[v as int]),
                        forall|v: usize| #[trigger]
                            r@.contains(v) <==> v < pins.len() && pins[v as int].connected() && net.users@.take(
                                k as int,
                            ).contains(pins[v as int]),
                {
                    let user: CellPin = net.users[k];
                    let ghost before = r@;
                    let mut found: Option<usize> = None;
                    if user.is_valid() {
                        if let Some(v) = index.get(user) {
                            found = Some(*v);
                            r.push(*v);
                            proof {
                                lemma_push(before, *v);
                            }
                        }
                    }
                    proof {
                        lemma_pin_taken(net.users@, k as int);
                        assert forall|v: usize| #[trigger]
                            r@.contains(v) <==> v < pins.len() && pins[v as int].connected() && net.users@.take(
                                k + 1,
                            ).contains(pins[v as int]) by {
                            assert(r@.contains(v) <==> before.contains(v) || found == Some(v));
                            if v < pins.len() {
                                assert(index@[pins[v as int]] == v);
                                assert(ports@.contains_key(pins[v as int]));
                            }
                        }
                    }
                }
                proof {
                    assert(net.users@.take(net.users@.len() as int) =~= net.users@);
                    assert forall|v: usize| #[trigger]
                        r@.contains(v) <==> v < pins.len() && port_edge(*design, facts, pin, pins[v as int]) by {
                        if v < pins.len() {
                            assert(ports@.contains_key(pins[v as int]));
                        }
                    }
                }
            }
        },
        PortType::InOut => {},
    }
    r
}

proof fn lemma_not_listed(pins: Seq<CellPin>, order: Seq<usize>, r: Seq<CellPin>, u: usize)
    requires
        pins.no_duplicates(),
        u < pins.len(),
        !order.contains(u),
        r.len() == order.len(),
        forall|i: int| 0 <= i < order.len() ==> #[trigger] order[i] < pins.len(),
        forall|i: int| 0 <= i < r.len() ==> #[trigger] r[i] == pins[order[i] as int],
    ensures
        !r.contains(pins[u as int]),
{
    if r.contains(pins[u as int]) {
        let i = choose|i: int| 0 <= i < r.len() && r[i] == pins[u as int];
        assert(order[i] < pins.len());
        assert(order[i] == u);
    }
}

/// An order of the positions of the pins is one of the pins.
#[verifier::spinoff_prover]
proof fn lemma_orders_pins(
    design: Design,
    facts: Map<CellPin, PortFacts>,
    pins: Seq<CellPin>,
    g: Seq<Seq<usize>>,
    order: Seq<usize>,
    r: Seq<CellPin>,
)
    requires
        pins.no_duplicates(),
        pins.len() <= usize::MAX,
        forall|p: CellPin| #[trigger] pins.contains(p) <==> facts.contains_key(p),
        g.len() == pins.len(),
        forall|u: usize, v: usize| #[trigger]
            leads_to(g, u, v) <==> {
                &&& u < pins.len()
                &&& v < pins.len()
                &&& port_edge(design, facts, pins[u as int], pins[v as int])
            },
        orders_graph(g, order),
        r.len() == order.len(),
        forall|i: int| 0 <= i < r.len() ==> #[trigger] r[i] == pins[order[i] as int],
    ensures
        orders_ports(design, facts, r),
{
    assert(r.no_duplicates()) by {
        assert forall|i: int, j: int| 0 <= i < r.len() && 0 <= j < r.len() && i != j implies r[i] != r[j] by {
            assert(order[i] != order[j]);
            assert(order[i] < g.len() && order[j] < g.len());
        }
    }
    assert forall|i: int| 0 <= i < r.len() implies facts.contains_key(#[trigger] r[i]) by {
        assert(order[i] < g.len());
        assert(pins.contains(r[i]));
    }
    assert forall|i: int| 0 <= i < r.len() implies #[trigger] after_sources_of(design, facts, r, i) by {
        assert(after_sources(g, order, i));
        assert forall|a: CellPin| #[trigger] port_edge(design, facts, a, r[i]) implies r.take(i).contains(
            a,
        ) by {
            assert(pins.contains(a));
            let u = choose|u: int| 0 <= u < pins.len() && pins[u] == a;
            assert(pins[u as usize as int] == a);
            assert(order[i] < g.len());
            assert(leads_to(g, u as usize, order[i]));
            let before = order.take(i);
            let j = choose|j: int| 0 <= j < before.len() && before[j] == u as usize;
            assert(r.take(i)[j] == a);
        }
    }
    assert forall|b: CellPin| #[trigger] facts.contains_key(b) && !r.contains(b) implies led_from_outside(
        design,
        facts,
        r,
        b,
    ) by {
        assert(pins.contains(b));
        let v = choose|v: int| 0 <= v < pins.len() && pins[v] == b;
        let vn = v as usize;
        assert(!order.contains(vn)) by {
            if order.contains(vn) {
                let i = choose|i: int| 0 <= i < order.len() && order[i] == vn;
                assert(r[i] == b);
            }
        }
        let u = choose|u: usize| #[trigger] leads_to(g, u, vn) && !order.contains(u);
        let a = pins[u as int];
        assert(port_edge(design, facts, a, b));
        lemma_not_listed(pins, order, r, u);
    }
}

/// Orders the ports so that each comes after those that lead to it. Ports on a combinational
/// loop, and those behind one, are left out. Which of the possible orders comes out is not stated.
pub fn topo_sort_ports(design: &Design, ports: &IdMap<CellPin, PerPort>) -> (r: Vec<CellPin>)
    requires
        design.wf(),
        pins_in_design(*design, facts_of(ports@)),
    ensures
        orders_ports(*design, facts_of(ports@), r@),
{
    let ghost facts = facts_of(ports@);
    let pins = ports.keys();
    let index = position_map(&pins);
    let mut edges: Vec<Vec<usize>> = Vec::new();
    for i in 0..pins.len()
        invariant
            design.wf(),
            facts == facts_of(ports@),
            pins_in_design(*design, facts),
            positions(index@, pins@),
            forall|p: CellPin| #[trigger] pins@.contains(p) <==> ports@.contains_key(p),
            edges@.len() == i,
            forall|u: int, v: usize|
                0 <= u < i ==> (#[trigger] edges@[u]@.contains(v) <==> v < pins@.len() && port_edge(
                    *design,
                    facts,
                    pins@[u],
                    pins@[v as int],
                )),
    {
        let pin: CellPin = pins[i];
        assert(pins@.contains(pin));
        let row = targets_of(design, ports, &index, pin, Ghost(pins@));
        edges.push(row);
    }
    let ghost g = rows(edges@);
    proof {
        assert forall|u: usize, v: usize| #[trigger]
            leads_to(g, u, v) <==> {
                &&& u < pins@.len()
                &&& v < pins@.len()
                &&& port_edge(*design, facts, pins@[u as int], pins@[v as int])
            } by {
            if u < pins@.len() {
                assert(g[u as int] == edges@[u as int]@);
            }
        }
        assert forall|u: int, k: int| 0 <= u < g.len() && 0 <= k < g[u].len() implies #[trigger] g[u][k] < g.len() by {
            assert(leads_to(g, u as usize, g[u][k]));
        }
    }
    let order = order_graph(&edges, true);
    let mut r: Vec<CellPin> = Vec::new();
    for k in 0..order.len()
        invariant
            orders_graph(g, order@),
            g.len() == pins@.len(),
            r@.len() == k,
            forall|i: int| 0 <= i < k ==> #[trigger] r@[i] == pins@[order@[i] as int],
    {
        assert(order@[k as int] < g.len());
        r.push(pins[order[k]]);
    }
    proof {
        lemma_orders_pins(*design, facts, pins@, g, order@, r@);
    }
    r
}

/// The domain of the last clock input among the first `k` ports of a cell.
pub open spec fn cell_domain(design: Design, clocks: Map<IdString, DelayT>, cell: Cell, k: int) -> Option<
    ClockDomain,
>
    decreases k,
{
    if k <= 0 {
        None
    } else if clock_port(design, clocks, cell.ports@[k - 1]) {
        let net = design.net_of(cell.ports@[k - 1].net->0);
        Some(
            ClockDomain {
                clock_net: net.name,
                edge: ClockEdge::Rising,
                period: if net.clock_constraint > 0 {
                    net.clock_constraint
                } else {
                    clocks[net.name]
                },
            },
        )
    } else {
        cell_domain(design, clocks, cell, k - 1)
    }
}

/// The class is timed by a clock.
pub open spec fn timed_class(class: TimingPortClass) -> bool {
    class is RegisterInput || class is RegisterOutput || class is ClockInput
}

/// The domains of the pins that are timed by a clock, as the nets suggest them.
pub open spec fn guessed_domains(
    design: Design,
    clocks: Map<IdString, DelayT>,
    ports: Map<CellPin, PortFacts>,
) -> Map<CellPin, ClockDomain> {
    Map::new(
        |p: CellPin|
            is_port(design, p) && timed_class(class_in(ports, p)) && cell_domain(
                design,
                clocks,
                design.cell_of(p.cell),
                design.cell_of(p.cell).ports@.len() as int,
            ) is Some,
        |p: CellPin|
            cell_domain(
                design,
                clocks,
                design.cell_of(p.cell),
                design.cell_of(p.cell).ports@.len() as int,
            )->0,
    )
}

fn domain_of_cell(design: &Design, clocks: &IdMap<IdString, DelayT>, cell: &Cell) -> (r: Option<ClockDomain>)
    requires
        design.cell_ok(*cell),
    ensures
        r == cell_domain(*design, clocks@, *cell, cell.ports@.len() as int),
{
    let mut r: Option<ClockDomain> = None;
    for k in 0..cell.ports.len()
        invariant
            design.cell_ok(*cell),
            r == cell_domain(*design, clocks@, *cell, k as int),
    {
        let port = cell.ports[k];
        assert(port == cell.ports@[k as int]);
        if is_clock_port(design, clocks, port) {
            if let Some(n) = port.net {
                let net = design.net(n);
                let period: DelayT = if net.clock_constraint > 0 {
                    net.clock_constraint
                } else {
                    match clocks.get(net.name) {
                        Some(p) => *p,
                        None => 0,
                    }
                };
                r = Some(ClockDomain { clock_net: net.name, edge: ClockEdge::Rising, period });
            }
        }
    }
    r
}

/// The ports and the domains of a design for which there are no timing tables.
pub struct GuessedPorts {
    pub ports: IdMap<CellPin, PerPort>,
    pub domains: IdMap<CellPin, ClockDomain>,
}

/// Classes the ports by their nets, and gives the ports of registers their clock domains.
pub fn classify_ports_heuristic(design: &Design, clocks: &IdMap<IdString, DelayT>) -> (r: GuessedPorts)
    requires
        design.wf(),
    ensures
        facts_of(r.ports@) == guessed_ports(*design, clocks@, untimed_ports(*design)),
        r.domains@ == guessed_domains(*design, clocks@, facts_of(r.ports@)),
{
    let mut ports = init_ports(design);
    get_cell_delays_heuristic(design, clocks, &mut ports);
    let ghost facts = facts_of(ports@);
    let ghost want = guessed_domains(*design, clocks@, facts);
    let mut domains: IdMap<CellPin, ClockDomain> = IdMap::new();
    let n: usize = design.cells.len();
    for i in 0..n
        invariant
            design.wf(),
            n == design.cells@.len(),
            facts == facts_of(ports@),
            want == guessed_domains(*design, clocks@, facts),
            forall|p: CellPin| #[trigger] domains@.contains_key(p) <==> want.contains_key(p) && p.cell.0 < i,
            forall|p: CellPin| #[trigger] domains@.contains_key(p) ==> domains@[p] == want[p],
    {
        let cell = &design.cells[i];
        let id = CellId(i as u32);
        assert(design.cell_ok(*cell));
        if cell.alive {
            if let Some(domain) = domain_of_cell(design, clocks, cell) {
                proof {
                    assert forall|name: IdString| #[trigger] cell.port_index(name) >= 0 by {
                        lemma_first_port(cell.ports@, name);
                    }
                }
                for j in 0..cell.ports.len()
                    invariant
                        design.wf(),
                        n == design.cells@.len(),
                        i < n,
                        id == CellId(i as u32),
                        *cell == design.cells@[i as int],
                        cell.alive,
                        Some(domain) == cell_domain(*design, clocks@, *cell, cell.ports@.len() as int),
                        facts == facts_of(ports@),
                        want == guessed_domains(*design, clocks@, facts),
                        forall|p: CellPin| #[trigger]
                            domains@.contains_key(p) <==> want.contains_key(p) && (p.cell.0 < i || (p.cell == id
                                && cell.port_index(p.port) < j)),
                        forall|p: CellPin| #[trigger] domains@.contains_key(p) ==> domains@[p] == want[p],
                {
                    let port = cell.ports[j];
                    assert(design.cell_ok(*cell));
                    let pin = CellPin { cell: id, port: port.name };
                    let ghost before = domains@;
                    proof {
                        lemma_port_at(*design, *cell, j as int);
                    }
                    let timed: bool = match port_class_or_comb(&ports, pin) {
                        TimingPortClass::RegisterInput
                        | TimingPortClass::RegisterOutput
                        | TimingPortClass::ClockInput => true,
                        _ => false,
                    };
                    if timed {
                        let _ = domains.insert(pin, domain);
                    }
                    proof {
                        assert forall|p: CellPin| #[trigger]
                            domains@.contains_key(p) <==> want.contains_key(p) && (p.cell.0 < i || (p.cell == id
                                && cell.port_index(p.port) < j + 1)) by {
                            assert(before.contains_key(p) <==> want.contains_key(p) && (p.cell.0 < i || (p.cell
                                == id && cell.port_index(p.port) < j)));
                            if p.cell == id && cell.port_index(p.port) == j {
                                lemma_first_port(cell.ports@, p.port);
                                assert(p == pin);
                            }
                        }
                    }
                }
            }
        }
        proof {
            assert forall|p: CellPin| #[trigger]
                domains@.contains_key(p) <==> want.contains_key(p) && p.cell.0 < i + 1 by {
                assert(p.cell.0 == i <==> p.cell == id);
            }
        }
    }
    assert(domains@ =~= want);
    GuessedPorts { ports, domains }
}

} // verus!
