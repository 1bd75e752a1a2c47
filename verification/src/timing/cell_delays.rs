//! The timing of ports: what the timing tables say of them, or what their nets suggest.

use crate::context::Context;
use crate::ids::IdMap;
use crate::netlist::{lemma_first_port, Cell, CellId, CellPin, CellPort, Design, NetId};
use crate::timing::analyser::{
    facts_of, is_port, pins_in_design, port_of, untimed, PerPort, PortFacts,
};
use crate::timing::delay::{DelayPair, DelayQuad, DelayT};
use crate::timing::domain::{CellArc, CellArcType};
use crate::timing::kinds::{ClockEdge, TimingPortClass};
use crate::timing::tables::{CellTiming, RegArc, TimingTables};
use crate::types::enums::PortType;
use crate::types::id_string::IdString;
use vstd::prelude::*;

verus! {

/// The table of ports that nothing is known of but their directions.
pub open spec fn untimed_ports(design: Design) -> Map<CellPin, PortFacts> {
    Map::new(|p: CellPin| is_port(design, p), |p: CellPin| untimed(port_of(design, p).port_type))
}

/// Lists the ports of the living cells.
pub fn init_ports(design: &Design) -> (r: IdMap<CellPin, PerPort>)
    requires
        design.wf(),
    ensures
        facts_of(r@) == untimed_ports(*design),
{
    let mut r: IdMap<CellPin, PerPort> = IdMap::new();
    let n: usize = design.cells.len();
    for i in 0..n
        invariant
            design.wf(),
            n == design.cells@.len(),
            forall|p: CellPin| #[trigger] r@.contains_key(p) <==> is_port(*design, p) && p.cell.0 < i,
            forall|p: CellPin| #[trigger]
                r@.contains_key(p) ==> r@[p].facts() == untimed(port_of(*design, p).port_type),
    {
        let cell = &design.cells[i];
        let id = CellId(i as u32);
        if cell.alive {
            proof {
                assert forall|name: IdString| #[trigger] cell.port_index(name) >= 0 by {
                    lemma_first_port(cell.ports@, name);
                }
            }
            for j in 0..cell.ports.len()
                invariant
                    design.wf(),
                    n == design.cells@.len(),
                    i < n,
                    id == CellId(i as u32),
                    *cell == design.cells@[i as int],
                    cell.alive,
                    forall|p: CellPin| #[trigger]
                        r@.contains_key(p) <==> is_port(*design, p) && (p.cell.0 < i || (p.cell == id
                            && cell.port_index(p.port) < j)),
                    forall|p: CellPin| #[trigger]
                        r@.contains_key(p) ==> r@[p].facts() == untimed(port_of(*design, p).port_type),
            {
                let port = cell.ports[j];
                let pin = CellPin { cell: id, port: port.name };
                proof {
                    lemma_port_at(*design, *cell, j as int);
                }
                let ghost before = r@;
                let _ = r.insert(pin, PerPort::new(port.port_type));
                proof {
                    assert forall|p: CellPin| #[trigger]
                        r@.contains_key(p) <==> is_port(*design, p) && (p.cell.0 < i || (p.cell == id
                            && cell.port_index(p.port) < j + 1)) by {
                        if p.cell == id && cell.port_index(p.port) == j {
                            lemma_first_port(cell.ports@, p.port);
                            assert(p == pin);
                        }
                        assert(before.contains_key(p) <==> is_port(*design, p) && (p.cell.0 < i || (p.cell
                            == id && cell.port_index(p.port) < j)));
                    }
                }
            }
        }
        proof {
            assert forall|p: CellPin| #[trigger]
                r@.contains_key(p) <==> is_port(*design, p) && p.cell.0 < i + 1 by {
                assert(p.cell.0 == i <==> p.cell == id);
            }
        }
    }
    assert(facts_of(r@) =~= untimed_ports(*design));
    r
}

/// In a cell without two ports of one name, the name of a port leads back to it.
pub proof fn lemma_port_at(design: Design, cell: Cell, j: int)
    requires
        design.cell_ok(cell),
        0 <= j < cell.ports@.len(),
    ensures
        cell.port_index(cell.ports@[j].name) == j,
{
    let name = cell.ports@[j].name;
    lemma_first_port(cell.ports@, name);
    let k = cell.port_index(name);
    if k < j {
        assert(cell.ports@[k].name != cell.ports@[j].name);
    }
}

/// The port takes part: it is connected.
pub open spec fn connected_port(cell: Cell, name: IdString) -> bool {
    cell.net_at(name) is Some
}

/// The setup and hold arcs of a register input, for the first `k` register times.
pub open spec fn input_arcs(cell: Cell, arcs: Seq<RegArc>, k: int) -> Seq<CellArc>
    decreases k,
{
    if k <= 0 {
        Seq::empty()
    } else {
        let rest = input_arcs(cell, arcs, k - 1);
        let a = arcs[k - 1];
        let clock_port = IdString(a.clock_port);
        if connected_port(cell, clock_port) {
            rest.push(
                CellArc {
                    arc_type: CellArcType::Setup,
                    other_port: clock_port,
                    value: DelayQuad { rise: a.setup, fall: a.setup },
                    edge: a.edge,
                },
            ).push(
                CellArc {
                    arc_type: CellArcType::Hold,
                    other_port: clock_port,
                    value: DelayQuad { rise: a.hold, fall: a.hold },
                    edge: a.edge,
                },
            )
        } else {
            rest
        }
    }
}

/// The clock arcs of a register output, for the first `k` register times.
pub open spec fn output_arcs(cell: Cell, arcs: Seq<RegArc>, k: int) -> Seq<CellArc>
    decreases k,
{
    if k <= 0 {
        Seq::empty()
    } else {
        let rest = output_arcs(cell, arcs, k - 1);
        let a = arcs[k - 1];
        let clock_port = IdString(a.clock_port);
        if connected_port(cell, clock_port) {
            rest.push(
                CellArc {
                    arc_type: CellArcType::ClockToQ,
                    other_port: clock_port,
                    value: a.clock_to_q,
                    edge: a.edge,
                },
            )
        } else {
            rest
        }
    }
}

/// The delay between a port and another of the cell, in the direction of the signal.
pub open spec fn delay_between(row: CellTiming, port: IdString, is_input: bool, other: IdString) -> Option<
    DelayQuad,
> {
    if is_input {
        row.delay_of(port.0, other.0)
    } else {
        row.delay_of(other.0, port.0)
    }
}

/// The combinational arcs between a port and those of the first `k` ports that stand opposite to
/// it and are connected.
pub open spec fn comb_arcs(cell: Cell, row: CellTiming, port: IdString, is_input: bool, k: int) -> Seq<CellArc>
    decreases k,
{
    if k <= 0 {
        Seq::empty()
    } else {
        let rest = comb_arcs(cell, row, port, is_input, k - 1);
        let other = cell.ports@[k - 1];
        let opposite = if is_input {
            other.port_type is Out
        } else {
            other.port_type is In
        };
        let delay = delay_between(row, port, is_input, other.name);
        if opposite && other.net is Some && delay is Some {
            rest.push(
                CellArc {
                    arc_type: CellArcType::Combinational,
                    other_port: other.name,
                    value: delay->0,
                    edge: ClockEdge::Rising,
                },
            )
        } else {
            rest
        }
    }
}

/// The class has no arcs of its own.
pub open spec fn without_arcs(class: TimingPortClass) -> bool {
    class is ClockInput || class is GenClock || class is Ignore
}

/// The arcs at a port of a cell, by a row of the timing tables.
pub open spec fn arcs_at(cell: Cell, row: CellTiming, port: IdString, port_type: PortType) -> Seq<CellArc> {
    let class = row.class_of(port.0);
    let regs = row.arcs_of(port.0);
    if without_arcs(class) {
        Seq::empty()
    } else {
        let timed = if port_type is In {
            if class is RegisterInput {
                input_arcs(cell, regs, regs.len() as int)
            } else {
                Seq::empty()
            }
        } else {
            if class is RegisterOutput {
                output_arcs(cell, regs, regs.len() as int)
            } else {
                Seq::empty()
            }
        };
        timed + comb_arcs(cell, row, port, port_type is In, cell.ports@.len() as int)
    }
}

/// The row of the timing tables for a cell: the one that it names, or the one of its type.
pub open spec fn row_for(tables: TimingTables, cell: Cell) -> Option<int> {
    let row = match cell.timing_index {
        Some(i) => Some(i as int),
        None => tables.row_of(cell.cell_type.0),
    };
    match row {
        Some(i) => if i < tables.cells@.len() {
            Some(i)
        } else {
            None
        },
        None => None,
    }
}

/// What the timing tables make of a port: its class and its arcs. A port that is not connected,
/// or whose cell has no row, stays as it is.
pub open spec fn timed_by(tables: TimingTables, design: Design, pin: CellPin, was: PortFacts) -> PortFacts {
    let cell = design.cell_of(pin.cell);
    match row_for(tables, cell) {
        Some(i) if cell.net_at(pin.port) is Some => PortFacts {
            port_class: tables.cells@[i].class_of(pin.port.0),
            arcs: arcs_at(cell, tables.cells@[i], pin.port, was.port_type),
            ..was
        },
        _ => was,
    }
}

fn reg_arcs(cell: &Cell, regs: &Vec<RegArc>, is_input: bool) -> (r: Vec<CellArc>)
    ensures
        r@ == if is_input {
            input_arcs(*cell, regs@, regs@.len() as int)
        } else {
            output_arcs(*cell, regs@, regs@.len() as int)
        },
{
    let mut r: Vec<CellArc> = Vec::new();
    for k in 0..regs.len()
        invariant
            r@ == if is_input {
                input_arcs(*cell, regs@, k as int)
            } else {
                output_arcs(*cell, regs@, k as int)
            },
    {
        let a = regs[k];
        let clock_port = IdString(a.clock_port);
        if cell.port_net(clock_port).is_some() {
            if is_input {
                r.push(CellArc::setup(clock_port, DelayQuad::uniform_pair(a.setup), a.edge));
                r.push(CellArc::hold(clock_port, DelayQuad::uniform_pair(a.hold), a.edge));
            } else {
                r.push(CellArc::clock_to_q(clock_port, a.clock_to_q, a.edge));
            }
        }
    }
    r
}

fn arcs_of_port(cell: &Cell, row: &CellTiming, port: IdString, port_type: PortType) -> (r: (
    TimingPortClass,
    Vec<CellArc>,
))
    ensures
        r.0 == row.class_of(port.0),
        r.1@ == arcs_at(*cell, *row, port, port_type),
{
    let (class, regs) = row.port(port.0);
    match class {
        TimingPortClass::ClockInput | TimingPortClass::GenClock | TimingPortClass::Ignore => {
            return (class, Vec::new());
        },
        _ => {},
    }
    let is_input: bool = match port_type {
        PortType::In => true,
        _ => false,
    };
    let timed: bool = match class {
        TimingPortClass::RegisterInput => is_input,
        TimingPortClass::RegisterOutput => !is_input,
        _ => false,
    };
    let mut r: Vec<CellArc> = if timed {
        reg_arcs(cell, &regs, is_input)
    } else {
        Vec::new()
    };
    let ghost first = r@;
    for k in 0..cell.ports.len()
        invariant
            r@ == first + comb_arcs(*cell, *row, port, is_input, k as int),
    {
        let other = cell.ports[k];
        let opposite: bool = match other.port_type {
            PortType::Out => is_input,
            PortType::In => !is_input,
            PortType::InOut => false,
        };
        if opposite && other.net.is_some() {
            let delay = if is_input {
                row.delay(port.0, other.name.0)
            } else {
                row.delay(other.name.0, port.0)
            };
            if let Some(d) = delay {
                r.push(CellArc::combinational(other.name, d));
            }
        }
        assert(r@ =~= first + comb_arcs(*cell, *row, port, is_input, k + 1));
    }
    (class, r)
}

/// What the port table says after the cell delays are known.
pub open spec fn timed_ports(
    timing: Option<TimingTables>,
    design: Design,
    clocks: Map<IdString, DelayT>,
    ports: Map<CellPin, PortFacts>,
) -> Map<CellPin, PortFacts> {
    match timing {
        Some(tables) => Map::new(
            |p: CellPin| ports.contains_key(p),
            |p: CellPin| timed_by(tables, design, p, ports[p]),
        ),
        None => guessed_ports(design, clocks, ports),
    }
}

/// Fills in the classes and the arcs of the ports from the timing tables, and from what the nets
/// suggest where there are none.
pub fn get_cell_delays(
    timing: &Option<TimingTables>,
    design: &Design,
    clocks: &IdMap<IdString, DelayT>,
    ports: &mut IdMap<CellPin, PerPort>,
)
    requires
        design.wf(),
        pins_in_design(*design, facts_of(old(ports)@)),
    ensures
        facts_of(final(ports)@) == timed_ports(*timing, *design, clocks@, facts_of(old(ports)@)),
{
    let tables = match timing {
        Some(t) => t,
        None => {
            get_cell_delays_heuristic(design, clocks, ports);
            return ;
        },
    };
    let ghost before = facts_of(ports@);
    let pins = ports.keys();
    for i in 0..pins.len()
        invariant
            design.wf(),
            *timing == Some(*tables),
            before == facts_of(old(ports)@),
            pins_in_design(*design, before),
            pins@.no_duplicates(),
            forall|p: CellPin| #[trigger] pins@.contains(p) <==> before.contains_key(p),
            forall|p: CellPin| #[trigger] ports@.contains_key(p) <==> before.contains_key(p),
            forall|k: int|
                0 <= k < i ==> ports@[#[trigger] pins@[k]].facts() == timed_by(
                    *tables,
                    *design,
                    pins@[k],
                    before[pins@[k]],
                ),
            forall|k: int| i <= k < pins@.len() ==> ports@[#[trigger] pins@[k]].facts() == before[pins@[k]],
    {
        let pin: CellPin = pins[i];
        let ghost held = ports@;
        assert(pins@.contains(pin));
        assert(before.contains_key(pin));
        let cell = design.cell(pin.cell);
        let row: Option<usize> = match cell.timing_index {
            Some(r) => Some(r),
            None => tables.cell_timing_index(cell.cell_type.0),
        };
        if cell.port_net(pin.port).is_some() {
            if let Some(r) = row {
                if r < tables.cells.len() {
                    if let Some(mut pd) = ports.remove(pin) {
                        let (class, arcs) = arcs_of_port(cell, &tables.cells[r], pin.port, pd.port_type);
                        pd.port_class = class;
                        pd.cell_arcs = arcs;
                        let _ = ports.insert(pin, pd);
                    }
                }
            }
        }
        proof {
            assert(ports@[pin].facts() == timed_by(*tables, *design, pin, before[pin]));
            assert forall|k: int| 0 <= k < pins@.len() && k != i implies ports@[#[trigger] pins@[k]]
                == held[pins@[k]] by {
                assert(pins@[k] != pin);
            }
        }
    }
    proof {
        let want = timed_ports(*timing, *design, clocks@, before);
        assert forall|p: CellPin| #[trigger] before.contains_key(p) implies ports@[p].facts() == want[p] by {
            assert(pins@.contains(p));
            let k = choose|k: int| 0 <= k < pins@.len() && pins@[k] == p;
            assert(ports@[pins@[k]].facts() == timed_by(*tables, *design, pins@[k], before[pins@[k]]));
        }
        assert(facts_of(ports@) =~= want);
    }
}

/// A net carries a clock: a period is asked for on the net itself or on its name.
pub open spec fn clock_on_net(design: Design, clocks: Map<IdString, DelayT>, n: NetId) -> bool {
    let net = design.net_of(n);
    net.clock_constraint > 0 || (clocks.contains_key(net.name) && clocks[net.name] > 0)
}

/// The port is a clock input: it takes a net with a clock in.
pub open spec fn clock_port(design: Design, clocks: Map<IdString, DelayT>, port: CellPort) -> bool {
    port.port_type is In && port.net is Some && clock_on_net(design, clocks, port.net->0)
}

/// The cell has a clock input.
pub open spec fn has_clock(design: Design, clocks: Map<IdString, DelayT>, cell: Cell) -> bool {
    exists|j: int| 0 <= j < cell.ports@.len() && clock_port(design, clocks, #[trigger] cell.ports@[j])
}

/// The class of a port as its nets suggest it.
pub open spec fn guessed_class(design: Design, clocks: Map<IdString, DelayT>, pin: CellPin) -> TimingPortClass {
    let port = port_of(design, pin);
    if clock_port(design, clocks, port) {
        TimingPortClass::ClockInput
    } else if has_clock(design, clocks, design.cell_of(pin.cell)) && port.port_type is In {
        TimingPortClass::RegisterInput
    } else if has_clock(design, clocks, design.cell_of(pin.cell)) && port.port_type is Out {
        TimingPortClass::RegisterOutput
    } else {
        TimingPortClass::Combinational
    }
}

/// The port table with the classes that the nets suggest; pins that are no port of a living cell
/// stay as they are.
pub open spec fn guessed_ports(
    design: Design,
    clocks: Map<IdString, DelayT>,
    ports: Map<CellPin, PortFacts>,
) -> Map<CellPin, PortFacts> {
    Map::new(
        |p: CellPin| ports.contains_key(p),
        |p: CellPin|
            if is_port(design, p) {
                PortFacts { port_class: guessed_class(design, clocks, p), ..ports[p] }
            } else {
                ports[p]
            },
    )
}

/// Whether a net carries a clock.
pub fn net_has_clock(design: &Design, clocks: &IdMap<IdString, DelayT>, n: NetId) -> (r: bool)
    requires
        design.valid_net(n),
    ensures
        r == clock_on_net(*design, clocks@, n),
{
    let net = design.net(n);
    if net.clock_constraint > 0 {
        return true;
    }
    match clocks.get(net.name) {
        Some(p) => *p > 0,
        None => false,
    }
}

/// Whether a port is a clock input.
pub fn is_clock_port(design: &Design, clocks: &IdMap<IdString, DelayT>, port: CellPort) -> (r: bool)
    requires
        port.net is Some ==> design.valid_net(port.net->0),
    ensures
        r == clock_port(*design, clocks@, port),
{
    match port.port_type {
        PortType::In => match port.net {
            Some(n) => net_has_clock(design, clocks, n),
            None => false,
        },
        _ => false,
    }
}

fn cell_has_clock(design: &Design, clocks: &IdMap<IdString, DelayT>, cell: &Cell) -> (r: bool)
    requires
        design.cell_ok(*cell),
    ensures
        r == has_clock(*design, clocks@, *cell),
{
    for j in 0..cell.ports.len()
        invariant
            design.cell_ok(*cell),
            forall|k: int| 0 <= k < j ==> !clock_port(*design, clocks@, #[trigger] cell.ports@[k]),
    {
        let port = cell.ports[j];
        assert(port == cell.ports@[j as int]);
        if is_clock_port(design, clocks, port) {
            return true;
        }
    }
    false
}

/// Classes the ports by their nets: an input with a clock is a clock input, and the other ports
/// of a cell that has one are those of a register.
pub fn get_cell_delays_heuristic(
    design: &Design,
    clocks: &IdMap<IdString, DelayT>,
    ports: &mut IdMap<CellPin, PerPort>,
)
    requires
        design.wf(),
    ensures
        facts_of(final(ports)@) == guessed_ports(*design, clocks@, facts_of(old(ports)@)),
{
    let ghost before = facts_of(ports@);
    let n: usize = design.cells.len();
    for i in 0..n
        invariant
            design.wf(),
            n == design.cells@.len(),
            before == facts_of(old(ports)@),
            forall|p: CellPin| #[trigger] ports@.contains_key(p) <==> before.contains_key(p),
            forall|p: CellPin| #[trigger]
                before.contains_key(p) ==> ports@[p].facts() == (if is_port(*design, p) && p.cell.0 < i {
                    guessed_ports(*design, clocks@, before)[p]
                } else {
                    before[p]
                }),
    {
        let cell = &design.cells[i];
        let id = CellId(i as u32);
        assert(design.cell_ok(*cell));
        if cell.alive {
            let sequential: bool = cell_has_clock(design, clocks, cell);
            proof {
                assert forall|name: IdString| #[trigger] cell.port_index(name) >= 0 by {
                    lemma_first_port(cell.ports@, name);
                }
            }
            for j in 0..cell.ports.len()
                invariant
                    design.wf(),
                    n == design.cells@.len(),
                    i < n,
                    id == CellId(i as u32),
                    *cell == design.cells@[i as int],
                    cell.alive,
                    sequential == has_clock(*design, clocks@, *cell),
                    before == facts_of(old(ports)@),
                    forall|p: CellPin| #[trigger] ports@.contains_key(p) <==> before.contains_key(p),
                    forall|p: CellPin| #[trigger]
                        before.contains_key(p) ==> ports@[p].facts() == (if is_port(*design, p) && (p.cell.0
                            < i || (p.cell == id && cell.port_index(p.port) < j)) {
                            guessed_ports(*design, clocks@, before)[p]
                        } else {
                            before[p]
                        }),
            {
                let port = cell.ports[j];
                assert(design.cell_ok(*cell));
                let pin = CellPin { cell: id, port: port.name };
                proof {
                    lemma_port_at(*design, *cell, j as int);
                }
                let class: TimingPortClass = if is_clock_port(design, clocks, port) {
                    TimingPortClass::ClockInput
                } else if sequential {
                    match port.port_type {
                        PortType::In => TimingPortClass::RegisterInput,
                        PortType::Out => TimingPortClass::RegisterOutput,
                        PortType::InOut => TimingPortClass::Combinational,
                    }
                } else {
                    TimingPortClass::Combinational
                };
                let ghost held = ports@;
                if let Some(mut pd) = ports.remove(pin) {
                    pd.port_class = class;
                    let _ = ports.insert(pin, pd);
                }
                proof {
                    assert forall|p: CellPin| #[trigger] before.contains_key(p) implies ports@[p].facts() == (
                    if is_port(*design, p) && (p.cell.0 < i || (p.cell == id && cell.port_index(p.port) < j
                        + 1)) {
                        guessed_ports(*design, clocks@, before)[p]
                    } else {
                        before[p]
                    }) by {
                        assert(held.contains_key(p));
                        if p == pin {
                            assert(is_port(*design, p));
                            assert(port_of(*design, p) == port);
                            assert(class == guessed_class(*design, clocks@, p));
                        } else if p.cell == id && cell.port_index(p.port) == j {
                            lemma_first_port(cell.ports@, p.port);
                        }
                    }
                }
            }
        }
        proof {
            assert forall|p: CellPin| #[trigger] before.contains_key(p) implies ports@[p].facts() == (if is_port(
                *design,
                p,
            ) && p.cell.0 < i + 1 {
                guessed_ports(*design, clocks@, before)[p]
            } else {
                before[p]
            }) by {
                assert(p.cell.0 == i <==> p.cell == id);
            }
        }
    }
    assert(facts_of(ports@) =~= guessed_ports(*design, clocks@, before));
}

/// The cell behind a pin is placed.
pub open spec fn placed(design: Design, pin: CellPin) -> bool {
    pin.connected() && design.cell_of(pin.cell).bel is Some
}

/// The pin is a user of the net, and both the driver and the user are placed.
pub open spec fn routed_to(design: Design, n: NetId, pin: CellPin) -> bool {
    let net = design.net_of(n);
    net.alive && placed(design, net.driver) && net.users@.contains(pin) && placed(design, pin)
}

/// The last of the first `n` nets that leads to the pin, with both ends placed.
pub open spec fn last_net_to(design: Design, pin: CellPin, n: int) -> Option<NetId>
    decreases n,
{
    if n <= 0 {
        None
    } else if routed_to(design, NetId((n - 1) as u32), pin) {
        Some(NetId((n - 1) as u32))
    } else {
        last_net_to(design, pin, n - 1)
    }
}

/// The port table with the routing delays of the first `n` nets.
pub open spec fn routed_ports(
    design: Design,
    net_delays: Seq<DelayT>,
    ports: Map<CellPin, PortFacts>,
    n: int,
) -> Map<CellPin, PortFacts> {
    Map::new(
        |p: CellPin| ports.contains_key(p),
        |p: CellPin|
            match last_net_to(design, p, n) {
                Some(net) => PortFacts {
                    route: DelayPair {
                        min_delay: net_delays[net.0 as int],
                        max_delay: net_delays[net.0 as int],
                    },
                    ..ports[p]
                },
                None => ports[p],
            },
    )
}

/// Fills in the routing delay of every user of a net whose ends are placed: the estimated delay
/// of the net.
pub fn get_route_delays(ctx: &Context, ports: &mut IdMap<CellPin, PerPort>)
    requires
        ctx.wf(),
    ensures
        facts_of(final(ports)@) == routed_ports(
            ctx.design,
            ctx.net_delays@,
            facts_of(old(ports)@),
            ctx.design.nets@.len() as int,
        ),
{
    let ghost before = facts_of(ports@);
    let ghost design = ctx.design;
    let n: usize = ctx.design.nets.len();
    assert(facts_of(ports@) =~= routed_ports(design, ctx.net_delays@, before, 0));
    for i in 0..n
        invariant
            ctx.wf(),
            design == ctx.design,
            n == design.nets@.len(),
            facts_of(ports@) == routed_ports(design, ctx.net_delays@, before, i as int),
    {
        let net = &ctx.design.nets[i];
        let id = NetId(i as u32);
        assert(design.net_ok(*net));
        let ghost base = facts_of(ports@);
        let live: bool = net.alive && net.driver.is_valid() && ctx.design.cell(net.driver.cell).bel.is_some();
        if live {
            let delay: DelayT = ctx.estimate_delay_for_net(id);
            for j in 0..net.users.len()
                invariant
                    ctx.wf(),
                    design == ctx.design,
                    i < design.nets@.len(),
                    id == NetId(i as u32),
                    *net == design.nets@[i as int],
                    net.alive,
                    placed(design, net.driver),
                    delay == ctx.net_delays@[i as int],
                    forall|p: CellPin| #[trigger] ports@.contains_key(p) <==> base.contains_key(p),
                    forall|p: CellPin| #[trigger]
                        base.contains_key(p) ==> ports@[p].facts() == (if net.users@.take(j as int).contains(p)
                            && placed(design, p) {
                            PortFacts {
                                route: DelayPair { min_delay: delay, max_delay: delay },
                                ..base[p]
                            }
                        } else {
                            base[p]
                        }),
            {
                let user: CellPin = net.users[j];
                assert(design.net_ok(*net));
                assert(design.pin_ok(net.users@[j as int]));
                let ghost held = ports@;
                let take: bool = user.is_valid() && ctx.design.cell(user.cell).bel.is_some();
                if take {
                    if let Some(mut pd) = ports.remove(user) {
                        pd.route_delay = DelayPair::uniform(delay);
                        let _ = ports.insert(user, pd);
                    }
                }
                proof {
                    lemma_pin_taken(net.users@, j as int);
                    assert forall|p: CellPin| #[trigger] base.contains_key(p) implies ports@[p].facts() == (
                    if net.users@.take(j + 1).contains(p) && placed(design, p) {
                        PortFacts { route: DelayPair { min_delay: delay, max_delay: delay }, ..base[p] }
                    } else {
                        base[p]
                    }) by {
                        assert(held.contains_key(p));
                    }
                }
            }
            assert(net.users@.take(net.users@.len() as int) =~= net.users@);
        }
        proof {
            let next = routed_ports(design, ctx.net_delays@, before, i + 1);
            assert forall|p: CellPin| #[trigger] base.contains_key(p) implies facts_of(ports@)[p] == next[p] by {
                assert(NetId(((i + 1) - 1) as u32) == id);
                if live && net.users@.contains(p) && placed(design, p) {
                    assert(routed_to(design, id, p));
                } else {
                    assert(!routed_to(design, id, p));
                }
            }
            assert(facts_of(ports@) =~= next);
        }
    }
}

/// What the first entries of a list of pins hold.
pub proof fn lemma_pin_taken(s: Seq<CellPin>, j: int)
    requires
        0 <= j < s.len(),
    ensures
        forall|p: CellPin| #[trigger] s.take(j + 1).contains(p) <==> s.take(j).contains(p) || p == s[j],
{
    let part = s.take(j);
    let whole = s.take(j + 1);
    assert forall|p: CellPin| #[trigger] whole.contains(p) <==> part.contains(p) || p == s[j] by {
        if part.contains(p) {
            let k = choose|k: int| 0 <= k < part.len() && part[k] == p;
            assert(whole[k] == p);
        }
        if p == s[j] {
            assert(whole[j] == p);
        }
        if whole.contains(p) {
            let k = choose|k: int| 0 <= k < whole.len() && whole[k] == p;
            if k < j {
                assert(part[k] == p);
            }
        }
    }
}

} // verus!
