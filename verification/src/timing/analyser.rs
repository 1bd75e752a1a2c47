//! The data that timing analysis works on.

use crate::ids::{at_offset, offset_of, pack, pack_halves, unpack_halves, IdMap, ListedKey, MapKey};
use crate::netlist::{CellPin, CellPort, Design, NetId};
use crate::timing::delay::{greater, lesser, max_of, min_of, DelayPair, DelayT};
use crate::timing::domain::{CellArc, ClockDomainPair};
use crate::timing::kinds::TimingPortClass;
use crate::types::enums::PortType;
use crate::types::id_string::IdString;
use vstd::prelude::*;

verus! {

/// The delay of a combinational cell, in picoseconds, where nothing is known of it.
pub const DEFAULT_COMB_DELAY: DelayT = 100;

/// The timing of a port of a cell.
pub struct PerPort {
    pub port_type: PortType,
    pub port_class: TimingPortClass,
    /// The timing arcs at the port.
    pub cell_arcs: Vec<CellArc>,
    /// The routing delay into the port; of an input only.
    pub route_delay: DelayPair,
}

/// The timing of a port, as a mathematical value.
pub struct PortFacts {
    pub port_type: PortType,
    pub port_class: TimingPortClass,
    pub arcs: Seq<CellArc>,
    pub route: DelayPair,
}

impl PerPort {
    pub open spec fn facts(self) -> PortFacts {
        PortFacts {
            port_type: self.port_type,
            port_class: self.port_class,
            arcs: self.cell_arcs@,
            route: self.route_delay,
        }
    }

    /// A port that nothing is known of but its direction.
    pub fn new(port_type: PortType) -> (r: Self)
        ensures
            r.facts() == untimed(port_type),
    {
        PerPort {
            port_type,
            port_class: TimingPortClass::Combinational,
            cell_arcs: Vec::new(),
            route_delay: DelayPair::uniform(0),
        }
    }
}

/// A port that nothing is known of but its direction.
pub open spec fn untimed(port_type: PortType) -> PortFacts {
    PortFacts {
        port_type,
        port_class: TimingPortClass::Combinational,
        arcs: Seq::empty(),
        route: DelayPair { min_delay: 0, max_delay: 0 },
    }
}

/// The ports of a table, as mathematical values.
pub open spec fn facts_of(ports: Map<CellPin, PerPort>) -> Map<CellPin, PortFacts> {
    Map::new(|p: CellPin| ports.contains_key(p), |p: CellPin| ports[p].facts())
}

/// The class of a port; combinational where the table does not list it.
pub open spec fn class_in(ports: Map<CellPin, PortFacts>, pin: CellPin) -> TimingPortClass {
    if ports.contains_key(pin) {
        ports[pin].port_class
    } else {
        TimingPortClass::Combinational
    }
}

/// The class of a port; combinational where the table does not list it.
pub fn port_class_or_comb(ports: &IdMap<CellPin, PerPort>, pin: CellPin) -> (r: TimingPortClass)
    ensures
        r == class_in(facts_of(ports@), pin),
{
    match ports.get(pin) {
        Some(pd) => pd.port_class,
        None => TimingPortClass::Combinational,
    }
}

/// The pin is a port of a living cell.
pub open spec fn is_port(design: Design, pin: CellPin) -> bool {
    &&& design.valid_cell(pin.cell)
    &&& design.cell_of(pin.cell).alive
    &&& design.cell_of(pin.cell).port_index(pin.port) < design.cell_of(pin.cell).ports@.len()
}

/// The port behind a pin.
pub open spec fn port_of(design: Design, pin: CellPin) -> CellPort {
    design.cell_of(pin.cell).ports@[design.cell_of(pin.cell).port_index(pin.port)]
}

/// Every pin of the table belongs to a cell of the design.
pub open spec fn pins_in_design(design: Design, ports: Map<CellPin, PortFacts>) -> bool {
    forall|p: CellPin| #[trigger] ports.contains_key(p) ==> design.valid_cell(p.cell)
}

/// A pin and the clock port that it is timed by.
#[derive(Clone, Copy, PartialEq, Eq, Hash, Debug, Structural)]
pub struct ClockedPin {
    pub pin: CellPin,
    pub clock_port: IdString,
}

/// The pins where the paths of a clock domain begin and end.
pub struct PerDomain {
    pub startpoints: Vec<ClockedPin>,
    pub endpoints: Vec<ClockedPin>,
}

impl PerDomain {
    pub fn new() -> (r: Self)
        ensures
            r.startpoints@.len() == 0,
            r.endpoints@.len() == 0,
    {
        PerDomain { startpoints: Vec::new(), endpoints: Vec::new() }
    }
}

/// What is known of a pair of clock domains.
#[derive(Clone, Copy, PartialEq, Eq, Hash, Debug, Structural)]
pub struct PerDomainPair {
    pub pair: ClockDomainPair,
    /// The time from the launching edge to the capturing edge.
    pub period: DelayPair,
    pub worst_setup_slack: DelayT,
    pub worst_hold_slack: DelayT,
}

/// The pin before another on its latest path, and the step between them.
#[derive(Clone, Copy, PartialEq, Eq, Hash, Debug, Structural)]
pub struct Hop {
    pub from: CellPin,
    /// The net of the step; none for a step through a cell.
    pub net: Option<NetId>,
    pub delay: DelayT,
}

/// Two clock nets.
#[derive(Clone, Copy, PartialEq, Eq, Hash, Debug, Structural)]
pub struct ClockNetPair {
    pub from: IdString,
    pub to: IdString,
}

impl MapKey for ClockNetPair {
    open spec fn key_of(self) -> u64 {
        pack(self.from.0 + 0x8000_0000, self.to.0 + 0x8000_0000) as u64
    }

    proof fn key_injective(a: Self, b: Self) {
    }

    fn to_key(self) -> (k: u64) {
        pack_halves(offset_of(self.from.0), offset_of(self.to.0))
    }
}

impl ListedKey for ClockNetPair {
    fn from_key(k: u64) -> (r: Self) {
        let (hi, lo) = unpack_halves(k);
        let r = ClockNetPair { from: IdString(at_offset(hi)), to: IdString(at_offset(lo)) };
        proof {
            assert forall|a: Self| #[trigger] a.key_of() == k implies a == r by {
                Self::key_injective(a, r);
            }
        }
        r
    }
}

/// The times after a pin is found to be reached at `t`: the later time stays.
pub open spec fn raised(times: Map<CellPin, DelayT>, pin: CellPin, t: DelayT) -> Map<CellPin, DelayT> {
    times.insert(
        pin,
        if times.contains_key(pin) {
            greater(times[pin], t)
        } else {
            t
        },
    )
}

/// The times after a pin is found to be due at `t`: the earlier time stays.
pub open spec fn lowered(times: Map<CellPin, DelayT>, pin: CellPin, t: DelayT) -> Map<CellPin, DelayT> {
    times.insert(
        pin,
        if times.contains_key(pin) {
            lesser(times[pin], t)
        } else {
            t
        },
    )
}

/// Notes that a pin is reached at `t`; the later time stays.
pub fn raise(times: &mut IdMap<CellPin, DelayT>, pin: CellPin, t: DelayT)
    ensures
        final(times)@ == raised(old(times)@, pin, t),
{
    let next: DelayT = match times.get(pin) {
        Some(was) => max_of(*was, t),
        None => t,
    };
    let _ = times.insert(pin, next);
}

/// Notes that a pin is due at `t`; the earlier time stays.
pub fn lower(times: &mut IdMap<CellPin, DelayT>, pin: CellPin, t: DelayT)
    ensures
        final(times)@ == lowered(old(times)@, pin, t),
{
    let next: DelayT = match times.get(pin) {
        Some(was) => min_of(*was, t),
        None => t,
    };
    let _ = times.insert(pin, next);
}

/// The period that the constraints ask for on the fastest clock, or 10 ns without constraints.
pub open spec fn default_period(clocks: Map<IdString, DelayT>, period: DelayT) -> bool {
    if clocks.dom().is_empty() {
        period == 10_000
    } else {
        &&& exists|c: IdString| #[trigger] clocks.contains_key(c) && clocks[c] == period
        &&& forall|c: IdString| #[trigger] clocks.contains_key(c) ==> period <= clocks[c]
    }
}

/// One period is the default one.
pub proof fn default_period_is_one(clocks: Map<IdString, DelayT>, a: DelayT, b: DelayT)
    requires
        default_period(clocks, a),
        default_period(clocks, b),
    ensures
        a == b,
{
}

/// The period that the constraints ask for on the fastest clock, or 10 ns without constraints, as
/// a mathematical value.
pub open spec fn period_by_default(clocks: Map<IdString, DelayT>) -> DelayT {
    choose|period: DelayT| default_period(clocks, period)
}

/// The period that the constraints ask for on the fastest clock, or 10 ns without constraints.
pub fn get_default_period(clocks: &IdMap<IdString, DelayT>) -> (r: DelayT)
    ensures
        default_period(clocks@, r),
        r == period_by_default(clocks@),
{
    let names = clocks.keys();
    let mut best: DelayT = 10_000;
    for i in 0..names.len()
        invariant
            forall|c: IdString| #[trigger] names@.contains(c) <==> clocks@.contains_key(c),
            i == 0 ==> best == 10_000,
            i > 0 ==> exists|c: IdString| #[trigger] clocks@.contains_key(c) && clocks@[c] == best,
            forall|k: int|
                0 <= k < i ==> clocks@.contains_key(#[trigger] names@[k]) && best <= clocks@[names@[k]],
    {
        let name: IdString = names[i];
        assert(names@.contains(name));
        if let Some(p) = clocks.get(name) {
            let p: DelayT = *p;
            if i == 0 || p < best {
                best = p;
            }
            assert(clocks@.contains_key(name) && clocks@[name] == p);
        }
    }
    proof {
        assert forall|c: IdString| #[trigger] clocks@.contains_key(c) implies names@.len() > 0 && best
            <= clocks@[c] by {
            assert(names@.contains(c));
            let k = choose|k: int| 0 <= k < names@.len() && names@[k] == c;
            assert(best <= clocks@[names@[k]]);
        }
        if names@.len() == 0 {
            assert(clocks@.dom() =~= Set::<IdString>::empty());
        } else {
            assert(names@.contains(names@[0]));
            assert(clocks@.dom().contains(names@[0]));
        }
        assert(default_period(clocks@, best));
        default_period_is_one(clocks@, best, period_by_default(clocks@));
    }
    best
}

} // verus!
