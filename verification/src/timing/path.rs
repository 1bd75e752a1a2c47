//! Timing paths.

use crate::netlist::{CellId, NetId};
use crate::timing::delay::{DelayPair, DelayT};
use crate::timing::domain::ClockDomain;
use crate::timing::kinds::TimingPortClass;
use crate::types::id_string::IdString;
use vstd::prelude::*;

verus! {

/// The timing of a port of a cell.
#[derive(Clone, Copy, PartialEq, Eq, Hash, Debug, Structural)]
pub struct TimingPortInfo {
    pub port_class: TimingPortClass,
    /// The domain of a port of a register.
    pub clock_domain: ClockDomain,
    /// The setup time of a register input.
    pub setup: DelayT,
    /// The hold time of a register input.
    pub hold: DelayT,
    /// The delay from the clock to a register output.
    pub clock_to_out: DelayPair,
    /// The combinational delay from the port to the output that belongs to it.
    pub comb_delay: DelayPair,
}

impl Default for TimingPortInfo {
    fn default() -> (r: Self)
        ensures
            r == (TimingPortInfo {
                port_class: TimingPortClass::Combinational,
                clock_domain: ClockDomain::without_clock(),
                setup: 0,
                hold: 0,
                clock_to_out: DelayPair { min_delay: 0, max_delay: 0 },
                comb_delay: DelayPair { min_delay: 0, max_delay: 0 },
            }),
    {
        TimingPortInfo {
            port_class: TimingPortClass::Combinational,
            clock_domain: ClockDomain::unclocked(),
            setup: 0,
            hold: 0,
            clock_to_out: DelayPair::uniform(0),
            comb_delay: DelayPair::uniform(0),
        }
    }
}

/// An end of a timing path.
#[derive(Clone, Copy, PartialEq, Eq, Hash, Debug, Structural)]
pub struct TimingEndpoint {
    pub cell: CellId,
    pub port: IdString,
    pub domain: ClockDomain,
}

/// A step of a timing path.
#[derive(Clone, Copy, PartialEq, Eq, Hash, Debug, Structural)]
pub struct PathSegment {
    /// The net of the step; the index of no net for a step through a cell.
    pub net: NetId,
    /// The cell that the step leads to.
    pub cell: CellId,
    /// The port that the step leads to.
    pub port: IdString,
    /// What the step adds, in picoseconds.
    pub delay: DelayT,
}

/// A timing path.
#[derive(Clone, Debug)]
pub struct TimingPath {
    pub from: TimingEndpoint,
    pub to: TimingEndpoint,
    /// The delay of the whole path.
    pub delay: DelayT,
    /// The time that the clock constraint allows.
    pub budget: DelayT,
    /// The budget less the delay; a negative slack is a violation.
    pub slack: DelayT,
    pub segments: Vec<PathSegment>,
}

} // verus!
