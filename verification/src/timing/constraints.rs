//! Timing constraints in the style of SDC files.

use crate::ids::IdMap;
use crate::netlist::CellPin;
use crate::timing::delay::{DelayPair, DelayT};
use crate::timing::domain::ClockDomainPair;
use crate::types::id_string::IdString;
use vstd::prelude::*;

verus! {

/// A clock, as `create_clock` defines it.
#[derive(Clone, Copy, Debug)]
pub struct ClockDef {
    pub name: IdString,
    /// The period in picoseconds.
    pub period: DelayT,
    /// The times of the rising and of the falling edge within a period.
    pub waveform: (DelayT, DelayT),
    /// The port that the clock comes from, where one is named.
    pub source_port: Option<IdString>,
}

/// A delay outside the device, at inputs or at outputs.
#[derive(Clone, Debug)]
pub struct IoDelay {
    /// The name of the clock that the delay refers to.
    pub clock: IdString,
    pub delay: DelayT,
    pub ports: Vec<IdString>,
    /// Whether this is the largest delay, and not the smallest.
    pub is_max: bool,
}

/// Paths that no timing is asked of, as `set_false_path` names them.
#[derive(Clone, Debug)]
pub struct FalsePath {
    pub from: Vec<CellPin>,
    pub to: Vec<CellPin>,
    pub through: Vec<CellPin>,
}

/// Paths between two clocks that have more than one cycle, as `set_multicycle_path` names them.
#[derive(Clone, Copy, PartialEq, Eq, Hash, Debug, Structural)]
pub struct MulticyclePath {
    pub from_clock: IdString,
    pub to_clock: IdString,
    pub setup_cycles: u32,
    pub hold_cycles: u32,
}

/// How the clocks of different groups relate, as `set_clock_groups` says.
#[derive(Clone, Copy, PartialEq, Eq, Hash, Debug, Structural)]
pub enum ClockGroupType {
    Asynchronous,
    Exclusive,
    PhysicallyExclusive,
}

/// Groups of clocks. Clocks of one group are related, clocks of different groups are not.
#[derive(Clone, Debug)]
pub struct ClockGroup {
    pub group_type: ClockGroupType,
    pub groups: Vec<Vec<IdString>>,
}

/// All timing constraints.
pub struct SdcConstraints {
    pub clocks: Vec<ClockDef>,
    pub input_delays: Vec<IoDelay>,
    pub output_delays: Vec<IoDelay>,
    pub false_paths: Vec<FalsePath>,
    pub multicycle_paths: Vec<MulticyclePath>,
    pub max_delays: Vec<(DelayT, CellPin, CellPin)>,
    pub min_delays: Vec<(DelayT, CellPin, CellPin)>,
    pub clock_groups: Vec<ClockGroup>,
    pub clock_uncertainty: IdMap<ClockDomainPair, DelayPair>,
}

/// A list of pins admits a pin: it holds the pin, or it is empty and admits all.
pub open spec fn admits(pins: Seq<CellPin>, pin: CellPin) -> bool {
    pins.len() == 0 || pins.contains(pin)
}

fn pins_admit(pins: &Vec<CellPin>, pin: CellPin) -> (r: bool)
    ensures
        r == admits(pins@, pin),
{
    for i in 0..pins.len()
        invariant
            forall|k: int| 0 <= k < i ==> #[trigger] pins@[k] != pin,
    {
        if pins[i] == pin {
            return true;
        }
    }
    pins.len() == 0
}

impl FalsePath {
    /// The exception speaks of paths from one pin to another.
    pub open spec fn matches_path(self, from: CellPin, to: CellPin) -> bool {
        admits(self.from@, from) && admits(self.to@, to)
    }
}

impl SdcConstraints {
    /// No constraint stands.
    pub open spec fn is_empty(self) -> bool {
        &&& self.clocks@.len() == 0
        &&& self.input_delays@.len() == 0
        &&& self.output_delays@.len() == 0
        &&& self.false_paths@.len() == 0
        &&& self.multicycle_paths@.len() == 0
        &&& self.max_delays@.len() == 0
        &&& self.min_delays@.len() == 0
        &&& self.clock_groups@.len() == 0
        &&& self.clock_uncertainty@ == Map::<ClockDomainPair, DelayPair>::empty()
    }

    pub fn new() -> (r: Self)
        ensures
            r.is_empty(),
    {
        SdcConstraints {
            clocks: Vec::new(),
            input_delays: Vec::new(),
            output_delays: Vec::new(),
            false_paths: Vec::new(),
            multicycle_paths: Vec::new(),
            max_delays: Vec::new(),
            min_delays: Vec::new(),
            clock_groups: Vec::new(),
            clock_uncertainty: IdMap::new(),
        }
    }

    /// Adds a clock at the end of the list.
    pub fn add_clock(&mut self, def: ClockDef)
        ensures
            final(self).clocks@ == old(self).clocks@.push(def),
            final(self).input_delays == old(self).input_delays,
            final(self).output_delays == old(self).output_delays,
            final(self).false_paths == old(self).false_paths,
            final(self).multicycle_paths == old(self).multicycle_paths,
            final(self).max_delays == old(self).max_delays,
            final(self).min_delays == old(self).min_delays,
            final(self).clock_groups == old(self).clock_groups,
            final(self).clock_uncertainty == old(self).clock_uncertainty,
    {
        self.clocks.push(def);
    }

    /// Whether an exception takes the paths from one pin to another out of the analysis.
    pub fn is_false_path(&self, from: CellPin, to: CellPin) -> (r: bool)
        ensures
            r == exists|i: int|
                0 <= i < self.false_paths@.len() && (#[trigger] self.false_paths@[i]).matches_path(from, to),
    {
        for i in 0..self.false_paths.len()
            invariant
                forall|k: int| 0 <= k < i ==> !(#[trigger] self.false_paths@[k]).matches_path(from, to),
        {
            let fp = &self.false_paths[i];
            if pins_admit(&fp.from, from) && pins_admit(&fp.to, to) {
                assert(self.false_paths@[i as int].matches_path(from, to));
                return true;
            }
        }
        false
    }

    /// The number of setup cycles between two clocks; the first entry for them counts.
    pub fn multicycle_setup(&self, launch_clk: IdString, capture_clk: IdString) -> (r: Option<u32>)
        ensures
            match r {
                Some(cycles) => exists|i: int| #[trigger]
                    self.first_multicycle(launch_clk, capture_clk, i) && cycles
                        == self.multicycle_paths@[i].setup_cycles,
                None => forall|i: int|
                    0 <= i < self.multicycle_paths@.len() ==> !(#[trigger] self.multicycle_paths@[i]).between(
                        launch_clk,
                        capture_clk,
                    ),
            },
    {
        for i in 0..self.multicycle_paths.len()
            invariant
                forall|k: int|
                    0 <= k < i ==> !(#[trigger] self.multicycle_paths@[k]).between(launch_clk, capture_clk),
        {
            let mp = self.multicycle_paths[i];
            if mp.from_clock == launch_clk && mp.to_clock == capture_clk {
                assert(self.first_multicycle(launch_clk, capture_clk, i as int));
                return Some(mp.setup_cycles);
            }
        }
        None
    }

    /// Position `i` holds the first entry for two clocks.
    pub open spec fn first_multicycle(self, launch_clk: IdString, capture_clk: IdString, i: int) -> bool {
        &&& 0 <= i < self.multicycle_paths@.len()
        &&& self.multicycle_paths@[i].between(launch_clk, capture_clk)
        &&& forall|k: int|
            0 <= k < i ==> !(#[trigger] self.multicycle_paths@[k]).between(launch_clk, capture_clk)
    }
}

impl MulticyclePath {
    /// The entry speaks of two clocks.
    pub open spec fn between(self, launch_clk: IdString, capture_clk: IdString) -> bool {
        self.from_clock == launch_clk && self.to_clock == capture_clk
    }
}

impl Default for SdcConstraints {
    fn default() -> (r: Self)
        ensures
            r.is_empty(),
    {
        Self::new()
    }
}

} // verus!
