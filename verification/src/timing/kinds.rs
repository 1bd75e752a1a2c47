//! Port classes and clock edges.

use vstd::prelude::*;

verus! {

/// The role of a port in timing analysis.
#[derive(Clone, Copy, PartialEq, Eq, Hash, Debug, Structural)]
pub enum TimingPortClass {
    /// A combinational path runs through the port.
    Combinational,
    /// A register input: data, enable or reset.
    RegisterInput,
    /// A register output.
    RegisterOutput,
    /// The clock input of a register.
    ClockInput,
    /// The output of a generated clock.
    GenClock,
    /// The port is left out of timing analysis.
    Ignore,
}

impl TimingPortClass {
    /// Whether the port is an endpoint of a register.
    pub fn is_register(self) -> (r: bool)
        ensures
            r == (self is RegisterInput || self is RegisterOutput),
    {
        match self {
            TimingPortClass::RegisterInput | TimingPortClass::RegisterOutput => true,
            _ => false,
        }
    }

    /// Whether the port carries a clock.
    pub fn is_clock(self) -> (r: bool)
        ensures
            r == (self is ClockInput || self is GenClock),
    {
        match self {
            TimingPortClass::ClockInput | TimingPortClass::GenClock => true,
            _ => false,
        }
    }

    /// The name that reports use.
    pub fn label(self) -> (s: &'static str)
        ensures
            s@ == match self {
                TimingPortClass::Combinational => "COMBINATIONAL"@,
                TimingPortClass::RegisterInput => "REGISTER_INPUT"@,
                TimingPortClass::RegisterOutput => "REGISTER_OUTPUT"@,
                TimingPortClass::ClockInput => "CLOCK_INPUT"@,
                TimingPortClass::GenClock => "GEN_CLOCK"@,
                TimingPortClass::Ignore => "IGNORE"@,
            },
    {
        match self {
            TimingPortClass::Combinational => "COMBINATIONAL",
            TimingPortClass::RegisterInput => "REGISTER_INPUT",
            TimingPortClass::RegisterOutput => "REGISTER_OUTPUT",
            TimingPortClass::ClockInput => "CLOCK_INPUT",
            TimingPortClass::GenClock => "GEN_CLOCK",
            TimingPortClass::Ignore => "IGNORE",
        }
    }
}

impl Default for TimingPortClass {
    fn default() -> (r: Self)
        ensures
            r is Combinational,
    {
        TimingPortClass::Combinational
    }
}

/// An edge of a clock.
#[derive(Clone, Copy, PartialEq, Eq, Hash, Debug, Structural)]
pub enum ClockEdge {
    Rising,
    Falling,
}

impl ClockEdge {
    /// The other edge, as a mathematical value.
    pub open spec fn other(self) -> ClockEdge {
        match self {
            ClockEdge::Rising => ClockEdge::Falling,
            ClockEdge::Falling => ClockEdge::Rising,
        }
    }

    /// The other edge.
    pub fn opposite(self) -> (r: Self)
        ensures
            r == self.other(),
    {
        match self {
            ClockEdge::Rising => ClockEdge::Falling,
            ClockEdge::Falling => ClockEdge::Rising,
        }
    }

    /// Going to the other edge twice leads back.
    pub proof fn opposite_is_an_involution(self)
        ensures
            self.other().other() == self,
            self.other() != self,
    {
    }

    /// The name that reports use.
    pub fn label(self) -> (s: &'static str)
        ensures
            s@ == match self {
                ClockEdge::Rising => "RISING"@,
                ClockEdge::Falling => "FALLING"@,
            },
    {
        match self {
            ClockEdge::Rising => "RISING",
            ClockEdge::Falling => "FALLING",
        }
    }
}

impl Default for ClockEdge {
    fn default() -> (r: Self)
        ensures
            r is Rising,
    {
        ClockEdge::Rising
    }
}

} // verus!
