//! Placement strengths and port directions.

use vstd::prelude::*;

verus! {

/// How firmly a cell is held in its place, or a wire by its net.
#[derive(Clone, Copy, PartialEq, Eq, Hash, Debug, Structural)]
pub enum PlaceStrength {
    /// No placement constraint.
    Free,
    /// A weak preference, such as a hint from an initial placement.
    Weak,
    /// A strong preference.
    Strong,
    /// Chosen by the placer.
    Placer,
    /// Fixed by the user or a constraints file.
    Fixed,
    /// Locked, for example by a bitstream.
    Locked,
    /// An absolute constraint of the user.
    User,
}

impl PlaceStrength {
    /// Whether the placer must leave the cell where it is.
    pub fn is_locked(self) -> (r: bool)
        ensures
            r == (self is Fixed || self is Locked || self is User),
    {
        match self {
            PlaceStrength::Fixed | PlaceStrength::Locked | PlaceStrength::User => true,
            _ => false,
        }
    }

    /// The name that reports use.
    pub fn label(self) -> (s: &'static str)
        ensures
            s@ == match self {
                PlaceStrength::Free => "NONE"@,
                PlaceStrength::Weak => "WEAK"@,
                PlaceStrength::Strong => "STRONG"@,
                PlaceStrength::Placer => "PLACER"@,
                PlaceStrength::Fixed => "FIXED"@,
                PlaceStrength::Locked => "LOCKED"@,
                PlaceStrength::User => "USER"@,
            },
    {
        match self {
            PlaceStrength::Free => "NONE",
            PlaceStrength::Weak => "WEAK",
            PlaceStrength::Strong => "STRONG",
            PlaceStrength::Placer => "PLACER",
            PlaceStrength::Fixed => "FIXED",
            PlaceStrength::Locked => "LOCKED",
            PlaceStrength::User => "USER",
        }
    }
}

impl Default for PlaceStrength {
    fn default() -> (r: Self)
        ensures
            r is Free,
    {
        PlaceStrength::Free
    }
}

/// The direction of a cell port.
#[derive(Clone, Copy, PartialEq, Eq, Hash, Debug, Structural)]
pub enum PortType {
    In,
    Out,
    InOut,
}

impl PortType {
    /// The name that reports use.
    pub fn label(self) -> (s: &'static str)
        ensures
            s@ == match self {
                PortType::In => "IN"@,
                PortType::Out => "OUT"@,
                PortType::InOut => "INOUT"@,
            },
    {
        match self {
            PortType::In => "IN",
            PortType::Out => "OUT",
            PortType::InOut => "INOUT",
        }
    }
}

impl Default for PortType {
    fn default() -> (r: Self)
        ensures
            r is In,
    {
        PortType::In
    }
}

} // verus!
