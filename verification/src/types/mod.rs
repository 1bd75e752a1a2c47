//! Small value types shared by the whole library.

pub mod enums;
pub mod id_string;

pub use enums::{PlaceStrength, PortType};
pub use id_string::IdString;
pub use crate::timing::kinds::{ClockEdge, TimingPortClass};
