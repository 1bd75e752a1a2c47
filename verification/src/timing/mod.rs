//! Static timing analysis.

pub mod analyser;
pub mod arc_laws;
pub mod cell_delays;
pub mod constraints;
pub mod delay;
pub mod domain;
pub mod domain_laws;
pub mod domain_setup;
pub mod kinds;
pub mod legacy;
pub mod legacy_laws;
pub mod levels;
pub mod path;
pub mod ports;
pub mod propagation;
pub mod propagation_laws;
pub mod queries;
pub mod query_laws;
pub mod related;
pub mod report;
pub mod report_laws;
pub mod slack;
pub mod slack_laws;
pub mod sort;
pub mod spread;
pub mod step_laws;
pub mod tables;

pub use constraints::SdcConstraints;
pub use delay::{DelayPair, DelayQuad, DelayT};
pub use domain::{CellArc, CellArcType, ClockDomain, ClockDomainId, ClockDomainPair, DomainRegistry};
pub use kinds::{ClockEdge, TimingPortClass};
pub use queries::TimingAnalyser;
pub use path::{PathSegment, TimingEndpoint, TimingPath, TimingPortInfo};
pub use sort::topological_sort;
