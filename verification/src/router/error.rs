//! Why routing failed.

use crate::router::validate::ValidationReport;
use vstd::prelude::*;

verus! {

/// Why routing failed.
pub enum RouterError {
    /// No path was found for the named net.
    NoPath(String),
    /// Routing did not come to an end: the number of iterations, and what is still congested.
    Congestion(usize, usize),
    /// The finished routing does not fit the netlist.
    ValidationFailed(ValidationReport),
    /// Anything else.
    Generic(String),
}

} // verus!
