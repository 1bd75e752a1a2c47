//! Verified core of an FPGA place-and-route tool: the routing graph, the path search and the
//! routers built on it, static timing analysis, and the index structures of the placement solver.

pub mod box_laws;
pub mod chipdb;
pub mod context;
pub mod fx;
pub mod ids;
pub mod metrics;
pub mod netlist;
pub mod order;
mod parallel;
pub mod router;
pub mod solver;
pub mod text;
pub mod text_laws;
pub mod timing;
pub mod types;
