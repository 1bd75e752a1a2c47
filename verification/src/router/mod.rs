//! Routing: finding and binding paths for nets on the device.

pub mod astar;
pub mod attempt;
pub mod choice_laws;
pub mod cleanup;
pub mod common;
pub mod config;
pub mod corridor;
pub mod cost_laws;
pub mod detour_laws;
pub mod diagnose;
pub mod effort;
pub mod error;
pub mod fault_laws;
pub mod findings;
pub mod gate;
pub mod graph;
pub mod greedy;
pub mod heap;
pub mod lookahead;
pub mod lookahead_laws;
pub mod maze;
pub mod negotiation;
pub mod net_laws;
pub mod passes;
pub mod plan;
pub mod plan_laws;
pub mod raster;
pub mod raster_laws;
pub mod reach;
pub mod region;
pub mod ripup;
pub mod rounds;
pub mod route_laws;
pub mod run;
pub mod router2;
pub mod scoped;
pub mod search;
pub mod segments;
pub mod state_laws;
pub mod traits;
pub mod usage;
pub mod validate;
pub mod validate_laws;
pub mod wording;
