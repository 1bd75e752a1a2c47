//! The index structures of the linear solvers that placement uses.

pub mod aggregate;
pub mod group_laws;
pub mod history;
pub mod pattern;
pub mod rng;
pub mod threads;
pub mod triplets;

pub use threads::{set_solver_threads, SolverThreads};
