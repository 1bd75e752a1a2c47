//! How many threads the solvers use.

use vstd::prelude::*;

verus! {

/// The number of threads of the solvers; never zero.
#[derive(Clone, Copy, PartialEq, Eq, Hash, Debug, Structural)]
pub struct SolverThreads {
    pub count: usize,
}

/// How the work of a solver is divided.
#[derive(Clone, Copy, PartialEq, Eq, Hash, Debug, Structural)]
pub enum Division {
    /// One thread does all of it.
    Sequential,
    /// So many threads share it.
    Shared(usize),
}

impl SolverThreads {
    /// How the work is divided.
    pub fn division(&self) -> (r: Division)
        ensures
            r == if self.count <= 1 {
                Division::Sequential
            } else {
                Division::Shared(self.count)
            },
    {
        if self.count <= 1 {
            Division::Sequential
        } else {
            Division::Shared(self.count)
        }
    }
}

impl Default for SolverThreads {
    fn default() -> (r: Self)
        ensures
            r.count == 8,
    {
        SolverThreads { count: 8 }
    }
}

/// Sets the number of threads; zero counts as one.
pub fn set_solver_threads(threads: &mut SolverThreads, n: usize)
    ensures
        final(threads).count == if n == 0 {
            1
        } else {
            n
        },
{
    threads.count = if n == 0 {
        1
    } else {
        n
    };
}

} // verus!
