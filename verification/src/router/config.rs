//! Which router to use.

use crate::router::maze::Router1Cfg;
use crate::router::router2::Router2Cfg;
use vstd::prelude::*;

verus! {

/// A router together with how it works.
pub enum RouterChoice {
    Maze(Router1Cfg),
    Negotiation(Router2Cfg),
}

impl Default for RouterChoice {
    /// The maze router, as it works by default.
    fn default() -> (r: Self)
        ensures
            r is Maze,
            r->Maze_0.max_iterations == 500,
            r->Maze_0.rip_up_penalty == 10,
            r->Maze_0.bb_margin == 3,
            r->Maze_0.estimate_precision == 50,
            r->Maze_0.lookahead is None,
            !r->Maze_0.verbose,
    {
        RouterChoice::Maze(Router1Cfg::default())
    }
}

} // verus!
