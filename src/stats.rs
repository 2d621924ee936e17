use vstd::prelude::*;
use crate::AlgoResult;

verus! {

/// What one search run reports.
#[derive(Clone, Copy, PartialEq, Eq, Structural, Debug)]
pub struct Stats {
    /// Cells taken off the frontier and expanded.
    pub nodes_explored: u32,
    /// Steps from start to end on the path found; 0 when none was found.
    pub path_length: u32,
    /// Whether `path_length > 0`.
    pub path_found: bool,
}

impl Stats {
    pub open spec fn zero() -> Stats {
        Stats { nodes_explored: 0, path_length: 0, path_found: false }
    }

    pub fn to_result(&self) -> (r: AlgoResult)
        ensures
            r.nodes_explored() == self.nodes_explored,
            r.path_length() == self.path_length,
            r.path_found() == self.path_found,
    {
        AlgoResult::new(self.nodes_explored, self.path_length, self.path_found)
    }
}

impl Default for Stats {
    fn default() -> (s: Stats)
        ensures
            s == Stats::zero(),
    {
        Stats { nodes_explored: 0, path_length: 0, path_found: false }
    }
}

} // verus!
