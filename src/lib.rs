use vstd::prelude::*;

pub mod algorithms;
pub mod grid;
pub mod maze;
pub mod stats;

use grid::{Grid, fresh_cells, with_end, with_start, without_marks};
use maze::{RandomIndex, maze_layout, open_cells_connected};
use algorithms::search_outcome;
use stats::Stats;

verus! {

/// Seed of the random source a new lab starts with.
pub const DEFAULT_SEED: u64 = 0x2545_F491_4F6C_DD1D;

/// A grid together with the statistics of the last run and the random source for
/// mazes.
pub struct AlgoLab {
    grid: Grid,
    stats: Stats,
    rng: RandomIndex,
}

/// What a run reports to its caller.
pub struct AlgoResult {
    nodes_explored: u32,
    path_length: u32,
    path_found: bool,
}

impl AlgoResult {
    pub closed spec fn explored_spec(&self) -> u32 {
        self.nodes_explored
    }

    pub closed spec fn length_spec(&self) -> u32 {
        self.path_length
    }

    pub closed spec fn found_spec(&self) -> bool {
        self.path_found
    }

    pub fn new(nodes_explored: u32, path_length: u32, path_found: bool) -> (r: AlgoResult)
        ensures
            r.nodes_explored() == nodes_explored,
            r.path_length() == path_length,
            r.path_found() == path_found,
    {
        AlgoResult { nodes_explored, path_length, path_found }
    }

    #[verifier::when_used_as_spec(explored_spec)]
    pub fn nodes_explored(&self) -> (r: u32)
        ensures
            r == self.explored_spec(),
    {
        self.nodes_explored
    }

    #[verifier::when_used_as_spec(length_spec)]
    pub fn path_length(&self) -> (r: u32)
        ensures
            r == self.length_spec(),
    {
        self.path_length
    }

    #[verifier::when_used_as_spec(found_spec)]
    pub fn path_found(&self) -> (r: bool)
        ensures
            r == self.found_spec(),
    {
        self.path_found
    }
}

impl AlgoLab {
    /// The grid.
    pub closed spec fn board(&self) -> Grid {
        self.grid
    }

    /// The statistics of the last run.
    pub closed spec fn last(&self) -> Stats {
        self.stats
    }

    /// The state of the random source that carves mazes.
    pub closed spec fn random_state(&self) -> u64 {
        self.rng.state()
    }

    pub open spec fn wf(&self) -> bool {
        self.board().wf()
    }

    pub fn new(width: usize, height: usize) -> (r: AlgoLab)
        requires
            5 * (width * height) < u32::MAX,
        ensures
            r.wf(),
            r.board().cols() == width,
            r.board().rows() == height,
            r.board()@ == fresh_cells((width * height) as nat),
            r.last() == Stats::zero(),
            r.random_state() == maze::seeded(DEFAULT_SEED),
    {
        let mut grid = Grid::new(width, height);
        grid.flush_render_buffer();
        AlgoLab { grid, stats: Stats::default(), rng: RandomIndex::new(DEFAULT_SEED) }
    }

    pub fn grid(&self) -> (r: &Grid)
        ensures
            *r == self.board(),
    {
        &self.grid
    }

    /// The bytes a renderer paints, one per cell.
    pub fn render_buffer(&self) -> (r: &[u8])
        ensures
            r@ == self.board().rendered(),
    {
        self.grid.render_buffer()
    }

    pub fn render_buffer_len(&self) -> (r: usize)
        requires
            self.wf(),
        ensures
            r == self.board()@.len(),
    {
        self.grid.render_buffer_len()
    }

    /// Seeds the random source that carves mazes.
    pub fn set_seed(&mut self, seed: u64)
        ensures
            final(self).board() == old(self).board(),
            final(self).last() == old(self).last(),
            final(self).random_state() == maze::seeded(seed),
    {
        self.rng = RandomIndex::new(seed);
    }

    pub fn set_wall(&mut self, idx: usize, active: bool)
        requires
            old(self).wf(),
        ensures
            final(self).wf(),
            final(self).board().cols() == old(self).board().cols(),
            final(self).board().rows() == old(self).board().rows(),
            final(self).board()@ == if idx < old(self).board()@.len() {
                old(self).board()@.update(
                    idx as int,
                    grid::Cell { is_wall: active, cost: if active { 0 } else { 1 }, ..old(self).board()@[idx as int] },
                )
            } else {
                old(self).board()@
            },
    {
        self.grid.set_wall(idx, active);
        self.grid.flush_render_buffer();
    }

    pub fn set_start(&mut self, idx: usize)
        requires
            old(self).wf(),
        ensures
            final(self).wf(),
            final(self).board().cols() == old(self).board().cols(),
            final(self).board().rows() == old(self).board().rows(),
            final(self).board()@ == with_start(old(self).board()@, idx as int),
    {
        self.grid.set_start(idx);
        self.grid.flush_render_buffer();
    }

    pub fn set_end(&mut self, idx: usize)
        requires
            old(self).wf(),
        ensures
            final(self).wf(),
            final(self).board().cols() == old(self).board().cols(),
            final(self).board().rows() == old(self).board().rows(),
            final(self).board()@ == with_end(old(self).board()@, idx as int),
    {
        self.grid.set_end(idx);
        self.grid.flush_render_buffer();
    }

    pub fn set_terrain(&mut self, idx: usize, cost: u16)
        requires
            old(self).wf(),
        ensures
            final(self).wf(),
            final(self).board().cols() == old(self).board().cols(),
            final(self).board().rows() == old(self).board().rows(),
            final(self).board()@ == if idx < old(self).board()@.len() && !old(self).board()@[idx as int].is_wall
                && 1 <= cost <= 5 {
                old(self).board()@.update(idx as int, grid::Cell { cost, ..old(self).board()@[idx as int] })
            } else {
                old(self).board()@
            },
    {
        self.grid.set_terrain(idx, cost);
        self.grid.flush_render_buffer();
    }

    /// Clears the search marks and the last statistics.
    pub fn reset_search(&mut self)
        requires
            old(self).wf(),
        ensures
            final(self).wf(),
            final(self).board().cols() == old(self).board().cols(),
            final(self).board().rows() == old(self).board().rows(),
            final(self).board()@ == without_marks(old(self).board()@),
            final(self).last() == Stats::zero(),
    {
        self.grid.reset_search_state();
        self.stats = Stats::default();
        self.grid.flush_render_buffer();
    }

    /// Returns every cell to the fresh state and clears the last statistics.
    pub fn reset_all(&mut self)
        requires
            old(self).wf(),
        ensures
            final(self).wf(),
            final(self).board().cols() == old(self).board().cols(),
            final(self).board().rows() == old(self).board().rows(),
            final(self).board()@ == fresh_cells(old(self).board()@.len()),
            final(self).last() == Stats::zero(),
    {
        self.grid.reset_all();
        self.stats = Stats::default();
        self.grid.flush_render_buffer();
    }

    /// The grid with its search marks cleared, as a run starts from it.
    pub open spec fn cleared(&self, g: Grid) -> bool {
        &&& g@ == without_marks(self.board()@)
        &&& g.cols() == self.board().cols()
        &&& g.rows() == self.board().rows()
        &&& g.wf()
    }

    /// Clears the search marks, then runs breadth-first search.
    pub fn run_bfs(&mut self) -> (r: AlgoResult)
        requires
            old(self).wf(),
        ensures
            final(self).wf(),
            exists|g: Grid| #[trigger] old(self).cleared(g) && search_outcome(&g, final(self).board()@, final(self).last())
                && algorithms::bfs::bfs_shortest(&g, final(self).last()),
            r.nodes_explored() == final(self).last().nodes_explored,
            r.path_length() == final(self).last().path_length,
            r.path_found() == final(self).last().path_found,
    {
        self.grid.reset_search_state();
        let ghost g = self.grid;
        self.stats = algorithms::bfs::run(&mut self.grid);
        self.grid.flush_render_buffer();
        proof {
            assert(old(self).cleared(g));
        }
        self.stats.to_result()
    }

    /// Clears the search marks, then runs depth-first search.
    pub fn run_dfs(&mut self) -> (r: AlgoResult)
        requires
            old(self).wf(),
        ensures
            final(self).wf(),
            exists|g: Grid| #[trigger] old(self).cleared(g) && search_outcome(&g, final(self).board()@, final(self).last())
                && algorithms::finds_path(&g, final(self).last()),
            r.nodes_explored() == final(self).last().nodes_explored,
            r.path_length() == final(self).last().path_length,
            r.path_found() == final(self).last().path_found,
    {
        self.grid.reset_search_state();
        let ghost g = self.grid;
        self.stats = algorithms::dfs::run(&mut self.grid);
        self.grid.flush_render_buffer();
        proof {
            assert(old(self).cleared(g));
        }
        self.stats.to_result()
    }

    /// Clears the search marks, then runs least-cost search.
    pub fn run_dijkstra(&mut self) -> (r: AlgoResult)
        requires
            old(self).wf(),
        ensures
            final(self).wf(),
            exists|g: Grid| #[trigger] old(self).cleared(g) && search_outcome(&g, final(self).board()@, final(self).last())
                && algorithms::finds_path(&g, final(self).last()),
            r.nodes_explored() == final(self).last().nodes_explored,
            r.path_length() == final(self).last().path_length,
            r.path_found() == final(self).last().path_found,
    {
        self.grid.reset_search_state();
        let ghost g = self.grid;
        self.stats = algorithms::dijkstra::run(&mut self.grid);
        self.grid.flush_render_buffer();
        proof {
            assert(old(self).cleared(g));
        }
        self.stats.to_result()
    }

    /// Clears the search marks, then runs A* search.
    pub fn run_astar(&mut self) -> (r: AlgoResult)
        requires
            old(self).wf(),
        ensures
            final(self).wf(),
            exists|g: Grid| #[trigger] old(self).cleared(g) && search_outcome(&g, final(self).board()@, final(self).last())
                && algorithms::finds_path(&g, final(self).last()),
            r.nodes_explored() == final(self).last().nodes_explored,
            r.path_length() == final(self).last().path_length,
            r.path_found() == final(self).last().path_found,
    {
        self.grid.reset_search_state();
        let ghost g = self.grid;
        self.stats = algorithms::astar::run(&mut self.grid);
        self.grid.flush_render_buffer();
        proof {
            assert(old(self).cleared(g));
        }
        self.stats.to_result()
    }

    /// Resets every cell, then carves a maze with the recursive backtracker. A grid
    /// with fewer than two rows or columns has no room for one and stays fresh.
    pub fn generate_maze_backtracker(&mut self)
        requires
            old(self).wf(),
        ensures
            final(self).wf(),
            final(self).board().cols() == old(self).board().cols(),
            final(self).board().rows() == old(self).board().rows(),
            maze_layout(fresh_cells(old(self).board()@.len()), final(self).board()@),
            old(self).board().cols() >= 2 && old(self).board().rows() >= 2 ==> open_cells_connected(
                &final(self).board(),
                old(self).board().cols() + 1,
            ) && maze::maze_carved(old(self).board().cols() as int, old(self).board().rows() as int, final(self).board()@)
                && !final(self).board()@[old(self).board().cols() + 1].is_wall,
            final(self).board().rendered() == Seq::new(
                final(self).board()@.len(),
                |i: int| final(self).board()@[i].render_byte_spec(),
            ),
    {
        self.grid.reset_all();
        if self.grid.width() >= 2 && self.grid.height() >= 2 {
            maze::recursive_backtracker::generate(&mut self.grid, &mut self.rng);
            let ghost carved = self.grid;
            self.grid.flush_render_buffer();
            proof {
                maze::lemma_connected_same_cells(&carved, &self.grid, old(self).board().cols() + 1);
            }
            return;
        } else {
            proof {
                assert(maze_layout(fresh_cells(old(self).board()@.len()), self.grid@));
            }
        }
        self.grid.flush_render_buffer();
    }

    /// Resets every cell, then carves a maze with randomised Prim's algorithm. A grid
    /// with fewer than two rows or columns has no room for one and stays fresh.
    pub fn generate_maze_prims(&mut self)
        requires
            old(self).wf(),
        ensures
            final(self).wf(),
            final(self).board().cols() == old(self).board().cols(),
            final(self).board().rows() == old(self).board().rows(),
            maze_layout(fresh_cells(old(self).board()@.len()), final(self).board()@),
            old(self).board().cols() >= 2 && old(self).board().rows() >= 2 ==> open_cells_connected(
                &final(self).board(),
                old(self).board().cols() + 1,
            ) && maze::maze_carved(old(self).board().cols() as int, old(self).board().rows() as int, final(self).board()@)
                && !final(self).board()@[old(self).board().cols() + 1].is_wall,
            final(self).board().rendered() == Seq::new(
                final(self).board()@.len(),
                |i: int| final(self).board()@[i].render_byte_spec(),
            ),
    {
        self.grid.reset_all();
        if self.grid.width() >= 2 && self.grid.height() >= 2 {
            maze::prims::generate(&mut self.grid, &mut self.rng);
            let ghost carved = self.grid;
            self.grid.flush_render_buffer();
            proof {
                maze::lemma_connected_same_cells(&carved, &self.grid, old(self).board().cols() + 1);
            }
            return;
        } else {
            proof {
                assert(maze_layout(fresh_cells(old(self).board()@.len()), self.grid@));
            }
        }
        self.grid.flush_render_buffer();
    }
}

} // verus!
