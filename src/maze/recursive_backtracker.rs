use vstd::prelude::*;
use crate::algorithms::{count_unset, lemma_count_unset_all, lemma_count_unset_le, lemma_count_unset_set};
use crate::grid::Grid;
use crate::maze::{
    RandomIndex, fill_walls, lemma_carve_connected, lemma_maze_neighbors_two_steps, maze_layout,
    maze_neighbors, open_cells_connected, two_steps, lattice, between_cell, carved_on_lattice,
    lemma_maze_neighbors_lattice, lemma_carve_on_lattice, lemma_lattice_covered, count_open, lattice_flags,
    between_ends, lemma_count_open_carve, lemma_count_open_none, lemma_maze_neighbors_ends,
};

verus! {

/// Carves a maze by depth-first search over the cells two steps apart, from row 1,
/// column 1: the cell on top of the stack carves through to a random neighbour not yet
/// carved and pushes it, or is popped when it has none. Every cell ends up a wall of
/// cost 0 or open with cost 1; roles and search marks are kept.
pub fn generate(grid: &mut Grid, rng: &mut RandomIndex)
    requires
        old(grid).wf(),
        old(grid).cols() >= 2,
        old(grid).rows() >= 2,
    ensures
        final(grid).wf(),
        final(grid).cols() == old(grid).cols(),
        final(grid).rows() == old(grid).rows(),
        maze_layout(old(grid)@, final(grid)@),
        !final(grid)@[old(grid).cols() + 1].is_wall,
        open_cells_connected(final(grid), old(grid).cols() + 1),
        carved_on_lattice(old(grid).cols() as int, old(grid).rows() as int, final(grid)@),
        lattice(old(grid).cols() as int, old(grid).rows() as int, old(grid).cols() + 1),
        forall|x: int| lattice(old(grid).cols() as int, old(grid).rows() as int, x) ==> !final(grid)@[x].is_wall,
        count_open(final(grid)@) + 1 == 2 * (old(grid)@.len() - count_unset(lattice_flags(old(grid).cols() as int, old(grid).rows() as int))),
{
    fill_walls(grid);
    let n = grid.size();
    proof {
        assert(grid.cols() + 1 < n) by (nonlinear_arith)
            requires
                n == grid.cols() * grid.rows(),
                grid.cols() >= 2,
                grid.rows() >= 2,
        ;
    }
    let mut visited: Vec<bool> = Vec::new();
    let mut i: usize = 0;
    while i < n
        invariant
            i <= n,
            visited@ == Seq::new(i as nat, |j: int| false),
        decreases n - i,
    {
        visited.push(false);
        i += 1;
        assert(visited@ =~= Seq::new(i as nat, |j: int| false));
    }
    let start = grid.idx(1, 1);
    visited.set(start, true);
    proof {
        assert(carved_on_lattice(old(grid).cols() as int, old(grid).rows() as int, grid@));
        vstd::arithmetic::div_mod::lemma_fundamental_div_mod_converse(start as int, old(grid).cols() as int, 1, 1);
        assert(lattice(old(grid).cols() as int, old(grid).rows() as int, start as int));
    }
    let ghost pre_start = grid@;
    proof {
        lemma_count_open_none(pre_start);
        lemma_count_unset_all(n as nat);
        lemma_count_unset_set(Seq::new(n as nat, |j: int| false), start as int);
        assert(visited@ == Seq::new(n as nat, |j: int| false).update(start as int, true));
    }
    grid.carve(start);
    proof {
        lemma_carve_on_lattice(old(grid).cols() as int, old(grid).rows() as int, pre_start, grid@, start as int);
        lemma_count_open_carve(pre_start, start as int, grid@[start as int]);
        assert(grid@ == pre_start.update(start as int, grid@[start as int]));
    }
    proof {
        assert forall|v: int| #[trigger] grid.is_open(v) implies grid.connected(start as int, v) by {
            assert(v == start);
            assert(grid.is_walk(seq![v]));
            assert(grid.has_walk(start as int, v, 0));
        }
    }
    let mut stack: Vec<usize> = Vec::new();
    stack.push(start);
    proof {
        assert(stack@[0] == start);
        assert(stack@.contains(start));
        assert forall|v: int| 0 <= v < n && #[trigger] visited@[v] implies v == start by {}
    }
    while stack.len() > 0
        invariant
            grid.wf(),
            grid.cols() == old(grid).cols(),
            grid.rows() == old(grid).rows(),
            n == grid@.len(),
            n == old(grid)@.len(),
            start == old(grid).cols() + 1,
            start < n,
            visited@.len() == n,
            !grid@[start as int].is_wall,
            forall|k: int| 0 <= k < stack@.len() ==> #[trigger] stack@[k] < n && grid.is_open(stack@[k] as int)
                && lattice(old(grid).cols() as int, old(grid).rows() as int, stack@[k] as int),
            carved_on_lattice(old(grid).cols() as int, old(grid).rows() as int, grid@),
            maze_layout(old(grid)@, grid@),
            open_cells_connected(grid, start as int),
            visited@[start as int],
            count_open(grid@) + 1 == 2 * (n - count_unset(visited@)),
            forall|v: int| 0 <= v < n && lattice(old(grid).cols() as int, old(grid).rows() as int, v) && !(#[trigger] grid@[v]).is_wall ==> visited@[v],
            forall|v: int|
                0 <= v < n && between_cell(old(grid).cols() as int, old(grid).rows() as int, v) && !(#[trigger] grid@[v]).is_wall ==> 0 <= between_ends(old(grid).cols() as int, v).0 < n
                    && 0 <= between_ends(old(grid).cols() as int, v).1 < n && visited@[between_ends(old(grid).cols() as int, v).0] && visited@[between_ends(old(grid).cols() as int, v).1],
            forall|v: int| 0 <= v < n && #[trigger] visited@[v] ==> !grid@[v].is_wall && lattice(old(grid).cols() as int, old(grid).rows() as int, v),
            forall|v: int, j: int|
                lattice(old(grid).cols() as int, old(grid).rows() as int, v) && visited@[v] && 0 <= j < crate::maze::maze_neighbor_list(old(grid).cols() as int, old(grid).rows() as int, v).len() ==> visited@[(#[trigger] crate::maze::maze_neighbor_list(old(grid).cols() as int, old(grid).rows() as int, v)[j]).0 as int]
                    || stack@.contains(v as usize),
        decreases count_unset(visited@), stack@.len(),
    {
        let current = stack[stack.len() - 1];
        let nbs = maze_neighbors(grid, current);
        proof {
            lemma_maze_neighbors_two_steps(grid, current as int);
            assert(lattice(old(grid).cols() as int, old(grid).rows() as int, stack@[stack@.len() - 1] as int));
            lemma_maze_neighbors_lattice(old(grid).cols() as int, old(grid).rows() as int, current as int);
            lemma_maze_neighbors_ends(old(grid).cols() as int, old(grid).rows() as int, current as int);
        }
        let mut unvisited: Vec<(usize, usize)> = Vec::new();
        let mut k: usize = 0;
        while k < nbs.len()
            invariant
                k <= nbs@.len(),
                visited@.len() == n,
                grid.cols() == old(grid).cols(),
                grid.rows() == old(grid).rows(),
                unvisited@.len() == 0 ==> forall|j: int| 0 <= j < k ==> visited@[(#[trigger] nbs@[j]).0 as int],
                forall|j: int|
                    0 <= j < nbs@.len() ==> {
                        let e = #[trigger] nbs@[j];
                        let (a, b) = between_ends(old(grid).cols() as int, e.1 as int);
                        (a == current && b == e.0 as int) || (b == current && a == e.0 as int)
                    },
                forall|j: int|
                    0 <= j < unvisited@.len() ==> {
                        let e = #[trigger] unvisited@[j];
                        let (a, b) = between_ends(old(grid).cols() as int, e.1 as int);
                        (a == current && b == e.0 as int) || (b == current && a == e.0 as int)
                    },

                forall|j: int| 0 <= j < nbs@.len() ==> (#[trigger] nbs@[j]).0 < n && nbs@[j].1 < n,
                forall|j: int|
                    0 <= j < unvisited@.len() ==> (#[trigger] unvisited@[j]).0 < n && unvisited@[j].1 < n
                        && !visited@[unvisited@[j].0 as int],
                nbs@ == crate::maze::maze_neighbor_list(grid.cols() as int, grid.rows() as int, current as int),
                forall|j: int|
                    0 <= j < nbs@.len() ==> two_steps(grid, current as int, (#[trigger] nbs@[j]).1 as int, nbs@[j].0 as int),
                forall|j: int|
                    0 <= j < unvisited@.len() ==> two_steps(grid, current as int, (#[trigger] unvisited@[j]).1 as int, unvisited@[j].0 as int),
                forall|j: int|
                    0 <= j < nbs@.len() ==> lattice(old(grid).cols() as int, old(grid).rows() as int, (#[trigger] nbs@[j]).0 as int) && between_cell(old(grid).cols() as int, old(grid).rows() as int, nbs@[j].1 as int),
                forall|j: int|
                    0 <= j < unvisited@.len() ==> lattice(old(grid).cols() as int, old(grid).rows() as int, (#[trigger] unvisited@[j]).0 as int) && between_cell(old(grid).cols() as int, old(grid).rows() as int, unvisited@[j].1 as int),
            decreases nbs@.len() - k,
        {
            let (neighbor, wall) = nbs[k];
            if !visited[neighbor] {
                unvisited.push((neighbor, wall));
            }
            k += 1;
        }
        if unvisited.len() == 0 {
            let ghost s0 = stack@;
            stack.pop();
            proof {
                assert(stack@ =~= s0.drop_last());
                assert forall|v: int, j: int|
                    lattice(old(grid).cols() as int, old(grid).rows() as int, v) && visited@[v] && 0 <= j < crate::maze::maze_neighbor_list(old(grid).cols() as int, old(grid).rows() as int, v).len() implies visited@[(#[trigger] crate::maze::maze_neighbor_list(old(grid).cols() as int, old(grid).rows() as int, v)[j]).0 as int]
                        || stack@.contains(v as usize) by {
                    if v == current {
                        assert(nbs@[j] == crate::maze::maze_neighbor_list(old(grid).cols() as int, old(grid).rows() as int, v)[j]);
                    } else if !visited@[crate::maze::maze_neighbor_list(old(grid).cols() as int, old(grid).rows() as int, v)[j].0 as int] {
                        assert(s0.contains(v as usize));
                        let i = choose|i: int| 0 <= i < s0.len() && s0[i] == v as usize;
                        assert(i != s0.len() - 1);
                        assert(stack@[i] == v as usize);
                    }
                }
            }
        } else {
            let pick = rng.next_index(unvisited.len());
            let (neighbor, wall_between) = unvisited[pick];
            let ghost g0 = *grid;
            proof {
                assert(two_steps(grid, current as int, unvisited@[pick as int].1 as int, unvisited@[pick as int].0 as int));
                assert(grid.is_open(stack@[stack@.len() - 1] as int));
            }
            proof {
                assert(lattice(old(grid).cols() as int, old(grid).rows() as int, unvisited@[pick as int].0 as int) && between_cell(old(grid).cols() as int, old(grid).rows() as int, unvisited@[pick as int].1 as int));
            }
            proof {
                let e = unvisited@[pick as int];
                assert(between_cell(old(grid).cols() as int, old(grid).rows() as int, wall_between as int));
                assert((between_ends(old(grid).cols() as int, wall_between as int).0 == current && between_ends(old(grid).cols() as int, wall_between as int).1 == neighbor)
                    || (between_ends(old(grid).cols() as int, wall_between as int).1 == current && between_ends(old(grid).cols() as int, wall_between as int).0 == neighbor));
                assert(!visited@[neighbor as int]);
                assert(grid@[wall_between as int].is_wall || !grid@[wall_between as int].is_wall);
                assert(grid@[wall_between as int].is_wall);
                assert(grid@[neighbor as int].is_wall || !grid@[neighbor as int].is_wall);
                assert(grid@[neighbor as int].is_wall);
            }
            grid.carve(wall_between);
            let ghost g1 = *grid;
            proof {
                lemma_count_open_carve(g0@, wall_between as int, g1@[wall_between as int]);
                assert(g1@ == g0@.update(wall_between as int, g1@[wall_between as int]));
            }
            grid.carve(neighbor);
            proof {
                lemma_count_open_carve(g1@, neighbor as int, grid@[neighbor as int]);
                assert(grid@ == g1@.update(neighbor as int, grid@[neighbor as int]));
                lemma_carve_on_lattice(old(grid).cols() as int, old(grid).rows() as int, g0@, g1@, wall_between as int);
                lemma_carve_on_lattice(old(grid).cols() as int, old(grid).rows() as int, g1@, grid@, neighbor as int);
                lemma_carve_connected(&g0, &g1, grid, start as int, current as int, wall_between as int, neighbor as int);
            }
            let ghost old_visited = visited@;
            visited.set(neighbor, true);
            proof {
                lemma_count_unset_set(old_visited, neighbor as int);
                lemma_count_unset_le(visited@);
            }
            let ghost s1 = stack@;
            stack.push(neighbor);
            proof {
                assert(visited@ == old_visited.update(neighbor as int, true));
                assert(stack@ =~= s1.push(neighbor));
                assert(stack@[s1.len() as int] == neighbor);
                assert forall|x: usize| s1.contains(x) implies stack@.contains(x) by {
                    let i = choose|i: int| 0 <= i < s1.len() && s1[i] == x;
                    assert(stack@[i] == x);
                }
                assert forall|v: int, j: int|
                    lattice(old(grid).cols() as int, old(grid).rows() as int, v) && visited@[v] && 0 <= j < crate::maze::maze_neighbor_list(old(grid).cols() as int, old(grid).rows() as int, v).len() implies visited@[(#[trigger] crate::maze::maze_neighbor_list(old(grid).cols() as int, old(grid).rows() as int, v)[j]).0 as int]
                        || stack@.contains(v as usize) by {
                    if v == neighbor {
                        assert(stack@[s1.len() as int] == v as usize);
                    } else {
                        assert(old_visited[v]);
                        assert(old_visited[crate::maze::maze_neighbor_list(old(grid).cols() as int, old(grid).rows() as int, v)[j].0 as int] || s1.contains(v as usize));
                        let e = crate::maze::maze_neighbor_list(old(grid).cols() as int, old(grid).rows() as int, v)[j].0 as int;
                        crate::maze::lemma_maze_neighbors_in_range(old(grid).cols() as int, old(grid).rows() as int, v);
                        assert(0 <= e < n);
                        if !old_visited[e] {
                            assert(s1.contains(v as usize));
                            assert(stack@.contains(v as usize));
                        } else {
                            assert(visited@[e]);
                        }
                    }
                }
                assert forall|v: int| 0 <= v < n && #[trigger] visited@[v] implies !grid@[v].is_wall && lattice(old(grid).cols() as int, old(grid).rows() as int, v) by {
                    if v != neighbor {
                        assert(old_visited[v]);
                    }
                }
            }
        }
    }
    proof {
        assert forall|v: int, j: int|
            lattice(old(grid).cols() as int, old(grid).rows() as int, v) && visited@[v] && 0 <= j < crate::maze::maze_neighbor_list(old(grid).cols() as int, old(grid).rows() as int, v).len() implies visited@[(#[trigger] crate::maze::maze_neighbor_list(old(grid).cols() as int, old(grid).rows() as int, v)[j]).0 as int] by {
            if !visited@[crate::maze::maze_neighbor_list(old(grid).cols() as int, old(grid).rows() as int, v)[j].0 as int] {
                assert(stack@.contains(v as usize));
            }
        }
        assert forall|x: int| lattice(old(grid).cols() as int, old(grid).rows() as int, x) implies !grid@[x].is_wall by {
            lemma_lattice_covered(old(grid).cols() as int, old(grid).rows() as int, visited@, x);
        }
        assert forall|x: int| 0 <= x < n implies visited@[x] == lattice_flags(old(grid).cols() as int, old(grid).rows() as int)[x] by {
            if lattice(old(grid).cols() as int, old(grid).rows() as int, x) {
                lemma_lattice_covered(old(grid).cols() as int, old(grid).rows() as int, visited@, x);
            }
        }
        assert(visited@ =~= lattice_flags(old(grid).cols() as int, old(grid).rows() as int));
    }
}

} // verus!
