use vstd::prelude::*;
use crate::algorithms::{count_unset, lemma_count_unset_all, lemma_count_unset_le, lemma_count_unset_set};
use crate::grid::{Cell, Grid};
use crate::maze::{
    RandomIndex, fill_walls, lemma_carve_connected, lemma_maze_neighbors_two_steps, maze_layout,
    maze_neighbors, open_cells_connected, two_steps, lattice, between_cell, carved_on_lattice,
    lemma_maze_neighbors_lattice, lemma_carve_on_lattice, lemma_lattice_covered, maze_neighbor_list,
    count_open, lattice_flags, between_ends, lemma_count_open_carve, lemma_count_open_none, lemma_maze_neighbors_ends,
};

verus! {

/// A frontier entry `(between, cell)` is two steps from the open cell `from` it was
/// found from.
pub open spec fn frontier_entry_ok(shape: &Grid, cells: Seq<Cell>, from: int, entry: (usize, usize)) -> bool {
    &&& 0 <= from < cells.len()
    &&& !cells[from].is_wall
    &&& two_steps(shape, from, entry.0 as int, entry.1 as int)
    &&& lattice(shape.cols() as int, shape.rows() as int, entry.1 as int)
    &&& between_cell(shape.cols() as int, shape.rows() as int, entry.0 as int)
    &&& lattice(shape.cols() as int, shape.rows() as int, from)
    &&& {
        let (a, b) = between_ends(shape.cols() as int, entry.0 as int);
        (a == from && b == entry.1 as int) || (b == from && a == entry.1 as int)
    }
}

/// Some frontier entry leads to cell `x`.
pub open spec fn has_target(frontier: Seq<(usize, usize)>, x: int) -> bool {
    exists|k: int| 0 <= k < frontier.len() && frontier[k].1 as int == x
}

/// From every lattice cell in the maze other than `except`, each cell two steps away
/// is in the maze, is the target of a frontier entry, or is `pending`.
pub open spec fn prims_closed(
    w: int,
    h: int,
    in_maze: Seq<bool>,
    frontier: Seq<(usize, usize)>,
    except: int,
    pending: int,
) -> bool {
    forall|v: int, j: int|
        lattice(w, h, v) && in_maze[v] && v != except && 0 <= j < maze_neighbor_list(w, h, v).len() ==> {
            let x = (#[trigger] maze_neighbor_list(w, h, v)[j]).0 as int;
            in_maze[x] || has_target(frontier, x) || x == pending
        }
}

/// Appending an entry keeps every target.
proof fn lemma_has_target_push(f: Seq<(usize, usize)>, e: (usize, usize), x: int)
    requires
        has_target(f, x) || e.1 as int == x,
    ensures
        has_target(f.push(e), x),
{
    if e.1 as int == x {
        assert(f.push(e)[f.len() as int] == e);
    } else {
        let k = choose|k: int| 0 <= k < f.len() && f[k].1 as int == x;
        assert(f.push(e)[k] == f[k]);
    }
}

/// Removing an entry for another cell keeps a target.
proof fn lemma_has_target_remove(f: Seq<(usize, usize)>, ix: int, x: int)
    requires
        has_target(f, x),
        0 <= ix < f.len(),
    ensures
        has_target(f.remove(ix), x) || f[ix].1 as int == x,
{
    let k = choose|k: int| 0 <= k < f.len() && f[k].1 as int == x;
    if k < ix {
        assert(f.remove(ix)[k] == f[k]);
    } else if k > ix {
        assert(f.remove(ix)[k - 1] == f[k]);
    }
}

/// Carves a maze by randomised Prim's algorithm over the cells two steps apart, from
/// row 1, column 1: a random `(between, cell)` entry leaves the frontier, and where its
/// cell is not yet in the maze both are carved and the cell's own neighbours outside
/// the maze join the frontier. Every cell ends up a wall of cost 0 or open with cost 1;
/// roles and search marks are kept.
pub fn generate(grid: &mut Grid, rng: &mut RandomIndex)
    requires
        old(grid).wf(),
        old(grid).cols() >= 2,
        old(grid).rows() >= 2,
    ensures
        final(grid).wf(),
        final(grid).cols() == old(grid).cols(),
        final(grid).rows() == old(grid).rows(),
        maze_layout(old(grid)@, final(grid)@),
        !final(grid)@[old(grid).cols() + 1].is_wall,
        open_cells_connected(final(grid), old(grid).cols() + 1),
        carved_on_lattice(old(grid).cols() as int, old(grid).rows() as int, final(grid)@),
        lattice(old(grid).cols() as int, old(grid).rows() as int, old(grid).cols() + 1),
        forall|x: int| lattice(old(grid).cols() as int, old(grid).rows() as int, x) ==> !final(grid)@[x].is_wall,
        count_open(final(grid)@) + 1 == 2 * (old(grid)@.len() - count_unset(lattice_flags(old(grid).cols() as int, old(grid).rows() as int))),
{
    fill_walls(grid);
    let n = grid.size();
    proof {
        assert(grid.cols() + 1 < n) by (nonlinear_arith)
            requires
                n == grid.cols() * grid.rows(),
                grid.cols() >= 2,
                grid.rows() >= 2,
        ;
    }
    let mut in_maze: Vec<bool> = Vec::new();
    let mut i: usize = 0;
    while i < n
        invariant
            i <= n,
            in_maze@ == Seq::new(i as nat, |j: int| false),
        decreases n - i,
    {
        in_maze.push(false);
        i += 1;
        assert(in_maze@ =~= Seq::new(i as nat, |j: int| false));
    }
    let mut frontier: Vec<(usize, usize)> = Vec::new();
    let start = grid.idx(1, 1);
    proof {
        assert(carved_on_lattice(old(grid).cols() as int, old(grid).rows() as int, grid@));
        vstd::arithmetic::div_mod::lemma_fundamental_div_mod_converse(start as int, old(grid).cols() as int, 1, 1);
        assert(lattice(old(grid).cols() as int, old(grid).rows() as int, start as int));
    }
    let ghost pre_start = grid@;
    grid.carve(start);
    proof {
        lemma_carve_on_lattice(old(grid).cols() as int, old(grid).rows() as int, pre_start, grid@, start as int);
        lemma_count_open_none(pre_start);
        lemma_count_open_carve(pre_start, start as int, grid@[start as int]);
        assert(grid@ == pre_start.update(start as int, grid@[start as int]));
        lemma_count_unset_all(n as nat);
        lemma_count_unset_set(in_maze@, start as int);
    }
    in_maze.set(start, true);
    proof {
        assert forall|v: int| #[trigger] grid.is_open(v) implies grid.connected(start as int, v) by {
            assert(v == start);
            assert(grid.is_walk(seq![v]));
            assert(grid.has_walk(start as int, v, 0));
        }
    }
    let first = maze_neighbors(grid, start);
    let ghost mut src: Seq<int> = seq![];
    let ghost shape = *grid;
    proof {
        lemma_maze_neighbors_two_steps(&shape, start as int);
        lemma_maze_neighbors_lattice(old(grid).cols() as int, old(grid).rows() as int, start as int);
        lemma_maze_neighbors_ends(old(grid).cols() as int, old(grid).rows() as int, start as int);
    }
    let mut k: usize = 0;
    while k < first.len()
        invariant
            k <= first@.len(),
            in_maze@.len() == n,
            forall|j: int| 0 <= j < first@.len() ==> (#[trigger] first@[j]).0 < n && first@[j].1 < n,
            forall|j: int| 0 <= j < frontier@.len() ==> (#[trigger] frontier@[j]).0 < n && frontier@[j].1 < n,
            n == shape@.len(),
            forall|j: int|
                0 <= j < first@.len() ==> two_steps(&shape, start as int, (#[trigger] first@[j]).1 as int, first@[j].0 as int),
            forall|j: int|
                0 <= j < first@.len() ==> lattice(old(grid).cols() as int, old(grid).rows() as int, (#[trigger] first@[j]).0 as int) && between_cell(old(grid).cols() as int, old(grid).rows() as int, first@[j].1 as int),
            shape.cols() == old(grid).cols(),
            shape.rows() == old(grid).rows(),
            carved_on_lattice(old(grid).cols() as int, old(grid).rows() as int, grid@),
            src.len() == frontier@.len(),
            grid.is_open(start as int),
            forall|j: int|
                0 <= j < frontier@.len() ==> frontier_entry_ok(&shape, grid@, src[j], #[trigger] frontier@[j]),
forall|j: int|
                0 <= j < first@.len() ==> {
                    let e = #[trigger] first@[j];
                    let (a, b) = between_ends(old(grid).cols() as int, e.1 as int);
                    (a == start as int && b == e.0 as int) || (b == start as int && a == e.0 as int)
                },
            lattice(old(grid).cols() as int, old(grid).rows() as int, start as int),
            first@ == crate::maze::maze_neighbor_list(old(grid).cols() as int, old(grid).rows() as int, start as int),
            forall|v: int| 0 <= v < n && #[trigger] in_maze@[v] ==> !grid@[v].is_wall && lattice(old(grid).cols() as int, old(grid).rows() as int, v),
            in_maze@[start as int],
            count_open(grid@) + 1 == 2 * (n - count_unset(in_maze@)),
            forall|v: int| 0 <= v < n && lattice(old(grid).cols() as int, old(grid).rows() as int, v) && !(#[trigger] grid@[v]).is_wall ==> in_maze@[v],
            forall|v: int|
                0 <= v < n && between_cell(old(grid).cols() as int, old(grid).rows() as int, v) && !(#[trigger] grid@[v]).is_wall ==> 0 <= between_ends(old(grid).cols() as int, v).0 < n
                    && 0 <= between_ends(old(grid).cols() as int, v).1 < n && in_maze@[between_ends(old(grid).cols() as int, v).0] && in_maze@[between_ends(old(grid).cols() as int, v).1],
            prims_closed(old(grid).cols() as int, old(grid).rows() as int, in_maze@, frontier@, start as int, -1),
            forall|j: int| 0 <= j < k ==> in_maze@[(#[trigger] first@[j]).0 as int] || has_target(frontier@, first@[j].0 as int),
        decreases first@.len() - k,
    {
        let (neighbor, wall) = first[k];
        let ghost f1 = frontier@;
        if !in_maze[neighbor] {
            let ghost s1 = src;
            frontier.push((wall, neighbor));
            proof {
                src = src.push(start as int);
                lemma_has_target_push(f1, (wall, neighbor), neighbor as int);
                assert forall|x: int| has_target(f1, x) implies has_target(frontier@, x) by {
                    lemma_has_target_push(f1, (wall, neighbor), x);
                }
                assert forall|j: int| 0 <= j < frontier@.len() implies frontier_entry_ok(&shape, grid@, src[j], #[trigger] frontier@[j]) by {
                    if j < f1.len() {
                        assert(frontier@[j] == f1[j] && src[j] == s1[j]);
                    } else {
                        assert(frontier@[j] == (first@[k as int].1, first@[k as int].0));
                    }
                }
            }
        }
        k += 1;
    }
    proof {
        assert(prims_closed(old(grid).cols() as int, old(grid).rows() as int, in_maze@, frontier@, -1, -1)) by {
            assert forall|v: int, j: int|
                lattice(old(grid).cols() as int, old(grid).rows() as int, v) && in_maze@[v] && v != -1 && 0 <= j < crate::maze::maze_neighbor_list(old(grid).cols() as int, old(grid).rows() as int, v).len() implies {
                    let x = (#[trigger] crate::maze::maze_neighbor_list(old(grid).cols() as int, old(grid).rows() as int, v)[j]).0 as int;
                    in_maze@[x] || has_target(frontier@, x) || x == -1
                } by {
                if v == start {
                    assert(first@[j] == crate::maze::maze_neighbor_list(old(grid).cols() as int, old(grid).rows() as int, v)[j]);
                }
            }
        }
    }
    while frontier.len() > 0
        invariant
            grid.wf(),
            grid.cols() == old(grid).cols(),
            grid.rows() == old(grid).rows(),
            n == grid@.len(),
            n == old(grid)@.len(),
            start == old(grid).cols() + 1,
            start < n,
            in_maze@.len() == n,
            !grid@[start as int].is_wall,
            forall|j: int| 0 <= j < frontier@.len() ==> (#[trigger] frontier@[j]).0 < n && frontier@[j].1 < n,
            maze_layout(old(grid)@, grid@),
            open_cells_connected(grid, start as int),
            carved_on_lattice(old(grid).cols() as int, old(grid).rows() as int, grid@),
            shape@.len() == n,
            shape.cols() == grid.cols(),
            shape.rows() == grid.rows(),
            shape.wf(),
            src.len() == frontier@.len(),
            forall|j: int|
                0 <= j < frontier@.len() ==> frontier_entry_ok(&shape, grid@, src[j], #[trigger] frontier@[j]),
            forall|v: int| 0 <= v < n && #[trigger] in_maze@[v] ==> !grid@[v].is_wall && lattice(old(grid).cols() as int, old(grid).rows() as int, v),
            in_maze@[start as int],
            count_open(grid@) + 1 == 2 * (n - count_unset(in_maze@)),
            forall|v: int| 0 <= v < n && lattice(old(grid).cols() as int, old(grid).rows() as int, v) && !(#[trigger] grid@[v]).is_wall ==> in_maze@[v],
            forall|v: int|
                0 <= v < n && between_cell(old(grid).cols() as int, old(grid).rows() as int, v) && !(#[trigger] grid@[v]).is_wall ==> 0 <= between_ends(old(grid).cols() as int, v).0 < n
                    && 0 <= between_ends(old(grid).cols() as int, v).1 < n && in_maze@[between_ends(old(grid).cols() as int, v).0] && in_maze@[between_ends(old(grid).cols() as int, v).1],
            prims_closed(old(grid).cols() as int, old(grid).rows() as int, in_maze@, frontier@, -1, -1),
        decreases count_unset(in_maze@), frontier@.len(),
    {
        let pick = rng.next_index(frontier.len());
        let ghost f0 = frontier@;
        let ghost s0 = src;
        let (wall, neighbor) = frontier.remove(pick);
        let ghost a = s0[pick as int];
        proof {
            assert(f0[pick as int] == (wall, neighbor));
            assert forall|j: int| 0 <= j < frontier@.len() implies #[trigger] frontier@[j] == f0[if j < pick { j } else { j + 1 }] by {
            }
            src = s0.remove(pick as int);
            assert(frontier_entry_ok(&shape, grid@, a, f0[pick as int]));
            assert forall|j: int| 0 <= j < frontier@.len() implies frontier_entry_ok(&shape, grid@, src[j], #[trigger] frontier@[j]) by {
                let jj = if j < pick { j } else { j + 1 };
                assert(frontier@[j] == f0[jj] && src[j] == s0[jj]);
            }
        }
        proof {
            assert(frontier@ == f0.remove(pick as int));
            assert forall|x: int| has_target(f0, x) implies has_target(frontier@, x) || x == neighbor by {
                lemma_has_target_remove(f0, pick as int, x);
            }
            assert(prims_closed(old(grid).cols() as int, old(grid).rows() as int, in_maze@, frontier@, -1, neighbor as int));
        }
        if in_maze[neighbor] {
            proof {
                assert(prims_closed(old(grid).cols() as int, old(grid).rows() as int, in_maze@, frontier@, -1, -1));
            }
            continue;
        }
        let ghost g0 = *grid;
        proof {
            assert(frontier_entry_ok(&shape, grid@, a, (wall, neighbor)));
            assert(!in_maze@[neighbor as int]);
            assert(grid@[wall as int].is_wall || !grid@[wall as int].is_wall);
            assert(grid@[wall as int].is_wall);
            assert(grid@[neighbor as int].is_wall || !grid@[neighbor as int].is_wall);
            assert(grid@[neighbor as int].is_wall);
        }
        grid.carve(wall);
        let ghost g1 = *grid;
        proof {
            lemma_count_open_carve(g0@, wall as int, g1@[wall as int]);
            assert(g1@ == g0@.update(wall as int, g1@[wall as int]));
        }
        grid.carve(neighbor);
        proof {
            lemma_count_open_carve(g1@, neighbor as int, grid@[neighbor as int]);
            assert(grid@ == g1@.update(neighbor as int, grid@[neighbor as int]));
            assert(two_steps(&g0, a, wall as int, neighbor as int));
            lemma_carve_connected(&g0, &g1, grid, start as int, a, wall as int, neighbor as int);
            lemma_carve_on_lattice(old(grid).cols() as int, old(grid).rows() as int, g0@, g1@, wall as int);
            lemma_carve_on_lattice(old(grid).cols() as int, old(grid).rows() as int, g1@, grid@, neighbor as int);
            assert forall|j: int| 0 <= j < frontier@.len() implies frontier_entry_ok(&shape, grid@, src[j], #[trigger] frontier@[j]) by {
                assert(frontier_entry_ok(&shape, g0@, src[j], frontier@[j]));
            }
        }
        let ghost old_in = in_maze@;
        in_maze.set(neighbor, true);
        proof {
            lemma_count_unset_set(old_in, neighbor as int);
            lemma_count_unset_le(in_maze@);
            assert(in_maze@ == old_in.update(neighbor as int, true));
            assert(lattice(old(grid).cols() as int, old(grid).rows() as int, neighbor as int));
            assert forall|v: int, j: int|
                lattice(old(grid).cols() as int, old(grid).rows() as int, v) && in_maze@[v] && v != neighbor && 0 <= j < crate::maze::maze_neighbor_list(old(grid).cols() as int, old(grid).rows() as int, v).len() implies {
                    let x = (#[trigger] crate::maze::maze_neighbor_list(old(grid).cols() as int, old(grid).rows() as int, v)[j]).0 as int;
                    in_maze@[x] || has_target(frontier@, x) || x == -1
                } by {
                crate::maze::lemma_maze_neighbors_in_range(old(grid).cols() as int, old(grid).rows() as int, v);
                assert(old_in[v]);
            }
            assert forall|v: int| 0 <= v < n && #[trigger] in_maze@[v] implies !grid@[v].is_wall && lattice(old(grid).cols() as int, old(grid).rows() as int, v) by {
                if v != neighbor {
                    assert(old_in[v]);
                    assert(!g0@[v].is_wall);
                }
            }
        }
        let next = maze_neighbors(grid, neighbor);
        proof {
            lemma_maze_neighbors_two_steps(&shape, neighbor as int);
            lemma_maze_neighbors_lattice(old(grid).cols() as int, old(grid).rows() as int, neighbor as int);
            lemma_maze_neighbors_ends(old(grid).cols() as int, old(grid).rows() as int, neighbor as int);
        }
        let mut k: usize = 0;
        while k < next.len()
            invariant
                k <= next@.len(),
                in_maze@.len() == n,
                forall|j: int| 0 <= j < next@.len() ==> (#[trigger] next@[j]).0 < n && next@[j].1 < n,
                forall|j: int| 0 <= j < frontier@.len() ==> (#[trigger] frontier@[j]).0 < n && frontier@[j].1 < n,
                n == shape@.len(),
                forall|j: int|
                    0 <= j < next@.len() ==> two_steps(&shape, neighbor as int, (#[trigger] next@[j]).1 as int, next@[j].0 as int),
                forall|j: int|
                    0 <= j < next@.len() ==> lattice(old(grid).cols() as int, old(grid).rows() as int, (#[trigger] next@[j]).0 as int) && between_cell(old(grid).cols() as int, old(grid).rows() as int, next@[j].1 as int),
                shape.cols() == old(grid).cols(),
                shape.rows() == old(grid).rows(),
                grid.is_open(neighbor as int),
                neighbor < n,
                src.len() == frontier@.len(),
                forall|j: int|
                    0 <= j < frontier@.len() ==> frontier_entry_ok(&shape, grid@, src[j], #[trigger] frontier@[j]),
forall|j: int|
                    0 <= j < next@.len() ==> {
                        let e = #[trigger] next@[j];
                        let (a, b) = between_ends(old(grid).cols() as int, e.1 as int);
                        (a == neighbor as int && b == e.0 as int) || (b == neighbor as int && a == e.0 as int)
                    },
                lattice(old(grid).cols() as int, old(grid).rows() as int, neighbor as int),
                next@ == crate::maze::maze_neighbor_list(old(grid).cols() as int, old(grid).rows() as int, neighbor as int),
                in_maze@[neighbor as int],
                prims_closed(old(grid).cols() as int, old(grid).rows() as int, in_maze@, frontier@, neighbor as int, -1),
                forall|j: int| 0 <= j < k ==> in_maze@[(#[trigger] next@[j]).0 as int] || has_target(frontier@, next@[j].0 as int),
            decreases next@.len() - k,
        {
            let (next_neighbor, next_wall) = next[k];
            let ghost f1 = frontier@;
            if !in_maze[next_neighbor] {
                let ghost s1 = src;
                frontier.push((next_wall, next_neighbor));
                proof {
                    src = src.push(neighbor as int);
                    lemma_has_target_push(f1, (next_wall, next_neighbor), next_neighbor as int);
                    assert forall|x: int| has_target(f1, x) implies has_target(frontier@, x) by {
                        lemma_has_target_push(f1, (next_wall, next_neighbor), x);
                    }
                    assert forall|j: int| 0 <= j < frontier@.len() implies frontier_entry_ok(&shape, grid@, src[j], #[trigger] frontier@[j]) by {
                        if j < f1.len() {
                            assert(frontier@[j] == f1[j] && src[j] == s1[j]);
                        } else {
                            assert(frontier@[j] == (next@[k as int].1, next@[k as int].0));
                        }
                    }
                }
            }
            k += 1;
        }
        proof {
            assert forall|v: int, j: int|
                lattice(old(grid).cols() as int, old(grid).rows() as int, v) && in_maze@[v] && v != -1 && 0 <= j < crate::maze::maze_neighbor_list(old(grid).cols() as int, old(grid).rows() as int, v).len() implies {
                    let x = (#[trigger] crate::maze::maze_neighbor_list(old(grid).cols() as int, old(grid).rows() as int, v)[j]).0 as int;
                    in_maze@[x] || has_target(frontier@, x) || x == -1
                } by {
                if v == neighbor {
                    assert(next@[j] == crate::maze::maze_neighbor_list(old(grid).cols() as int, old(grid).rows() as int, v)[j]);
                }
            }
        }
    }
    proof {
        assert forall|v: int, j: int|
            lattice(old(grid).cols() as int, old(grid).rows() as int, v) && in_maze@[v] && 0 <= j < crate::maze::maze_neighbor_list(old(grid).cols() as int, old(grid).rows() as int, v).len() implies in_maze@[(#[trigger] crate::maze::maze_neighbor_list(old(grid).cols() as int, old(grid).rows() as int, v)[j]).0 as int] by {
        }
        assert forall|x: int| lattice(old(grid).cols() as int, old(grid).rows() as int, x) implies !grid@[x].is_wall by {
            lemma_lattice_covered(old(grid).cols() as int, old(grid).rows() as int, in_maze@, x);
        }
        assert forall|x: int| 0 <= x < n implies in_maze@[x] == lattice_flags(old(grid).cols() as int, old(grid).rows() as int)[x] by {
            if lattice(old(grid).cols() as int, old(grid).rows() as int, x) {
                lemma_lattice_covered(old(grid).cols() as int, old(grid).rows() as int, in_maze@, x);
            }
        }
        assert(in_maze@ =~= lattice_flags(old(grid).cols() as int, old(grid).rows() as int));
    }
}

} // verus!
