use algo_lab::algorithms::{astar, bfs, dfs, dijkstra, reconstruct_path, NO_PARENT};
use algo_lab::algorithms::astar::manhattan;
use algo_lab::grid::{Grid, COST_MUD, COST_WATER};
use algo_lab::stats::Stats;

fn grid_with(width: usize, height: usize, start: usize, end: usize) -> Grid {
    let mut g = Grid::new(width, height);
    g.set_start(start);
    g.set_end(end);
    g
}

fn run_all(g: &Grid, w: usize, h: usize) -> Vec<(Stats, Vec<bool>)> {
    let runs: [fn(&mut Grid) -> Stats; 4] = [bfs::run, dfs::run, dijkstra::run, astar::run];
    runs.iter()
        .map(|f| {
            let mut copy = Grid::new(w, h);
            for i in 0..g.size() {
                let c = g.cell(i);
                copy.set_wall(i, c.is_wall);
                copy.set_terrain(i, c.cost);
                if c.is_start {
                    copy.set_start(i);
                }
                if c.is_end {
                    copy.set_end(i);
                }
            }
            let s = f(&mut copy);
            let paths = (0..copy.size()).map(|i| copy.cell(i).is_path).collect();
            (s, paths)
        })
        .collect()
}

fn path_cost(g: &Grid) -> u32 {
    (0..g.size())
        .filter(|&i| g.cell(i).is_path && !g.cell(i).is_start || g.cell(i).is_end)
        .map(|i| g.cell(i).cost as u32)
        .sum()
}

#[test]
fn bfs_five_by_five_open() {
    let mut g = grid_with(5, 5, 0, 24);
    let s = bfs::run(&mut g);
    assert_eq!(s.path_length, 8);
    assert!(s.path_found);
}

#[test]
fn bfs_wall_column_goes_through_bottom_row() {
    let mut g = grid_with(5, 5, 0, 24);
    for row in 0..4 {
        let i = g.idx(row, 2);
        g.set_wall(i, true);
    }
    let s = bfs::run(&mut g);
    assert!(s.path_found);
    assert_eq!(s.path_length, 8);
    assert!(g.cell(g.idx(4, 2)).is_path);
}

#[test]
fn bfs_detour_around_a_wall() {
    let mut g = grid_with(5, 5, 0, 4);
    for row in 0..4 {
        let i = g.idx(row, 2);
        g.set_wall(i, true);
    }
    let s = bfs::run(&mut g);
    assert_eq!(s.path_length, 12);
    assert!(g.cell(g.idx(4, 2)).is_path);
}

#[test]
fn bfs_open_grids_match_manhattan() {
    for (w, h) in [(1usize, 1usize), (3, 4), (6, 2), (7, 7)] {
        for start in 0..w * h {
            for end in [0, w * h - 1, (w * h) / 2] {
                let mut g = grid_with(w, h, start, end);
                let s = bfs::run(&mut g);
                assert_eq!(s.path_length, manhattan(start, end, w));
            }
        }
    }
}

#[test]
fn single_cell_start_is_end() {
    let g = grid_with(1, 1, 0, 0);
    for (s, paths) in run_all(&g, 1, 1) {
        assert_eq!(s.path_length, 0);
        assert!(!s.path_found);
        assert!(s.nodes_explored >= 1);
        assert!(!paths[0]);
    }
}

#[test]
fn disconnected_start_and_end() {
    let mut g = grid_with(5, 3, 0, 14);
    for row in 0..3 {
        let i = g.idx(row, 2);
        g.set_wall(i, true);
    }
    for (s, paths) in run_all(&g, 5, 3) {
        assert_eq!(s.path_length, 0);
        assert!(!s.path_found);
        assert!(s.nodes_explored >= 1);
        assert!(paths.iter().all(|p| !p));
    }
}

#[test]
fn missing_start_or_end_gives_zero_stats() {
    let mut only_end = Grid::new(3, 3);
    only_end.set_end(8);
    let mut only_start = Grid::new(3, 3);
    only_start.set_start(0);
    for g in [only_end, only_start] {
        for (s, paths) in run_all(&g, 3, 3) {
            assert_eq!(s, Stats::default());
            assert!(paths.iter().all(|p| !p));
        }
    }
}

#[test]
fn start_is_never_marked_visited() {
    let g = grid_with(4, 4, 5, 15);
    let runs: [fn(&mut Grid) -> Stats; 4] = [bfs::run, dfs::run, dijkstra::run, astar::run];
    for f in runs {
        let mut copy = grid_with(4, 4, 5, 15);
        let s = f(&mut copy);
        assert!(s.path_found);
        assert!(!copy.cell(5).is_visited);
        assert!(!copy.cell(15).is_path);
        assert!((0..16).any(|i| copy.cell(i).is_visited));
    }
    assert!(!g.cell(5).is_visited);
}

#[test]
fn dfs_follows_last_pushed_neighbour() {
    let mut g = grid_with(3, 3, 4, 8);
    let s = dfs::run(&mut g);
    assert!(s.path_found);
    assert_eq!(s.nodes_explored, 3);
    assert_eq!(s.path_length, 2);
    assert!(g.cell(5).is_visited && g.cell(5).is_path);
    assert!(!g.cell(1).is_visited && !g.cell(7).is_visited);
}

#[test]
fn dijkstra_goes_around_water() {
    let mut g = grid_with(3, 3, 0, 2);
    g.set_terrain(1, COST_WATER);
    let s = dijkstra::run(&mut g);
    assert!(s.path_found);
    assert_eq!(s.path_length, 4);
    assert!(!g.cell(1).is_path);
    assert_eq!(path_cost(&g), 4);
}

#[test]
fn dijkstra_and_astar_agree_on_cost() {
    let mut base = grid_with(6, 5, 0, 29);
    base.set_terrain(7, COST_MUD);
    base.set_terrain(8, COST_WATER);
    base.set_terrain(14, COST_WATER);
    base.set_terrain(20, COST_MUD);
    base.set_wall(9, true);
    base.set_wall(21, true);
    let mut d = grid_with(6, 5, 0, 29);
    let mut a = grid_with(6, 5, 0, 29);
    for i in 0..30 {
        let c = base.cell(i);
        for g in [&mut d, &mut a] {
            g.set_wall(i, c.is_wall);
            g.set_terrain(i, c.cost);
        }
    }
    let sd = dijkstra::run(&mut d);
    let sa = astar::run(&mut a);
    assert!(sd.path_found && sa.path_found);
    assert_eq!(path_cost(&d), path_cost(&a));
    assert!(sa.nodes_explored <= sd.nodes_explored);
}

#[test]
fn manhattan_values() {
    assert_eq!(manhattan(0, 24, 5), 8);
    assert_eq!(manhattan(24, 0, 5), 8);
    assert_eq!(manhattan(7, 7, 5), 0);
    assert_eq!(manhattan(3, 15, 5), 3 + 3);
    assert_eq!(manhattan(4, 20, 5), 4 + 4);
}

#[test]
fn reconstruct_walks_the_parents() {
    let mut g = grid_with(3, 1, 0, 2);
    let parent = vec![NO_PARENT, 0, 1];
    assert_eq!(reconstruct_path(&mut g, &parent, 0, 2), 2);
    assert!(g.cell(1).is_path);
    assert!(g.cell(0).is_path == false);
    assert!(!g.cell(2).is_path);
}

#[test]
fn reconstruct_without_parent_marks_nothing() {
    let mut g = grid_with(3, 1, 0, 2);
    let parent = vec![NO_PARENT, 0, NO_PARENT];
    assert_eq!(reconstruct_path(&mut g, &parent, 0, 2), 0);
    assert!((0..3).all(|i| !g.cell(i).is_path));
    assert_eq!(reconstruct_path(&mut g, &parent, 1, 1), 0);
    assert!((0..3).all(|i| !g.cell(i).is_path));
}

#[test]
fn reconstruct_broken_chain_is_zero() {
    let mut g = grid_with(4, 1, 0, 3);
    let broken = vec![NO_PARENT, NO_PARENT, 1, 2];
    assert_eq!(reconstruct_path(&mut g, &broken, 0, 3), 0);
    let mut h = grid_with(4, 1, 0, 3);
    let cyclic = vec![NO_PARENT, 2, 1, 2];
    assert_eq!(reconstruct_path(&mut h, &cyclic, 0, 3), 0);
    let mut k = grid_with(4, 1, 0, 3);
    let off_grid = vec![NO_PARENT, 0, 9, 2];
    assert_eq!(reconstruct_path(&mut k, &off_grid, 0, 3), 0);
}
