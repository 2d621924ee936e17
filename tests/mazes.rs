use algo_lab::grid::{Grid, COST_MUD};
use algo_lab::maze::{prims, recursive_backtracker, RandomIndex};
use algo_lab::{AlgoLab, DEFAULT_SEED};

fn open_cells(g: &Grid) -> Vec<usize> {
    (0..g.size()).filter(|&i| !g.cell(i).is_wall).collect()
}

fn reachable_from(g: &Grid, from: usize) -> Vec<bool> {
    let mut seen = vec![false; g.size()];
    let mut queue = vec![from];
    seen[from] = true;
    let mut head = 0;
    while head < queue.len() {
        let c = queue[head];
        head += 1;
        for nb in g.neighbors(c) {
            if !seen[nb] {
                seen[nb] = true;
                queue.push(nb);
            }
        }
    }
    seen
}

fn check_perfect_maze(g: &Grid, w: usize, h: usize) {
    let origin = g.idx(1, 1);
    assert!(!g.cell(origin).is_wall);
    for i in 0..g.size() {
        let c = g.cell(i);
        if c.is_wall {
            assert_eq!(c.cost, 0);
        } else {
            assert_eq!(c.cost, 1);
        }
    }
    let seen = reachable_from(g, origin);
    for i in open_cells(g) {
        assert!(seen[i], "cell {} is cut off", i);
    }
    // An odd-sized grid has ((w - 1) / 2) * ((h - 1) / 2) lattice cells; a tree over them
    // opens one passage fewer than it has cells.
    let lattice = ((w - 1) / 2) * ((h - 1) / 2);
    assert_eq!(open_cells(g).len(), 2 * lattice - 1);
}

#[test]
fn backtracker_carves_a_perfect_maze() {
    for seed in [1u64, 7, 12345] {
        let mut g = Grid::new(11, 9);
        let mut rng = RandomIndex::new(seed);
        recursive_backtracker::generate(&mut g, &mut rng);
        check_perfect_maze(&g, 11, 9);
    }
}

#[test]
fn prims_carves_a_perfect_maze() {
    for seed in [1u64, 7, 12345] {
        let mut g = Grid::new(11, 9);
        let mut rng = RandomIndex::new(seed);
        prims::generate(&mut g, &mut rng);
        check_perfect_maze(&g, 11, 9);
    }
}

#[test]
fn mazes_keep_roles() {
    let mut g = Grid::new(7, 7);
    g.set_start(8);
    g.set_end(40);
    g.set_terrain(10, COST_MUD);
    let mut rng = RandomIndex::new(3);
    prims::generate(&mut g, &mut rng);
    assert!(g.cell(8).is_start);
    assert!(g.cell(40).is_end);
    assert!(g.cell(10).cost <= 1);
}

#[test]
fn same_seed_same_maze() {
    let mut a = Grid::new(15, 11);
    let mut b = Grid::new(15, 11);
    recursive_backtracker::generate(&mut a, &mut RandomIndex::new(99));
    recursive_backtracker::generate(&mut b, &mut RandomIndex::new(99));
    assert_eq!(open_cells(&a), open_cells(&b));
}

#[test]
fn random_index_stays_below_len() {
    let mut rng = RandomIndex::new(0);
    for len in 1..50usize {
        for _ in 0..20 {
            assert!(rng.next_index(len) < len);
        }
    }
    let mut x = RandomIndex::new(5);
    let mut y = RandomIndex::new(5);
    for _ in 0..10 {
        assert_eq!(x.next_index(1000), y.next_index(1000));
    }
}

#[test]
fn lab_runs_and_reports() {
    let mut lab = AlgoLab::new(5, 5);
    lab.set_start(0);
    lab.set_end(24);
    let r = lab.run_bfs();
    assert_eq!(r.path_length(), 8);
    assert!(r.path_found());
    assert!(r.nodes_explored() >= 1);
    let r2 = lab.run_dfs();
    assert!(r2.path_found());
    let r3 = lab.run_dijkstra();
    assert_eq!(r3.path_length(), 8);
    let r4 = lab.run_astar();
    assert_eq!(r4.path_length(), 8);
    assert!(r4.nodes_explored() <= r3.nodes_explored());
    assert_eq!(lab.render_buffer_len(), 25);
    assert_eq!(lab.render_buffer()[0], 2);
    assert_eq!(lab.render_buffer()[24], 3);
    assert_eq!(lab.render_buffer().iter().filter(|&&b| b == 5).count(), 7);
    lab.reset_search();
    assert!(lab.render_buffer().iter().all(|&b| b == 0 || b == 2 || b == 3));
}

#[test]
fn lab_mazes_and_reset() {
    let mut lab = AlgoLab::new(11, 11);
    lab.set_seed(DEFAULT_SEED);
    lab.generate_maze_backtracker();
    check_perfect_maze(lab.grid(), 11, 11);
    lab.generate_maze_prims();
    check_perfect_maze(lab.grid(), 11, 11);
    lab.reset_all();
    assert!(lab.render_buffer().iter().all(|&b| b == 0));
    let mut tiny = AlgoLab::new(1, 3);
    tiny.generate_maze_prims();
    assert!(tiny.render_buffer().iter().all(|&b| b == 0));
}

#[test]
fn random_index_follows_xorshift() {
    let mut rng = RandomIndex::new(1);
    let mut x: u64 = 1;
    x ^= x << 13;
    x ^= x >> 7;
    x ^= x << 17;
    assert_eq!(rng.next_index(1000) as u64, x % 1000);
}
