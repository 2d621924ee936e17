use algo_lab::grid::{Cell, Grid, COST_MUD, COST_NORMAL, COST_WATER};

fn all_cells(g: &Grid) -> Vec<Cell> {
    (0..g.size()).map(|i| g.cell(i)).collect()
}

#[test]
fn new_grid_is_fresh() {
    let g = Grid::new(4, 3);
    assert_eq!(g.width(), 4);
    assert_eq!(g.height(), 3);
    assert_eq!(g.size(), 12);
    assert_eq!(g.render_buffer_len(), 12);
    for c in all_cells(&g) {
        assert_eq!(c, Cell::new());
        assert_eq!(c.cost, COST_NORMAL);
        assert!(!c.is_wall && !c.is_start && !c.is_end && !c.is_visited && !c.is_path);
    }
}

#[test]
fn idx_is_row_major() {
    let g = Grid::new(7, 5);
    assert_eq!(g.idx(0, 0), 0);
    assert_eq!(g.idx(2, 3), 17);
    assert_eq!(g.idx(4, 6), 34);
}

#[test]
fn set_wall_forces_cost_and_restores_it() {
    let mut g = Grid::new(3, 3);
    g.set_terrain(4, COST_WATER);
    g.set_wall(4, true);
    assert!(g.cell(4).is_wall);
    assert_eq!(g.cell(4).cost, 0);
    g.set_wall(4, false);
    assert!(!g.cell(4).is_wall);
    assert_eq!(g.cell(4).cost, 1);
}

#[test]
fn set_terrain_skips_walls_and_zero() {
    let mut g = Grid::new(3, 3);
    g.set_terrain(1, COST_MUD);
    assert_eq!(g.cell(1).cost, 3);
    g.set_wall(2, true);
    g.set_terrain(2, COST_WATER);
    assert_eq!(g.cell(2).cost, 0);
    assert!(g.cell(2).is_wall);
    g.set_terrain(3, 0);
    assert_eq!(g.cell(3).cost, 1);
}

#[test]
fn out_of_range_mutations_change_nothing() {
    let mut g = Grid::new(2, 2);
    let before = all_cells(&g);
    g.set_wall(4, true);
    g.set_terrain(9, COST_MUD);
    assert_eq!(all_cells(&g), before);
    assert!(g.get(4).is_none());
    assert_eq!(g.get(3), Some(&Cell::new()));
}

#[test]
fn set_start_and_end_keep_one_each() {
    let mut g = Grid::new(3, 3);
    g.set_start(0);
    g.set_start(5);
    g.set_end(1);
    g.set_end(8);
    let starts: Vec<usize> = (0..9).filter(|&i| g.cell(i).is_start).collect();
    let ends: Vec<usize> = (0..9).filter(|&i| g.cell(i).is_end).collect();
    assert_eq!(starts, vec![5]);
    assert_eq!(ends, vec![8]);
    g.set_start(100);
    assert!((0..9).all(|i| !g.cell(i).is_start));
}

#[test]
fn neighbors_come_up_down_left_right() {
    let g = Grid::new(3, 3);
    assert_eq!(g.neighbors(4), vec![1, 7, 3, 5]);
    assert_eq!(g.neighbors(0), vec![3, 1]);
    assert_eq!(g.neighbors(8), vec![5, 7]);
    assert_eq!(g.neighbors(2), vec![5, 1]);
    assert_eq!(g.neighbors(6), vec![3, 7]);
}

#[test]
fn neighbors_skip_walls() {
    let mut g = Grid::new(3, 3);
    g.set_wall(1, true);
    g.set_wall(5, true);
    assert_eq!(g.neighbors(4), vec![7, 3]);
}

#[test]
fn neighbors_do_not_wrap_rows() {
    let g = Grid::new(4, 2);
    assert_eq!(g.neighbors(3), vec![7, 2]);
    assert_eq!(g.neighbors(4), vec![0, 5]);
}

#[test]
fn reset_search_state_is_idempotent_and_keeps_layout() {
    let mut g = Grid::new(5, 5);
    g.set_wall(7, true);
    g.set_terrain(8, COST_MUD);
    g.set_start(0);
    g.set_end(24);
    algo_lab::algorithms::bfs::run(&mut g);
    assert!((0..25).any(|i| g.cell(i).is_visited));
    assert!((0..25).any(|i| g.cell(i).is_path));
    g.reset_search_state();
    let once = all_cells(&g);
    g.reset_search_state();
    assert_eq!(all_cells(&g), once);
    for c in &once {
        assert!(!c.is_visited && !c.is_path);
    }
    assert!(g.cell(7).is_wall);
    assert_eq!(g.cell(8).cost, COST_MUD);
    assert!(g.cell(0).is_start);
    assert!(g.cell(24).is_end);
}

#[test]
fn reset_all_restores_defaults() {
    let mut g = Grid::new(4, 4);
    g.set_wall(3, true);
    g.set_terrain(5, COST_WATER);
    g.set_start(0);
    g.set_end(15);
    g.reset_all();
    for c in all_cells(&g) {
        assert_eq!(c, Cell::new());
    }
}

#[test]
fn render_bytes_follow_priority() {
    let mut c = Cell::new();
    assert_eq!(c.to_render_byte(), 0);
    c.cost = COST_MUD;
    assert_eq!(c.to_render_byte(), 6);
    c.cost = COST_WATER;
    assert_eq!(c.to_render_byte(), 7);
    c.is_visited = true;
    assert_eq!(c.to_render_byte(), 4);
    c.is_path = true;
    assert_eq!(c.to_render_byte(), 5);
    c.is_end = true;
    assert_eq!(c.to_render_byte(), 3);
    c.is_start = true;
    assert_eq!(c.to_render_byte(), 2);
    assert_eq!(Cell::wall().to_render_byte(), 1);
}

#[test]
fn flush_writes_render_buffer() {
    let mut g = Grid::new(3, 1);
    g.set_wall(0, true);
    g.set_start(1);
    g.set_terrain(2, COST_WATER);
    g.flush_render_buffer();
    assert_eq!(g.render_buffer(), &[1u8, 2, 7][..]);
}

#[test]
fn get_mut_changes_one_cell() {
    let mut g = Grid::new(2, 2);
    if let Some(c) = g.get_mut(3) {
        c.is_path = true;
    }
    assert!(g.cell(3).is_path);
    assert!((0..3).all(|i| !g.cell(i).is_path));
    assert!(g.get_mut(4).is_none());
}

#[test]
fn set_terrain_ignores_costs_above_five() {
    let mut g = Grid::new(3, 1);
    g.set_terrain(1, 7);
    assert_eq!(g.cell(1).cost, 1);
    g.set_terrain(1, 4);
    assert_eq!(g.cell(1).cost, 4);
}
