use substrate_evolver::config::Config;
use substrate_evolver::perception::{nearest_food, nearest_mate};

fn small_config() -> Config {
    Config {
        width: 10,
        height: 8,
        max_vision: 3,
        max_age: 300,
        day_length: 400,
        ice_age_period: 1200,
        ice_age_duration: 200,
        seed: None,
    }
}

#[test]
fn nearest_food_none_when_window_empty() {
    let c = small_config();
    let grid = vec![0u8; 80];
    assert_eq!(nearest_food(&grid, &c, 4, 4, 3), None);
}

#[test]
fn nearest_food_picks_closest() {
    let c = small_config();
    let mut grid = vec![0u8; 80];
    grid[c.cell_index(6, 4)] = 1; // offset (2, 0)
    grid[c.cell_index(5, 5)] = 2; // offset (1, 1)
    assert_eq!(nearest_food(&grid, &c, 4, 4, 3), Some((1, 1)));
}

#[test]
fn nearest_food_ties_go_to_first_scanned() {
    let c = small_config();
    let mut grid = vec![0u8; 80];
    grid[c.cell_index(5, 4)] = 1; // offset (1, 0)
    grid[c.cell_index(4, 3)] = 1; // offset (0, -1), scanned first (upper row)
    assert_eq!(nearest_food(&grid, &c, 4, 4, 3), Some((0, -1)));
}

#[test]
fn nearest_food_sees_own_cell() {
    let c = small_config();
    let mut grid = vec![0u8; 80];
    grid[c.cell_index(4, 4)] = 3;
    grid[c.cell_index(5, 4)] = 3;
    assert_eq!(nearest_food(&grid, &c, 4, 4, 3), Some((0, 0)));
}

#[test]
fn nearest_food_looks_across_the_edge() {
    let c = small_config();
    let mut grid = vec![0u8; 80];
    grid[c.cell_index(9, 7)] = 1; // up-left across both edges from (0, 0)
    assert_eq!(nearest_food(&grid, &c, 0, 0, 1), Some((-1, -1)));
}

#[test]
fn nearest_food_respects_vision() {
    let c = small_config();
    let mut grid = vec![0u8; 80];
    grid[c.cell_index(7, 4)] = 1; // offset (3, 0)
    assert_eq!(nearest_food(&grid, &c, 4, 4, 2), None);
    assert_eq!(nearest_food(&grid, &c, 4, 4, 3), Some((3, 0)));
}

#[test]
fn nearest_mate_skips_self_and_far_agents() {
    let c = small_config();
    let cands = vec![(0usize, 4usize, 4usize), (1, 8, 4), (2, 5, 5)];
    assert_eq!(nearest_mate(&cands, 0, 4, 4, &c, 3), Some((1, 1)));
    assert_eq!(nearest_mate(&cands, 2, 5, 5, &c, 1), Some((-1, -1)));
    let only_self = vec![(3usize, 4usize, 4usize)];
    assert_eq!(nearest_mate(&only_self, 3, 4, 4, &c, 3), None);
}

#[test]
fn nearest_mate_wraps_and_keeps_first_of_ties() {
    let c = small_config();
    // both at distance 1 from (0, 0): (9, 0) across the edge, then (1, 0)
    let cands = vec![(1usize, 9usize, 0usize), (2, 1, 0)];
    assert_eq!(nearest_mate(&cands, 0, 0, 0, &c, 2), Some((-1, 0)));
    let cands = vec![(2usize, 1usize, 0usize), (1, 9, 0)];
    assert_eq!(nearest_mate(&cands, 0, 0, 0, &c, 2), Some((1, 0)));
}
