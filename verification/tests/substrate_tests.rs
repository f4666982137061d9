use substrate_evolver::config::Config;
use substrate_evolver::substrate::{deposit_food, in_oasis, toroidal_diff, total_food, wrap_coord};

#[test]
fn wrap_coord_keeps_inside_values() {
    assert_eq!(wrap_coord(0, 80), 0);
    assert_eq!(wrap_coord(79, 80), 79);
    assert_eq!(wrap_coord(5, 24), 5);
}

#[test]
fn wrap_coord_wraps_both_ways() {
    assert_eq!(wrap_coord(-1, 80), 79);
    assert_eq!(wrap_coord(80, 80), 0);
    assert_eq!(wrap_coord(-81, 80), 79);
    assert_eq!(wrap_coord(163, 80), 3);
    assert_eq!(wrap_coord(-24, 24), 0);
}

#[test]
fn toroidal_diff_takes_short_way() {
    assert_eq!(toroidal_diff(0, 79, 80), -1);
    assert_eq!(toroidal_diff(79, 0, 80), 1);
    assert_eq!(toroidal_diff(10, 15, 80), 5);
    assert_eq!(toroidal_diff(15, 10, 80), -5);
    // exactly half a turn keeps the direct difference
    assert_eq!(toroidal_diff(0, 40, 80), 40);
    assert_eq!(toroidal_diff(40, 0, 80), -40);
    // odd ring
    assert_eq!(toroidal_diff(0, 13, 25), -12);
    assert_eq!(toroidal_diff(0, 12, 25), 12);
}

#[test]
fn toroidal_diff_leads_to_target() {
    for bound in [1usize, 2, 7, 24, 80] {
        for a in 0..bound {
            for b in 0..bound {
                let d = toroidal_diff(a, b, bound);
                assert!(d.unsigned_abs() as usize <= bound / 2);
                assert_eq!(wrap_coord(a as i32 + d, bound), b);
            }
        }
    }
}

#[test]
fn deposit_food_caps_at_five() {
    let mut grid = vec![0u8, 4, 5, 9];
    deposit_food(&mut grid, 0);
    deposit_food(&mut grid, 1);
    deposit_food(&mut grid, 2);
    deposit_food(&mut grid, 3);
    assert_eq!(grid, vec![1, 5, 5, 9]);
}

#[test]
fn oasis_is_left_half() {
    assert!(in_oasis(0, 80));
    assert!(in_oasis(39, 80));
    assert!(!in_oasis(40, 80));
    assert!(!in_oasis(79, 80));
    assert!(!in_oasis(0, 1));
}

#[test]
fn total_food_sums_cells() {
    assert_eq!(total_food(&vec![]), 0);
    assert_eq!(total_food(&vec![1, 2, 255, 0]), 258);
}

#[test]
fn default_config_is_valid() {
    let c = Config::default();
    assert!(c.is_valid());
    assert_eq!(c.width, 80);
    assert_eq!(c.height, 24);
    assert_eq!(c.max_vision, 10);
    assert_eq!(c.ice_age_period, 1200);
    assert_eq!(c.ice_age_duration, 200);
    assert_eq!(c.day_length, 400);
    assert_eq!(c.cell_count(), 1920);
    assert_eq!(c.cell_index(3, 2), 163);
}

#[test]
fn invalid_configs_are_rejected() {
    let mut c = Config::default();
    c.width = 0;
    assert!(!c.is_valid());
    let mut c = Config::default();
    c.max_vision = 0;
    assert!(!c.is_valid());
    let mut c = Config::default();
    c.ice_age_period = 0;
    assert!(!c.is_valid());
    let mut c = Config::default();
    c.day_length = 0;
    assert!(!c.is_valid());
    let mut c = Config::default();
    c.max_vision = 40000;
    assert!(!c.is_valid());
}

#[test]
fn cluster_cells_cover_the_square_row_by_row() {
    let c = Config { width: 5, height: 4, ..Config::default() };
    let cells = substrate_evolver::substrate::cluster_cells(0, 0, 1, &c);
    assert_eq!(
        cells,
        vec![(4, 3), (0, 3), (1, 3), (4, 0), (0, 0), (1, 0), (4, 1), (0, 1), (1, 1)]
    );
    assert_eq!(substrate_evolver::substrate::cluster_cells(2, 2, 3, &c).len(), 49);
    assert_eq!(substrate_evolver::substrate::cluster_cells(2, 2, 0, &c), vec![(2, 2)]);
}
