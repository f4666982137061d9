use rand::rngs::StdRng;
use rand::SeedableRng;
use substrate_evolver::config::Config;
use substrate_evolver::environment::{ice_age_change, is_ice_age};
use substrate_evolver::history::{push_bounded, LogEntry, HISTORY_LIMIT};
use substrate_evolver::world::World;

fn sum(grid: &[u8]) -> u64 {
    grid.iter().map(|&c| c as u64).sum()
}

#[test]
fn new_world_has_initial_food() {
    let mut rng = StdRng::seed_from_u64(1);
    let c = Config { width: 12, height: 10, ..Config::default() };
    let w = World::new(c, &mut rng);
    assert_eq!(w.grid.len(), 120);
    assert_eq!(sum(&w.grid), 20);
    assert_eq!(w.tick_count, 0);
    assert!(w.history_log.is_empty());
}

#[test]
fn chaos_food_never_exceeds_five() {
    let mut rng = StdRng::seed_from_u64(5);
    let c = Config { width: 4, height: 2, ..Config::default() };
    let mut w = World::new(c, &mut rng);
    w.grid = vec![0, 4, 5, 7, 0, 0, 0, 0];
    for _ in 0..50 {
        w.spawn_chaos_food(&mut rng);
    }
    assert_eq!(w.grid[3], 7);
    assert_eq!(w.grid[2], 5);
    for (i, &cell) in w.grid.iter().enumerate() {
        if i != 3 {
            assert!(cell <= 5);
        }
    }
}

#[test]
fn chaos_food_adds_at_most_a_quarter() {
    let mut rng = StdRng::seed_from_u64(9);
    let c = Config::default();
    let mut w = World::new(c, &mut rng);
    w.grid = vec![0; 1920];
    w.spawn_chaos_food(&mut rng);
    let total = sum(&w.grid);
    assert!(total <= 480);
    assert!(total > 0);
}

#[test]
fn force_ice_age_rewinds_to_period_start() {
    let mut rng = StdRng::seed_from_u64(1);
    let mut w = World::new(Config::default(), &mut rng);
    w.tick_count = 2500;
    w.force_ice_age();
    assert_eq!(w.tick_count, 2400);
    assert!(is_ice_age(w.tick_count, &w.config));
}

#[test]
fn ice_age_schedule() {
    let c = Config::default();
    assert!(is_ice_age(0, &c));
    assert!(is_ice_age(199, &c));
    assert!(!is_ice_age(200, &c));
    assert!(!is_ice_age(1199, &c));
    assert!(is_ice_age(1200, &c));
    assert!(is_ice_age(2599, &c) == is_ice_age(1399, &c));
    assert_eq!(ice_age_change(1200, &c), Some(LogEntry::IceAgeStarted { tick: 1200 }));
    assert_eq!(ice_age_change(1400, &c), Some(LogEntry::IceAgeEnded { tick: 1400 }));
    assert_eq!(ice_age_change(1300, &c), None);
}

#[test]
fn begin_tick_logs_ice_age_edges() {
    let mut rng = StdRng::seed_from_u64(1);
    let mut w = World::new(Config::default(), &mut rng);
    w.tick_count = 1199;
    assert!(w.begin_tick());
    assert_eq!(w.tick_count, 1200);
    assert_eq!(w.history_log, vec![LogEntry::IceAgeStarted { tick: 1200 }]);
    w.tick_count = 1399;
    assert!(!w.begin_tick());
    assert_eq!(w.history_log.last(), Some(&LogEntry::IceAgeEnded { tick: 1400 }));
    assert!(!w.begin_tick());
    assert_eq!(w.history_log.len(), 2);
}

#[test]
fn population_drops_are_logged() {
    let mut rng = StdRng::seed_from_u64(1);
    let mut w = World::new(Config::default(), &mut rng);
    w.tick_count = 7;
    w.record_population(10, 10);
    w.record_population(10, 12);
    assert!(w.history_log.is_empty());
    w.record_population(10, 8);
    assert_eq!(w.history_log, vec![LogEntry::PopulationDropped { tick: 7, from: 10, to: 8 }]);
}

#[test]
fn log_keeps_newest_twenty() {
    let mut log = Vec::new();
    for t in 0..30u64 {
        push_bounded(&mut log, LogEntry::IceAgeStarted { tick: t });
        assert!(log.len() <= HISTORY_LIMIT);
    }
    assert_eq!(log.len(), 20);
    assert_eq!(log[0], LogEntry::IceAgeStarted { tick: 10 });
    assert_eq!(log[19], LogEntry::IceAgeStarted { tick: 29 });
}

#[test]
fn log_text_renders_entries() {
    let mut rng = StdRng::seed_from_u64(1);
    let mut w = World::new(Config::default(), &mut rng);
    assert_eq!(w.log_text(), "");
    w.history_log.push(LogEntry::IceAgeStarted { tick: 1200 });
    assert_eq!(w.log_text(), "1200: Ice Age started (tick 1200)");
    w.history_log.push(LogEntry::IceAgeEnded { tick: 1400 });
    w.history_log.push(LogEntry::PopulationDropped { tick: 1401, from: 40, to: 3 });
    assert_eq!(
        w.log_text(),
        "1200: Ice Age started (tick 1200)\n1400: Ice Age ended (tick 1400)\n1401: Population dropped from 40 to 3"
    );
    assert_eq!(LogEntry::IceAgeEnded { tick: 0 }.message(), "0: Ice Age ended (tick 0)");
}

#[test]
fn eating_takes_one_unit() {
    let mut rng = StdRng::seed_from_u64(1);
    let c = Config { width: 3, height: 2, ..Config::default() };
    let mut w = World::new(c, &mut rng);
    w.grid = vec![0, 2, 0, 0, 0, 0];
    assert!(w.eat_at(1, 0));
    assert_eq!(w.grid[1], 1);
    assert!(w.eat_at(1, 0));
    assert!(!w.eat_at(1, 0));
    assert_eq!(w.grid[1], 0);
    w.deposit_at(2, 1);
    assert_eq!(w.grid[5], 1);
}

#[test]
fn initial_food_counts_each_drop() {
    for seed in 0..5u64 {
        let mut rng = StdRng::seed_from_u64(seed);
        let w = World::new(Config::default(), &mut rng);
        assert_eq!(w.grid.len(), 1920);
        // 320 drops, no cell can reach 256 of them
        assert_eq!(sum(&w.grid), 320);
    }
}

#[test]
fn deposit_hits_grows_marked_cells_by_one() {
    let mut rng = StdRng::seed_from_u64(1);
    let c = Config { width: 3, height: 2, ..Config::default() };
    let mut w = World::new(c, &mut rng);
    w.grid = vec![0, 4, 5, 9, 2, 0];
    w.deposit_hits(&vec![true, true, true, true, false, false]);
    assert_eq!(w.grid, vec![1, 5, 5, 9, 2, 0]);
}
