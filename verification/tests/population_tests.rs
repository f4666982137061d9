use rand::rngs::StdRng;
use rand::SeedableRng;
use substrate_evolver::config::Config;
use substrate_evolver::mating::mating_pairs;
use substrate_evolver::population::{
    cell_buckets, child_position, density_counts, mate_candidates, mutation_regime, pick_victim,
    remove_marked, shuffled_order, step_position, MutationRegime,
};
use substrate_evolver::substrate::wrap_coord;

fn small_config() -> Config {
    Config {
        width: 4,
        height: 3,
        max_vision: 2,
        max_age: 300,
        day_length: 400,
        ice_age_period: 1200,
        ice_age_duration: 200,
        seed: None,
    }
}

#[test]
fn shuffled_order_is_a_permutation() {
    let mut rng = StdRng::seed_from_u64(7);
    for n in [0usize, 1, 2, 5, 40] {
        let mut order = shuffled_order(n, &mut rng);
        order.sort();
        assert_eq!(order, (0..n).collect::<Vec<_>>());
    }
}

#[test]
fn shuffled_order_actually_shuffles() {
    let mut rng = StdRng::seed_from_u64(42);
    let moved = (0..20).any(|_| shuffled_order(10, &mut rng) != (0..10).collect::<Vec<_>>());
    assert!(moved);
}

#[test]
fn density_counts_saturate() {
    let c = small_config();
    let mut positions = vec![(1usize, 1usize); 300];
    positions.push((0, 0));
    positions.push((3, 2));
    positions.push((3, 2));
    let d = density_counts(&positions, &c);
    assert_eq!(d.len(), 12);
    assert_eq!(d[c.cell_index(1, 1)], 255);
    assert_eq!(d[0], 1);
    assert_eq!(d[11], 2);
    assert_eq!(d[5 - 1], 0);
}

#[test]
fn cell_buckets_group_agents_by_cell() {
    let c = small_config();
    let positions = vec![(1usize, 0usize), (0, 0), (1, 0), (3, 2)];
    let b = cell_buckets(&positions, &c);
    assert_eq!(b.len(), 12);
    assert_eq!(b[0], vec![1]);
    assert_eq!(b[1], vec![0, 2]);
    assert_eq!(b[11], vec![3]);
    assert!(b[5].is_empty());
}

#[test]
fn pick_victim_is_another_agent() {
    let mut rng = StdRng::seed_from_u64(3);
    let cell = vec![4usize, 9, 2];
    for a in 0..3 {
        for _ in 0..20 {
            let v = pick_victim(&cell, a, &mut rng);
            assert!(cell.contains(&v));
            assert_ne!(v, cell[a]);
        }
    }
    let pair = vec![5usize, 6];
    assert_eq!(pick_victim(&pair, 0, &mut rng), 6);
    assert_eq!(pick_victim(&pair, 1, &mut rng), 5);
}

#[test]
fn remove_marked_swaps_from_the_back() {
    let mut items = vec!['a', 'b', 'c', 'd', 'e'];
    remove_marked(&mut items, &vec![false, true, false, true, false]);
    // d is removed first (e moves in), then b (the last, d's replacement e, moves in)
    assert_eq!(items, vec!['a', 'e', 'c']);

    let mut items = vec![1, 2, 3];
    remove_marked(&mut items, &vec![true, true, true]);
    assert!(items.is_empty());

    let mut items = vec![1, 2, 3];
    remove_marked(&mut items, &vec![false, false, false]);
    assert_eq!(items, vec![1, 2, 3]);

    let mut items = vec![1, 2, 3, 4];
    remove_marked(&mut items, &vec![true, false, false, false]);
    assert_eq!(items, vec![4, 2, 3]);
}

#[test]
fn mating_pairs_pair_eligible_neighbours_in_order() {
    let buckets = vec![vec![0usize, 2, 3, 5, 6], vec![1, 4], vec![7]];
    let eligible = vec![true, true, false, true, true, true, true, true];
    let pairs = mating_pairs(&buckets, &eligible);
    assert_eq!(pairs, vec![(0, 3), (5, 6), (1, 4)]);
}

#[test]
fn mating_pairs_leave_odd_agent_out() {
    let buckets = vec![vec![0usize, 1, 2]];
    let eligible = vec![true, true, true];
    assert_eq!(mating_pairs(&buckets, &eligible), vec![(0, 1)]);
    let eligible = vec![false, true, true];
    assert_eq!(mating_pairs(&buckets, &eligible), vec![(1, 2)]);
    let eligible = vec![false, false, true];
    assert!(mating_pairs(&buckets, &eligible).is_empty());
}

#[test]
fn mate_candidates_keep_eligible_in_order() {
    let positions = vec![(0usize, 0usize), (1, 2), (3, 1)];
    let eligible = vec![true, false, true];
    assert_eq!(mate_candidates(&positions, &eligible), vec![(0, 0, 0), (2, 3, 1)]);
}

#[test]
fn mutation_regime_thresholds() {
    assert_eq!(mutation_regime(0), MutationRegime::Boosted);
    assert_eq!(mutation_regime(14), MutationRegime::Boosted);
    assert_eq!(mutation_regime(15), MutationRegime::Normal);
    assert_eq!(mutation_regime(120), MutationRegime::Normal);
    assert_eq!(mutation_regime(121), MutationRegime::Damped);
}

#[test]
fn child_lands_next_to_parent() {
    let c = small_config();
    let mut rng = StdRng::seed_from_u64(11);
    let mut seen = std::collections::HashSet::new();
    for _ in 0..200 {
        let (x, y) = child_position(0, 0, &c, &mut rng);
        let dx = wrap_coord(x as i32 + 1, 4) as i32 - 1; // in -1..=2 ring units
        let dy = wrap_coord(y as i32 + 1, 3) as i32 - 1;
        assert!((-1..=1).contains(&dx) && (-1..=1).contains(&dy));
        assert!(!(dx == 0 && dy == 0));
        seen.insert((x, y));
    }
    assert_eq!(seen.len(), 8);
}

#[test]
fn step_position_wraps() {
    let c = small_config();
    assert_eq!(step_position(0, 0, -1, -1, &c), (3, 2));
    assert_eq!(step_position(3, 2, 1, 1, &c), (0, 0));
    assert_eq!(step_position(1, 1, 0, 1, &c), (1, 2));
}

#[test]
fn each_agent_reproduces_at_most_once() {
    let c = small_config();
    let positions = vec![(1usize, 1usize), (1, 1), (2, 0), (1, 1), (2, 0), (1, 1), (0, 2)];
    let eligible = vec![true, true, true, true, false, true, true];
    let buckets = cell_buckets(&positions, &c);
    let pairs = mating_pairs(&buckets, &eligible);
    let mut seen = std::collections::HashSet::new();
    for &(i, j) in &pairs {
        assert_ne!(i, j);
        assert!(eligible[i] && eligible[j]);
        assert_eq!(positions[i], positions[j]);
        assert!(seen.insert(i));
        assert!(seen.insert(j));
    }
    assert_eq!(pairs, vec![(0, 1), (3, 5)]);
}

#[test]
fn density_matches_bucket_sizes() {
    let c = small_config();
    let positions = vec![(0usize, 0usize), (3, 2), (0, 0), (2, 1)];
    let d = density_counts(&positions, &c);
    let b = cell_buckets(&positions, &c);
    for cell in 0..12 {
        assert_eq!(d[cell] as usize, b[cell].len());
    }
}
