//! The two engines on small boards.

use battleship_solver::board::{ship_placements, GameConfig};
use battleship_solver::sampling::{
    batch_seed, monte_carlo, placement_density, reservoir_step, run_batches,
};
use battleship_solver::search::exact;
use battleship_solver::solver::{find_best, solve, CellState, Method};
use rand::rngs::StdRng;
use rand::{Rng, SeedableRng};

fn config(width: usize, height: usize, ships: Vec<usize>, gap_rule: bool) -> GameConfig {
    GameConfig { width, height, ships, gap_rule }
}

fn all_placements(cfg: &GameConfig) -> Vec<Vec<Vec<usize>>> {
    cfg.ships.iter().map(|&len| ship_placements(cfg, len)).collect()
}

#[test]
fn exact_counts_on_a_strip() {
    let cfg = config(3, 1, vec![2], true);
    let p = all_placements(&cfg);
    assert_eq!(exact(&cfg, &p, &[], &[2], 100), Some((vec![1, 2, 1], 2)));
    assert_eq!(exact(&cfg, &p, &[0], &[2], 100), Some((vec![1, 1, 0], 1)));
}

#[test]
fn the_gap_rule_changes_the_counts() {
    let gap = config(3, 1, vec![1, 1], true);
    let tight = config(3, 1, vec![1, 1], false);
    let p = all_placements(&gap);
    assert_eq!(exact(&gap, &p, &[], &[1, 1], 100), Some((vec![2, 0, 2], 2)));
    assert_eq!(exact(&tight, &p, &[], &[1, 1], 100), Some((vec![4, 4, 4], 6)));
}

#[test]
fn exact_enumerates_every_configuration() {
    let cfg = config(6, 6, vec![3, 2], true);
    let (grid, total) = exact(&cfg, &all_placements(&cfg), &[], &[3, 2], 1_000_000).unwrap();
    assert_eq!(total, 1656);
    assert_eq!(&grid[0..6], &[160, 218, 247, 247, 218, 160]);
    assert_eq!(grid[14], 244);
    assert_eq!(grid.iter().sum::<u64>(), 5 * 1656);
}

#[test]
fn exact_gives_up_beyond_the_cap() {
    let cfg = config(6, 6, vec![3, 2], true);
    let p = all_placements(&cfg);
    assert!(exact(&cfg, &p, &[], &[3, 2], 1655).is_none());
    assert!(exact(&cfg, &p, &[], &[3, 2], 1656).is_some());
}

#[test]
fn contradictory_hits_have_no_configuration() {
    let cfg = config(4, 1, vec![2], true);
    assert_eq!(
        exact(&cfg, &all_placements(&cfg), &[0, 3], &[2], 10),
        Some((vec![0; 4], 0))
    );
}

#[test]
fn the_reservoir_keeps_the_candidate_on_zero() {
    assert_eq!(reservoir_step(None, 3, 0), Some(3));
    assert_eq!(reservoir_step(Some(1), 3, 0), Some(3));
    assert_eq!(reservoir_step(Some(1), 3, 2), Some(1));
    assert_eq!(reservoir_step(None, 3, 1), None);
}

#[test]
fn batches_have_seeds_of_their_own() {
    assert_eq!(batch_seed(0, 0, 0), 11400714819323198485);
    assert_eq!(batch_seed(1, 2, 3), 15329287330352842689);
    assert_eq!(batch_seed(3, 1, 5), 13507014535695213706);
}

#[test]
fn a_batch_draws_from_its_seeded_generator() {
    let cfg = config(4, 1, vec![1], true);
    let p = all_placements(&cfg);
    let mut rng = StdRng::seed_from_u64(batch_seed(0, 0, 1));
    let mut expected = vec![0u64; 4];
    for _ in 0..50 {
        let mut kept = 0;
        for k in 0..4u32 {
            if rng.gen_range(0..k + 1) == 0 {
                kept = k as usize;
            }
        }
        expected[kept] += 1;
    }
    let e = run_batches(&cfg, &p, &[], 50, 1);
    assert_eq!((e.grid, e.accepted, e.total), (expected, 50, 50));
}

#[test]
fn sampling_is_reproducible() {
    let cfg = config(6, 6, vec![3, 2], true);
    let p = all_placements(&cfg);
    let a = run_batches(&cfg, &p, &[7], 4_000, 3);
    let b = run_batches(&cfg, &p, &[7], 4_000, 3);
    assert_eq!((&a.grid, a.accepted), (&b.grid, b.accepted));
    assert_ne!(a.grid, run_batches(&cfg, &p, &[7], 4_000, 2).grid);
    // Every accepted sample covers the hit, and has five cells.
    assert_eq!(a.total, a.accepted);
    assert_eq!(a.grid[7], a.accepted);
    assert_eq!(a.grid.iter().sum::<u64>(), 5 * a.accepted);
}

#[test]
fn at_least_one_attempt_is_made_in_each_batch() {
    let cfg = config(3, 1, vec![1], true);
    assert_eq!(run_batches(&cfg, &all_placements(&cfg), &[], 2, 5).accepted, 5);
}

#[test]
fn without_samples_the_density_is_shown() {
    let cfg = config(4, 1, vec![2], true);
    let p = all_placements(&cfg);
    // The two hits are too far apart for one ship.
    let e = monte_carlo(&cfg, &p, &[0, 3], 100);
    assert_eq!((e.grid, e.accepted, e.total), (vec![4, 5, 5, 4], 0, 9));
    assert_eq!(placement_density(&cfg, &p, &[0, 3]), (vec![4, 5, 5, 4], 9));
    assert_eq!(placement_density(&cfg, &p, &[]), (vec![1, 2, 2, 1], 3));
}

#[test]
fn nothing_to_solve_without_ships() {
    let cfg = GameConfig::default();
    let states = vec![CellState::Unknown; 100];
    let res = solve(&cfg, &states, &[]);
    assert_eq!(res.method, Method::Trivial);
    assert_eq!(res.configs, 0);
    assert_eq!(res.best_cell, None);
    assert_eq!(res.best_count, 0);
    assert!(res.counts.iter().all(|&c| c == 0));
}

#[test]
fn a_ship_with_nowhere_to_go_makes_the_result_trivial() {
    let cfg = config(3, 3, vec![3], true);
    let mut states = vec![CellState::Unknown; 9];
    for c in [0, 4, 8] {
        states[c] = CellState::Miss;
    }
    let res = solve(&cfg, &states, &[3]);
    assert_eq!(res.method, Method::Trivial);
    assert_eq!(res.best_cell, None);
}

#[test]
fn ships_that_would_touch_are_contradictory_evidence() {
    let cfg = config(2, 1, vec![1, 1], true);
    let res = solve(&cfg, &[CellState::Unknown; 2], &[1, 1]);
    assert_eq!(res.method, Method::Trivial);
    assert_eq!((res.configs, res.total), (0, 0));
    assert_eq!(res.counts, vec![0, 0]);
    assert_eq!((res.best_cell, res.best_count), (None, 0));
}

#[test]
fn samples_that_were_not_accepted_are_not_counted() {
    // At most five such ships fit, and there are too many combinations to try.
    let cfg = config(10, 1, vec![1; 7], true);
    let res = solve(&cfg, &[CellState::Unknown; 10], &[1; 7]);
    assert_eq!(res.method, Method::MonteCarlo);
    assert_eq!((res.configs, res.total), (0, 70));
    assert_eq!(res.counts, vec![7; 10]);
    assert_eq!(res.best_cell, Some(0));
    assert_eq!(res.count_line(), "samples accepted: 0");
}

#[test]
fn the_order_of_the_ships_does_not_matter() {
    let a = GameConfig::default();
    let b = config(10, 10, vec![2], true);
    let mut states = vec![CellState::Unknown; 100];
    for c in [3, 17, 44, 59, 80] {
        states[c] = CellState::Miss;
    }
    let r1 = solve(&a, &states, &[4, 3, 3]);
    let r2 = solve(&b, &states, &[3, 4, 3]);
    assert_eq!(r1.counts, r2.counts);
    assert_eq!((r1.configs, r1.total, r1.method), (r2.configs, r2.total, r2.method));
    assert_eq!((r1.best_cell, r1.best_count), (r2.best_cell, r2.best_count));
}

#[test]
fn a_small_board_is_solved_exactly() {
    let cfg = config(4, 3, vec![3, 2], true);
    let mut states = vec![CellState::Unknown; 12];
    states[0] = CellState::Miss;
    states[5] = CellState::Hit;
    let res = solve(&cfg, &states, &[2, 3]);
    assert_eq!(res.method, Method::Exact);
    assert_eq!(res.configs, 5);
    assert_eq!(res.counts, vec![0, 3, 0, 4, 1, 0, 0, 5, 0, 3, 0, 4]);
    assert_eq!((res.best_cell, res.best_count), (Some(7), 5));
}

#[test]
fn the_first_of_equal_cells_is_recommended() {
    let cfg = config(4, 3, vec![2], true);
    let mut states = vec![CellState::Unknown; 12];
    states[5] = CellState::Hit;
    let res = solve(&cfg, &states, &[2]);
    assert_eq!(res.configs, 4);
    assert_eq!((res.best_cell, res.best_count), (Some(1), 1));
    assert_eq!(find_best(&states, &vec![0; 12]), (None, 0));
    assert_eq!(
        find_best(&states, &vec![0, 2, 9, 1, 9, 50, 0, 0, 0, 0, 0, 0]),
        (Some(2), 9)
    );
}

#[test]
fn the_moat_around_a_sunk_ship_is_water() {
    let cfg = config(4, 4, vec![1, 1], true);
    let mut states = vec![CellState::Unknown; 16];
    states[5] = CellState::Sunk;
    let res = solve(&cfg, &states, &[1]);
    assert_eq!(res.method, Method::Exact);
    assert_eq!(res.configs, 7);
    for c in [0, 1, 2, 4, 5, 6, 8, 9, 10] {
        assert_eq!(res.counts[c], 0);
    }
    for c in [3, 7, 11, 12, 13, 14, 15] {
        assert_eq!(res.counts[c], 1);
    }
    let loose = config(4, 4, vec![1, 1], false);
    assert_eq!(solve(&loose, &states, &[1]).configs, 15);
}

#[test]
fn a_hit_beside_a_sunk_ship_stays_coverable() {
    let cfg = config(4, 1, vec![1, 1], true);
    let states = vec![
        CellState::Sunk,
        CellState::Hit,
        CellState::Unknown,
        CellState::Unknown,
    ];
    let res = solve(&cfg, &states, &[2]);
    assert_eq!(res.configs, 1);
    assert_eq!(res.best_cell, Some(2));
}

#[test]
fn certain_cells_are_counted_in_every_configuration() {
    let cfg = config(5, 1, vec![3], true);
    let res = solve(&cfg, &[CellState::Unknown; 5], &[3]);
    assert_eq!(res.counts, vec![1, 2, 3, 2, 1]);
    assert_eq!(res.configs, 3);
    assert_eq!(res.counts[2], res.configs);
}

#[test]
fn the_opening_is_sampled() {
    let cfg = GameConfig::default();
    let states = vec![CellState::Unknown; 100];
    let res = solve(&cfg, &states, &cfg.ships);
    assert_eq!(res.method, Method::MonteCarlo);
    assert!(res.configs > 0 && res.configs <= 40_000);
    assert_eq!(res.counts.iter().sum::<u64>(), 17 * res.configs);
    assert!(res.counts.iter().all(|&c| c <= res.configs));
}

#[test]
fn methods_have_labels() {
    assert_eq!(Method::Exact.label(), "exact (full enumeration)");
    assert_eq!(Method::MonteCarlo.label(), "Monte-Carlo sampling");
    assert_eq!(Method::Trivial.label(), "n/a");
}
