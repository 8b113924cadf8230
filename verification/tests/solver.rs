//! The engine, played against known boards.

use battleship_solver::board::{neighbors4, ship_placements, GameConfig, TrueBoard};
use battleship_solver::sampling::monte_carlo;
use battleship_solver::search::exact;
use battleship_solver::solver::{solve, CellState, SolveResult};
use rand::rngs::StdRng;
use rand::SeedableRng;

/// The probability that a cell contains a ship.
fn prob(res: &SolveResult, c: usize) -> f64 {
    if res.total == 0 {
        0.0
    } else {
        res.counts[c] as f64 / res.total as f64
    }
}

/// Resolve a shot against a known board and update evidence. Returns true on a
/// hit.
fn resolve(
    board: &TrueBoard,
    states: &mut [CellState],
    remaining: &mut Vec<usize>,
    cell: usize,
) -> bool {
    if let Some(si) = board.cell_ship[cell] {
        states[cell] = CellState::Hit;
        let ship = &board.ships[si];
        if ship
            .cells
            .iter()
            .all(|&c| matches!(states[c], CellState::Hit | CellState::Sunk))
        {
            for &c in &ship.cells {
                states[c] = CellState::Sunk;
            }
            if let Some(p) = remaining.iter().position(|&l| l == ship.len) {
                remaining.remove(p);
            }
        }
        true
    } else {
        states[cell] = CellState::Miss;
        false
    }
}

/// Play a full game greedily against `board`; returns the shot count.
fn play_out(cfg: &GameConfig, board: &TrueBoard) -> u32 {
    let n = cfg.cells();
    let mut states = vec![CellState::Unknown; n];
    let mut remaining = cfg.ships.clone();
    let mut shots = 0u32;
    while !remaining.is_empty() && (shots as usize) < n {
        let res = solve(cfg, &states, &remaining);
        let bc = res.best_cell.expect("solver must recommend a cell while ships remain");
        assert_eq!(states[bc], CellState::Unknown, "recommended an already-shot cell");
        resolve(board, &mut states, &mut remaining, bc);
        shots += 1;
    }
    assert!(remaining.is_empty(), "game did not finish: {:?}", remaining);
    shots
}

#[test]
fn misses_get_zero_probability_and_are_never_recommended() {
    let cfg = GameConfig::default();
    let mut states = vec![CellState::Unknown; cfg.cells()];
    let m = cfg.idx(3, 3);
    states[m] = CellState::Miss;
    let res = solve(&cfg, &states, &cfg.ships);
    assert_eq!(prob(&res, m), 0.0);
    assert_ne!(res.best_cell, Some(m));
}

#[test]
fn probabilities_are_in_range() {
    let cfg = GameConfig::default();
    let mut states = vec![CellState::Unknown; cfg.cells()];
    states[cfg.idx(4, 4)] = CellState::Hit; // forces the exact engine
    let res = solve(&cfg, &states, &cfg.ships);
    for c in 0..cfg.cells() {
        let p = prob(&res, c);
        assert!((0.0..=1.0).contains(&p), "probability out of range: {p}");
    }
    // Cells orthogonally adjacent to a lone hit should be the hot spots.
    let neigh = neighbors4(&cfg, cfg.idx(4, 4));
    let best = res.best_cell.unwrap();
    assert!(neigh.contains(&best), "best shot should hug the hit");
}

#[test]
fn exact_and_monte_carlo_roughly_agree() {
    // Small board where exact is cheap and MC accepts nearly everything.
    let cfg = GameConfig {
        width: 6,
        height: 6,
        ships: vec![3, 2],
        gap_rule: true,
    };
    let n = cfg.cells();
    let empty_hits: Vec<usize> = Vec::new();
    let lens = {
        let mut l = cfg.ships.clone();
        l.sort_unstable_by(|a, b| b.cmp(a));
        l
    };
    let placements: Vec<Vec<Vec<usize>>> = lens
        .iter()
        .map(|&len| ship_placements(&cfg, len))
        .collect();

    let (eg, et) = exact(&cfg, &placements, &empty_hits, &lens, 100_000_000).unwrap();
    let mc = monte_carlo(&cfg, &placements, &empty_hits, 200_000);
    let (mg, mt) = (mc.grid, mc.accepted);
    assert!(et > 0 && mt > 0);

    // Compare normalized per-cell densities; sequential-placement MC is only
    // approximate, so allow a generous tolerance.
    let mut max_diff = 0.0_f64;
    for c in 0..n {
        let pe = eg[c] as f64 / et as f64;
        let pm = mg[c] as f64 / mt as f64;
        max_diff = max_diff.max((pe - pm).abs());
    }
    assert!(max_diff < 0.15, "exact vs MC diverged: max_diff={max_diff:.3}");
}

#[test]
fn solves_small_board_quickly() {
    let cfg = GameConfig {
        width: 6,
        height: 6,
        ships: vec![3, 2],
        gap_rule: true,
    };
    let mut rng = StdRng::seed_from_u64(7);
    for _ in 0..8 {
        let board = TrueBoard::random(&cfg, &mut rng).unwrap();
        let shots = play_out(&cfg, &board);
        assert!(shots <= cfg.cells() as u32);
    }
}
