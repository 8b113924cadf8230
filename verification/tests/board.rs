//! Geometry and placement.

use battleship_solver::board::{
    can_place, neighbors4, neighbors8, ship_placements, GameConfig, TrueBoard,
};
use battleship_solver::layout::put_ship;
use rand::rngs::StdRng;
use rand::SeedableRng;

fn config(width: usize, height: usize, ships: Vec<usize>, gap_rule: bool) -> GameConfig {
    GameConfig { width, height, ships, gap_rule }
}

#[test]
fn the_default_rules_are_the_classic_ones() {
    let cfg = GameConfig::default();
    assert_eq!((cfg.width, cfg.height), (10, 10));
    assert_eq!(cfg.ships, vec![5, 4, 3, 3, 2]);
    assert!(cfg.gap_rule);
    assert_eq!(cfg.cells(), 100);
}

#[test]
fn cells_and_coordinates_are_inverse() {
    let cfg = config(7, 4, vec![2], true);
    assert_eq!(cfg.idx(3, 2), 17);
    assert_eq!(cfg.xy(17), (3, 2));
    for c in 0..cfg.cells() {
        let (x, y) = cfg.xy(c);
        assert!(x < 7 && y < 4);
        assert_eq!(cfg.idx(x, y), c);
    }
}

#[test]
fn the_larger_side_bounds_the_ships() {
    assert_eq!(config(7, 4, vec![], true).max_dim(), 7);
    assert_eq!(config(4, 7, vec![], true).max_dim(), 7);
    assert!(ship_placements(&config(7, 4, vec![], true), 8).is_empty());
    assert!(ship_placements(&config(7, 4, vec![], true), 0).is_empty());
}

#[test]
fn placements_go_along_the_rows_and_then_along_the_columns() {
    let cfg = config(3, 2, vec![], true);
    assert_eq!(
        ship_placements(&cfg, 2),
        vec![
            vec![0, 1],
            vec![1, 2],
            vec![3, 4],
            vec![4, 5],
            vec![0, 3],
            vec![1, 4],
            vec![2, 5],
        ]
    );
    assert_eq!(ship_placements(&cfg, 3), vec![vec![0, 1, 2], vec![3, 4, 5]]);
}

#[test]
fn a_ship_of_one_cell_is_listed_once() {
    let cfg = config(3, 2, vec![], true);
    let singles: Vec<Vec<usize>> = (0..6).map(|c| vec![c]).collect();
    assert_eq!(ship_placements(&cfg, 1), singles);
    assert_eq!(ship_placements(&GameConfig::default(), 5).len(), 120);
}

#[test]
fn neighbours_of_a_corner_an_edge_and_the_middle() {
    let cfg = config(4, 3, vec![], true);
    assert_eq!(neighbors8(&cfg, 0), vec![1, 4, 5]);
    assert_eq!(neighbors8(&cfg, 5), vec![0, 1, 2, 4, 6, 8, 9, 10]);
    assert_eq!(neighbors8(&cfg, 7), vec![2, 3, 6, 10, 11]);
    assert_eq!(neighbors4(&cfg, 0), vec![4, 1]);
    assert_eq!(neighbors4(&cfg, 5), vec![1, 9, 4, 6]);
    assert_eq!(neighbors4(&cfg, 11), vec![7, 10]);
}

#[test]
fn neighbourhood_is_symmetric() {
    let cfg = config(5, 3, vec![], true);
    for a in 0..cfg.cells() {
        for b in neighbors8(&cfg, a) {
            assert!(neighbors8(&cfg, b).contains(&a));
        }
        for b in neighbors4(&cfg, a) {
            assert!(neighbors4(&cfg, b).contains(&a));
            assert!(neighbors8(&cfg, a).contains(&b));
        }
    }
}

#[test]
fn the_gap_rule_keeps_ships_apart() {
    let mut occ = vec![false; 12];
    occ[0] = true;
    let gap = config(4, 3, vec![], true);
    let tight = config(4, 3, vec![], false);
    assert!(!can_place(&gap, &occ, &[0, 1]));
    assert!(!can_place(&tight, &occ, &[0, 1]));
    assert!(!can_place(&gap, &occ, &[1, 2]));
    assert!(can_place(&tight, &occ, &[1, 2]));
    assert!(!can_place(&gap, &occ, &[5, 6]));
    assert!(can_place(&gap, &occ, &[2, 3]));
}

#[test]
fn random_boards_hold_the_fleet_and_obey_the_gap_rule() {
    let cfg = GameConfig::default();
    let mut rng = StdRng::seed_from_u64(41);
    for _ in 0..20 {
        let board = TrueBoard::random(&cfg, &mut rng).unwrap();
        let mut lens: Vec<usize> = board.ships.iter().map(|s| s.len).collect();
        lens.sort_unstable_by(|a, b| b.cmp(a));
        assert_eq!(lens, cfg.ships);
        for (i, ship) in board.ships.iter().enumerate() {
            assert!(ship_placements(&cfg, ship.len).contains(&ship.cells));
            for &c in &ship.cells {
                assert_eq!(board.cell_ship[c], Some(i));
                for nb in neighbors8(&cfg, c) {
                    assert!(board.cell_ship[nb].is_none() || board.cell_ship[nb] == Some(i));
                }
            }
        }
        assert_eq!(board.cell_ship.iter().filter(|s| s.is_some()).count(), 17);
    }
}

#[test]
fn a_seed_fixes_the_random_board() {
    let cfg = GameConfig::default();
    let a = TrueBoard::random(&cfg, &mut StdRng::seed_from_u64(5)).unwrap();
    let b = TrueBoard::random(&cfg, &mut StdRng::seed_from_u64(5)).unwrap();
    let c = TrueBoard::random(&cfg, &mut StdRng::seed_from_u64(6)).unwrap();
    assert_eq!(a.cell_ship, b.cell_ship);
    assert_ne!(a.cell_ship, c.cell_ship);
    let copy = a.clone();
    assert_eq!(copy.cell_ship, a.cell_ship);
    assert_eq!(copy.ships.len(), 5);
}

#[test]
fn a_fleet_without_room_is_no_board() {
    let cfg = config(2, 2, vec![1, 1], true);
    assert!(TrueBoard::random(&cfg, &mut StdRng::seed_from_u64(1)).is_none());
    assert!(TrueBoard::random(&config(2, 1, vec![1, 1], true), &mut StdRng::seed_from_u64(1)).is_none());
    assert!(TrueBoard::random(&config(3, 3, vec![4], false), &mut StdRng::seed_from_u64(1)).is_none());
    let strip = config(2, 1, vec![1, 1], false);
    for seed in 0..20 {
        let board = TrueBoard::random(&strip, &mut StdRng::seed_from_u64(seed)).unwrap();
        assert_ne!(board.ships[0].cells, board.ships[1].cells);
    }
    let loose = config(2, 2, vec![1, 1], false);
    assert!(TrueBoard::random(&loose, &mut StdRng::seed_from_u64(1)).is_some());
}

#[test]
fn a_ship_marks_the_cells_it_is_put_on() {
    let cfg = config(4, 2, vec![2, 1], true);
    let mut occ = vec![false; 8];
    let mut cell_ship = vec![None; 8];
    let mut ships = Vec::new();
    put_ship(&cfg, &mut occ, &mut cell_ship, &mut ships, 2, vec![0, 4]);
    put_ship(&cfg, &mut occ, &mut cell_ship, &mut ships, 1, vec![3]);
    assert_eq!(
        cell_ship,
        vec![Some(0), None, None, Some(1), Some(0), None, None, None]
    );
    assert_eq!(occ, vec![true, false, false, true, true, false, false, false]);
    assert_eq!(ships.len(), 2);
    assert_eq!((ships[0].len, ships[1].len), (2, 1));
    assert_eq!(ships[0].cells, vec![0, 4]);
}
