//! Whole games.

use battleship_solver::board::TrueBoard;
use battleship_solver::config::ConfigError;
use battleship_solver::evidence::remove_one;
use battleship_solver::game::{App, Mode, Orient};
use battleship_solver::panel::{Look, Note};
use battleship_solver::solver::{CellState, Method};
use battleship_solver::status::Status;
use rand::rngs::StdRng;
use rand::SeedableRng;

/// A game on a small board.
fn small(width: i32, height: i32, ships: &str, gap: bool) -> App {
    let mut app = App::new();
    app.ui_w = width;
    app.ui_h = height;
    app.ui_ships = ships.into();
    app.ui_gap = gap;
    app.apply_config();
    assert_eq!(app.cfg_error, None);
    app
}

#[test]
fn a_new_game_waits_for_its_fleet() {
    let app = App::new();
    assert_eq!(app.mode, Mode::Setup);
    assert!(app.known && app.dirty && !app.auto && !app.sink_mode);
    assert_eq!((app.ui_w, app.ui_h, app.ui_gap), (10, 10, true));
    assert_eq!(app.ui_ships, "5,4,3,3,2");
    assert_eq!(app.remaining, vec![5, 4, 3, 3, 2]);
    assert_eq!(app.states, vec![CellState::Unknown; 100]);
    assert_eq!(app.shots, 0);
    assert_eq!(app.status, Status::SetupHelp);
    assert_eq!(app.setup_line(), "Placing ship 1/5 (length 5).");
    assert_eq!(app.note(), Note::NotYet);
    assert_eq!(app.look(0), Look::Water);
}

#[test]
fn a_rejected_configuration_changes_nothing_else() {
    let mut app = App::new();
    app.ui_ships = "11".into();
    app.apply_config();
    assert_eq!(app.cfg_error, Some(ConfigError::ShipTooLong));
    assert_eq!(app.cfg.ships, vec![5, 4, 3, 3, 2]);
    app.ui_ships = "3,2".into();
    app.ui_w = 6;
    app.ui_h = 5;
    app.ui_gap = false;
    app.apply_config();
    assert_eq!(app.cfg_error, None);
    assert_eq!((app.cfg.width, app.cfg.height), (6, 5));
    assert_eq!(app.cfg.ships, vec![3, 2]);
    assert!(!app.cfg.gap_rule);
    assert_eq!(app.states.len(), 30);
    assert_eq!(app.remaining, vec![3, 2]);
}

#[test]
fn turning_twice_is_no_turn() {
    let mut app = App::new();
    assert_eq!(app.rotate_line(), "Rotate (now Horizontal)");
    app.rotate();
    assert_eq!(app.orient, Orient::Vertical);
    assert_eq!(app.rotate_line(), "Rotate (now Vertical)");
    app.on_secondary(3);
    assert_eq!(app.orient, Orient::Horizontal);
    app.on_keys(true, true);
    assert_eq!(app.orient, Orient::Vertical);
}

#[test]
fn ship_cells_run_right_or_down() {
    let mut app = small(6, 5, "3,2", true);
    assert_eq!(app.ship_cells_at(8, 3), Some(vec![8, 9, 10]));
    assert_eq!(app.ship_cells_at(10, 3), None);
    assert_eq!(app.ship_cells_at(9, 3), Some(vec![9, 10, 11]));
    app.rotate();
    assert_eq!(app.ship_cells_at(8, 3), Some(vec![8, 14, 20]));
    assert_eq!(app.ship_cells_at(18, 3), None);
    assert_eq!(app.ship_cells_at(12, 3), Some(vec![12, 18, 24]));
}

#[test]
fn a_fleet_is_placed_by_hand() {
    let mut app = small(6, 5, "3,2", true);
    app.on_primary(4);
    assert_eq!(app.status, Status::OffBoard);
    app.on_primary(0);
    assert_eq!(app.status, Status::Placed { next: 2, total: 2, len: 2 });
    assert_eq!(app.setup_line(), "Placing ship 2/2 (length 2).");
    assert_eq!(app.look(1), Look::Ship);
    app.on_primary(7);
    assert_eq!(app.status, Status::BadSpot);
    app.on_primary(0);
    assert_eq!(app.status, Status::BadSpot);
    assert_eq!(app.place_idx, 1);
    app.on_primary(12);
    assert_eq!(app.mode, Mode::Play);
    assert_eq!(app.status, Status::Playing);
    let board = app.true_board.as_ref().unwrap();
    assert_eq!(board.ships[0].cells, vec![0, 1, 2]);
    assert_eq!(board.ships[1].cells, vec![12, 13]);
    assert_eq!(board.cell_ship[13], Some(1));
    assert_eq!(board.cell_ship[14], None);
}

#[test]
fn placed_ships_can_be_taken_off() {
    let mut app = small(6, 5, "3,2", true);
    app.on_primary(0);
    app.clear_setup();
    assert_eq!(app.status, Status::Cleared);
    assert_eq!(app.place_idx, 0);
    assert!(app.setup_ships.is_empty());
    assert_eq!(app.look(0), Look::Water);
    app.on_primary(0);
    assert_eq!(app.place_idx, 1);
}

#[test]
fn the_rest_is_placed_at_random() {
    let mut app = small(6, 5, "3,2", true);
    app.on_primary(0);
    app.randomize_rest();
    assert_eq!(app.mode, Mode::Play);
    let board = app.true_board.as_ref().unwrap();
    assert_eq!(board.ships[0].cells, vec![0, 1, 2]);
    assert_eq!(board.ships[1].len, 2);
    assert_eq!(app.seed_counter, 14631414278731086951);
}

#[test]
fn the_rest_may_not_fit() {
    let mut app = small(2, 2, "1,1", true);
    app.randomize_rest();
    assert_eq!(app.status, Status::CannotFitRest);
    assert_eq!(app.mode, Mode::Setup);
    assert_eq!(app.setup_ships.len(), 1);
    assert_eq!(app.place_idx, 0);
    app.randomize_board();
    assert_eq!(app.status, Status::CannotRandomize);
    assert_eq!(app.mode, Mode::Setup);
}

#[test]
fn play_does_not_begin_without_the_fleet() {
    let mut app = small(5, 1, "1,1,1,1", true);
    app.randomize_rest();
    assert_eq!(app.status, Status::CannotFitRest);
    for _ in 0..3 {
        for c in 0..5 {
            app.on_primary(c);
            assert_eq!(app.mode, Mode::Setup);
        }
        app.randomize_rest();
        assert_eq!(app.status, Status::CannotFitRest);
    }
    // After a clear start a fleet that fits comes into play whole.
    let mut app = small(5, 1, "1,1,1", true);
    app.on_primary(1);
    app.randomize_rest();
    assert_eq!(app.mode, Mode::Setup);
    app.clear_setup();
    for c in [0, 2, 4] {
        app.on_primary(c);
    }
    assert_eq!(app.mode, Mode::Play);
    assert_eq!(app.true_board.as_ref().unwrap().ships.len(), 3);
    assert!(app.solvable());
    app.solve_instantly();
    assert!(app.remaining.is_empty());
}

#[test]
fn a_random_board_comes_from_the_next_seed() {
    let mut app = App::new();
    app.randomize_board();
    assert_eq!(app.mode, Mode::Play);
    assert_eq!(app.seed_counter, 14631414278731086951);
    let mut rng = StdRng::seed_from_u64(14631414278731086951);
    let board = TrueBoard::random(&app.cfg, &mut rng).unwrap();
    assert_eq!(app.true_board.as_ref().unwrap().cell_ship, board.cell_ship);
}

#[test]
fn shots_are_resolved_against_the_board() {
    let mut app = small(6, 5, "3,2", true);
    app.on_primary(0);
    app.on_primary(12);
    app.on_primary(29);
    assert_eq!(app.status, Status::Miss);
    assert_eq!(app.states[29], CellState::Miss);
    app.fire_known(12);
    assert_eq!(app.status, Status::Hit);
    assert_eq!(app.states[12], CellState::Hit);
    assert_eq!(app.shots, 2);
    // A second shot at a cell does not count.
    app.fire_known(12);
    assert_eq!(app.shots, 2);
    app.fire_known(13);
    assert_eq!(app.status, Status::SunkShip { len: 2 });
    assert_eq!((app.states[12], app.states[13]), (CellState::Sunk, CellState::Sunk));
    assert_eq!(app.remaining, vec![3]);
    assert_eq!(app.fleet_line(), "Ships left: 3");
    app.auto = true;
    for c in 0..3 {
        app.fire_known(c);
    }
    assert_eq!(app.status, Status::Solved { shots: 6 });
    assert!(app.remaining.is_empty() && !app.auto);
    assert_eq!(app.shots_line(), "Shots fired: 6");
    assert_eq!(app.fleet_line(), "Ships left: none");
    assert_eq!(app.shots as usize, app.states.iter().filter(|&&s| s != CellState::Unknown).count());
}

#[test]
fn the_heatmap_follows_the_evidence() {
    let mut app = small(6, 5, "3,2", true);
    app.refresh();
    assert!(app.solve.is_none() && app.dirty);
    app.randomize_board();
    assert_eq!(app.look(0), Look::Water);
    assert_eq!(app.note(), Note::Contradiction);
    app.refresh();
    assert!(!app.dirty);
    assert_eq!(app.note(), Note::Heatmap);
    let res = app.solve.as_ref().unwrap();
    assert_eq!(res.method, Method::Exact);
    assert_eq!(res.peak(), res.best_count);
    assert_eq!(res.count_line(), format!("configurations: {}", group(res.configs)));
    assert_eq!(app.look(0), Look::Heat { count: res.counts[0] });
    let best = app.best_cell().unwrap();
    app.on_keys(false, true);
    assert_ne!(app.states[best], CellState::Unknown);
    assert!(app.dirty);
    assert_eq!(app.shots, 1);
}

fn group(n: u64) -> String {
    battleship_solver::text::group_digits(n)
}

#[test]
fn auto_play_fires_when_a_shot_is_due() {
    let mut app = small(6, 5, "3,2", true);
    app.auto = true;
    assert!(!app.auto_step(true));
    app.randomize_board();
    app.refresh();
    assert!(app.auto_step(false));
    assert_eq!(app.shots, 0);
    assert!(app.auto_step(true));
    assert_eq!(app.shots, 1);
    for _ in 0..30 {
        app.refresh();
        app.auto_step(true);
    }
    assert!(app.remaining.is_empty());
    assert!(!app.auto);
    app.auto = true;
    assert!(!app.auto_step(true));
    assert!(!app.auto);
}

#[test]
fn solving_instantly_sinks_every_ship() {
    for seed in [1u64, 2, 3] {
        let mut app = small(7, 6, "4,3,2", true);
        app.seed_counter = seed;
        app.randomize_board();
        assert!(app.solvable());
        app.solve_instantly();
        assert!(app.remaining.is_empty());
        assert_eq!(app.status, Status::Solved { shots: app.shots });
        assert!(app.shots as usize <= app.cfg.cells());
        app.refresh();
        assert_eq!(app.note(), Note::AllSunk);
    }
}

#[test]
fn marks_cycle_in_assistant_mode() {
    let mut app = small(6, 5, "3,2", true);
    app.set_known(false);
    assert_eq!(app.mode, Mode::Play);
    assert_eq!(app.status, Status::AssistantHelp);
    app.on_primary(3);
    assert_eq!(app.states[3], CellState::Miss);
    assert_eq!(app.shots, 1);
    app.on_primary(3);
    assert_eq!(app.states[3], CellState::Hit);
    assert_eq!(app.look(3), Look::Hit);
    app.on_primary(3);
    assert_eq!(app.states[3], CellState::Unknown);
    assert_eq!(app.shots, 0);
    app.on_secondary(4);
    assert_eq!(app.states[4], CellState::Hit);
    app.set_known(false);
    assert_eq!(app.shots, 1);
    app.set_known(true);
    assert_eq!((app.mode, app.shots), (Mode::Setup, 0));
}

#[test]
fn the_sink_tool_sinks_a_run_and_takes_it_back() {
    let mut app = small(6, 5, "3,2", true);
    app.set_known(false);
    for c in [1, 7, 13, 16] {
        app.mark_hit(c);
    }
    app.sink_mode = true;
    app.on_primary(7);
    assert_eq!(app.status, Status::MarkedSunk { len: 3 });
    assert_eq!(app.remaining, vec![2]);
    for c in [1, 7, 13] {
        assert_eq!(app.states[c], CellState::Sunk);
    }
    assert_eq!(app.states[16], CellState::Hit);
    // Sunk cells are only changed with the tool.
    app.cycle_state(7);
    app.mark_hit(7);
    assert_eq!(app.states[7], CellState::Sunk);
    app.on_primary(1);
    assert_eq!(app.status, Status::Unsunk { len: 3 });
    assert_eq!(app.remaining, vec![2, 3]);
    assert_eq!(app.states[13], CellState::Hit);
    app.toggle_sink(16);
    assert_eq!(app.status, Status::MarkedNoShip { len: 1 });
    assert_eq!(app.remaining, vec![2, 3]);
    app.toggle_sink(20);
    assert_eq!(app.states[20], CellState::Unknown);
    assert_eq!(app.shots, 4);
}

#[test]
fn runs_hang_together_along_edges() {
    let mut app = small(6, 5, "5,1", true);
    app.set_known(false);
    for c in [0, 1, 7, 14, 8, 21] {
        app.mark_hit(c);
    }
    app.toggle_sink(7);
    assert_eq!(app.status, Status::MarkedSunk { len: 5 });
    for c in [0, 1, 7, 8, 14] {
        assert_eq!(app.states[c], CellState::Sunk);
    }
    // The last hit only shares a corner with the run.
    assert_eq!(app.states[21], CellState::Hit);
    app.toggle_sink(21);
    assert_eq!(app.status, Status::MarkedSunk { len: 1 });
    assert!(app.remaining.is_empty());
}

#[test]
fn one_occurrence_is_removed() {
    let mut v = vec![3, 2, 3];
    assert!(remove_one(&mut v, 3));
    assert_eq!(v, vec![2, 3]);
    assert!(!remove_one(&mut v, 5));
    assert_eq!(v, vec![2, 3]);
}

#[test]
fn contradictory_marks_are_noted() {
    let mut app = small(6, 5, "2", true);
    app.set_known(false);
    app.mark_hit(0);
    app.mark_hit(29);
    app.refresh();
    let res = app.solve.as_ref().unwrap();
    assert_eq!((res.method, res.configs, res.best_cell), (Method::Trivial, 0, None));
    assert_eq!(app.note(), Note::Contradiction);
    assert_eq!(app.look(5), Look::Water);
    app.fire_best();
    assert_eq!(app.shots, 2);
}

#[test]
fn cells_are_found_by_their_coordinates() {
    let app = small(6, 5, "3,2", true);
    assert_eq!(app.cell_at(2, 1), Some(8));
    assert_eq!(app.cell_at(6, 1), None);
    assert_eq!(app.cell_at(2, 5), None);
    assert_eq!(app.best_line(8), "Best shot: C2 (2, 1)");
}
