//! Text in and out.

use battleship_solver::config::{build_config, parse_ships, ConfigError};
use battleship_solver::order::longest_first;
use battleship_solver::status::{placing_line, Status};
use battleship_solver::text::{coord_name, fleet_str, group_digits, join_numbers};

#[test]
fn digits_are_grouped_by_threes() {
    assert_eq!(group_digits(0), "0");
    assert_eq!(group_digits(999), "999");
    assert_eq!(group_digits(1000), "1,000");
    assert_eq!(group_digits(40_010), "40,010");
    assert_eq!(group_digits(1_234_567), "1,234,567");
    assert_eq!(group_digits(u64::MAX), "18,446,744,073,709,551,615");
}

#[test]
fn grouping_only_adds_commas() {
    for n in [7u64, 12_345, 100_000, 987_654_321] {
        assert_eq!(group_digits(n).replace(',', ""), format!("{n}"));
    }
}

#[test]
fn fleets_are_listed_longest_first() {
    assert_eq!(fleet_str(&[]), "none");
    assert_eq!(fleet_str(&[2, 5, 3]), "5, 3, 2");
    assert_eq!(longest_first(&[3, 1, 3, 2]), vec![3, 3, 2, 1]);
}

#[test]
fn coordinates_have_a_letter_and_a_number() {
    assert_eq!(coord_name(0, 0), "A1");
    assert_eq!(coord_name(9, 9), "J10");
    assert_eq!(coord_name(25, 3), "Z4");
    assert_eq!(coord_name(26, 3), "A4");
}

#[test]
fn ship_lists_are_read_leniently() {
    assert_eq!(parse_ships("5,4,3,3,2"), Some(vec![5, 4, 3, 3, 2]));
    assert_eq!(parse_ships(" 5 ,\t4,,+3, "), Some(vec![5, 4, 3]));
    assert_eq!(parse_ships("\u{3000}7\u{a0}"), Some(vec![7]));
    assert_eq!(parse_ships("007"), Some(vec![7]));
    assert_eq!(parse_ships(""), Some(vec![]));
    assert_eq!(parse_ships(" , ,"), Some(vec![]));
}

#[test]
fn ship_lists_must_be_numbers() {
    assert_eq!(parse_ships("5,x"), None);
    assert_eq!(parse_ships("5 4"), None);
    assert_eq!(parse_ships("-1"), None);
    assert_eq!(parse_ships("+"), None);
    assert_eq!(parse_ships("++2"), None);
    assert_eq!(parse_ships("2.5"), None);
    assert_eq!(parse_ships("99999999999999999999999"), None);
    assert_eq!(parse_ships("18446744073709551616"), None);
    assert_eq!(parse_ships("18446744073709551615"), Some(vec![usize::MAX]));
}

#[test]
fn a_joined_ship_list_reads_back() {
    for ships in [vec![], vec![5], vec![5, 4, 3, 3, 2], vec![10, 200, 0, 3000]] {
        let text = join_numbers(&ships, ",");
        assert_eq!(parse_ships(&text), Some(ships));
    }
    assert_eq!(join_numbers(&[5, 4, 3], ","), "5,4,3");
}

#[test]
fn each_objection_to_a_configuration() {
    let err = |w, h, text| build_config(w, h, text, true).err();
    assert_eq!(err(10, 10, "3,two"), Some(ConfigError::NotNumbers));
    assert_eq!(err(10, 10, ""), Some(ConfigError::NoShips));
    assert_eq!(err(10, 10, "3,0"), Some(ConfigError::NoShips));
    assert_eq!(err(6, 8, "9"), Some(ConfigError::ShipTooLong));
    assert_eq!(err(6, 8, "8"), None);
    assert_eq!(err(5, 5, "5,5,5,5,5,1"), Some(ConfigError::FleetTooLarge));
    assert_eq!(err(5, 5, "5,5,5,5,5"), None);
    // The first objection counts.
    assert_eq!(err(5, 5, "0,99"), Some(ConfigError::NoShips));
    assert_eq!(err(5, 5, "6,6,6,6,6,6"), Some(ConfigError::ShipTooLong));
}

#[test]
fn an_accepted_configuration_is_what_was_asked_for() {
    let cfg = build_config(7, 9, "4, 3", false).unwrap();
    assert_eq!((cfg.width, cfg.height), (7, 9));
    assert_eq!(cfg.ships, vec![4, 3]);
    assert!(!cfg.gap_rule);
}

#[test]
fn objections_have_messages() {
    assert_eq!(
        ConfigError::NotNumbers.message(),
        "Ship list must be comma-separated numbers."
    );
    assert_eq!(
        ConfigError::NoShips.message(),
        "Need at least one ship, all lengths ≥ 1."
    );
    assert_eq!(
        ConfigError::ShipTooLong.message(),
        "A ship is longer than the board's largest side."
    );
    assert_eq!(
        ConfigError::FleetTooLarge.message(),
        "Ships can't fit: total length exceeds the board."
    );
}

#[test]
fn statuses_are_sentences() {
    let cases = [
        (
            Status::SetupHelp,
            "Setup: click to place each ship (right-click or R to rotate), or hit Randomize.",
        ),
        (
            Status::AssistantHelp,
            "Assistant mode: fire at the recommended cell, then mark the real result.",
        ),
        (Status::OffBoard, "Ship would run off the board there."),
        (
            Status::BadSpot,
            "Invalid spot — overlap or too close to another ship.",
        ),
        (
            Status::Placed { next: 2, total: 5, len: 4 },
            "Placed. Next: ship 2/5 (length 4).",
        ),
        (
            Status::CannotFitRest,
            "Couldn't fit the rest — clear and try again.",
        ),
        (Status::Cleared, "Cleared. Place your ships."),
        (
            Status::CannotRandomize,
            "Couldn't place the fleet randomly — adjust the configuration.",
        ),
        (Status::Playing, "Playing — fire at the brightest cell."),
        (Status::SunkShip { len: 3 }, "Hit — and sunk a length-3 ship!"),
        (Status::Hit, "Hit!"),
        (Status::Miss, "Miss."),
        (Status::Solved { shots: 38 }, "Solved! All ships sunk in 38 shots."),
        (Status::MarkedSunk { len: 2 }, "Marked a length-2 ship sunk."),
        (
            Status::MarkedNoShip { len: 12 },
            "Marked 12 cells sunk (no length-12 ship in the fleet?).",
        ),
        (Status::Unsunk { len: 4 }, "Un-sunk a length-4 ship."),
    ];
    for (status, text) in cases {
        assert_eq!(status.text(), text);
    }
    assert_eq!(placing_line(1, 5, 5), "Placing ship 1/5 (length 5).");
}
