use battleship_engine::{BattleshipEngine, Direction, GameStatus, Ship, ShipStatus, MISS_CODE, OPEN_CODE};

fn fixed_layout() -> Vec<(usize, usize, Direction)> {
    vec![
        (2, 0, Direction::Horizontal),
        (4, 0, Direction::Horizontal),
        (6, 0, Direction::Horizontal),
        (8, 0, Direction::Horizontal),
        (0, 5, Direction::Horizontal),
    ]
}

fn fixed_engine() -> BattleshipEngine {
    BattleshipEngine::with_layout(None, None, &fixed_layout()).expect("layout fits")
}

fn count_cells(engine: &BattleshipEngine, code: char) -> usize {
    let mut n = 0;
    for r in 0..engine.rows() {
        for c in 0..engine.columns() {
            if engine.cell(r, c) == Some(code) {
                n += 1;
            }
        }
    }
    n
}

#[test]
fn rows_below_minimum_give_default_square_board() {
    let engine = BattleshipEngine::new(Some(5), None);
    assert_eq!(engine.rows(), 10);
    assert_eq!(engine.columns(), 10);
}

#[test]
fn invalid_columns_default_to_resolved_rows() {
    let engine = BattleshipEngine::new(Some(15), Some(40));
    assert_eq!(engine.rows(), 15);
    assert_eq!(engine.columns(), 15);
}

#[test]
fn dimensions_at_the_limits_are_kept() {
    let engine = BattleshipEngine::new(Some(26), Some(10));
    assert_eq!(engine.rows(), 26);
    assert_eq!(engine.columns(), 10);
    let engine = BattleshipEngine::new(Some(27), Some(9));
    assert_eq!(engine.rows(), 10);
    assert_eq!(engine.columns(), 10);
}

#[test]
fn new_board_holds_whole_fleet() {
    for _ in 0..20 {
        let engine = BattleshipEngine::new(None, None);
        let mut total = 0;
        for ship in engine.fleet() {
            assert_eq!(count_cells(&engine, ship.code()), ship.size());
            total += ship.size();
        }
        assert_eq!(total, 17);
        assert_eq!(count_cells(&engine, OPEN_CODE), 100 - 17);
        assert_eq!(count_cells(&engine, MISS_CODE), 0);
    }
}

#[test]
fn new_board_keeps_margin_at_far_edges() {
    for _ in 0..20 {
        let engine = BattleshipEngine::new(Some(12), Some(14));
        for (k, ship) in engine.fleet().iter().enumerate() {
            let (row, column, direction) = engine.placement(k).unwrap();
            assert!(row < engine.rows() && column < engine.columns());
            match direction {
                Direction::Horizontal => assert!(column + ship.size() < engine.columns()),
                Direction::Vertical => assert!(row + ship.size() < engine.rows()),
            }
        }
    }
}

#[test]
fn fleet_catalog_in_order() {
    let ships = BattleshipEngine::ships();
    let described: Vec<(&str, char, usize)> = ships.iter().map(|s| (s.name(), s.code(), s.size())).collect();
    assert_eq!(
        described,
        vec![("Carrier", 'c', 5), ("Battleship", 'b', 4), ("Cruiser", 'r', 3), ("Submarine", 's', 3), ("Destroyer", 'd', 2)]
    );
}

#[test]
fn shot_at_open_corner_is_a_miss() {
    let mut engine = fixed_engine();
    assert_eq!(engine.cell(0, 0), Some(OPEN_CODE));
    let status = engine.take_shot(0, 0);
    assert!(status.is_none());
    assert_eq!(engine.cell(0, 0), Some(MISS_CODE));
    assert_eq!(engine.game_status().shots(), 1);
    assert_eq!(engine.game_status().misses(), 1);
    assert_eq!(engine.game_status().hits(), 0);
}

#[test]
fn two_shots_sink_the_destroyer() {
    let mut engine = fixed_engine();
    assert_eq!(engine.cell(0, 5), Some('d'));
    let first = engine.take_shot(0, 5).expect("a hit");
    assert_eq!(engine.cell(0, 5), Some('D'));
    assert_eq!(first.code(), 'd');
    assert_eq!(first.hits(), 1);
    assert_eq!(first.size(), 2);
    assert!(!first.is_sunk());
    let second = engine.take_shot(0, 6).expect("a hit");
    assert_eq!(engine.cell(0, 6), Some('D'));
    assert_eq!(second.hits(), 2);
    assert!(second.is_sunk());
    assert_eq!(count_cells(&engine, 'd'), 0);
    assert_eq!(count_cells(&engine, 'D'), 2);
    assert_eq!(second.name(), "Destroyer");
    assert_eq!(engine.game_status().hits(), 2);
    assert_eq!(engine.game_status().shots(), 2);
}

#[test]
fn off_board_shot_changes_nothing() {
    let mut engine = fixed_engine();
    engine.take_shot(0, 5);
    let before: Vec<Option<char>> = (0..10).flat_map(|r| (0..10).map(move |c| (r, c))).map(|(r, c)| engine.cell(r, c)).collect();
    assert!(engine.take_shot(10, 3).is_none());
    assert!(engine.take_shot(3, 10).is_none());
    let after: Vec<Option<char>> = (0..10).flat_map(|r| (0..10).map(move |c| (r, c))).map(|(r, c)| engine.cell(r, c)).collect();
    assert_eq!(before, after);
    assert_eq!(engine.game_status().shots(), 1);
    assert_eq!(engine.game_status().hits(), 1);
    assert_eq!(engine.game_status().misses(), 0);
    assert_eq!(engine.game_status().ship_status(4).unwrap().hits(), 1);
    assert_eq!(engine.cell(10, 3), None);
}

#[test]
fn repeated_shots_count_as_misses() {
    let mut engine = fixed_engine();
    engine.take_shot(0, 0);
    assert!(engine.take_shot(0, 0).is_none());
    assert_eq!(engine.cell(0, 0), Some(MISS_CODE));
    engine.take_shot(0, 5);
    assert!(engine.take_shot(0, 5).is_none());
    assert_eq!(engine.cell(0, 5), Some('D'));
    assert_eq!(engine.game_status().ship_status(4).unwrap().hits(), 1);
    assert_eq!(engine.game_status().shots(), 4);
    assert_eq!(engine.game_status().hits(), 1);
    assert_eq!(engine.game_status().misses(), 3);
}

#[test]
fn counters_balance_over_every_cell() {
    let mut engine = BattleshipEngine::new(None, None);
    for r in 0..10 {
        for c in 0..10 {
            engine.take_shot(r, c);
            let s = engine.game_status();
            assert_eq!(s.shots(), s.hits() + s.misses());
        }
    }
    let s = engine.game_status();
    assert_eq!(s.shots(), 100);
    assert_eq!(s.hits(), 17);
    assert_eq!(s.misses(), 83);
    for k in 0..s.ship_count() {
        assert!(s.ship_status(k).unwrap().is_sunk());
    }
}

#[test]
fn layout_rejected_when_flush_with_edge() {
    let mut layout = fixed_layout();
    layout[0] = (2, 5, Direction::Horizontal);
    assert!(BattleshipEngine::with_layout(None, None, &layout).is_none());
    layout[0] = (5, 9, Direction::Vertical);
    assert!(BattleshipEngine::with_layout(None, None, &layout).is_none());
    layout[0] = (4, 9, Direction::Vertical);
    assert!(BattleshipEngine::with_layout(None, None, &layout).is_some());
}

#[test]
fn layout_rejected_when_ships_overlap_or_count_differs() {
    let mut layout = fixed_layout();
    layout[4] = (1, 2, Direction::Vertical);
    assert!(BattleshipEngine::with_layout(None, None, &layout).is_none());
    let short: Vec<(usize, usize, Direction)> = fixed_layout().into_iter().take(4).collect();
    assert!(BattleshipEngine::with_layout(None, None, &short).is_none());
}

#[test]
fn ship_status_counts_hits_until_sunk() {
    let mut status = ShipStatus::new("Cruiser", 'r', 3);
    assert_eq!(status.hits(), 0);
    assert!(!status.is_sunk());
    status.record_hit();
    status.record_hit();
    assert!(!status.is_sunk());
    status.record_hit();
    assert_eq!(status.hits(), 3);
    assert!(status.is_sunk());
    assert_eq!(status.code(), 'r');
}

#[test]
fn game_status_records_hits_and_misses() {
    let ships = vec![Ship::new(String::from("Destroyer"), 'd', 2), Ship::new(String::from("Cruiser"), 'r', 3)];
    let mut status = GameStatus::new(&ships);
    status.record_miss();
    let hit = status.record_hit('r').expect("known code");
    assert_eq!(hit.hits(), 1);
    assert_eq!(hit.code(), 'r');
    assert!(status.record_hit('x').is_none());
    assert_eq!(status.shots(), 3);
    assert_eq!(status.hits(), 1);
    assert_eq!(status.misses(), 1);
}

#[test]
fn position_keeps_coordinates() {
    let p = battleship_engine::Position::new(3, 7);
    assert_eq!((p.row(), p.column()), (3, 7));
    assert_eq!(p, battleship_engine::Position::new(3, 7));
}

fn board_of(engine: &BattleshipEngine) -> Vec<Vec<char>> {
    (0..engine.rows()).map(|r| (0..engine.columns()).map(|c| engine.cell(r, c).unwrap()).collect()).collect()
}

#[test]
fn from_parts_rebuilds_a_game_in_progress() {
    let mut engine = fixed_engine();
    engine.take_shot(0, 0);
    engine.take_shot(0, 0);
    engine.take_shot(0, 5);
    engine.take_shot(2, 3);
    let board = board_of(&engine);
    let s = engine.game_status();
    let rebuilt = BattleshipEngine::from_parts(10, 10, &fixed_layout(), &board, s.shots(), s.hits(), s.misses())
        .expect("a reachable game");
    assert_eq!(board_of(&rebuilt), board);
    assert_eq!(rebuilt.game_status().shots(), 4);
    assert_eq!(rebuilt.game_status().hits(), 2);
    assert_eq!(rebuilt.game_status().misses(), 2);
    assert_eq!(rebuilt.game_status().ship_status(0).unwrap().hits(), 1);
    assert_eq!(rebuilt.game_status().ship_status(4).unwrap().hits(), 1);
}

#[test]
fn from_parts_rejects_inconsistent_records() {
    let engine = fixed_engine();
    let mut board = board_of(&engine);
    assert!(BattleshipEngine::from_parts(10, 10, &fixed_layout(), &board, 0, 0, 0).is_some());
    assert!(BattleshipEngine::from_parts(10, 10, &fixed_layout(), &board, 1, 0, 1).is_none());
    board[0][0] = MISS_CODE;
    assert!(BattleshipEngine::from_parts(10, 10, &fixed_layout(), &board, 0, 0, 0).is_none());
    assert!(BattleshipEngine::from_parts(10, 10, &fixed_layout(), &board, 1, 0, 1).is_some());
    board[0][0] = 'x';
    assert!(BattleshipEngine::from_parts(10, 10, &fixed_layout(), &board, 0, 0, 0).is_none());
    let short: Vec<(usize, usize, Direction)> = fixed_layout().into_iter().take(3).collect();
    assert!(BattleshipEngine::from_parts(10, 10, &short, &board_of(&engine), 0, 0, 0).is_none());
}

#[test]
fn far_off_board_shot_is_ignored() {
    let mut engine = fixed_engine();
    assert!(engine.take_shot(usize::MAX, 0).is_none());
    assert_eq!(engine.game_status().shots(), 0);
}
