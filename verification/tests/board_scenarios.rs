use othello::{Board, Piece};

fn empty_cells() -> Vec<Option<Piece>> {
    vec![None; 64]
}

#[test]
fn starting_position() {
    let b = Board::new();
    assert_eq!(b.get(3, 3), Some(Piece::White));
    assert_eq!(b.get(3, 4), Some(Piece::Black));
    assert_eq!(b.get(4, 3), Some(Piece::Black));
    assert_eq!(b.get(4, 4), Some(Piece::White));
    for row in 0..8 {
        for col in 0..8 {
            if !(3..=4).contains(&row) || !(3..=4).contains(&col) {
                assert_eq!(b.get(row, col), None);
            }
        }
    }
    assert_eq!(b.count(Piece::Black), 2);
    assert_eq!(b.count(Piece::White), 2);
    assert!(!b.is_game_over());
}

#[test]
fn opponent_is_involutive() {
    assert_eq!(Piece::Black.opponent(), Piece::White);
    assert_eq!(Piece::White.opponent(), Piece::Black);
    assert_eq!(Piece::Black.opponent().opponent(), Piece::Black);
}

#[test]
fn starting_moves_row_major() {
    let b = Board::new();
    assert_eq!(b.valid_moves(Piece::Black), vec![(2, 3), (3, 2), (4, 5), (5, 4)]);
    assert_eq!(b.valid_moves(Piece::White), vec![(2, 4), (3, 5), (4, 2), (5, 3)]);
}

#[test]
fn legality_matches_enumeration() {
    let b = Board::new();
    for piece in [Piece::Black, Piece::White] {
        let moves = b.valid_moves(piece);
        for row in 0..8usize {
            for col in 0..8usize {
                assert_eq!(b.is_valid_move(piece, row, col), moves.contains(&(row, col)));
            }
        }
    }
}

#[test]
fn deterministic_opening_move() {
    // From the start, Black playing (2, 3) flips exactly the disc at
    // (3, 3), yielding four black discs and one white.
    let mut b = Board::new();
    assert!(b.is_valid_move(Piece::Black, 2, 3));
    assert!(b.apply_move(Piece::Black, 2, 3));
    assert_eq!(b.get(2, 3), Some(Piece::Black));
    assert_eq!(b.get(3, 3), Some(Piece::Black));
    assert_eq!(b.get(3, 4), Some(Piece::Black));
    assert_eq!(b.get(4, 3), Some(Piece::Black));
    assert_eq!(b.get(4, 4), Some(Piece::White));
    assert_eq!(b.count(Piece::Black), 4);
    assert_eq!(b.count(Piece::White), 1);
}

#[test]
fn illegal_move_leaves_board_unchanged() {
    let mut b = Board::new();
    // Occupied cell.
    assert!(!b.apply_move(Piece::Black, 3, 3));
    // Empty cell with no capture.
    assert!(!b.apply_move(Piece::Black, 0, 0));
    assert_eq!(b.count(Piece::Black), 2);
    assert_eq!(b.count(Piece::White), 2);
    assert_eq!(b.get(0, 0), None);
}

#[test]
fn flip_conservation() {
    // A successful move raises the total disc count by exactly one.
    let mut b = Board::new();
    let before = b.count(Piece::Black) + b.count(Piece::White);
    assert!(b.apply_move(Piece::Black, 2, 3));
    assert_eq!(b.count(Piece::Black) + b.count(Piece::White), before + 1);
}

#[test]
fn no_regression_to_empty() {
    let mut b = Board::new();
    let occupied: Vec<(usize, usize)> = (0..8)
        .flat_map(|r| (0..8).map(move |c| (r, c)))
        .filter(|&(r, c)| b.get(r, c).is_some())
        .collect();
    assert!(b.apply_move(Piece::Black, 2, 3));
    for (r, c) in occupied {
        assert!(b.get(r, c).is_some());
    }
}

#[test]
fn pass_scenario_is_not_game_over() {
    // White at (0, 0) and Black at (1, 0): Black has no legal move,
    // White can capture at (2, 0), so the game is not over.
    let mut cells = empty_cells();
    cells[0] = Some(Piece::White);
    cells[8] = Some(Piece::Black);
    let b = Board::from_cells(cells).unwrap();
    assert!(b.valid_moves(Piece::Black).is_empty());
    assert_eq!(b.valid_moves(Piece::White), vec![(2, 0)]);
    assert!(!b.is_game_over());
}

#[test]
fn empty_board_is_game_over() {
    let b = Board::from_cells(empty_cells()).unwrap();
    assert!(b.valid_moves(Piece::Black).is_empty());
    assert!(b.valid_moves(Piece::White).is_empty());
    assert!(b.is_game_over());
}

#[test]
fn from_cells_rejects_wrong_length() {
    assert!(Board::from_cells(vec![None; 63]).is_none());
    assert!(Board::from_cells(vec![None; 65]).is_none());
    assert!(Board::from_cells(vec![None; 64]).is_some());
}

#[test]
fn evaluation_start_and_after_move() {
    let b = Board::new();
    assert_eq!(b.evaluate(Piece::Black), 0);
    assert_eq!(b.evaluate(Piece::White), 0);
    let mut b2 = Board::new();
    assert!(b2.apply_move(Piece::Black, 2, 3));
    assert_eq!(b2.evaluate(Piece::Black), 30);
    assert_eq!(b2.evaluate(Piece::White), -30);
}

#[test]
fn evaluation_corner_bonus() {
    let mut cells = empty_cells();
    cells[0] = Some(Piece::Black); // corner (0, 0)
    cells[10] = Some(Piece::White); // plain cell (1, 2)
    let b = Board::from_cells(cells).unwrap();
    assert_eq!(b.evaluate(Piece::Black), 35 - 10);
    assert_eq!(b.evaluate(Piece::White), 10 - 35);
}

#[test]
fn evaluation_antisymmetry_sampled() {
    // evaluate(side) == -evaluate(opponent) on a few reachable boards.
    let mut b = Board::new();
    assert_eq!(b.evaluate(Piece::Black), -b.evaluate(Piece::White));
    assert!(b.apply_move(Piece::Black, 2, 3));
    assert_eq!(b.evaluate(Piece::Black), -b.evaluate(Piece::White));
    assert!(b.apply_move(Piece::White, 2, 2));
    assert_eq!(b.evaluate(Piece::Black), -b.evaluate(Piece::White));
}

#[test]
fn in_bounds_edges() {
    assert!(Board::in_bounds(0, 0));
    assert!(Board::in_bounds(7, 7));
    assert!(!Board::in_bounds(-1, 0));
    assert!(!Board::in_bounds(0, 8));
    assert!(!Board::in_bounds(8, 3));
}

#[test]
fn multi_direction_flip() {
    // A placement that captures in two directions at once.
    let mut cells = empty_cells();
    // Row 2: B W . ; column: W at (3, 2) anchored by B at (4, 2).
    cells[2 * 8] = Some(Piece::Black);
    cells[2 * 8 + 1] = Some(Piece::White);
    cells[3 * 8 + 2] = Some(Piece::White);
    cells[4 * 8 + 2] = Some(Piece::Black);
    let mut b = Board::from_cells(cells).unwrap();
    assert!(b.apply_move(Piece::Black, 2, 2));
    assert_eq!(b.get(2, 1), Some(Piece::Black));
    assert_eq!(b.get(3, 2), Some(Piece::Black));
    assert_eq!(b.count(Piece::Black), 5);
    assert_eq!(b.count(Piece::White), 0);
}
