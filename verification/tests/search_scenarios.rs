use othello::{get_best_move, minimax, Board, Piece};

/// An unpruned reference minimax, written against the library's public
/// board operations.
fn full_minimax(board: &Board, depth: u32, maximizing: bool, piece: Piece) -> i32 {
    if depth == 0 || board.is_game_over() {
        return board.evaluate(piece);
    }
    let mover = if maximizing { piece } else { piece.opponent() };
    let moves = board.valid_moves(mover);
    if moves.is_empty() {
        return full_minimax(board, depth, !maximizing, piece);
    }
    let mut best = if maximizing { i32::MIN } else { i32::MAX };
    for (r, c) in moves {
        let mut nb = board.duplicate();
        assert!(nb.apply_move(mover, r, c));
        let ev = full_minimax(&nb, depth - 1, !maximizing, piece);
        best = if maximizing { best.max(ev) } else { best.min(ev) };
    }
    best
}

#[test]
fn depth_zero_is_evaluation() {
    let b = Board::new();
    let v = minimax(&b, 0, i32::MIN, i32::MAX, true, Piece::Black, None);
    assert_eq!(v, b.evaluate(Piece::Black));
}

#[test]
fn alpha_beta_equals_full_minimax() {
    // With the whole window open, pruning never changes the value.
    let b = Board::new();
    for depth in 0..=4 {
        for maximizing in [true, false] {
            for piece in [Piece::Black, Piece::White] {
                let pruned = minimax(&b, depth, i32::MIN, i32::MAX, maximizing, piece, None);
                let full = full_minimax(&b, depth, maximizing, piece);
                assert_eq!(pruned, full);
            }
        }
    }
}

#[test]
fn alpha_beta_equivalent_choice() {
    // The iterative-deepening driver picks the same move as a driver
    // folded over the unpruned reference search.
    let b = Board::new();
    let max_depth = 3;
    let moves = b.valid_moves(Piece::Black);
    let mut expected: Option<(usize, usize)> = None;
    let mut expected_score = i32::MIN;
    for depth in 1..=max_depth {
        for &(r, c) in moves.iter() {
            let mut nb = b.duplicate();
            assert!(nb.apply_move(Piece::Black, r, c));
            let score = full_minimax(&nb, depth - 1, false, Piece::Black);
            if score > expected_score {
                expected_score = score;
                expected = Some((r, c));
            }
        }
    }
    let chosen = get_best_move(&b, Piece::Black, 60_000, max_depth);
    assert_eq!(chosen, expected);
}

#[test]
fn pass_layer_keeps_depth() {
    // Black to move with no legal move: the turn passes to White, who
    // captures at (2, 0); the leaf is evaluated for Black.
    let mut cells = vec![None; 64];
    cells[0] = Some(Piece::White);
    cells[8] = Some(Piece::Black);
    let b = Board::from_cells(cells).unwrap();
    let v = minimax(&b, 1, i32::MIN, i32::MAX, true, Piece::Black, None);
    // White ends with discs on (0,0), (1,0) and (2,0); the corner adds
    // its bonus: -(10 + 25) - 10 - 10.
    assert_eq!(v, -55);
}

#[test]
fn zero_time_limit_returns_first_move() {
    // With an expired budget the driver still scores one root move at
    // the shallowest pass and returns it: the first legal move.
    let b = Board::new();
    assert_eq!(get_best_move(&b, Piece::Black, 0, 11), Some((2, 3)));
    assert_eq!(get_best_move(&b, Piece::White, 0, 11), Some((2, 4)));
}

#[test]
fn no_moves_means_no_best_move() {
    let mut cells = vec![None; 64];
    cells[0] = Some(Piece::White);
    cells[8] = Some(Piece::Black);
    let b = Board::from_cells(cells).unwrap();
    assert_eq!(get_best_move(&b, Piece::Black, 1000, 5), None);
}

#[test]
fn zero_depth_means_no_best_move() {
    let b = Board::new();
    assert_eq!(get_best_move(&b, Piece::Black, 1000, 0), None);
}

#[test]
fn zero_budget_is_always_expired() {
    let c = othello::SearchClock::starting_now(0);
    assert!(c.expired());
}

#[test]
fn best_move_is_legal() {
    let b = Board::new();
    let m = get_best_move(&b, Piece::Black, 200, 4).unwrap();
    assert!(b.is_valid_move(Piece::Black, m.0, m.1));
}
