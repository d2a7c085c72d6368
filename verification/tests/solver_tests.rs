use connect_four::error::PositionOpError;
use connect_four::position::Position;
use connect_four::solver::Solver;

#[test]
fn solver_solves_endpoint_sequence() {
    let solver = Solver;

    let expected_score = -1;
    let cols: Vec<usize> = vec![
        1, 1, 4, 1, 4, 6, 5, 1, 4, 2, 3, 5, 1, 1, 3, 3, 0, 0, 0, 4, 5, 2, 2, 5, 4, 2, 3, 2, 5, 6,
        0, 2, 4, 0, 3, 3, 0,
    ];

    assert_eq!(
        solver.solve_sequence(&cols),
        Ok(expected_score),
        "Sequence should yield score of {expected_score}"
    );
}

/// A 42-move game that fills the board without either side making four in a
/// row: every row holds the pattern `R R Y Y R R Y` or its inverse.
fn drawn_sequence() -> Vec<usize> {
    let mut cols = Vec::new();
    for _ in 0..6 {
        cols.extend_from_slice(&[0, 2, 1, 3, 4, 6, 5]);
    }
    cols
}

#[test]
fn solver_scores_exhausted_board_as_draw() {
    let solver = Solver;
    let cols = drawn_sequence();
    assert_eq!(cols.len(), 42);
    assert_eq!(solver.solve_sequence(&cols), Ok(0));
}

#[test]
fn solver_scores_forced_draw_near_the_end() {
    let solver = Solver;
    let mut cols = drawn_sequence();
    // With one and with two cells still open, every line of play still fills
    // the board without a winner, so the score stays zero.
    cols.pop();
    assert_eq!(solver.solve_sequence(&cols), Ok(0));
    cols.pop();
    assert_eq!(solver.solve_sequence(&cols), Ok(0));
}

#[test]
fn solver_scores_immediate_win_by_remaining_chips() {
    let solver = Solver;
    // Red has three chips stacked in column 0 and is to move: playing there
    // wins at once. Six moves are played, so Red wins with its fourth chip,
    // eighteen before its last one: the score is (43 - 6) / 2 = 18.
    let cols: Vec<usize> = vec![0, 1, 0, 1, 0, 1];
    assert_eq!(solver.solve_sequence(&cols), Ok(18));
}

#[test]
fn solver_scores_are_deterministic() {
    let solver = Solver;
    let cols: Vec<usize> = vec![
        1, 1, 4, 1, 4, 6, 5, 1, 4, 2, 3, 5, 1, 1, 3, 3, 0, 0, 0, 4, 5, 2, 2, 5, 4, 2, 3, 2, 5, 6,
        0, 2, 4, 0, 3, 3, 0,
    ];
    let first = solver.solve_sequence(&cols);
    let second = solver.solve_sequence(&cols);
    assert_eq!(first, second);
    assert_eq!(first, Ok(-1));

    // Scoring the same replayed position twice, each time with a fresh cache,
    // also returns the same value.
    let mut pos = Position::empty();
    for &col in cols.iter() {
        assert!(pos.play_col(col).is_ok());
    }
    let a = solver.score_position(&pos);
    let b = solver.score_position(&pos);
    assert_eq!(a, b);
    assert_eq!(a, -1);
}

#[test]
fn solver_rejects_sequence_with_full_column() {
    let solver = Solver;
    let cols: Vec<usize> = vec![0, 0, 0, 0, 0, 0, 0];
    match solver.solve_sequence(&cols) {
        Err(PositionOpError::InvalidSequence {
            source,
            seq,
            bad_idx,
        }) => {
            assert_eq!(*source, PositionOpError::FullCol(0));
            assert_eq!(seq, cols);
            assert_eq!(bad_idx, 6);
        }
        other => panic!("expected InvalidSequence, got {:?}", other),
    }
}

#[test]
fn solver_rejects_sequence_with_out_of_range_column() {
    let solver = Solver;
    let cols: Vec<usize> = vec![3, 9, 3];
    match solver.solve_sequence(&cols) {
        Err(PositionOpError::InvalidSequence {
            source,
            seq,
            bad_idx,
        }) => {
            assert_eq!(*source, PositionOpError::OutOfRangeCol(9));
            assert_eq!(seq, cols);
            assert_eq!(bad_idx, 1);
        }
        other => panic!("expected InvalidSequence, got {:?}", other),
    }
}
