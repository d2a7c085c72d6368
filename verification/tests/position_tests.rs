use connect_four::color::Color;
use connect_four::error::{InvalidMoveError, PositionOpError};
use connect_four::position::Position;

#[test]
fn position_empty_creates_proper_state() {
    let pos = Position::empty();

    // Generate expected position string
    let mut expected_str = "| | | | | | | |\n".repeat(6);
    expected_str.pop();

    // Test num moves to play and string representation
    assert_eq!(
        pos.num_moves_played(),
        0,
        "Empty position should have no moves played yet"
    );
    assert_eq!(
        pos.render(),
        expected_str,
        "Position string should show blank board"
    )
}

#[test]
fn position_play_col_on_empty_position_places_red_chip_on_board() {
    // Initialize empty position and board string to compare with
    let mut pos = Position::empty();
    let mut expected_str = "| | | | | | | |\n".repeat(6);
    expected_str.pop();

    // Define columns to test for validity and non-validity
    let valid_cols = 0..7;
    let invalid_cols = [7, 8, usize::MAX];

    // First test invalid cols
    for col in invalid_cols {
        // Playing on out of range col should not work, nor change board state
        assert!(
            pos.play_col(col)
                .is_err_and(|err| err == PositionOpError::OutOfRangeCol(col)),
            "Playing in out of range column {col} should fail with OutOfRangeCol error"
        );

        assert_eq!(
            pos.render(),
            expected_str,
            "Position should still have empty board state after invalid move"
        );
        assert_eq!(
            pos.num_moves_played(),
            0,
            "Position should not update move counter after invalid move"
        );
    }

    // Next test valid cols
    for col in valid_cols {
        let mut pos_copy = pos.clone();

        // Calculate index to place expected red cell, and replace empty space with it
        let new_char_idx = (7 + 1) * 2 * (6 - 1) + 1 + (col * 2);
        expected_str.replace_range(new_char_idx..new_char_idx + 1, "R");

        // Ensure move is accepted and board state accordingly update
        assert!(
            pos_copy.play_col(col).is_ok(),
            "Playing in the in-range column {col} should not fail"
        );
        assert_eq!(
            pos_copy.render(),
            expected_str,
            "Playing in column {col} should update board state with red chip"
        );

        assert_eq!(
            pos_copy.num_moves_played(),
            1,
            "Playing in column {col} should increment move count"
        );

        // Revert change of red cell in expected string
        expected_str.replace_range(new_char_idx..new_char_idx + 1, " ");
    }
}

#[test]
fn position_play_col_on_same_column_should_alternate_colors() {
    let mut pos = Position::empty();

    // Generate blank expected string board
    let mut expected_str = "| | | | | | | |\n".repeat(6);
    expected_str.pop();

    // Generate alternating set of color strings
    let expected_colors = ["R", "Y", "R", "Y", "R", "Y"];
    let col = 0;

    for (col_height, color) in expected_colors.iter().enumerate() {
        // Calculate index to place expected color cell, and replace empty space with it
        let new_char_idx = (7 + 1) * 2 * (6 - 1 - col_height) + 1 + (col * 2);
        expected_str.replace_range(new_char_idx..new_char_idx + 1, color);

        // Playing at this column should yield Ok, should increment move counter, and yield correct board state
        assert!(
            pos.play_col(col).is_ok(),
            "Playing at column {col} with height {col_height} should be valid"
        );

        assert_eq!(
            pos.render(),
            expected_str,
            "Board should show alternating colors stacked in column {col}"
        );

        assert_eq!(
            pos.num_moves_played() as usize,
            col_height + 1,
            "Number of moves should be {} after playing in column {col} that many times",
            col_height + 1
        );
    }

    assert!(
        pos.play_col(col)
            .is_err_and(|err| err == PositionOpError::FullCol(col)),
        "Playing at full column {col} should fail with FullCol error"
    );
}

#[test]
fn position_move_wins_finds_winning_positions_on_all_axes() {
    // Create setup columns and column to win at
    let setup_cols = vec![
        // Two horizontal wins for red
        (vec![0, 0, 1, 1, 2, 2], 3),
        (vec![6, 6, 5, 5, 4, 4], 3),
        // Two horizontal wins for yellow
        (vec![0, 0, 1, 1, 2, 2, 4, 3, 4], 3),
        (vec![6, 6, 5, 5, 4, 4, 2, 3, 2], 3),
        // Two vertical wins for red
        (vec![3, 4, 3, 4, 3, 4], 3),
        (vec![0, 2, 0, 1, 0, 1], 0),
        // Two vertical wins for yellow
        (vec![3, 4, 2, 4, 1, 4, 5], 4),
        (vec![0, 1, 5, 1, 3, 1, 4], 1),
        // Two diagonal wins for red
        (vec![1, 2, 2, 2, 3, 3, 3, 4, 4, 4], 4),
        (vec![0, 1, 1, 3, 2, 2, 3, 3, 3, 5], 2),
        // Two diagonal wins for yellow
        (vec![1, 3, 2, 1, 2, 2, 3, 3, 5, 3, 5], 0),
        (vec![0, 0, 0, 0, 2, 2, 2, 1, 1, 1, 2], 3),
    ];

    for (cols, winning_col) in setup_cols {
        let mut pos = Position::empty();

        for col in cols {
            assert!(
                pos.play_col(col).is_ok(),
                "Should be able to play at column {col} on position\n: {}",
                pos.render()
            );
        }

        assert!(
            pos.move_wins(winning_col),
            "Playing at column {winning_col} should win for position\n: {}",
            pos.render()
        );
    }
}

#[test]
fn position_move_wins_rejects_illegal_and_non_winning_columns() {
    let mut pos = Position::empty();
    // Red stacks three chips in column 0 while Yellow plays elsewhere.
    for col in [0, 1, 0, 1, 0, 1] {
        assert!(pos.play_col(col).is_ok());
    }
    // Red to move: column 0 completes a vertical four, the others do not.
    assert!(pos.move_wins(0));
    assert!(!pos.move_wins(2));
    assert!(!pos.move_wins(6));
    // An out-of-range column never wins.
    assert!(!pos.move_wins(7));
    assert!(!pos.move_wins(usize::MAX));
    // A full column never wins.
    let mut full = Position::empty();
    for col in [2, 2, 2, 2, 2, 2] {
        assert!(full.play_col(col).is_ok());
    }
    assert!(!full.move_wins(2));
}

#[test]
fn position_replay_counts_moves_and_alternates_turns() {
    // Replaying a legal sequence of length 5 plays 5 moves, and the colors on
    // the board show that the turn alternated starting from Red.
    let mut pos = Position::empty();
    for col in [3, 3, 3, 2, 1] {
        assert!(pos.play_col(col).is_ok());
    }
    assert_eq!(pos.num_moves_played(), 5);
    let expected = "| | | | | | | |\n\
                    | | | | | | | |\n\
                    | | | | | | | |\n\
                    | | | |R| | | |\n\
                    | | | |Y| | | |\n\
                    | |R|Y|R| | | |";
    assert_eq!(pos.render(), expected);
}

#[test]
fn invalid_move_error_reports_column_and_position() {
    let mut pos = Position::empty();
    assert!(pos.play_col(4).is_ok());
    let err = InvalidMoveError::new(9, pos);
    assert_eq!(err.col(), 9);
    assert_eq!(err.position().num_moves_played(), 1);
}

#[test]
fn color_opponent_swaps_sides() {
    assert_eq!(Color::Red.opponent(), Color::Yellow);
    assert_eq!(Color::Yellow.opponent(), Color::Red);
    assert_eq!(Color::Red.opponent().opponent(), Color::Red);
}
