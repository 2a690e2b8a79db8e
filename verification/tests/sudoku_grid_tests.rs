use sudoku_solver::SudokuPuzzle;
use sudoku_solver::sudoku_grid::HIGHEST_SUDOKU_NUMBER;

fn get_test_puzzle() -> SudokuPuzzle {
    let mut grid_values = [0u8; 81];
    for i in 0..81 {
        grid_values[i] = i as u8;
    }
    SudokuPuzzle::from_array(grid_values)
}

#[test]
fn setting_first_square_updates_all_states() {
    let mut puzzle = get_test_puzzle();

    puzzle.set_square(0, 100);

    assert_eq!(puzzle.grid[0], 100);
    assert_eq!(puzzle.rows[0 * 9 + 0], 100);
    assert_eq!(puzzle.blocks[0 * 9 + 0], 100);
    assert_eq!(puzzle.cols[0 * 9 + 0], 100);
}

#[test]
fn setting_62nd_square_updates_all_states() {
    let mut puzzle = get_test_puzzle();

    puzzle.set_square(61, 161);

    assert_eq!(puzzle.grid[61], 161);
    assert_eq!(puzzle.rows[6 * 9 + 7], 161);
    assert_eq!(puzzle.blocks[8 * 9 + 1], 161);
    assert_eq!(puzzle.cols[7 * 9 + 6], 161);
}

#[test]
fn getting_block_for_index_35_gives_correct_values() {
    let puzzle = get_test_puzzle();

    let block = puzzle.get_block(35);

    let expected_block = vec![33, 34, 35, 42, 43, 44, 51, 52, 53];

    assert_eq!(block, expected_block);
}

#[test]
fn getting_row_for_index_47_gives_correct_values() {
    let puzzle = get_test_puzzle();

    let row = puzzle.get_row(47);

    let expected_row = vec![45, 46, 47, 48, 49, 50, 51, 52, 53];

    assert_eq!(row, expected_row);
}

#[test]
fn getting_col_for_index_14_gives_correct_values() {
    let puzzle = get_test_puzzle();

    let col = puzzle.get_col(14);

    let expected_col = vec![5, 14, 23, 32, 41, 50, 59, 68, 77];

    assert_eq!(col, expected_col);
}

#[test]
fn undo_move_returns_board_to_previous_position() {
    let mut puzzle = get_test_puzzle();

    puzzle.set_square(0, 100);

    puzzle.undo_move();

    let expected_result = get_test_puzzle();

    assert_eq!(puzzle, expected_result);
}

#[test]
fn views_stay_in_sync_through_sets_and_undos() {
    let mut puzzle = get_test_puzzle();

    puzzle.set_square(0, 100);
    puzzle.set_square(61, 161);
    puzzle.set_square(40, 200);
    puzzle.undo_move();
    puzzle.set_square(17, 5);
    puzzle.undo_moves(2);

    for i in 0..81 {
        let row_slot = (i / 9) * 9 + i % 9;
        let col_slot = (i % 9) * 9 + i / 9;
        let block = (i % 9) / 3 + (i / 27) * 3;
        let pos_in_block = i % 3 + ((i / 9) % 3) * 3;
        assert_eq!(puzzle.rows[row_slot], puzzle.grid[i]);
        assert_eq!(puzzle.cols[col_slot], puzzle.grid[i]);
        assert_eq!(puzzle.blocks[block * 9 + pos_in_block], puzzle.grid[i]);
    }
}

#[test]
fn undo_moves_pops_the_requested_number_of_moves() {
    let mut puzzle = get_test_puzzle();
    assert_eq!(puzzle.moves_count(), 0);

    puzzle.set_square(0, 1);
    puzzle.set_square(1, 2);
    puzzle.set_square(2, 3);
    assert_eq!(puzzle.moves_count(), 3);

    puzzle.undo_moves(2);
    assert_eq!(puzzle.moves_count(), 1);
    assert_eq!(puzzle.grid[0], 1);
    assert_eq!(puzzle.grid[1], 0);
    assert_eq!(puzzle.grid[2], 0);
}

#[test]
fn from_str_parses_digit_characters() {
    let text =
        "530070000600195000098000060800060003400803001700020006060000280000419005000080079";
    let by_str = SudokuPuzzle::from_str(text);
    let by_vec = SudokuPuzzle::from_vec(vec![
        5, 3, 0, 0, 7, 0, 0, 0, 0,
        6, 0, 0, 1, 9, 5, 0, 0, 0,
        0, 9, 8, 0, 0, 0, 0, 6, 0,
        8, 0, 0, 0, 6, 0, 0, 0, 3,
        4, 0, 0, 8, 0, 3, 0, 0, 1,
        7, 0, 0, 0, 2, 0, 0, 0, 6,
        0, 6, 0, 0, 0, 0, 2, 8, 0,
        0, 0, 0, 4, 1, 9, 0, 0, 5,
        0, 0, 0, 0, 8, 0, 0, 7, 9,
    ]);
    assert_eq!(by_str.grid, by_vec.grid);
}

#[test]
fn possible_clues_are_exactly_the_unseen_numbers() {
    let puzzle = SudokuPuzzle::from_vec(vec![
        5, 3, 0, 0, 7, 0, 0, 0, 0,
        6, 0, 0, 1, 9, 5, 0, 0, 0,
        0, 9, 8, 0, 0, 0, 0, 6, 0,
        8, 0, 0, 0, 6, 0, 0, 0, 3,
        4, 0, 0, 8, 0, 3, 0, 0, 1,
        7, 0, 0, 0, 2, 0, 0, 0, 6,
        0, 6, 0, 0, 0, 0, 2, 8, 0,
        0, 0, 0, 4, 1, 9, 0, 0, 5,
        0, 0, 0, 0, 8, 0, 0, 7, 9,
    ]);
    // Cell 2 (row 0, column 2) sees 5, 3, 7 in its row, 8 in its column and
    // 5, 3, 6, 9, 8 in its block: exactly 1, 2 and 4 remain.
    assert_eq!(puzzle.get_possible_clues(2), vec![1, 2, 4]);
    for index in 0..81 {
        for clue in puzzle.get_possible_clues(index) {
            assert!(1 <= clue && clue <= HIGHEST_SUDOKU_NUMBER);
        }
    }
}

#[test]
fn clueless_squares_are_listed_in_ascending_order() {
    let puzzle = SudokuPuzzle::from_array([
        0, 9, 4, 8, 6, 5, 2, 3, 7,
        7, 0, 5, 4, 1, 2, 9, 6, 8,
        8, 6, 0, 3, 9, 7, 1, 4, 5,
        9, 2, 1, 0, 4, 8, 3, 5, 6,
        6, 7, 8, 5, 0, 1, 4, 2, 9,
        4, 5, 3, 9, 2, 0, 8, 7, 1,
        3, 8, 9, 6, 5, 4, 0, 1, 2,
        2, 4, 6, 1, 7, 9, 5, 0, 3,
        5, 1, 7, 2, 8, 3, 6, 9, 0,
    ]);
    let clueless = puzzle.get_clueless_squares_enumerated();
    assert_eq!(clueless, vec![0, 10, 20, 30, 40, 50, 60, 70, 80]);
    assert_eq!(puzzle.get_next_clueless_index(), Some(0));
}

#[test]
fn full_board_has_no_clueless_square() {
    let mut grid_values = [0u8; 81];
    for i in 0..81 {
        grid_values[i] = 1 + (i % 9) as u8;
    }
    let puzzle = SudokuPuzzle::from_array(grid_values);
    assert_eq!(puzzle.get_next_clueless_index(), None);
    assert!(puzzle.is_solved());
    assert_eq!(puzzle.get_clueless_squares_enumerated(), Vec::<usize>::new());
}
