use sudoku_solver::SudokuPuzzle;
use sudoku_solver::solve;

#[test]
fn solver_solves_sudoku_with_one_missing_in_each_direction() {
    let puzzle_grid = [
        0, 9, 4, 8, 6, 5, 2, 3, 7,
        7, 0, 5, 4, 1, 2, 9, 6, 8,
        8, 6, 0, 3, 9, 7, 1, 4, 5,
        9, 2, 1, 0, 4, 8, 3, 5, 6,
        6, 7, 8, 5, 0, 1, 4, 2, 9,
        4, 5, 3, 9, 2, 0, 8, 7, 1,
        3, 8, 9, 6, 5, 4, 0, 1, 2,
        2, 4, 6, 1, 7, 9, 5, 0, 3,
        5, 1, 7, 2, 8, 3, 6, 9, 0,
    ];

    let mut puzzle = SudokuPuzzle::from_array(puzzle_grid);

    solve(&mut puzzle);

    let expected_puzzle_grid = [
        1, 9, 4, 8, 6, 5, 2, 3, 7,
        7, 3, 5, 4, 1, 2, 9, 6, 8,
        8, 6, 2, 3, 9, 7, 1, 4, 5,
        9, 2, 1, 7, 4, 8, 3, 5, 6,
        6, 7, 8, 5, 3, 1, 4, 2, 9,
        4, 5, 3, 9, 2, 6, 8, 7, 1,
        3, 8, 9, 6, 5, 4, 7, 1, 2,
        2, 4, 6, 1, 7, 9, 5, 8, 3,
        5, 1, 7, 2, 8, 3, 6, 9, 4,
    ];

    assert_eq!(expected_puzzle_grid.to_vec(), puzzle.grid);
}

#[test]
fn solver_solves_sudoku_with_multiple_numbers_missing_in_each_direction() {
    let puzzle_grid = [
        0, 7, 0, 0, 0, 5, 0, 0, 0,
        1, 0, 0, 0, 3, 0, 5, 0, 8,
        0, 0, 0, 2, 0, 9, 0, 6, 0,
        9, 1, 0, 5, 0, 0, 4, 2, 0,
        6, 8, 0, 3, 0, 0, 0, 1, 0,
        2, 5, 4, 0, 9, 0, 0, 0, 3,
        7, 0, 6, 8, 0, 1, 0, 4, 0,
        3, 4, 5, 0, 0, 6, 0, 7, 1,
        0, 0, 1, 0, 7, 0, 2, 0, 6,
    ];

    let mut puzzle = SudokuPuzzle::from_array(puzzle_grid);

    solve(&mut puzzle);

    let expected_puzzle_grid = [
        4, 7, 9, 6, 8, 5, 1, 3, 2,
        1, 6, 2, 7, 3, 4, 5, 9, 8,
        5, 3, 8, 2, 1, 9, 7, 6, 4,
        9, 1, 3, 5, 6, 8, 4, 2, 7,
        6, 8, 7, 3, 4, 2, 9, 1, 5,
        2, 5, 4, 1, 9, 7, 6, 8, 3,
        7, 2, 6, 8, 5, 1, 3, 4, 9,
        3, 4, 5, 9, 2, 6, 8, 7, 1,
        8, 9, 1, 4, 7, 3, 2, 5, 6,
    ];

    assert_eq!(expected_puzzle_grid.to_vec(), puzzle.grid);
}

#[test]
fn solved_grid_has_every_number_once_per_group() {
    let mut puzzle = SudokuPuzzle::from_vec(vec![
        5, 3, 0, 0, 7, 0, 0, 0, 0,
        6, 0, 0, 1, 9, 5, 0, 0, 0,
        0, 9, 8, 0, 0, 0, 0, 6, 0,
        8, 0, 0, 0, 6, 0, 0, 0, 3,
        4, 0, 0, 8, 0, 3, 0, 0, 1,
        7, 0, 0, 0, 2, 0, 0, 0, 6,
        0, 6, 0, 0, 0, 0, 2, 8, 0,
        0, 0, 0, 4, 1, 9, 0, 0, 5,
        0, 0, 0, 0, 8, 0, 0, 7, 9,
    ]);

    assert!(solve(&mut puzzle));
    assert!(puzzle.is_solved());

    for grp in 0..9 {
        let mut in_row = [0u32; 10];
        let mut in_col = [0u32; 10];
        let mut in_block = [0u32; 10];
        for p in 0..9 {
            in_row[puzzle.grid[grp * 9 + p] as usize] += 1;
            in_col[puzzle.grid[p * 9 + grp] as usize] += 1;
            let block_cell = (grp / 3) * 27 + (grp % 3) * 3 + (p / 3) * 9 + p % 3;
            in_block[puzzle.grid[block_cell] as usize] += 1;
        }
        for v in 1..10 {
            assert_eq!(in_row[v], 1);
            assert_eq!(in_col[v], 1);
            assert_eq!(in_block[v], 1);
        }
    }
}

#[test]
fn failed_solve_restores_the_board() {
    // Cell 0 sees 1..=8 in its row and 9 in its column, so it has no
    // candidate and the search fails immediately.
    let mut input = vec![0u8; 81];
    for c in 1..9 {
        input[c] = c as u8;
    }
    input[9] = 9;
    let mut puzzle = SudokuPuzzle::from_vec(input.clone());

    assert!(!solve(&mut puzzle));

    assert_eq!(puzzle.grid, input);
    assert_eq!(puzzle.moves_count(), 0);
    let untouched = SudokuPuzzle::from_vec(input);
    assert_eq!(puzzle, untouched);
}

#[test]
fn repeated_solves_of_fresh_clones_agree() {
    let puzzle = SudokuPuzzle::from_vec(vec![
        5, 3, 0, 0, 7, 0, 0, 0, 0,
        6, 0, 0, 1, 9, 5, 0, 0, 0,
        0, 9, 8, 0, 0, 0, 0, 6, 0,
        8, 0, 0, 0, 6, 0, 0, 0, 3,
        4, 0, 0, 8, 0, 3, 0, 0, 1,
        7, 0, 0, 0, 2, 0, 0, 0, 6,
        0, 6, 0, 0, 0, 0, 2, 8, 0,
        0, 0, 0, 4, 1, 9, 0, 0, 5,
        0, 0, 0, 0, 8, 0, 0, 7, 9,
    ]);

    let mut first = puzzle.clone();
    let mut second = puzzle.clone();
    assert!(solve(&mut first));
    assert!(solve(&mut second));
    assert_eq!(first.grid, second.grid);
}
