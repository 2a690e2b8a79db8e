use sudoku_solver::SudokuPuzzle;
use sudoku_solver::solve;

struct TestCase {
    input: SudokuPuzzle,
    solution: [u8; 81],
}

fn check_all(test_cases: Vec<TestCase>) {
    for TestCase { mut input, solution } in test_cases {
        solve(&mut input);
        assert_eq!(input.grid, solution.to_vec());
    }
}

fn get_medium_solved_sudokus() -> Vec<TestCase> {
    vec![TestCase {
        input: SudokuPuzzle::from_vec(vec![
            5, 3, 0, 0, 7, 0, 0, 0, 0,
            6, 0, 0, 1, 9, 5, 0, 0, 0,
            0, 9, 8, 0, 0, 0, 0, 6, 0,
            8, 0, 0, 0, 6, 0, 0, 0, 3,
            4, 0, 0, 8, 0, 3, 0, 0, 1,
            7, 0, 0, 0, 2, 0, 0, 0, 6,
            0, 6, 0, 0, 0, 0, 2, 8, 0,
            0, 0, 0, 4, 1, 9, 0, 0, 5,
            0, 0, 0, 0, 8, 0, 0, 7, 9,
        ]),
        solution: [
            5, 3, 4, 6, 7, 8, 9, 1, 2,
            6, 7, 2, 1, 9, 5, 3, 4, 8,
            1, 9, 8, 3, 4, 2, 5, 6, 7,
            8, 5, 9, 7, 6, 1, 4, 2, 3,
            4, 2, 6, 8, 5, 3, 7, 9, 1,
            7, 1, 3, 9, 2, 4, 8, 5, 6,
            9, 6, 1, 5, 3, 7, 2, 8, 4,
            2, 8, 7, 4, 1, 9, 6, 3, 5,
            3, 4, 5, 2, 8, 6, 1, 7, 9,
        ],
    }]
}

fn get_hard_solved_sudokus() -> Vec<TestCase> {
    vec![TestCase {
        input: SudokuPuzzle::from_vec(vec![
            1, 0, 0, 0, 0, 7, 0, 9, 0,
            0, 3, 0, 0, 2, 0, 0, 0, 8,
            0, 0, 9, 6, 0, 0, 5, 0, 0,
            0, 0, 5, 3, 0, 0, 9, 0, 0,
            0, 1, 0, 0, 8, 0, 0, 0, 2,
            6, 0, 0, 0, 0, 4, 0, 0, 0,
            3, 0, 0, 0, 0, 0, 0, 1, 0,
            0, 4, 0, 0, 0, 0, 0, 0, 7,
            0, 0, 7, 0, 0, 0, 3, 0, 0,
        ]),
        solution: [
            1, 6, 2, 8, 5, 7, 4, 9, 3,
            5, 3, 4, 1, 2, 9, 6, 7, 8,
            7, 8, 9, 6, 4, 3, 5, 2, 1,
            4, 7, 5, 3, 1, 2, 9, 8, 6,
            9, 1, 3, 5, 8, 6, 7, 4, 2,
            6, 2, 8, 7, 9, 4, 1, 3, 5,
            3, 5, 6, 4, 7, 8, 2, 1, 9,
            2, 4, 1, 9, 3, 5, 8, 6, 7,
            8, 9, 7, 2, 6, 1, 3, 5, 4,
        ],
    }]
}

fn get_diabolical_sudokus() -> Vec<TestCase> {
    // A sparse near-worst-case board: propagation finds no forced fill at
    // the start, so almost everything is found by backtracking.
    vec![TestCase {
        input: SudokuPuzzle::from_vec(vec![
            0, 0, 0, 4, 0, 1, 0, 3, 0,
            1, 0, 7, 0, 8, 0, 0, 0, 2,
            0, 5, 0, 0, 0, 0, 0, 0, 0,
            0, 8, 0, 0, 0, 0, 0, 0, 5,
            5, 0, 9, 0, 0, 3, 0, 2, 0,
            0, 6, 0, 0, 9, 0, 0, 0, 0,
            9, 0, 2, 0, 7, 0, 0, 0, 1,
            0, 0, 6, 0, 0, 0, 0, 0, 0,
            0, 0, 0, 0, 0, 8, 7, 0, 0,
        ]),
        solution: [
            6, 2, 8, 4, 5, 1, 9, 3, 7,
            1, 9, 7, 3, 8, 6, 4, 5, 2,
            3, 5, 4, 9, 2, 7, 8, 1, 6,
            7, 8, 3, 1, 4, 2, 6, 9, 5,
            5, 4, 9, 7, 6, 3, 1, 2, 8,
            2, 6, 1, 8, 9, 5, 3, 7, 4,
            9, 3, 2, 6, 7, 4, 5, 8, 1,
            8, 7, 6, 5, 1, 9, 2, 4, 3,
            4, 1, 5, 2, 3, 8, 7, 6, 9,
        ],
    }]
}

#[test]
fn medium_sudokus_are_solved() {
    check_all(get_medium_solved_sudokus());
}

#[test]
fn hard_sudokus_are_solved() {
    check_all(get_hard_solved_sudokus());
}

#[test]
fn diabolical_sudokus_are_solved() {
    check_all(get_diabolical_sudokus());
}
