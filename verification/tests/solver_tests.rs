use rudoku::board::empty_board;
use rudoku::board::is_equal;
use rudoku::board::Board;
use rudoku::brute_force_solver::brute_force_solve;
use rudoku::brute_force_solver::next_unknown_square;
use rudoku::brute_force_solver::next_valid_number;
use rudoku::brute_force_solver::prev_unknown_square;
use rudoku::brute_force_solver::SolveOutcome;

/// Digit at `(row, col)` of a reference solved grid (the classic shifted
/// pattern, a legal full Sudoku assignment).
fn solution_digit(row: usize, col: usize) -> u32 {
    ((row * 3 + row / 3 + col) % 9 + 1) as u32
}

/// A board holding the reference grid with every cell known.
fn full_solution_board() -> Board {
    let mut board = empty_board();
    for row in 0..9 {
        for col in 0..9 {
            board.set(row, col, solution_digit(row, col));
            board.set_known(row, col);
        }
    }
    board
}

/// The reference grid with the main diagonal blanked: each blank is the
/// only blank in its row, so the puzzle has exactly one solution.
fn diagonal_puzzle_board() -> Board {
    let mut board = empty_board();
    for row in 0..9 {
        for col in 0..9 {
            if row != col {
                board.set(row, col, solution_digit(row, col));
                board.set_known(row, col);
            }
        }
    }
    board
}

#[test]
fn test_next_prev_unknown_square() {
    let mut board = empty_board();
    board.set_known(0, 1);

    let idx = next_unknown_square(0, &board);
    assert_eq!(idx, 2);

    let idx2 = prev_unknown_square(3, &board);
    assert_eq!(idx2, 2);

    let idx3 = prev_unknown_square(2, &board);
    assert_eq!(idx3, 0);
}

#[test]
fn test_next_valid_number_scans_upward() {
    let mut board = empty_board();
    // row 0 holds 1 and 2, so the smallest legal digit at (0, 0) is 3
    board.set(0, 4, 1);
    board.set(0, 5, 2);
    assert_eq!(next_valid_number(0, &board), 3);
    // resuming above a current value of 3 skips to 4
    board.set(0, 0, 3);
    assert_eq!(next_valid_number(0, &board), 4);
    // nothing legal above 9: reports 0
    board.set(0, 0, 9);
    assert_eq!(next_valid_number(0, &board), 0);
}

#[test]
fn test_solve_known_puzzle() {
    let mut board = diagonal_puzzle_board();
    let solution = full_solution_board();
    assert_eq!(is_equal(&board, &solution), false);

    let outcome = brute_force_solve(&mut board, 10000);

    assert_eq!(outcome, SolveOutcome::Solved);
    assert_eq!(is_equal(&board, &solution), true);
}

#[test]
fn test_solve_fully_known_board() {
    let mut board = full_solution_board();
    let reference = full_solution_board();

    // no unknown cell: solved at once, even with a budget of zero
    let outcome = brute_force_solve(&mut board, 0);

    assert_eq!(outcome, SolveOutcome::Solved);
    assert_eq!(is_equal(&board, &reference), true);
    for row in 0..9 {
        for col in 0..9 {
            assert_eq!(board.is_known(row, col), reference.is_known(row, col));
        }
    }
}

#[test]
fn test_solve_budget_exhausted() {
    for budget in 0..2 {
        let mut board = diagonal_puzzle_board();
        let solution = full_solution_board();

        let outcome = brute_force_solve(&mut board, budget);

        assert_eq!(outcome, SolveOutcome::BudgetExhausted);
        assert_eq!(is_equal(&board, &solution), false);
        // known cells are untouched; only cells on the blanked diagonal
        // may have changed
        for row in 0..9 {
            for col in 0..9 {
                if row != col {
                    assert_eq!(board.get(row, col), solution_digit(row, col));
                }
            }
        }
    }
}

#[test]
fn test_solve_empty_board_unlimited() {
    let mut board = empty_board();

    let outcome = brute_force_solve(&mut board, -1);

    assert_eq!(outcome, SolveOutcome::Solved);
    // the result is a complete legal grid: every digit in 1..=9 and no
    // duplicates in any row, column, or tile
    for row in 0..9 {
        for col in 0..9 {
            let v = board.get(row, col);
            assert!(1 <= v && v <= 9);
            board.set(row, col, 0);
            assert!(board.valid_insert(row, col, v));
            board.set(row, col, v);
        }
    }
}

#[test]
fn test_solve_infeasible_first_cell() {
    // (0, 0) is the only unknown cell of its row, the row already holds
    // 1..=8, and 9 sits in column 0: no candidate is left at (0, 0)
    let mut board = empty_board();
    for col in 1..9 {
        board.set(0, col, col as u32);
        board.set_known(0, col);
    }
    board.set(1, 0, 9);
    board.set_known(1, 0);

    let outcome = brute_force_solve(&mut board, -1);

    assert_eq!(outcome, SolveOutcome::Infeasible);
    assert_eq!(board.get(0, 0), 0);
}

#[test]
fn test_solve_infeasible_no_prior_unknown() {
    // the first unknown cell is (0, 2); its row leaves only 3 and its
    // column already holds 3, so the search must retreat from it and
    // reports infeasibility
    let mut board = empty_board();
    let row0 = [1, 2, 0, 4, 5, 6, 7, 8, 9];
    for col in 0..9 {
        if row0[col] != 0 {
            board.set(0, col, row0[col]);
            board.set_known(0, col);
        }
    }
    board.set(5, 2, 3);
    board.set_known(5, 2);

    let outcome = brute_force_solve(&mut board, -1);

    assert_eq!(outcome, SolveOutcome::Infeasible);
}
